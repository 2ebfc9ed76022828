use vstd::prelude::*;

use crate::engine::{
    answers, entry_tasks, fans_out, first_failure, merge_ok, outcome_view, outcomes_view,
    paths_view, Action, Event, FailureKind, Policy, Progress, RemoveError, Report,
    Task, TaskView,
};
use crate::stats::DeleteStats;

verus! {

/// One removal in progress: a stack of pending tasks and the counters so far.
///
/// The caller asks for the next action, does it, and hands back what happened.
pub struct Removal {
    policy: Policy,
    tasks: Vec<Task>,
    stats: DeleteStats,
    failure: Option<RemoveError>,
}

pub open spec fn tasks_view(v: Seq<Task>) -> Seq<TaskView> {
    v.map_values(|t: Task| t@)
}

impl View for Removal {
    type V = Progress;

    closed spec fn view(&self) -> Progress {
        Progress {
            policy: self.policy,
            tasks: tasks_view(self.tasks@),
            stats: self.stats,
            failure: match self.failure {
                Some(f) => Some(f@),
                None => None,
            },
        }
    }
}

/// A removal that starts with the single task `t`.
pub open spec fn starting(policy: Policy, t: TaskView) -> Progress {
    Progress { policy, tasks: seq![t], stats: DeleteStats::empty(), failure: None }
}

/// A removal with nothing to do.
pub open spec fn idle(policy: Policy) -> Progress {
    Progress { policy, tasks: Seq::empty(), stats: DeleteStats::empty(), failure: None }
}

impl Removal {
    fn start(policy: Policy, t: Task) -> (r: Removal)
        ensures
            r@ == starting(policy, t@),
    {
        let mut tasks: Vec<Task> = Vec::new();
        tasks.push(t);
        let r = Removal { policy, tasks, stats: DeleteStats::new(), failure: None };
        assert(tasks_view(r.tasks@) =~= seq![t@]);
        r
    }

    /// Removal of the directory tree at `path`, the directory included.
    pub fn tree(path: Vec<u8>, policy: Policy) -> (r: Removal)
        ensures
            r@ == starting(policy, TaskView::Root(path@, true)),
    {
        Removal::start(policy, Task::Root(path, true))
    }

    /// Removal of what the directory at `path` holds, the directory staying.
    /// Something that is not a directory is left alone.
    pub fn contents(path: Vec<u8>, policy: Policy) -> (r: Removal)
        ensures
            r@ == starting(policy, TaskView::Root(path@, false)),
    {
        Removal::start(policy, Task::Root(path, false))
    }

    /// Removal of the single file at `path`.
    pub fn file(path: Vec<u8>, policy: Policy) -> (r: Removal)
        ensures
            r@ == starting(policy, TaskView::File(path@)),
    {
        Removal::start(policy, Task::File(path))
    }

    /// Removal of the empty directory at `path`, without looking inside.
    pub fn empty_directory(path: Vec<u8>, policy: Policy) -> (r: Removal)
        ensures
            r@ == starting(policy, TaskView::Rmdir(path@)),
    {
        Removal::start(policy, Task::Rmdir(path))
    }

    /// Removal of one entry met while walking a directory: a file, or a
    /// directory with all it holds.
    pub fn entry(path: Vec<u8>, policy: Policy) -> (r: Removal)
        ensures
            r@ == starting(policy, TaskView::Entry(path@)),
    {
        Removal::start(policy, Task::Entry(path))
    }

    /// A removal with nothing to do, for a request that was not confirmed.
    pub fn declined(policy: Policy) -> (r: Removal)
        ensures
            r@ == idle(policy),
    {
        let r = Removal {
            policy,
            tasks: Vec::new(),
            stats: DeleteStats::new(),
            failure: None,
        };
        assert(tasks_view(r.tasks@) =~= Seq::<TaskView>::empty());
        r
    }

    pub fn policy(&self) -> (r: Policy)
        ensures
            r == self@.policy,
    {
        self.policy
    }

    pub fn is_finished(&self) -> (r: bool)
        ensures
            r == self@.finished(),
    {
        self.failure.is_some() || self.tasks.len() == 0
    }

    /// What to do next.
    pub fn next_action(&self) -> (a: Action<'_>)
        ensures
            a@ == self@.action(),
    {
        if self.failure.is_some() || self.tasks.len() == 0 {
            return Action::Finished;
        }
        let last: usize = self.tasks.len() - 1;
        let t = &self.tasks[last];
        assert(self@.tasks.last() == t@);
        match t {
            Task::Root(p, _) => Action::Inspect(p),
            Task::File(p) => Action::Inspect(p),
            Task::Entry(p) => Action::Inspect(p),
            Task::Walk(p, _) => Action::List(p),
            Task::Join(c) => Action::Spread(c),
            Task::Unlink(p, _) => Action::RemoveFile(p),
            Task::Rmdir(p) => Action::RemoveDir(p),
        }
    }

    /// Whether `e` reports on the action now asked for.
    pub fn accepts(&self, e: &Event) -> (r: bool)
        ensures
            r == answers(self@.action(), e@),
    {
        let a = self.next_action();
        match a {
            Action::Inspect(_) => matches!(e, Event::Inspected(_)),
            Action::List(_) => matches!(e, Event::Listed(_)),
            Action::Spread(_) => matches!(e, Event::Joined(_)),
            Action::RemoveFile(_) => matches!(e, Event::Removed(_)),
            Action::RemoveDir(_) => matches!(e, Event::Removed(_)),
            Action::Finished => false,
        }
    }

    /// The result, once nothing is left to do.
    pub fn into_outcome(self) -> (r: Result<DeleteStats, RemoveError>)
        requires
            self@.finished(),
        ensures
            outcome_view(r) == self@.outcome(),
    {
        match self.failure {
            Some(f) => Err(f),
            None => Ok(self.stats),
        }
    }

    fn push_task(&mut self, t: Task)
        ensures
            final(self)@ == old(self)@.with_tasks(old(self)@.tasks.push(t@)),
    {
        self.tasks.push(t);
        assert(tasks_view(self.tasks@) =~= old(self)@.tasks.push(t@));
    }

    fn fail(&mut self, f: RemoveError)
        ensures
            final(self)@ == old(self)@.failed(f@),
    {
        self.tasks = Vec::new();
        self.failure = Some(f);
        assert(tasks_view(self.tasks@) =~= Seq::<TaskView>::empty());
    }

    /// A failure met by the task just taken off the stack.
    fn meet_failure(&mut self, kind: FailureKind, path: Vec<u8>, cause: String)
        ensures
            final(self)@ == old(self)@.on_failure(old(self)@.tasks, kind, path@, cause@),
    {
        if !self.policy.force {
            self.fail(RemoveError { kind, path, cause });
        }
    }

    /// Pushes a task for each of `children`, the first one on top.
    fn push_entries(&mut self, children: Vec<Vec<u8>>)
        ensures
            final(self)@ == old(self)@.with_tasks(
                old(self)@.tasks + entry_tasks(paths_view(children)),
            ),
    {
        let mut children = children;
        let ghost all = paths_view(children);
        let ghost n = children@.len() as int;
        let ghost base = self@;
        while children.len() > 0
            invariant
                n == all.len(),
                children@.len() <= n,
                paths_view(children) =~= all.subrange(0, children@.len() as int),
                self@ == base.with_tasks(
                    base.tasks + Seq::new(
                        (n - children@.len()) as nat,
                        |i: int| TaskView::Entry(all[n - 1 - i]),
                    ),
                ),
            decreases children.len(),
        {
            let ghost before = children@;
            let c = children.pop().unwrap();
            assert(c@ == all[children@.len() as int]) by {
                let k: int = children@.len() as int;
                assert(before[k] == c);
                assert(before.map_values(|p: Vec<u8>| p@)[k] == before[k]@);
                assert(all.subrange(0, k + 1)[k] == all[k]);
            }
            self.push_task(Task::Entry(c));
            assert(self@.tasks =~= base.tasks + Seq::new(
                (n - children@.len()) as nat,
                |i: int| TaskView::Entry(all[n - 1 - i]),
            ));
        }
        assert(entry_tasks(all) =~= Seq::new(n as nat, |i: int| TaskView::Entry(all[n - 1 - i])));
    }
}

/// Merges the counters of the successful outcomes of concurrent removals, and
/// picks the first failure among them, if there is one.
pub fn join_outcomes(outs: Vec<Result<DeleteStats, RemoveError>>) -> (r: (
    DeleteStats,
    Option<RemoveError>,
))
    ensures
        r.0 == merge_ok(outcomes_view(outs)),
        match r.1 {
            Some(f) => first_failure(outcomes_view(outs)) == Some(f@),
            None => first_failure(outcomes_view(outs)) is None,
        },
{
    let mut outs = outs;
    let ghost all = outcomes_view(outs);
    let mut stats = DeleteStats::new();
    let mut first: Option<usize> = None;
    let mut i: usize = 0;
    while i < outs.len()
        invariant
            all == outcomes_view(outs),
            i <= outs.len(),
            stats == merge_ok(all.subrange(0, i as int)),
            match first {
                Some(j) => j < i && outs@[j as int] is Err && first_failure(
                    all.subrange(0, i as int),
                ) == Some(outs@[j as int]->Err_0@),
                None => first_failure(all.subrange(0, i as int)) is None,
            },
        decreases outs.len() - i,
    {
        let ghost prefix = all.subrange(0, i as int + 1);
        assert(prefix.drop_last() =~= all.subrange(0, i as int));
        assert(prefix.last() == outcome_view(outs@[i as int]));
        match &outs[i] {
            Ok(s) => {
                stats.merge(*s);
            },
            Err(_) => {
                proof {
                    crate::stats::lemma_merge_empty(stats);
                }
                if first.is_none() {
                    first = Some(i);
                }
            },
        }
        i += 1;
    }
    assert(all.subrange(0, outs@.len() as int) =~= all);
    match first {
        Some(j) => match outs.remove(j) {
            Err(f) => (stats, Some(f)),
            Ok(_) => (stats, None),
        },
        None => (stats, None),
    }
}

impl Removal {
    /// Takes in what happened when the action asked for was done, and moves on.
    pub fn step(&mut self, e: Event) -> (r: Report)
        requires
            !old(self)@.finished(),
            answers(old(self)@.action(), e@),
        ensures
            (final(self)@, r@) == old(self)@.next(e@),
    {
        let ghost before = self@;
        let t = self.tasks.pop().unwrap();
        assert(tasks_view(self.tasks@) =~= before.tasks.drop_last());
        assert(t@ == before.tasks.last());
        match t {
            Task::Root(path, whole) => {
                match e {
                    Event::Inspected(Ok(info)) => {
                        if info.is_dir {
                            self.push_task(Task::Walk(path, whole));
                        } else if whole {
                            self.fail(
                                RemoveError {
                                    kind: FailureKind::NotADirectory,
                                    path,
                                    cause: String::new(),
                                },
                            );
                        }
                    },
                    Event::Inspected(Err(c)) => {
                        if whole {
                            self.fail(
                                RemoveError { kind: FailureKind::NotADirectory, path, cause: c },
                            );
                        }
                    },
                    _ => {
                        assert(false);
                    },
                }
                Report::Nothing
            },
            Task::File(path) => {
                match e {
                    Event::Inspected(Ok(info)) => {
                        self.push_task(Task::Unlink(path, info.size));
                    },
                    Event::Inspected(Err(c)) => {
                        self.meet_failure(FailureKind::AccessFailed, path, c);
                    },
                    _ => {
                        assert(false);
                    },
                }
                Report::Nothing
            },
            Task::Entry(path) => {
                match e {
                    Event::Inspected(Ok(info)) => {
                        if info.is_dir {
                            self.push_task(Task::Walk(path, true));
                        } else {
                            self.push_task(Task::Unlink(path, info.size));
                        }
                    },
                    Event::Inspected(Err(c)) => {
                        self.meet_failure(FailureKind::AccessFailed, path, c);
                    },
                    _ => {
                        assert(false);
                    },
                }
                Report::Nothing
            },
            Task::Walk(path, whole) => {
                match e {
                    Event::Listed(Ok(children)) => {
                        if whole {
                            self.push_task(Task::Rmdir(path));
                        }
                        if fans_out(children.len(), self.policy.parallel_threshold) {
                            self.push_task(Task::Join(children));
                        } else {
                            self.push_entries(children);
                        }
                    },
                    Event::Listed(Err(c)) => {
                        if self.policy.force {
                            if whole {
                                self.push_task(Task::Rmdir(path));
                            }
                        } else {
                            self.fail(
                                RemoveError {
                                    kind: FailureKind::DirectoryReadFailed,
                                    path,
                                    cause: c,
                                },
                            );
                        }
                    },
                    _ => {
                        assert(false);
                    },
                }
                Report::Nothing
            },
            Task::Join(_) => {
                match e {
                    Event::Joined(outs) => {
                        let (gathered, failure) = join_outcomes(outs);
                        match failure {
                            Some(f) if !self.policy.force => {
                                self.fail(f);
                            },
                            _ => {
                                self.stats.merge(gathered);
                            },
                        }
                    },
                    _ => {
                        assert(false);
                    },
                }
                Report::Nothing
            },
            Task::Unlink(path, size) => {
                match e {
                    Event::Removed(Ok(())) => {
                        self.stats.add_file(size);
                        if self.policy.verbose {
                            Report::RemovedFile(path)
                        } else {
                            Report::Nothing
                        }
                    },
                    Event::Removed(Err(c)) => {
                        self.meet_failure(FailureKind::RemovalFailed, path, c);
                        Report::Nothing
                    },
                    _ => {
                        assert(false);
                        Report::Nothing
                    },
                }
            },
            Task::Rmdir(path) => {
                match e {
                    Event::Removed(Ok(())) => {
                        self.stats.add_dir();
                        if self.policy.verbose {
                            Report::RemovedDir(path)
                        } else {
                            Report::Nothing
                        }
                    },
                    Event::Removed(Err(c)) => {
                        self.meet_failure(FailureKind::RemovalFailed, path, c);
                        Report::Nothing
                    },
                    _ => {
                        assert(false);
                        Report::Nothing
                    },
                }
            },
        }
    }
}

} // verus!
