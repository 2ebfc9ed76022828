use vstd::prelude::*;

use crate::stats::{DeleteStats, Tally};

verus! {

/// Entry count from which a directory's entries are handed out to run concurrently.
pub const PARALLEL_THRESHOLD: usize = 1000;

/// How a removal behaves.
#[derive(Debug, Clone, Copy, PartialEq, Eq, Structural)]
pub struct Policy {
    /// Report each removed entry.
    pub verbose: bool,
    /// Let every failure go and remove what can be removed.
    pub force: bool,
    /// Entry count from which a directory's entries run concurrently.
    pub parallel_threshold: usize,
}

impl Policy {
    pub fn new(verbose: bool, force: bool) -> (r: Policy)
        ensures
            r == (Policy { verbose, force, parallel_threshold: PARALLEL_THRESHOLD }),
    {
        Policy { verbose, force, parallel_threshold: PARALLEL_THRESHOLD }
    }
}

/// Whether a directory with `count` entries hands them out to run concurrently.
pub open spec fn spreads(count: nat, threshold: usize) -> bool {
    count >= threshold
}

pub fn fans_out(count: usize, threshold: usize) -> (r: bool)
    ensures
        r == spreads(count as nat, threshold),
{
    count >= threshold
}

/// The kinds of failure a removal can end with.
#[derive(Debug, Clone, Copy, PartialEq, Eq, Structural)]
pub enum FailureKind {
    /// A tree removal was asked for on something that is not a directory.
    NotADirectory,
    /// A directory's entries could not be listed.
    DirectoryReadFailed,
    /// An entry's metadata could not be read.
    AccessFailed,
    /// Removing a file or a directory failed.
    RemovalFailed,
}

/// A failure: its kind, the path it concerns and the cause the system gave.
#[derive(Debug, Clone)]
pub struct RemoveError {
    pub kind: FailureKind,
    pub path: Vec<u8>,
    pub cause: String,
}

pub struct FailureView {
    pub kind: FailureKind,
    pub path: Seq<u8>,
    pub cause: Seq<char>,
}

impl View for RemoveError {
    type V = FailureView;

    open spec fn view(&self) -> FailureView {
        FailureView { kind: self.kind, path: self.path@, cause: self.cause@ }
    }
}

pub open spec fn outcome_view(r: Result<DeleteStats, RemoveError>) -> Result<DeleteStats, FailureView> {
    match r {
        Ok(s) => Ok(s),
        Err(e) => Err(e@),
    }
}

pub open spec fn paths_view(v: Vec<Vec<u8>>) -> Seq<Seq<u8>> {
    v@.map_values(|p: Vec<u8>| p@)
}

/// What the metadata of an entry says.
#[derive(Debug, Clone, Copy, PartialEq, Eq, Structural)]
pub struct EntryInfo {
    pub is_dir: bool,
    pub size: u64,
}

/// A piece of pending work. The last task of the stack runs next.
pub enum Task {
    /// The path given for a tree removal; the flag says whether the directory
    /// itself goes too, or only what it holds.
    Root(Vec<u8>, bool),
    /// A path given for a file removal.
    File(Vec<u8>),
    /// An entry met while walking a directory.
    Entry(Vec<u8>),
    /// A directory to list; the flag says whether it is removed afterwards.
    Walk(Vec<u8>, bool),
    /// Entries handed out to run concurrently.
    Join(Vec<Vec<u8>>),
    /// A file to remove, with the size its metadata gave.
    Unlink(Vec<u8>, u64),
    /// A directory to remove, its entries being gone.
    Rmdir(Vec<u8>),
}

pub enum TaskView {
    Root(Seq<u8>, bool),
    File(Seq<u8>),
    Entry(Seq<u8>),
    Walk(Seq<u8>, bool),
    Join(Seq<Seq<u8>>),
    Unlink(Seq<u8>, u64),
    Rmdir(Seq<u8>),
}

impl View for Task {
    type V = TaskView;

    open spec fn view(&self) -> TaskView {
        match self {
            Task::Root(p, whole) => TaskView::Root(p@, *whole),
            Task::File(p) => TaskView::File(p@),
            Task::Entry(p) => TaskView::Entry(p@),
            Task::Walk(p, whole) => TaskView::Walk(p@, *whole),
            Task::Join(c) => TaskView::Join(paths_view(*c)),
            Task::Unlink(p, size) => TaskView::Unlink(p@, *size),
            Task::Rmdir(p) => TaskView::Rmdir(p@),
        }
    }
}

/// What the caller is asked to do next.
pub enum Action<'a> {
    /// Read the metadata of the entry at the path, without following a final link.
    Inspect(&'a Vec<u8>),
    /// List the entries of the directory at the path, as full paths.
    List(&'a Vec<u8>),
    /// Run a removal of each entry (`Removal::entry`) concurrently, and hand
    /// back their outcomes in the same order.
    Spread(&'a Vec<Vec<u8>>),
    /// Remove the file at the path.
    RemoveFile(&'a Vec<u8>),
    /// Remove the empty directory at the path.
    RemoveDir(&'a Vec<u8>),
    /// Nothing is left: take the outcome.
    Finished,
}

pub enum ActionView {
    Inspect(Seq<u8>),
    List(Seq<u8>),
    Spread(Seq<Seq<u8>>),
    RemoveFile(Seq<u8>),
    RemoveDir(Seq<u8>),
    Finished,
}

impl<'a> View for Action<'a> {
    type V = ActionView;

    open spec fn view(&self) -> ActionView {
        match self {
            Action::Inspect(p) => ActionView::Inspect(p@),
            Action::List(p) => ActionView::List(p@),
            Action::Spread(c) => ActionView::Spread(paths_view(**c)),
            Action::RemoveFile(p) => ActionView::RemoveFile(p@),
            Action::RemoveDir(p) => ActionView::RemoveDir(p@),
            Action::Finished => ActionView::Finished,
        }
    }
}

/// What the caller reports back after doing an action.
pub enum Event {
    Inspected(Result<EntryInfo, String>),
    Listed(Result<Vec<Vec<u8>>, String>),
    Joined(Vec<Result<DeleteStats, RemoveError>>),
    Removed(Result<(), String>),
}

pub enum EventView {
    Inspected(Result<EntryInfo, Seq<char>>),
    Listed(Result<Seq<Seq<u8>>, Seq<char>>),
    Joined(Seq<Result<DeleteStats, FailureView>>),
    Removed(Result<(), Seq<char>>),
}

pub open spec fn outcomes_view(v: Vec<Result<DeleteStats, RemoveError>>) -> Seq<
    Result<DeleteStats, FailureView>,
> {
    v@.map_values(|r: Result<DeleteStats, RemoveError>| outcome_view(r))
}

impl View for Event {
    type V = EventView;

    open spec fn view(&self) -> EventView {
        match self {
            Event::Inspected(Ok(i)) => EventView::Inspected(Ok(*i)),
            Event::Inspected(Err(c)) => EventView::Inspected(Err(c@)),
            Event::Listed(Ok(v)) => EventView::Listed(Ok(paths_view(*v))),
            Event::Listed(Err(c)) => EventView::Listed(Err(c@)),
            Event::Joined(v) => EventView::Joined(outcomes_view(*v)),
            Event::Removed(Ok(())) => EventView::Removed(Ok(())),
            Event::Removed(Err(c)) => EventView::Removed(Err(c@)),
        }
    }
}

/// A removal that succeeded, for the caller to report when asked to be verbose.
pub enum Report {
    Nothing,
    RemovedFile(Vec<u8>),
    RemovedDir(Vec<u8>),
}

pub enum ReportView {
    Nothing,
    RemovedFile(Seq<u8>),
    RemovedDir(Seq<u8>),
}

impl View for Report {
    type V = ReportView;

    open spec fn view(&self) -> ReportView {
        match self {
            Report::Nothing => ReportView::Nothing,
            Report::RemovedFile(p) => ReportView::RemovedFile(p@),
            Report::RemovedDir(p) => ReportView::RemovedDir(p@),
        }
    }
}

/// The state of a removal as a mathematical value.
pub struct Progress {
    pub policy: Policy,
    pub tasks: Seq<TaskView>,
    pub stats: DeleteStats,
    pub failure: Option<FailureView>,
}

pub open spec fn action_of(t: TaskView) -> ActionView {
    match t {
        TaskView::Root(p, _) => ActionView::Inspect(p),
        TaskView::File(p) => ActionView::Inspect(p),
        TaskView::Entry(p) => ActionView::Inspect(p),
        TaskView::Walk(p, _) => ActionView::List(p),
        TaskView::Join(c) => ActionView::Spread(c),
        TaskView::Unlink(p, _) => ActionView::RemoveFile(p),
        TaskView::Rmdir(p) => ActionView::RemoveDir(p),
    }
}

/// Whether `e` is the kind of event that reports on action `a`.
pub open spec fn answers(a: ActionView, e: EventView) -> bool {
    match a {
        ActionView::Inspect(_) => e is Inspected,
        ActionView::List(_) => e is Listed,
        ActionView::Spread(_) => e is Joined,
        ActionView::RemoveFile(_) => e is Removed,
        ActionView::RemoveDir(_) => e is Removed,
        ActionView::Finished => false,
    }
}

/// The tasks for the entries of a directory, the first entry on top.
pub open spec fn entry_tasks(children: Seq<Seq<u8>>) -> Seq<TaskView> {
    Seq::new(children.len(), |i: int| TaskView::Entry(children[children.len() - 1 - i]))
}

/// The first failure among the outcomes of concurrent removals.
pub open spec fn first_failure(outs: Seq<Result<DeleteStats, FailureView>>) -> Option<FailureView>
    decreases outs.len(),
{
    if outs.len() == 0 {
        None
    } else {
        match first_failure(outs.drop_last()) {
            Some(f) => Some(f),
            None => match outs.last() {
                Ok(_) => None,
                Err(f) => Some(f),
            },
        }
    }
}

/// The counters of the successful outcomes of concurrent removals, merged.
pub open spec fn merge_ok(outs: Seq<Result<DeleteStats, FailureView>>) -> DeleteStats
    decreases outs.len(),
{
    if outs.len() == 0 {
        DeleteStats::empty()
    } else {
        merge_ok(outs.drop_last()).merged(
            match outs.last() {
                Ok(s) => s,
                Err(_) => DeleteStats::empty(),
            },
        )
    }
}

impl Progress {
    pub open spec fn finished(self) -> bool {
        self.failure is Some || self.tasks.len() == 0
    }

    pub open spec fn action(self) -> ActionView {
        if self.finished() {
            ActionView::Finished
        } else {
            action_of(self.tasks.last())
        }
    }

    pub open spec fn outcome(self) -> Result<DeleteStats, FailureView> {
        match self.failure {
            Some(f) => Err(f),
            None => Ok(self.stats),
        }
    }

    pub open spec fn with_tasks(self, tasks: Seq<TaskView>) -> Progress {
        Progress { tasks, ..self }
    }

    /// Stops with a failure.
    pub open spec fn failed(self, f: FailureView) -> Progress {
        Progress { tasks: Seq::empty(), failure: Some(f), ..self }
    }

    /// A failure met by a task: under force it is let go and `rest` remains to
    /// be done; otherwise the removal stops with it.
    pub open spec fn on_failure(
        self,
        rest: Seq<TaskView>,
        kind: FailureKind,
        path: Seq<u8>,
        cause: Seq<char>,
    ) -> Progress {
        if self.policy.force {
            self.with_tasks(rest)
        } else {
            self.failed(FailureView { kind, path, cause })
        }
    }

    /// The state after the top task's action was done and `e` reported on it,
    /// and what to report of it.
    pub open spec fn next(self, e: EventView) -> (Progress, ReportView) {
        let rest = self.tasks.drop_last();
        let verbose = self.policy.verbose;
        match self.tasks.last() {
            TaskView::Root(path, whole) => (
                match e {
                    EventView::Inspected(Ok(info)) => if info.is_dir {
                        self.with_tasks(rest.push(TaskView::Walk(path, whole)))
                    } else if whole {
                        self.failed(
                            FailureView {
                                kind: FailureKind::NotADirectory,
                                path,
                                cause: Seq::empty(),
                            },
                        )
                    } else {
                        self.with_tasks(rest)
                    },
                    EventView::Inspected(Err(c)) => if whole {
                        self.failed(FailureView { kind: FailureKind::NotADirectory, path, cause: c })
                    } else {
                        self.with_tasks(rest)
                    },
                    _ => self,
                },
                ReportView::Nothing,
            ),
            TaskView::File(path) => (
                match e {
                    EventView::Inspected(Ok(info)) => self.with_tasks(
                        rest.push(TaskView::Unlink(path, info.size)),
                    ),
                    EventView::Inspected(Err(c)) => self.on_failure(
                        rest,
                        FailureKind::AccessFailed,
                        path,
                        c,
                    ),
                    _ => self,
                },
                ReportView::Nothing,
            ),
            TaskView::Entry(path) => (
                match e {
                    EventView::Inspected(Ok(info)) => if info.is_dir {
                        self.with_tasks(rest.push(TaskView::Walk(path, true)))
                    } else {
                        self.with_tasks(rest.push(TaskView::Unlink(path, info.size)))
                    },
                    EventView::Inspected(Err(c)) => self.on_failure(
                        rest,
                        FailureKind::AccessFailed,
                        path,
                        c,
                    ),
                    _ => self,
                },
                ReportView::Nothing,
            ),
            TaskView::Walk(path, whole) => {
                let after = if whole {
                    rest.push(TaskView::Rmdir(path))
                } else {
                    rest
                };
                (
                    match e {
                        EventView::Listed(Ok(children)) => if spreads(
                            children.len(),
                            self.policy.parallel_threshold,
                        ) {
                            self.with_tasks(after.push(TaskView::Join(children)))
                        } else {
                            self.with_tasks(after + entry_tasks(children))
                        },
                        EventView::Listed(Err(c)) => self.on_failure(
                            after,
                            FailureKind::DirectoryReadFailed,
                            path,
                            c,
                        ),
                        _ => self,
                    },
                    ReportView::Nothing,
                )
            },
            TaskView::Join(_) => (
                match e {
                    EventView::Joined(outs) => if !self.policy.force && first_failure(
                        outs,
                    ) is Some {
                        self.failed(first_failure(outs)->Some_0)
                    } else {
                        Progress {
                            tasks: rest,
                            stats: self.stats.merged(merge_ok(outs)),
                            ..self
                        }
                    },
                    _ => self,
                },
                ReportView::Nothing,
            ),
            TaskView::Unlink(path, size) => match e {
                EventView::Removed(Ok(())) => (
                    Progress {
                        tasks: rest,
                        stats: DeleteStats::of(self.stats.tally().plus(Tally::file(size as nat))),
                        ..self
                    },
                    if verbose {
                        ReportView::RemovedFile(path)
                    } else {
                        ReportView::Nothing
                    },
                ),
                EventView::Removed(Err(c)) => (
                    self.on_failure(rest, FailureKind::RemovalFailed, path, c),
                    ReportView::Nothing,
                ),
                _ => (self, ReportView::Nothing),
            },
            TaskView::Rmdir(path) => match e {
                EventView::Removed(Ok(())) => (
                    Progress {
                        tasks: rest,
                        stats: DeleteStats::of(self.stats.tally().plus(Tally::dir())),
                        ..self
                    },
                    if verbose {
                        ReportView::RemovedDir(path)
                    } else {
                        ReportView::Nothing
                    },
                ),
                EventView::Removed(Err(c)) => (
                    self.on_failure(rest, FailureKind::RemovalFailed, path, c),
                    ReportView::Nothing,
                ),
                _ => (self, ReportView::Nothing),
            },
        }
    }
}

} // verus!
