use vstd::prelude::*;

use crate::engine::{
    entry_tasks, first_failure, merge_ok, spreads, EntryInfo, EventView, FailureView, Policy,
    Progress, TaskView,
};
use crate::removal::starting;
use crate::stats::{lemma_of_merged, lemma_of_plus, DeleteStats, Tally};

verus! {

/// A directory tree as a filesystem holds it, with how each request on an
/// entry turns out: whether its metadata can be read, a directory listed, and
/// the entry removed.
pub enum Node {
    File { path: Seq<u8>, size: u64, readable: bool, removable: bool },
    Dir { path: Seq<u8>, entries: Seq<Node>, readable: bool, listable: bool, removable: bool },
}

impl Node {
    pub open spec fn path(self) -> Seq<u8> {
        match self {
            Node::File { path, .. } => path,
            Node::Dir { path, .. } => path,
        }
    }

    pub open spec fn readable(self) -> bool {
        match self {
            Node::File { readable, .. } => readable,
            Node::Dir { readable, .. } => readable,
        }
    }

    pub open spec fn removable(self) -> bool {
        match self {
            Node::File { removable, .. } => removable,
            Node::Dir { removable, .. } => removable,
        }
    }

    pub open spec fn listable(self) -> bool {
        match self {
            Node::File { .. } => false,
            Node::Dir { listable, .. } => listable,
        }
    }

    pub open spec fn entries(self) -> Seq<Node> {
        match self {
            Node::File { .. } => Seq::empty(),
            Node::Dir { entries, .. } => entries,
        }
    }

    pub open spec fn info(self) -> EntryInfo {
        EntryInfo {
            is_dir: self is Dir,
            size: match self {
                Node::File { size, .. } => size,
                Node::Dir { .. } => 0,
            },
        }
    }

    /// The directory's own removal, if the filesystem allows it.
    pub open spec fn own(self) -> Tally {
        if self.removable() {
            Tally::dir()
        } else {
            Tally::zero()
        }
    }
}

/// What the tree holds: its files, its directories (itself included) and the
/// bytes of its files.
pub open spec fn contents(n: Node) -> Tally
    decreases n,
{
    match n {
        Node::File { size, .. } => Tally::file(size as nat),
        Node::Dir { entries, .. } => contents_all(entries).plus(Tally::dir()),
    }
}

pub open spec fn contents_all(s: Seq<Node>) -> Tally
    decreases s,
{
    if s.len() == 0 {
        Tally::zero()
    } else {
        contents_all(s.subrange(0, s.len() - 1)).plus(contents(s[s.len() - 1]))
    }
}

/// What removing the entry removes: nothing if its metadata cannot be read;
/// for a directory, what its entries give if it can be listed, and itself if
/// the filesystem lets it go.
pub open spec fn removed(n: Node) -> Tally
    decreases n,
{
    match n {
        Node::File { size, readable, removable, .. } => if readable && removable {
            Tally::file(size as nat)
        } else {
            Tally::zero()
        },
        Node::Dir { entries, readable, listable, removable, .. } => if readable {
            (if listable {
                removed_all(entries)
            } else {
                Tally::zero()
            }).plus(
                if removable {
                    Tally::dir()
                } else {
                    Tally::zero()
                },
            )
        } else {
            Tally::zero()
        },
    }
}

pub open spec fn removed_all(s: Seq<Node>) -> Tally
    decreases s,
{
    if s.len() == 0 {
        Tally::zero()
    } else {
        removed_all(s.subrange(0, s.len() - 1)).plus(removed(s[s.len() - 1]))
    }
}

/// Every request on the tree succeeds.
pub open spec fn sound(n: Node) -> bool
    decreases n,
{
    match n {
        Node::File { readable, removable, .. } => readable && removable,
        Node::Dir { entries, readable, listable, removable, .. } => readable && listable
            && removable && forall|i: int| 0 <= i < entries.len() ==> sound(#[trigger] entries[i]),
    }
}

/// A bound on the number of actions that removing the entry takes.
pub open spec fn steps(n: Node) -> nat
    decreases n,
{
    match n {
        Node::File { .. } => 2,
        Node::Dir { entries, .. } => 4 + steps_all(entries),
    }
}

pub open spec fn steps_all(s: Seq<Node>) -> nat
    decreases s,
{
    if s.len() == 0 {
        0
    } else {
        steps_all(s.subrange(0, s.len() - 1)) + steps(s[s.len() - 1])
    }
}

/// What walking the directory removes, itself included when `whole`.
pub open spec fn walked(n: Node, whole: bool) -> Tally {
    (if n.listable() {
        removed_all(n.entries())
    } else {
        Tally::zero()
    }).plus(
        if whole {
            n.own()
        } else {
            Tally::zero()
        },
    )
}

/// Whether the task can stand for work on the entry.
pub open spec fn fits(t: TaskView, n: Node) -> bool {
    match t {
        TaskView::Root(_, whole) => whole ==> n is Dir && n.readable(),
        TaskView::Walk(_, _) => n is Dir && n.readable(),
        TaskView::Join(children) => n is Dir && n.readable() && n.listable() && children.len()
            == n.entries().len(),
        TaskView::Unlink(_, size) => size == n.info().size,
        _ => true,
    }
}

/// What the task, done on the entry, will remove.
pub open spec fn share(t: TaskView, n: Node) -> Tally {
    match t {
        TaskView::Root(_, whole) => if n.readable() && n is Dir {
            walked(n, whole)
        } else {
            Tally::zero()
        },
        TaskView::File(_) => if n.readable() && n.removable() {
            Tally::file(n.info().size as nat)
        } else {
            Tally::zero()
        },
        TaskView::Entry(_) => removed(n),
        TaskView::Walk(_, whole) => walked(n, whole),
        TaskView::Join(_) => removed_all(n.entries()),
        TaskView::Unlink(_, size) => if n.removable() {
            Tally::file(size as nat)
        } else {
            Tally::zero()
        },
        TaskView::Rmdir(_) => n.own(),
    }
}

/// A bound on the number of actions the task, done on the entry, takes.
pub open spec fn cost(t: TaskView, n: Node) -> nat {
    match t {
        TaskView::Root(_, _) => 4 + steps_all(n.entries()),
        TaskView::File(_) => 2,
        TaskView::Entry(_) => steps(n),
        TaskView::Walk(_, _) => 3 + steps_all(n.entries()),
        TaskView::Join(_) => 1 + steps_all(n.entries()),
        TaskView::Unlink(_, _) => 1,
        TaskView::Rmdir(_) => 1,
    }
}

pub open spec fn pending(ts: Seq<TaskView>, ns: Seq<Node>) -> Tally
    decreases ts.len(),
{
    if ts.len() == 0 || ns.len() == 0 {
        Tally::zero()
    } else {
        pending(ts.drop_last(), ns.drop_last()).plus(share(ts.last(), ns.last()))
    }
}

pub open spec fn pending_cost(ts: Seq<TaskView>, ns: Seq<Node>) -> nat
    decreases ts.len(),
{
    if ts.len() == 0 || ns.len() == 0 {
        0
    } else {
        pending_cost(ts.drop_last(), ns.drop_last()) + cost(ts.last(), ns.last())
    }
}

pub open spec fn reversed(s: Seq<Node>) -> Seq<Node> {
    Seq::new(s.len(), |i: int| s[s.len() - 1 - i])
}

pub open spec fn paths_of(s: Seq<Node>) -> Seq<Seq<u8>> {
    s.map_values(|c: Node| c.path())
}

/// What the filesystem reports on the action of task `t` on entry `n`;
/// `joined` is what the concurrent removals gave, for a hand-out.
pub open spec fn reply(
    t: TaskView,
    n: Node,
    joined: Seq<Result<DeleteStats, FailureView>>,
) -> EventView {
    match t {
        TaskView::Walk(_, _) => EventView::Listed(
            if n.listable() {
                Ok(paths_of(n.entries()))
            } else {
                Err(Seq::empty())
            },
        ),
        TaskView::Join(_) => EventView::Joined(joined),
        TaskView::Unlink(_, _) => EventView::Removed(
            if n.removable() {
                Ok(())
            } else {
                Err(Seq::empty())
            },
        ),
        TaskView::Rmdir(_) => EventView::Removed(
            if n.removable() {
                Ok(())
            } else {
                Err(Seq::empty())
            },
        ),
        _ => EventView::Inspected(
            if n.readable() {
                Ok(n.info())
            } else {
                Err(Seq::empty())
            },
        ),
    }
}

/// The entries that the tasks after task `t` on entry `n` stand for, on top
/// of `rest`.
pub open spec fn follow(t: TaskView, n: Node, threshold: usize, rest: Seq<Node>) -> Seq<Node> {
    match t {
        TaskView::Root(_, _) => if n.readable() && n is Dir {
            rest.push(n)
        } else {
            rest
        },
        TaskView::File(_) => if n.readable() {
            rest.push(n)
        } else {
            rest
        },
        TaskView::Entry(_) => if n.readable() {
            rest.push(n)
        } else {
            rest
        },
        TaskView::Walk(_, whole) => {
            let after = if whole {
                rest.push(n)
            } else {
                rest
            };
            if n.listable() {
                if spreads(n.entries().len(), threshold) {
                    after.push(n)
                } else {
                    after + reversed(n.entries())
                }
            } else {
                after
            }
        },
        _ => rest,
    }
}

/// The state after the top task's action, the filesystem answering as the
/// entries `nodes` say, and the entries the new tasks stand for; concurrent
/// removals run within `fuel` actions.
pub open spec fn successor(p: Progress, nodes: Seq<Node>, fuel: nat) -> (Progress, Seq<Node>)
    decreases fuel, 0nat,
{
    let t = p.tasks.last();
    let n = nodes.last();
    let joined = match t {
        TaskView::Join(children) => if fuel > 0 {
            run_all(children, n.entries(), p.policy, (fuel - 1) as nat)
        } else {
            Seq::empty()
        },
        _ => Seq::empty(),
    };
    (p.next(reply(t, n, joined)).0, follow(t, n, p.policy.parallel_threshold, nodes.drop_last()))
}

/// The outcome of a removal whose tasks stand for the entries `nodes`, the
/// filesystem answering each action as those entries say, within `fuel`
/// actions; concurrent removals are run the same way.
pub open spec fn run(p: Progress, nodes: Seq<Node>, fuel: nat) -> Option<
    Result<DeleteStats, FailureView>,
>
    decreases fuel, 1nat,
{
    if p.finished() {
        Some(p.outcome())
    } else if fuel == 0 || nodes.len() != p.tasks.len() {
        None
    } else {
        let s = successor(p, nodes, fuel);
        run(s.0, s.1, (fuel - 1) as nat)
    }
}

/// The outcomes of removals of the entries `nodes`, reached through `paths`.
pub open spec fn run_all(
    paths: Seq<Seq<u8>>,
    nodes: Seq<Node>,
    policy: Policy,
    fuel: nat,
) -> Seq<Result<DeleteStats, FailureView>>
    decreases fuel, nodes.len() + 2,
{
    if nodes.len() == 0 || paths.len() == 0 {
        Seq::empty()
    } else {
        run_all(paths.drop_last(), nodes.drop_last(), policy, fuel).push(
            match run(starting(policy, TaskView::Entry(paths.last())), seq![nodes.last()], fuel) {
                Some(r) => r,
                None => Ok(DeleteStats::empty()),
            },
        )
    }
}

pub proof fn lemma_pending_append(
    ts1: Seq<TaskView>,
    ns1: Seq<Node>,
    ts2: Seq<TaskView>,
    ns2: Seq<Node>,
)
    requires
        ts1.len() == ns1.len(),
        ts2.len() == ns2.len(),
    ensures
        pending(ts1 + ts2, ns1 + ns2) == pending(ts1, ns1).plus(pending(ts2, ns2)),
        pending_cost(ts1 + ts2, ns1 + ns2) == pending_cost(ts1, ns1) + pending_cost(ts2, ns2),
    decreases ts2.len(),
{
    if ts2.len() == 0 {
        assert(ts1 + ts2 =~= ts1);
        assert(ns1 + ns2 =~= ns1);
    } else {
        lemma_pending_append(ts1, ns1, ts2.drop_last(), ns2.drop_last());
        assert((ts1 + ts2).drop_last() =~= ts1 + ts2.drop_last());
        assert((ns1 + ns2).drop_last() =~= ns1 + ns2.drop_last());
    }
}

pub proof fn lemma_pending_one(t: TaskView, n: Node)
    ensures
        pending(seq![t], seq![n]) == share(t, n),
        pending_cost(seq![t], seq![n]) == cost(t, n),
{
    let ts = seq![t];
    let ns = seq![n];
    assert(ts.len() == 1 && ns.len() == 1);
    assert(ts.last() == t && ns.last() == n);
    assert(ts.drop_last() =~= Seq::<TaskView>::empty());
    assert(ns.drop_last() =~= Seq::<Node>::empty());
    assert(pending(Seq::<TaskView>::empty(), Seq::<Node>::empty()) == Tally::zero());
    assert(pending_cost(Seq::<TaskView>::empty(), Seq::<Node>::empty()) == 0);
    assert(Tally::zero().plus(share(t, n)) == share(t, n));
}

pub proof fn lemma_removed_all_first(s: Seq<Node>)
    requires
        s.len() > 0,
    ensures
        removed_all(s) == removed(s[0]).plus(removed_all(s.subrange(1, s.len() as int))),
        steps_all(s) == steps(s[0]) + steps_all(s.subrange(1, s.len() as int)),
    decreases s.len(),
{
    let n: int = s.len() as int;
    if n == 1 {
        assert(s.subrange(0, 0) =~= Seq::<Node>::empty());
        assert(s.subrange(1, 1) =~= Seq::<Node>::empty());
    } else {
        let init = s.subrange(0, n - 1);
        lemma_removed_all_first(init);
        let tail = s.subrange(1, n);
        assert(tail.subrange(0, n - 2) =~= init.subrange(1, n - 1));
        assert(tail[n - 2] == s[n - 1]);
        assert(init[0] == s[0]);
    }
}

pub proof fn lemma_entries(children: Seq<Seq<u8>>, entries: Seq<Node>)
    requires
        children.len() == entries.len(),
    ensures
        pending(entry_tasks(children), reversed(entries)) == removed_all(entries),
        pending_cost(entry_tasks(children), reversed(entries)) == steps_all(entries),
    decreases entries.len(),
{
    let n: int = entries.len() as int;
    if n == 0 {
    } else {
        let c1 = children.subrange(1, n);
        let e1 = entries.subrange(1, n);
        lemma_entries(c1, e1);
        assert(entry_tasks(children).drop_last() =~= entry_tasks(c1));
        assert(reversed(entries).drop_last() =~= reversed(e1));
        assert(entry_tasks(children).last() == TaskView::Entry(children[0]));
        assert(reversed(entries).last() == entries[0]);
        lemma_removed_all_first(entries);
    }
}

/// A sound entry gives up nothing it holds.
pub proof fn lemma_sound_removed(n: Node)
    requires
        sound(n),
    ensures
        removed(n) == contents(n),
    decreases n,
{
    match n {
        Node::File { .. } => {},
        Node::Dir { entries, .. } => {
            lemma_sound_removed_all(entries);
        },
    }
}

pub proof fn lemma_sound_removed_all(s: Seq<Node>)
    requires
        forall|i: int| 0 <= i < s.len() ==> sound(#[trigger] s[i]),
    ensures
        removed_all(s) == contents_all(s),
    decreases s,
{
    if s.len() > 0 {
        let init = s.subrange(0, s.len() - 1);
        assert forall|i: int| 0 <= i < init.len() implies sound(#[trigger] init[i]) by {
            assert(init[i] == s[i]);
        }
        lemma_sound_removed_all(init);
        lemma_sound_removed(s[s.len() - 1]);
    }
}

/// The entries a removal's tasks stand for fit them, and every request on
/// them succeeds unless the policy lets failures go.
pub open spec fn stands_for(p: Progress, nodes: Seq<Node>) -> bool {
    &&& p.tasks.len() == nodes.len()
    &&& forall|i: int| 0 <= i < nodes.len() ==> fits(p.tasks[i], #[trigger] nodes[i])
    &&& p.policy.force || forall|i: int| 0 <= i < nodes.len() ==> sound(#[trigger] nodes[i])
}

/// One step of a run on the entries `nodes`: the top task is replaced by
/// `extra_t`, standing for `extra_n`, and the counters move from `done` to
/// `done2`; what the step removed and what stays pending add up.
proof fn lemma_step(
    p: Progress,
    nodes: Seq<Node>,
    fuel: nat,
    done: Tally,
    extra_t: Seq<TaskView>,
    extra_n: Seq<Node>,
    done2: Tally,
)
    requires
        p.failure is None,
        p.tasks.len() > 0,
        stands_for(p, nodes),
        p.stats == DeleteStats::of(done),
        fuel >= pending_cost(p.tasks, nodes),
        extra_t.len() == extra_n.len(),
        forall|i: int| 0 <= i < extra_n.len() ==> fits(extra_t[i], #[trigger] extra_n[i]),
        p.policy.force || forall|i: int| 0 <= i < extra_n.len() ==> sound(#[trigger] extra_n[i]),
        done2.plus(pending(extra_t, extra_n)) == done.plus(share(p.tasks.last(), nodes.last())),
        pending_cost(extra_t, extra_n) < cost(p.tasks.last(), nodes.last()),
    ensures
        fuel >= 1,
        run(
            Progress { tasks: p.tasks.drop_last() + extra_t, stats: DeleteStats::of(done2), ..p },
            nodes.drop_last() + extra_n,
            (fuel - 1) as nat,
        ) == Some(Ok::<DeleteStats, FailureView>(DeleteStats::of(done.plus(pending(p.tasks, nodes))))),
    decreases fuel, 0nat,
{
    let rest = p.tasks.drop_last();
    let rest_n = nodes.drop_last();
    let p2 = Progress { tasks: rest + extra_t, stats: DeleteStats::of(done2), ..p };
    let nodes2 = rest_n + extra_n;
    lemma_pending_append(rest, rest_n, extra_t, extra_n);
    assert(fuel >= 1);
    assert forall|i: int| 0 <= i < nodes2.len() implies fits(p2.tasks[i], #[trigger] nodes2[i]) by {
        if i < rest.len() {
            assert(p2.tasks[i] == p.tasks[i]);
            assert(nodes2[i] == nodes[i]);
        } else {
            assert(p2.tasks[i] == extra_t[i - rest.len()]);
            assert(nodes2[i] == extra_n[i - rest.len()]);
        }
    }
    if !p.policy.force {
        assert forall|i: int| 0 <= i < nodes2.len() implies sound(#[trigger] nodes2[i]) by {
            if i < rest.len() {
                assert(nodes2[i] == nodes[i]);
            } else {
                assert(nodes2[i] == extra_n[i - rest.len()]);
            }
        }
    }
    lemma_run(p2, nodes2, (fuel - 1) as nat, done2);
}

/// What a removal in state `p` on entries `nodes` still owes: started from
/// counters for `done`, it ends with the counters of `done` and of what its
/// tasks remove.
pub open spec fn completes(p: Progress, nodes: Seq<Node>, fuel: nat, done: Tally) -> bool {
    run(p, nodes, fuel) == Some(
        Ok::<DeleteStats, FailureView>(DeleteStats::of(done.plus(pending(p.tasks, nodes)))),
    )
}

/// The premises of a run's step.
pub open spec fn ready(p: Progress, nodes: Seq<Node>, fuel: nat, done: Tally) -> bool {
    &&& p.failure is None
    &&& p.tasks.len() > 0
    &&& stands_for(p, nodes)
    &&& p.stats == DeleteStats::of(done)
    &&& fuel >= pending_cost(p.tasks, nodes)
}

/// What the step of a run must reach: the state after the step completes
/// what the state before it owed.
pub open spec fn step_done(p: Progress, nodes: Seq<Node>, fuel: nat, done: Tally) -> bool {
    let s = successor(p, nodes, fuel);
    run(s.0, s.1, (fuel - 1) as nat) == Some(
        Ok::<DeleteStats, FailureView>(DeleteStats::of(done.plus(pending(p.tasks, nodes)))),
    )
}

proof fn lemma_ready(p: Progress, nodes: Seq<Node>, fuel: nat, done: Tally)
    requires
        ready(p, nodes, fuel, done),
    ensures
        fits(p.tasks.last(), nodes.last()),
        p.policy.force || sound(nodes.last()),
        cost(p.tasks.last(), nodes.last()) >= 1,
        fuel >= 1 + pending_cost(p.tasks.drop_last(), nodes.drop_last()) + cost(
            p.tasks.last(),
            nodes.last(),
        ) - 1,
{
    let k: int = p.tasks.len() - 1;
    assert(fits(p.tasks[k], nodes[k]));
    assert(p.policy.force || sound(nodes[k]));
}

proof fn lemma_run_inspect(p: Progress, nodes: Seq<Node>, fuel: nat, done: Tally)
    requires
        ready(p, nodes, fuel, done),
        p.tasks.last() is Root || p.tasks.last() is File || p.tasks.last() is Entry,
    ensures
        step_done(p, nodes, fuel, done),
    decreases fuel, 1nat,
{
    lemma_ready(p, nodes, fuel, done);
    let t = p.tasks.last();
    let n = nodes.last();
    let s = successor(p, nodes, fuel);
    let rest = p.tasks.drop_last();
    let rest_n = nodes.drop_last();
    let goes_on = match t {
        TaskView::Root(_, _) => n.readable() && n is Dir,
        _ => n.readable(),
    };
    if goes_on {
        let nt = match t {
            TaskView::Root(path, whole) => TaskView::Walk(path, whole),
            TaskView::File(path) => TaskView::Unlink(path, n.info().size),
            TaskView::Entry(path) => if n is Dir {
                TaskView::Walk(path, true)
            } else {
                TaskView::Unlink(path, n.info().size)
            },
            _ => t,
        };
        let xt = seq![nt];
        let xn = seq![n];
        lemma_pending_one(nt, n);
        assert(s.0.tasks =~= rest + xt);
        assert(s.1 =~= rest_n + xn);
        lemma_step(p, nodes, fuel, done, xt, xn, done);
    } else {
        assert(s.0.tasks =~= rest + seq![]);
        assert(s.1 =~= rest_n + seq![]);
        lemma_step(p, nodes, fuel, done, seq![], seq![], done);
    }
}

proof fn lemma_run_walk(p: Progress, nodes: Seq<Node>, fuel: nat, done: Tally)
    requires
        ready(p, nodes, fuel, done),
        p.tasks.last() is Walk,
    ensures
        step_done(p, nodes, fuel, done),
    decreases fuel, 1nat,
{
    lemma_ready(p, nodes, fuel, done);
    let n = nodes.last();
    let s = successor(p, nodes, fuel);
    let rest = p.tasks.drop_last();
    let rest_n = nodes.drop_last();
    let entries = n.entries();
    let path = p.tasks.last()->Walk_0;
    let whole = p.tasks.last()->Walk_1;
    let own_t: Seq<TaskView> = if whole {
        seq![TaskView::Rmdir(path)]
    } else {
        seq![]
    };
    let own_n: Seq<Node> = if whole {
        seq![n]
    } else {
        seq![]
    };
    lemma_pending_one(TaskView::Rmdir(path), n);
    assert(pending(own_t, own_n) == (if whole {
        n.own()
    } else {
        Tally::zero()
    }));
    assert(pending_cost(own_t, own_n) == (if whole {
        1nat
    } else {
        0nat
    }));
    if n.listable() {
        let children = paths_of(entries);
        if spreads(entries.len(), p.policy.parallel_threshold) {
            let jt = TaskView::Join(children);
            let xt = own_t + seq![jt];
            let xn = own_n + seq![n];
            lemma_pending_one(jt, n);
            lemma_pending_append(own_t, own_n, seq![jt], seq![n]);
            assert(s.0.tasks =~= rest + xt);
            assert(s.1 =~= rest_n + xn);
            lemma_step(p, nodes, fuel, done, xt, xn, done);
        } else {
            let xt = own_t + entry_tasks(children);
            let xn = own_n + reversed(entries);
            lemma_entries(children, entries);
            lemma_pending_append(own_t, own_n, entry_tasks(children), reversed(entries));
            assert forall|i: int| 0 <= i < xn.len() implies fits(xt[i], #[trigger] xn[i]) by {
                if i >= own_n.len() {
                    assert(xt[i] == entry_tasks(children)[i - own_n.len()]);
                }
            }
            if !p.policy.force {
                assert forall|i: int| 0 <= i < xn.len() implies sound(#[trigger] xn[i]) by {
                    if i >= own_n.len() {
                        let j: int = i - own_n.len();
                        assert(xn[i] == entries[entries.len() - 1 - j]);
                    }
                }
            }
            assert(s.0.tasks =~= rest + xt);
            assert(s.1 =~= rest_n + xn);
            lemma_step(p, nodes, fuel, done, xt, xn, done);
        }
    } else {
        assert(s.0.tasks =~= rest + own_t);
        assert(s.1 =~= rest_n + own_n);
        lemma_step(p, nodes, fuel, done, own_t, own_n, done);
    }
}

proof fn lemma_run_join(p: Progress, nodes: Seq<Node>, fuel: nat, done: Tally)
    requires
        ready(p, nodes, fuel, done),
        p.tasks.last() is Join,
    ensures
        step_done(p, nodes, fuel, done),
    decreases fuel, 1nat,
{
    lemma_ready(p, nodes, fuel, done);
    let n = nodes.last();
    let s = successor(p, nodes, fuel);
    let entries = n.entries();
    let children = p.tasks.last()->Join_0;
    if !p.policy.force {
        assert forall|i: int| 0 <= i < entries.len() implies sound(#[trigger] entries[i]) by {}
    }
    lemma_run_all(children, entries, p.policy, (fuel - 1) as nat);
    lemma_of_merged(done, removed_all(entries));
    let done2 = done.plus(removed_all(entries));
    assert(s.0.tasks =~= p.tasks.drop_last() + seq![]);
    assert(s.1 =~= nodes.drop_last() + seq![]);
    lemma_step(p, nodes, fuel, done, seq![], seq![], done2);
}

proof fn lemma_run_remove(p: Progress, nodes: Seq<Node>, fuel: nat, done: Tally)
    requires
        ready(p, nodes, fuel, done),
        p.tasks.last() is Unlink || p.tasks.last() is Rmdir,
    ensures
        step_done(p, nodes, fuel, done),
    decreases fuel, 1nat,
{
    lemma_ready(p, nodes, fuel, done);
    let n = nodes.last();
    let s = successor(p, nodes, fuel);
    assert(s.0.tasks =~= p.tasks.drop_last() + seq![]);
    assert(s.1 =~= nodes.drop_last() + seq![]);
    let gone = share(p.tasks.last(), n);
    lemma_of_plus(done, gone);
    if n.removable() {
        lemma_step(p, nodes, fuel, done, seq![], seq![], done.plus(gone));
    } else {
        lemma_step(p, nodes, fuel, done, seq![], seq![], done);
    }
}

/// A removal whose tasks stand for entries of a filesystem, run while the
/// filesystem answers as those entries say, ends with the counters of what was
/// already done plus what the tasks remove, provided every request succeeds or
/// failures are let go.
pub proof fn lemma_run(p: Progress, nodes: Seq<Node>, fuel: nat, done: Tally)
    requires
        p.failure is None,
        stands_for(p, nodes),
        p.stats == DeleteStats::of(done),
        fuel >= pending_cost(p.tasks, nodes),
    ensures
        completes(p, nodes, fuel, done),
    decreases fuel, 2nat,
{
    if p.tasks.len() == 0 {
        assert(done.plus(Tally::zero()) == done);
    } else {
        lemma_ready(p, nodes, fuel, done);
        match p.tasks.last() {
            TaskView::Walk(_, _) => lemma_run_walk(p, nodes, fuel, done),
            TaskView::Join(_) => lemma_run_join(p, nodes, fuel, done),
            TaskView::Unlink(_, _) => lemma_run_remove(p, nodes, fuel, done),
            TaskView::Rmdir(_) => lemma_run_remove(p, nodes, fuel, done),
            _ => lemma_run_inspect(p, nodes, fuel, done),
        }
    }
}

/// Concurrent removals of entries that fit, run the same way, succeed, and
/// their counters merge to what the entries give up.
pub proof fn lemma_run_all(paths: Seq<Seq<u8>>, nodes: Seq<Node>, policy: Policy, fuel: nat)
    requires
        paths.len() == nodes.len(),
        fuel >= steps_all(nodes),
        policy.force || forall|i: int| 0 <= i < nodes.len() ==> sound(#[trigger] nodes[i]),
    ensures
        merge_ok(run_all(paths, nodes, policy, fuel)) == DeleteStats::of(removed_all(nodes)),
        first_failure(run_all(paths, nodes, policy, fuel)) is None,
    decreases fuel, nodes.len() + 3,
{
    if nodes.len() > 0 {
        let k: int = nodes.len() - 1;
        let init = nodes.drop_last();
        assert(init =~= nodes.subrange(0, k as int));
        if !policy.force {
            assert forall|i: int| 0 <= i < init.len() implies sound(#[trigger] init[i]) by {
                assert(init[i] == nodes[i]);
            }
        }
        lemma_run_all(paths.drop_last(), init, policy, fuel);
        let last = nodes.last();
        let p0 = starting(policy, TaskView::Entry(paths.last()));
        assert(p0.tasks.drop_last() =~= Seq::<TaskView>::empty());
        assert(seq![last].drop_last() =~= Seq::<Node>::empty());
        assert(p0.stats == DeleteStats::of(Tally::zero()));
        if !policy.force {
            assert(sound(nodes[k as int]));
        }
        lemma_pending_one(TaskView::Entry(paths.last()), last);
        lemma_run(p0, seq![last], fuel, Tally::zero());
        assert(Tally::zero().plus(removed(last)) == removed(last));
        let outs = run_all(paths, nodes, policy, fuel);
        assert(outs.drop_last() =~= run_all(paths.drop_last(), init, policy, fuel));
        lemma_of_merged(removed_all(init), removed(last));
    }
}

/// Every entry of the sequence is sound.
pub open spec fn all_sound(s: Seq<Node>) -> bool {
    forall|i: int| 0 <= i < s.len() ==> sound(#[trigger] s[i])
}

/// Whether the task, done on the entry, meets no failing request.
pub open spec fn clean(t: TaskView, n: Node) -> bool {
    match t {
        TaskView::Root(_, whole) => if n.readable() && n is Dir {
            n.listable() && all_sound(n.entries()) && (whole ==> n.removable())
        } else {
            !whole
        },
        TaskView::File(_) => n.readable() && n.removable(),
        TaskView::Entry(_) => sound(n),
        TaskView::Walk(_, whole) => n.listable() && all_sound(n.entries()) && (whole
            ==> n.removable()),
        TaskView::Join(_) => all_sound(n.entries()),
        TaskView::Unlink(_, _) => n.removable(),
        TaskView::Rmdir(_) => n.removable(),
    }
}

/// The premises under which a run must end with a failure: no force, and a
/// task on the stack that will meet a failing request.
pub open spec fn doomed(p: Progress, nodes: Seq<Node>, fuel: nat, j: int) -> bool {
    &&& p.failure is None
    &&& !p.policy.force
    &&& p.tasks.len() == nodes.len()
    &&& forall|i: int| 0 <= i < nodes.len() ==> fits(p.tasks[i], #[trigger] nodes[i])
    &&& 0 <= j < nodes.len()
    &&& !clean(p.tasks[j], nodes[j])
    &&& fuel >= pending_cost(p.tasks, nodes)
}

pub open spec fn fails(r: Option<Result<DeleteStats, FailureView>>) -> bool {
    r matches Some(Err(_))
}

proof fn lemma_run_all_index(
    paths: Seq<Seq<u8>>,
    nodes: Seq<Node>,
    policy: Policy,
    fuel: nat,
    i: int,
)
    requires
        paths.len() == nodes.len(),
        0 <= i < nodes.len(),
    ensures
        run_all(paths, nodes, policy, fuel).len() == nodes.len(),
        run_all(paths, nodes, policy, fuel)[i] == match run(
            starting(policy, TaskView::Entry(paths[i])),
            seq![nodes[i]],
            fuel,
        ) {
            Some(r) => r,
            None => Ok(DeleteStats::empty()),
        },
    decreases nodes.len(),
{
    let k = nodes.len() - 1;
    if i < k {
        lemma_run_all_index(paths.drop_last(), nodes.drop_last(), policy, fuel, i);
    } else if k > 0 {
        lemma_run_all_index(paths.drop_last(), nodes.drop_last(), policy, fuel, 0);
    }
}

proof fn lemma_first_failure_some(outs: Seq<Result<DeleteStats, FailureView>>, i: int)
    requires
        0 <= i < outs.len(),
        outs[i] is Err,
    ensures
        first_failure(outs) is Some,
    decreases outs.len(),
{
    if i < outs.len() - 1 {
        lemma_first_failure_some(outs.drop_last(), i);
    }
}

/// A run step from a state with a doomed task, where the new state keeps a
/// doomed task at `j2`.
proof fn lemma_fail_step(
    p: Progress,
    nodes: Seq<Node>,
    fuel: nat,
    j: int,
    p2: Progress,
    extra_t: Seq<TaskView>,
    extra_n: Seq<Node>,
    j2: int,
)
    requires
        doomed(p, nodes, fuel, j),
        p.tasks.len() > 0,
        p2.failure is None,
        p2.policy == p.policy,
        p2.tasks == p.tasks.drop_last() + extra_t,
        extra_t.len() == extra_n.len(),
        forall|i: int| 0 <= i < extra_n.len() ==> fits(extra_t[i], #[trigger] extra_n[i]),
        pending_cost(extra_t, extra_n) < cost(p.tasks.last(), nodes.last()),
        0 <= j2 < p2.tasks.len(),
        !clean(p2.tasks[j2], (nodes.drop_last() + extra_n)[j2]),
    ensures
        fuel >= 1,
        fails(run(p2, nodes.drop_last() + extra_n, (fuel - 1) as nat)),
    decreases fuel, 0nat,
{
    let rest = p.tasks.drop_last();
    let rest_n = nodes.drop_last();
    let nodes2 = rest_n + extra_n;
    lemma_pending_append(rest, rest_n, extra_t, extra_n);
    assert forall|i: int| 0 <= i < nodes2.len() implies fits(p2.tasks[i], #[trigger] nodes2[i]) by {
        if i < rest.len() {
            assert(p2.tasks[i] == p.tasks[i]);
            assert(nodes2[i] == nodes[i]);
        } else {
            assert(p2.tasks[i] == extra_t[i - rest.len()]);
            assert(nodes2[i] == extra_n[i - rest.len()]);
        }
    }
    lemma_fail(p2, nodes2, (fuel - 1) as nat, j2);
}

/// Without force, a run whose stack holds a task that will meet a failing
/// request ends with a failure.
pub proof fn lemma_fail(p: Progress, nodes: Seq<Node>, fuel: nat, j: int)
    requires
        doomed(p, nodes, fuel, j),
    ensures
        fails(run(p, nodes, fuel)),
    decreases fuel, 3nat,
{
    let k: int = p.tasks.len() - 1;
    assert(fits(p.tasks[k], nodes[k]));
    assert(fits(p.tasks[j], nodes[j]));
    if j == k {
        lemma_fail_top(p, nodes, fuel);
    } else {
        lemma_fail_below(p, nodes, fuel, j);
    }
}

proof fn lemma_fail_top(p: Progress, nodes: Seq<Node>, fuel: nat)
    requires
        nodes.len() > 0,
        doomed(p, nodes, fuel, nodes.len() - 1),
    ensures
        fails(run(p, nodes, fuel)),
    decreases fuel, 1nat,
{
    let k: int = p.tasks.len() - 1;
    let t = p.tasks.last();
    let n = nodes.last();
    assert(fits(p.tasks[k], nodes[k]));
    let rest = p.tasks.drop_last();
    let rest_n = nodes.drop_last();
    let r = rest.len() as int;
    let s = successor(p, nodes, fuel);
    assert(cost(t, n) >= 1);
    let entries = n.entries();
    match t {
        TaskView::Root(path, whole) => {
            let xt = seq![TaskView::Walk(path, whole)];
            lemma_pending_one(xt[0], n);
            assert(s.0.tasks =~= rest + xt);
            assert(s.1 =~= rest_n + seq![n]);
            lemma_fail_step(p, nodes, fuel, k, s.0, xt, seq![n], r);
        },
        TaskView::File(path) => {
            if n.readable() {
                let xt = seq![TaskView::Unlink(path, n.info().size)];
                lemma_pending_one(xt[0], n);
                assert(s.0.tasks =~= rest + xt);
                assert(s.1 =~= rest_n + seq![n]);
                lemma_fail_step(p, nodes, fuel, k, s.0, xt, seq![n], r);
            }
        },
        TaskView::Entry(path) => {
            if n.readable() {
                let xt = if n is Dir {
                    seq![TaskView::Walk(path, true)]
                } else {
                    seq![TaskView::Unlink(path, n.info().size)]
                };
                lemma_pending_one(xt[0], n);
                assert(xt =~= seq![xt[0]]);
                assert(s.0.tasks =~= rest + xt);
                assert(s.1 =~= rest_n + seq![n]);
                lemma_fail_step(p, nodes, fuel, k, s.0, xt, seq![n], r);
            }
        },
        TaskView::Walk(path, whole) => {
            if n.listable() {
                let own_t: Seq<TaskView> = if whole {
                    seq![TaskView::Rmdir(path)]
                } else {
                    seq![]
                };
                let own_n: Seq<Node> = if whole {
                    seq![n]
                } else {
                    seq![]
                };
                lemma_pending_one(TaskView::Rmdir(path), n);
                assert(pending_cost(own_t, own_n) == (if whole {
                    1nat
                } else {
                    0nat
                }));
                let children = paths_of(entries);
                if all_sound(entries) {
                    // Only the directory's own removal fails.
                    let xt = if spreads(entries.len(), p.policy.parallel_threshold) {
                        own_t + seq![TaskView::Join(children)]
                    } else {
                        own_t + entry_tasks(children)
                    };
                    let xn = if spreads(entries.len(), p.policy.parallel_threshold) {
                        own_n + seq![n]
                    } else {
                        own_n + reversed(entries)
                    };
                    lemma_pending_one(TaskView::Join(children), n);
                    lemma_pending_append(own_t, own_n, seq![TaskView::Join(children)], seq![n]);
                    lemma_entries(children, entries);
                    lemma_pending_append(own_t, own_n, entry_tasks(children), reversed(entries));
                    assert forall|i: int| 0 <= i < xn.len() implies fits(
                        xt[i],
                        #[trigger] xn[i],
                    ) by {
                        if i >= own_n.len() && !spreads(entries.len(), p.policy.parallel_threshold) {
                            assert(xt[i] == entry_tasks(children)[i - own_n.len()]);
                        }
                    }
                    assert(s.0.tasks =~= rest + xt);
                    assert(s.1 =~= rest_n + xn);
                    assert((rest_n + xn)[r] == n);
                    lemma_fail_step(p, nodes, fuel, k, s.0, xt, xn, r);
                } else {
                    let i = choose|i: int| 0 <= i < entries.len() && !sound(#[trigger] entries[i]);
                    if spreads(entries.len(), p.policy.parallel_threshold) {
                        let xt = own_t + seq![TaskView::Join(children)];
                        let xn = own_n + seq![n];
                        lemma_pending_one(TaskView::Join(children), n);
                        lemma_pending_append(own_t, own_n, seq![TaskView::Join(children)], seq![n]);
                        assert(s.0.tasks =~= rest + xt);
                        assert(s.1 =~= rest_n + xn);
                        let j2 = r + own_n.len();
                        assert((rest_n + xn)[j2] == n);
                        assert(s.0.tasks[j2] == TaskView::Join(children));
                        lemma_fail_step(p, nodes, fuel, k, s.0, xt, xn, j2);
                    } else {
                        let xt = own_t + entry_tasks(children);
                        let xn = own_n + reversed(entries);
                        lemma_entries(children, entries);
                        lemma_pending_append(own_t, own_n, entry_tasks(children), reversed(entries));
                        assert forall|i: int| 0 <= i < xn.len() implies fits(
                            xt[i],
                            #[trigger] xn[i],
                        ) by {
                            if i >= own_n.len() {
                                assert(xt[i] == entry_tasks(children)[i - own_n.len()]);
                            }
                        }
                        assert(s.0.tasks =~= rest + xt);
                        assert(s.1 =~= rest_n + xn);
                        let j2 = r + own_n.len() + (entries.len() - 1 - i);
                        assert((rest_n + xn)[j2] == entries[i]);
                        assert(s.0.tasks[j2] == entry_tasks(children)[entries.len() - 1 - i]);
                        lemma_fail_step(p, nodes, fuel, k, s.0, xt, xn, j2);
                    }
                }
            }
        },
        TaskView::Join(children) => {
            let i = choose|i: int| 0 <= i < entries.len() && !sound(#[trigger] entries[i]);
            let sub = starting(p.policy, TaskView::Entry(children[i]));
            lemma_pending_one(TaskView::Entry(children[i]), entries[i]);
            assert(seq![entries[i]][0] == entries[i]);
            lemma_steps_all_le(entries, i);
            lemma_fail(sub, seq![entries[i]], (fuel - 1) as nat, 0);
            lemma_run_all_index(children, entries, p.policy, (fuel - 1) as nat, i);
            lemma_first_failure_some(run_all(children, entries, p.policy, (fuel - 1) as nat), i);
        },
        TaskView::Unlink(_, _) => {},
        TaskView::Rmdir(_) => {},
    }
}

proof fn lemma_steps_all_le(s: Seq<Node>, i: int)
    requires
        0 <= i < s.len(),
    ensures
        steps(s[i]) <= steps_all(s),
    decreases s.len(),
{
    if i < s.len() - 1 {
        lemma_steps_all_le(s.subrange(0, s.len() - 1), i);
    }
}

proof fn lemma_fail_below(p: Progress, nodes: Seq<Node>, fuel: nat, j: int)
    requires
        doomed(p, nodes, fuel, j),
        j < nodes.len() - 1,
    ensures
        fails(run(p, nodes, fuel)),
    decreases fuel, 2nat,
{
    let k: int = p.tasks.len() - 1;
    let t = p.tasks.last();
    let n = nodes.last();
    assert(fits(p.tasks[k], nodes[k]));
    if !clean(t, n) {
        lemma_fail_top(p, nodes, fuel);
    } else {
        let rest = p.tasks.drop_last();
        let rest_n = nodes.drop_last();
        let s = successor(p, nodes, fuel);
        assert(cost(t, n) >= 1);
        assert(p.tasks[j] == rest[j]);
        assert(nodes[j] == rest_n[j]);
        let entries = n.entries();
        match t {
            TaskView::Root(path, whole) => {
                if n.readable() && n is Dir {
                    let xt = seq![TaskView::Walk(path, whole)];
                    lemma_pending_one(xt[0], n);
                    assert(s.0.tasks =~= rest + xt);
                    assert(s.1 =~= rest_n + seq![n]);
                    lemma_fail_step(p, nodes, fuel, j, s.0, xt, seq![n], j);
                } else {
                    assert(s.0.tasks =~= rest + seq![]);
                    assert(s.1 =~= rest_n + seq![]);
                    lemma_fail_step(p, nodes, fuel, j, s.0, seq![], seq![], j);
                }
            },
            TaskView::File(path) => {
                let xt = seq![TaskView::Unlink(path, n.info().size)];
                lemma_pending_one(xt[0], n);
                assert(s.0.tasks =~= rest + xt);
                assert(s.1 =~= rest_n + seq![n]);
                lemma_fail_step(p, nodes, fuel, j, s.0, xt, seq![n], j);
            },
            TaskView::Entry(path) => {
                let xt = if n is Dir {
                    seq![TaskView::Walk(path, true)]
                } else {
                    seq![TaskView::Unlink(path, n.info().size)]
                };
                lemma_pending_one(xt[0], n);
                assert(xt =~= seq![xt[0]]);
                assert(s.0.tasks =~= rest + xt);
                assert(s.1 =~= rest_n + seq![n]);
                lemma_fail_step(p, nodes, fuel, j, s.0, xt, seq![n], j);
            },
            TaskView::Walk(path, whole) => {
                let own_t: Seq<TaskView> = if whole {
                    seq![TaskView::Rmdir(path)]
                } else {
                    seq![]
                };
                let own_n: Seq<Node> = if whole {
                    seq![n]
                } else {
                    seq![]
                };
                lemma_pending_one(TaskView::Rmdir(path), n);
                assert(pending_cost(own_t, own_n) == (if whole {
                    1nat
                } else {
                    0nat
                }));
                let children = paths_of(entries);
                let xt = if spreads(entries.len(), p.policy.parallel_threshold) {
                    own_t + seq![TaskView::Join(children)]
                } else {
                    own_t + entry_tasks(children)
                };
                let xn = if spreads(entries.len(), p.policy.parallel_threshold) {
                    own_n + seq![n]
                } else {
                    own_n + reversed(entries)
                };
                lemma_pending_one(TaskView::Join(children), n);
                lemma_pending_append(own_t, own_n, seq![TaskView::Join(children)], seq![n]);
                lemma_entries(children, entries);
                lemma_pending_append(own_t, own_n, entry_tasks(children), reversed(entries));
                assert forall|i: int| 0 <= i < xn.len() implies fits(xt[i], #[trigger] xn[i]) by {
                    if i >= own_n.len() && !spreads(entries.len(), p.policy.parallel_threshold) {
                        assert(xt[i] == entry_tasks(children)[i - own_n.len()]);
                    }
                }
                assert(s.0.tasks =~= rest + xt);
                assert(s.1 =~= rest_n + xn);
                lemma_fail_step(p, nodes, fuel, j, s.0, xt, xn, j);
            },
            TaskView::Join(children) => {
                lemma_run_all(children, entries, p.policy, (fuel - 1) as nat);
                assert(s.0.tasks =~= rest + seq![]);
                assert(s.1 =~= rest_n + seq![]);
                lemma_fail_step(p, nodes, fuel, j, s.0, seq![], seq![], j);
            },
            TaskView::Unlink(_, _) => {
                assert(s.0.tasks =~= rest + seq![]);
                assert(s.1 =~= rest_n + seq![]);
                lemma_fail_step(p, nodes, fuel, j, s.0, seq![], seq![], j);
            },
            TaskView::Rmdir(_) => {
                assert(s.0.tasks =~= rest + seq![]);
                assert(s.1 =~= rest_n + seq![]);
                lemma_fail_step(p, nodes, fuel, j, s.0, seq![], seq![], j);
            },
        }
    }
}

} // verus!
