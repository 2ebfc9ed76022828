use vstd::prelude::*;

use crate::engine::{
    ActionView, EntryInfo, EventView, FailureKind, FailureView, Policy, TaskView,
};
use crate::model::{
    contents, contents_all, lemma_fail, lemma_pending_one, lemma_run, lemma_sound_removed,
    removed, removed_all, run, sound, steps, Node,
};
use crate::removal::{idle, starting};
use crate::stats::{lemma_of_merged, DeleteStats, Tally};

verus! {

/// The state in which a tree removal of the directory `t` starts.
pub open spec fn tree_start(t: Node, policy: Policy) -> crate::engine::Progress {
    starting(policy, TaskView::Root(t.path(), true))
}

proof fn lemma_tree(t: Node, policy: Policy)
    requires
        t is Dir,
        t.readable(),
        policy.force || sound(t),
    ensures
        run(tree_start(t, policy), seq![t], steps(t)) == Some(
            Ok::<DeleteStats, FailureView>(DeleteStats::of(removed(t))),
        ),
{
    let p = tree_start(t, policy);
    lemma_pending_one(TaskView::Root(t.path(), true), t);
    assert(seq![t][0] == t);
    lemma_run(p, seq![t], steps(t), Tally::zero());
    assert(Tally::zero().plus(removed(t)) == removed(t));
}

/// Removing a directory tree on which every request succeeds counts every
/// file it held, every directory below it plus the root itself, and the bytes
/// of all its files, as long as those numbers fit the counters.
pub proof fn law_tree_counts(t: Node, policy: Policy)
    requires
        t is Dir,
        sound(t),
        contents(t).files <= usize::MAX,
        contents(t).dirs <= usize::MAX,
        contents(t).bytes <= u64::MAX,
    ensures
        run(tree_start(t, policy), seq![t], steps(t)) == Some(
            Ok::<DeleteStats, FailureView>(
                DeleteStats {
                    files_deleted: contents(t).files as usize,
                    dirs_deleted: (contents_all(t.entries()).dirs + 1) as usize,
                    total_size: contents(t).bytes as u64,
                },
            ),
        ),
{
    lemma_tree(t, policy);
    lemma_sound_removed(t);
}

/// Without force, removing a directory tree on which some request fails ends
/// with a failure: such a removal succeeds exactly when every request does.
pub proof fn law_failure_surfaces(t: Node, policy: Policy)
    requires
        !policy.force,
        t is Dir,
        t.readable(),
        !sound(t),
    ensures
        run(tree_start(t, policy), seq![t], steps(t)) matches Some(Err(_)),
{
    let p = tree_start(t, policy);
    lemma_pending_one(TaskView::Root(t.path(), true), t);
    assert(seq![t][0] == t);
    assert(p.tasks[0] == TaskView::Root(t.path(), true));
    lemma_fail(p, seq![t], steps(t), 0);
}

/// Under force, removing a directory tree whose root can be read succeeds
/// whatever else fails, and the counters hold exactly what the filesystem let
/// go: each removed file and its bytes, each removed directory.
pub proof fn law_forced_removal(t: Node, policy: Policy)
    requires
        policy.force,
        t is Dir,
        t.readable(),
    ensures
        run(tree_start(t, policy), seq![t], steps(t)) == Some(
            Ok::<DeleteStats, FailureView>(DeleteStats::of(removed(t))),
        ),
{
    lemma_tree(t, policy);
}

/// Where the entries of a directory start to run concurrently does not change
/// the outcome of a removal that succeeds or lets failures go.
pub proof fn law_threshold_irrelevant(t: Node, policy: Policy, threshold: usize)
    requires
        t is Dir,
        t.readable(),
        policy.force || sound(t),
    ensures
        run(tree_start(t, policy), seq![t], steps(t)) == run(
            tree_start(t, Policy { parallel_threshold: threshold, ..policy }),
            seq![t],
            steps(t),
        ),
{
    lemma_tree(t, policy);
    lemma_tree(t, Policy { parallel_threshold: threshold, ..policy });
}

/// A tree removal of a path that is missing, or is no directory, only asks to
/// inspect the path and then fails with `NotADirectory`: nothing is removed.
pub proof fn law_not_a_directory(path: Seq<u8>, policy: Policy, cause: Seq<char>, info: EntryInfo)
    requires
        !info.is_dir,
    ensures
        starting(policy, TaskView::Root(path, true)).action() == ActionView::Inspect(path),
        ({
            let after = starting(policy, TaskView::Root(path, true)).next(
                EventView::Inspected(Err(cause)),
            ).0;
            after.finished() && after.outcome() == Err::<DeleteStats, FailureView>(
                FailureView { kind: FailureKind::NotADirectory, path, cause },
            )
        }),
        ({
            let after = starting(policy, TaskView::Root(path, true)).next(
                EventView::Inspected(Ok(info)),
            ).0;
            after.finished() && after.outcome() == Err::<DeleteStats, FailureView>(
                FailureView { kind: FailureKind::NotADirectory, path, cause: Seq::empty() },
            )
        }),
{
    assert(seq![TaskView::Root(path, true)].last() == TaskView::Root(path, true));
}

/// A removal that was not confirmed asks for nothing and reports empty
/// counters.
pub proof fn law_declined(policy: Policy)
    ensures
        idle(policy).finished(),
        idle(policy).action() == ActionView::Finished,
        idle(policy).outcome() == Ok::<DeleteStats, FailureView>(DeleteStats::empty()),
{
}

/// The size counted for a removed file is the one its metadata gave.
pub proof fn law_size_from_metadata(path: Seq<u8>, policy: Policy, size: u64)
    ensures
        ({
            let listed = starting(policy, TaskView::Entry(path)).next(
                EventView::Inspected(Ok(EntryInfo { is_dir: false, size })),
            ).0;
            let after = listed.next(EventView::Removed(Ok(()))).0;
            &&& listed.action() == ActionView::RemoveFile(path)
            &&& after.finished()
            &&& after.outcome() == Ok::<DeleteStats, FailureView>(
                DeleteStats { files_deleted: 1, dirs_deleted: 0, total_size: size },
            )
        }),
{
    let first = starting(policy, TaskView::Entry(path));
    assert(first.tasks.last() == TaskView::Entry(path));
    assert(first.tasks.drop_last() =~= Seq::<TaskView>::empty());
    let listed = first.next(EventView::Inspected(Ok(EntryInfo { is_dir: false, size }))).0;
    assert(listed.tasks =~= seq![TaskView::Unlink(path, size)]);
    assert(listed.tasks.last() == TaskView::Unlink(path, size));
    assert(listed.tasks.drop_last() =~= Seq::<TaskView>::empty());
}

/// What a directory's entries give up, split into two parts anywhere and each
/// counted on its own, merges to what they give up counted in one pass.
pub proof fn law_partition_entries(s: Seq<Node>, k: int)
    requires
        0 <= k <= s.len(),
    ensures
        DeleteStats::of(removed_all(s)) == DeleteStats::of(removed_all(s.subrange(0, k))).merged(
            DeleteStats::of(removed_all(s.subrange(k, s.len() as int))),
        ),
{
    let n: int = s.len() as int;
    lemma_of_merged(removed_all(s.subrange(0, k)), removed_all(s.subrange(k, n)));
    lemma_removed_all_split(s, k);
}

proof fn lemma_removed_all_split(s: Seq<Node>, k: int)
    requires
        0 <= k <= s.len(),
    ensures
        removed_all(s) == removed_all(s.subrange(0, k)).plus(removed_all(s.subrange(k, s.len() as int))),
    decreases s.len(),
{
    let n: int = s.len() as int;
    if k == n {
        assert(s.subrange(0, k) =~= s);
        assert(s.subrange(k, n) =~= Seq::<Node>::empty());
    } else {
        let init = s.subrange(0, n - 1);
        lemma_removed_all_split(init, k);
        assert(init.subrange(0, k) =~= s.subrange(0, k));
        let right = s.subrange(k, n);
        assert(right.subrange(0, right.len() - 1) =~= init.subrange(k, n - 1));
        assert(right[right.len() - 1] == s[n - 1]);
    }
}

} // verus!
