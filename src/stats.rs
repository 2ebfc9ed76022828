use vstd::prelude::*;

verus! {

/// Exact counts of what a removal did, as mathematical numbers.
pub struct Tally {
    pub files: nat,
    pub dirs: nat,
    pub bytes: nat,
}

impl Tally {
    pub open spec fn zero() -> Tally {
        Tally { files: 0, dirs: 0, bytes: 0 }
    }

    pub open spec fn plus(self, other: Tally) -> Tally {
        Tally {
            files: self.files + other.files,
            dirs: self.dirs + other.dirs,
            bytes: self.bytes + other.bytes,
        }
    }

    /// One removed file of the given size.
    pub open spec fn file(size: nat) -> Tally {
        Tally { files: 1, dirs: 0, bytes: size }
    }

    /// One removed directory.
    pub open spec fn dir() -> Tally {
        Tally { files: 0, dirs: 1, bytes: 0 }
    }
}

pub open spec fn cap(n: nat, max: nat) -> nat {
    if n > max {
        max
    } else {
        n
    }
}

/// What was removed: files, directories and the bytes the removed files held.
///
/// Each counter stops at its type's maximum instead of wrapping.
#[derive(Debug, Clone, Copy, PartialEq, Eq, Structural)]
pub struct DeleteStats {
    pub files_deleted: usize,
    pub dirs_deleted: usize,
    pub total_size: u64,
}

impl DeleteStats {
    pub open spec fn empty() -> DeleteStats {
        DeleteStats { files_deleted: 0, dirs_deleted: 0, total_size: 0 }
    }

    /// The counters that stand for an exact tally.
    pub open spec fn of(t: Tally) -> DeleteStats {
        DeleteStats {
            files_deleted: cap(t.files, usize::MAX as nat) as usize,
            dirs_deleted: cap(t.dirs, usize::MAX as nat) as usize,
            total_size: cap(t.bytes, u64::MAX as nat) as u64,
        }
    }

    pub open spec fn tally(self) -> Tally {
        Tally {
            files: self.files_deleted as nat,
            dirs: self.dirs_deleted as nat,
            bytes: self.total_size as nat,
        }
    }

    /// Field-wise sum, each field saturating.
    pub open spec fn merged(self, other: DeleteStats) -> DeleteStats {
        DeleteStats::of(self.tally().plus(other.tally()))
    }

    pub fn new() -> (r: DeleteStats)
        ensures
            r == DeleteStats::empty(),
    {
        DeleteStats { files_deleted: 0, dirs_deleted: 0, total_size: 0 }
    }

    /// Adds the counts of `other` to these.
    pub fn merge(&mut self, other: DeleteStats)
        ensures
            *final(self) == old(self).merged(other),
    {
        self.files_deleted = self.files_deleted.saturating_add(other.files_deleted);
        self.dirs_deleted = self.dirs_deleted.saturating_add(other.dirs_deleted);
        self.total_size = self.total_size.saturating_add(other.total_size);
    }

    /// Counts one removed file of `size` bytes.
    pub fn add_file(&mut self, size: u64)
        ensures
            *final(self) == DeleteStats::of(old(self).tally().plus(Tally::file(size as nat))),
    {
        self.files_deleted = self.files_deleted.saturating_add(1);
        self.total_size = self.total_size.saturating_add(size);
    }

    /// Counts one removed directory.
    pub fn add_dir(&mut self)
        ensures
            *final(self) == DeleteStats::of(old(self).tally().plus(Tally::dir())),
    {
        self.dirs_deleted = self.dirs_deleted.saturating_add(1);
    }
}

impl Default for DeleteStats {
    fn default() -> (r: DeleteStats)
        ensures
            r == DeleteStats::empty(),
    {
        DeleteStats::new()
    }
}

/// Capping a running total after each addition gives the cap of the whole sum.
pub proof fn lemma_of_plus(a: Tally, b: Tally)
    ensures
        DeleteStats::of(DeleteStats::of(a).tally().plus(b)) == DeleteStats::of(a.plus(b)),
{
}

/// Merging the capped counters of two tallies caps their sum.
pub proof fn lemma_of_merged(a: Tally, b: Tally)
    ensures
        DeleteStats::of(a).merged(DeleteStats::of(b)) == DeleteStats::of(a.plus(b)),
{
}

/// Merging is associative: partial results may be combined in any grouping.
pub proof fn lemma_merge_associative(a: DeleteStats, b: DeleteStats, c: DeleteStats)
    ensures
        a.merged(b).merged(c) == a.merged(b.merged(c)),
{
}

/// Merging is commutative: partial results may be combined in any order.
pub proof fn lemma_merge_commutative(a: DeleteStats, b: DeleteStats)
    ensures
        a.merged(b) == b.merged(a),
{
}

/// The empty counters are neutral for merging.
pub proof fn lemma_merge_empty(a: DeleteStats)
    ensures
        a.merged(DeleteStats::empty()) == a,
        DeleteStats::empty().merged(a) == a,
{
}

/// Counters merged left to right, starting from the empty counters.
pub open spec fn merge_all(parts: Seq<DeleteStats>) -> DeleteStats
    decreases parts.len(),
{
    if parts.len() == 0 {
        DeleteStats::empty()
    } else {
        merge_all(parts.drop_last()).merged(parts.last())
    }
}

/// Merging the parts of any split of a sequence of partial counters, and then
/// merging the two results, gives the counters of the whole sequence.
pub proof fn lemma_merge_partition(parts: Seq<DeleteStats>, k: int)
    requires
        0 <= k <= parts.len(),
    ensures
        merge_all(parts) == merge_all(parts.subrange(0, k)).merged(
            merge_all(parts.subrange(k, parts.len() as int)),
        ),
    decreases parts.len(),
{
    let n: int = parts.len() as int;
    if k == n {
        assert(parts.subrange(0, k) =~= parts);
        assert(parts.subrange(k, n) =~= Seq::<DeleteStats>::empty());
        lemma_merge_empty(merge_all(parts));
    } else {
        let init = parts.drop_last();
        lemma_merge_partition(init, k);
        assert(init.subrange(0, k) =~= parts.subrange(0, k));
        let right = parts.subrange(k, n);
        assert(right.drop_last() =~= init.subrange(k, n - 1));
        assert(right.last() == parts.last());
        lemma_merge_associative(
            merge_all(parts.subrange(0, k)),
            merge_all(init.subrange(k, n - 1)),
            parts.last(),
        );
    }
}

} // verus!
