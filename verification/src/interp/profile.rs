//! Loop trip counts.
//!
//! The interpreter counts every run of a loop body under the index of the
//! loop's first operation. Afterwards the profile tells which loops are hot.

use vstd::prelude::*;

verus! {

/// Trip counts by the index of the loop's first operation.
#[derive(Debug, Clone)]
pub struct LoopProfile {
    counts: Vec<u64>,
    threshold: u64,
}

/// The loops among the first `n` operations that ran at least `threshold`
/// times, with their counts.
pub open spec fn hot_upto(counts: Seq<u64>, threshold: u64, n: int) -> Seq<(u32, u64)>
    decreases n,
{
    if n <= 0 {
        Seq::empty()
    } else if counts[n - 1] >= threshold {
        hot_upto(counts, threshold, n - 1).push(((n - 1) as u32, counts[n - 1]))
    } else {
        hot_upto(counts, threshold, n - 1)
    }
}

impl LoopProfile {
    /// The count of each operation.
    pub closed spec fn trips(self) -> Seq<u64> {
        self.counts@
    }

    /// From how many trips on a loop is hot.
    pub closed spec fn hot_from(self) -> u64 {
        self.threshold
    }

    /// A profile of `num_ops` operations in which nothing has run.
    pub fn new(num_ops: usize, threshold: u64) -> (p: Self)
        ensures
            p.trips() == Seq::new(num_ops as nat, |i: int| 0u64),
            p.hot_from() == threshold,
    {
        let p = LoopProfile { counts: vec![0; num_ops], threshold };
        assert(p.counts@ =~= Seq::new(num_ops as nat, |i: int| 0u64));
        p
    }

    /// Count one run of the body of the loop at `start_pc`.
    pub fn record_loop_iter(&mut self, start_pc: u32)
        requires
            start_pc < old(self).trips().len(),
            old(self).trips()[start_pc as int] < u64::MAX,
        ensures
            final(self).trips() == old(self).trips().update(
                start_pc as int,
                (old(self).trips()[start_pc as int] + 1) as u64,
            ),
            final(self).hot_from() == old(self).hot_from(),
    {
        let i = start_pc as usize;
        let n = self.counts[i];
        self.counts.set(i, n + 1);
    }

    /// How often the body of the loop at `start_pc` has run.
    pub fn trip_count(&self, start_pc: u32) -> (n: u64)
        requires
            start_pc < self.trips().len(),
        ensures
            n == self.trips()[start_pc as int],
    {
        self.counts[start_pc as usize]
    }

    /// The loops that ran at least as often as the threshold says, with their
    /// counts.
    pub fn hot_loops(&self) -> (hot: Vec<(u32, u64)>)
        ensures
            hot@ == hot_upto(self.trips(), self.hot_from(), self.trips().len() as int),
    {
        let mut hot: Vec<(u32, u64)> = Vec::new();
        let mut i: usize = 0;
        while i < self.counts.len()
            invariant
                i <= self.counts.len(),
                hot@ == hot_upto(self.counts@, self.threshold, i as int),
            decreases self.counts.len() - i,
        {
            let count = self.counts[i];
            if count >= self.threshold {
                hot.push((#[verifier::truncate] (i as u32), count));
            }
            i += 1;
        }
        hot
    }

    /// From how many trips on a loop is hot.
    pub fn threshold(&self) -> (n: u64)
        ensures
            n == self.hot_from(),
    {
        self.threshold
    }
}

/// A loop is listed as hot if and only if it ran at least as often as the
/// threshold says.
pub proof fn law_hot_means_threshold(counts: Seq<u64>, threshold: u64, pc: int)
    requires
        0 <= pc < counts.len() <= u32::MAX,
    ensures
        hot_upto(counts, threshold, counts.len() as int).contains((pc as u32, counts[pc]))
            <==> counts[pc] >= threshold,
{
    lemma_hot(counts, threshold, counts.len() as int, pc);
}

proof fn lemma_hot(counts: Seq<u64>, threshold: u64, n: int, pc: int)
    requires
        0 <= n <= counts.len() <= u32::MAX,
        0 <= pc < counts.len(),
    ensures
        hot_upto(counts, threshold, n).contains((pc as u32, counts[pc])) <==> (pc < n && counts[pc]
            >= threshold),
    decreases n,
{
    if n > 0 {
        lemma_hot(counts, threshold, n - 1, pc);
        let before = hot_upto(counts, threshold, n - 1);
        let item = (pc as u32, counts[pc]);
        if counts[n - 1] >= threshold {
            let last = ((n - 1) as u32, counts[n - 1]);
            let after = before.push(last);
            if before.contains(item) {
                let k = choose|k: int| 0 <= k < before.len() && before[k] == item;
                assert(after[k] == item);
            }
            if pc == n - 1 {
                assert(after[before.len() as int] == item);
            }
            if after.contains(item) {
                let k = choose|k: int| 0 <= k < after.len() && after[k] == item;
                if k < before.len() {
                    assert(before[k] == item);
                } else {
                    assert(item == last);
                }
            }
        }
    }
}

} // verus!
