//! A refillable pool of copyable values, as used for process identifiers:
//! values are taken from the tail and returned there, and an empty pool is
//! refilled with a fresh batch.

use vstd::prelude::*;

verus! {

/// A stack of spare values with a count of the batches minted so far.
/// The stack never grows past one batch: a value returned to a full pool
/// is dropped, as the original's fixed array drops it.
pub struct ArrayPool {
    /// The spare values; the tail is handed out first.
    pub array: Vec<usize>,
    /// How many values a refill mints, and the most the pool stores.
    pub batch: usize,
    /// Completed refills.
    pub fill_count: usize,
}

impl ArrayPool {
    /// An empty pool that refills `batch` values at a time.
    pub fn new(batch: usize) -> (r: Self)
        requires
            0 < batch,
        ensures
            r.array@.len() == 0,
            r.batch == batch,
            r.fill_count == 0,
    {
        ArrayPool { array: Vec::new(), batch, fill_count: 0 }
    }

    /// Mints the next batch: exactly the values one past the batches
    /// minted so far, descending, so no two refills ever produce the same
    /// value and the tail hands out the smallest first.
    pub fn fill_with(&mut self)
        requires
            0 < old(self).batch,
            old(self).batch * (old(self).fill_count + 1) + 1 <= usize::MAX,
        ensures
            final(self).array@.len() == old(self).array@.len() + old(self).batch,
            final(self).fill_count == old(self).fill_count + 1,
            final(self).batch == old(self).batch,
            forall|k: int|
                old(self).array@.len() <= k < final(self).array@.len()
                    ==> (#[trigger] final(self).array@[k]) == old(self).batch * old(
                    self,
                ).fill_count + 1 + (k - old(self).array@.len()),
            forall|k: int|
                0 <= k < old(self).array@.len() ==> final(self).array@[k] == old(self).array@[k],
    {
        proof {
            assert(self.batch * self.fill_count + self.batch == self.batch * (self.fill_count
                + 1)) by (nonlinear_arith);
            assert(self.batch * self.fill_count >= 0) by (nonlinear_arith)
                requires self.batch >= 0 && self.fill_count >= 0;
        }
        let base = self.batch * self.fill_count + 1;
        let mut i: usize = 0;
        let ghost len0 = self.array@.len();
        while i < self.batch
            invariant
                i <= self.batch,
                base + self.batch <= usize::MAX,
                base >= 1,
                self.array@.len() == len0 + i,
                base == old(self).batch * old(self).fill_count + 1,
                forall|k: int|
                    len0 <= k < len0 + i ==> (#[trigger] self.array@[k]) == base + (k - len0),
                forall|k: int| 0 <= k < len0 ==> self.array@[k] == old(self).array@[k],
                self.batch == old(self).batch,
                self.fill_count == old(self).fill_count,
            decreases self.batch - i,
        {
            self.array.push(base + i);
            i += 1;
        }
        proof {
            assert(self.fill_count + 1 <= self.batch * (self.fill_count + 1))
                by (nonlinear_arith)
                requires self.batch >= 1 && self.fill_count >= 0;
        }
        self.fill_count = self.fill_count + 1;
    }

    /// Takes a value: the tail of the pool, after minting a fresh batch of
    /// never-issued values when the pool is empty.
    pub fn take(&mut self) -> (r: usize)
        requires
            old(self).batch > 0,
            old(self).batch * (old(self).fill_count + 1) + 1 <= usize::MAX,
        ensures
            final(self).batch == old(self).batch,
            old(self).array@.len() > 0 ==> r == old(self).array@.last() && final(self).array@
                == old(self).array@.drop_last() && final(self).fill_count == old(
                self,
            ).fill_count,
            old(self).array@.len() == 0 ==> r == old(self).batch * old(self).fill_count + 1
                + (old(self).batch - 1) && final(self).array@.len() == old(self).batch - 1
                && final(self).fill_count == old(self).fill_count + 1 && (forall|k: int|
                0 <= k < final(self).array@.len() ==> (#[trigger] final(self).array@[k]) == old(
                    self,
                ).batch * old(self).fill_count + 1 + k),
    {
        if self.array.len() == 0 {
            self.fill_with();
        }
        match self.array.pop() {
            Some(v) => v,
            None => {
                proof {
                    assert(false);
                }
                1
            },
        }
    }

    /// Returns a value to the pool; a pool already holding a full batch
    /// drops it, as the original's fixed array does.
    pub fn free(&mut self, val: usize)
        ensures
            final(self).batch == old(self).batch,
            final(self).fill_count == old(self).fill_count,
            old(self).array@.len() < old(self).batch ==> final(self).array@ == old(
                self,
            ).array@.push(val),
            old(self).array@.len() >= old(self).batch ==> final(self).array@ == old(
                self,
            ).array@,
    {
        if self.array.len() < self.batch {
            self.array.push(val);
        }
    }
}

} // verus!
