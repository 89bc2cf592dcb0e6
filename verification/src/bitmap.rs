//! A bitmap over 64-bit cells, one bit per tracked object.

use vstd::prelude::*;

verus! {

/// Bits per cell of a [`Bitmap`].
pub const BITMAP_BITS_PER_CELL: usize = 64;

/// How many cells a bitmap of `num` bits needs.
pub fn cell(num: usize) -> (r: usize)
    requires
        num + 63 <= usize::MAX,
    ensures
        r == (num + 63) / 64,
        r * 64 >= num,
    {
    let r = (num + 63) / 64;
    proof {
        vstd::arithmetic::div_mod::lemma_fundamental_div_mod((num + 63) as int, 64);
    }
    r
}

/// A sequence of bits, each settable on its own, packed into `u64` cells.
pub struct Bitmap {
    cells: Vec<u64>,
}

proof fn lemma_cell_bit_ops(c: u64, off: u64, j: u64)
    by (bit_vector)
    requires
        off < 64,
        j < 64,
    ensures
        ((c | (1u64 << off)) >> j) & 1 == if j == off { 1u64 } else { (c >> j) & 1 },
        ((c & !(1u64 << off)) >> j) & 1 == if j == off { 0u64 } else { (c >> j) & 1 },
{
}

impl Bitmap {
    /// Number of bits the bitmap tracks.
    pub closed spec fn len(&self) -> int {
        self.cells@.len() as int * 64
    }

    /// Whether bit `index` is set.
    pub closed spec fn bit(&self, index: int) -> bool {
        (self.cells@[index / 64] >> ((index % 64) as u64)) & 1 == 1
    }

    /// A bitmap of `cell_num` cells, all bits clear.
    pub fn new(cell_num: usize) -> (r: Self)
        ensures
            r.len() == cell_num * 64,
            forall|i: int| 0 <= i < r.len() ==> !r.bit(i),
    {
        let mut cells: Vec<u64> = Vec::new();
        let mut i: usize = 0;
        while i < cell_num
            invariant
                i <= cell_num,
                cells@.len() == i,
                forall|k: int| 0 <= k < i ==> cells@[k] == 0u64,
            decreases cell_num - i,
        {
            cells.push(0);
            i += 1;
        }
        let r = Bitmap { cells };
        proof {
            assert forall|i: int| 0 <= i < r.len() implies !r.bit(i) by {
                vstd::arithmetic::div_mod::lemma_fundamental_div_mod(i, 64);
                let j = (i % 64) as u64;
                assert((0u64 >> j) & 1 == 0) by (bit_vector);
            }
        }
        r
    }

    /// Sets bit `index`; every other bit keeps its value.
    pub fn set(&mut self, index: usize)
        requires
            index < old(self).len(),
        ensures
            final(self).len() == old(self).len(),
            final(self).bit(index as int),
            forall|i: int|
                0 <= i < old(self).len() && i != index ==> final(self).bit(i) == old(
                    self,
                ).bit(i),
    {
        let cell_index = index / 64;
        let offset = index % 64;
        proof {
            vstd::arithmetic::div_mod::lemma_fundamental_div_mod(index as int, 64);
        }
        let c = self.cells[cell_index];
        self.cells.set(cell_index, c | (1u64 << (offset as u64)));
        proof {
            self.lemma_bit_update(*old(self), index as int, true);
        }
    }

    /// Clears bit `index`; every other bit keeps its value.
    pub fn clear(&mut self, index: usize)
        requires
            index < old(self).len(),
        ensures
            final(self).len() == old(self).len(),
            !final(self).bit(index as int),
            forall|i: int|
                0 <= i < old(self).len() && i != index ==> final(self).bit(i) == old(
                    self,
                ).bit(i),
    {
        let cell_index = index / 64;
        let offset = index % 64;
        proof {
            vstd::arithmetic::div_mod::lemma_fundamental_div_mod(index as int, 64);
        }
        let c = self.cells[cell_index];
        self.cells.set(cell_index, c & !(1u64 << (offset as u64)));
        proof {
            self.lemma_bit_update(*old(self), index as int, false);
        }
    }

    /// After one cell was rewritten as by `set` or `clear`, every bit except
    /// the touched one keeps its value.
    proof fn lemma_bit_update(&self, prior: Self, index: int, to_set: bool)
        requires
            0 <= index < prior.len(),
            self.cells@.len() == prior.cells@.len(),
            self.cells@[index / 64] == if to_set {
                prior.cells@[index / 64] | (1u64 << ((index % 64) as u64))
            } else {
                prior.cells@[index / 64] & !(1u64 << ((index % 64) as u64))
            },
            forall|k: int|
                0 <= k < prior.cells@.len() && k != index / 64 ==> self.cells@[k]
                    == prior.cells@[k],
        ensures
            self.bit(index) == to_set,
            forall|i: int| 0 <= i < prior.len() && i != index ==> self.bit(i) == prior.bit(i),
    {
        vstd::arithmetic::div_mod::lemma_fundamental_div_mod(index, 64);
        lemma_cell_bit_ops(
            prior.cells@[index / 64],
            (index % 64) as u64,
            (index % 64) as u64,
        );
        assert forall|i: int| 0 <= i < prior.len() && i != index implies self.bit(i)
            == prior.bit(i) by {
            vstd::arithmetic::div_mod::lemma_fundamental_div_mod(i, 64);
            if i / 64 == index / 64 {
                lemma_cell_bit_ops(
                    prior.cells@[index / 64],
                    (index % 64) as u64,
                    (i % 64) as u64,
                );
            }
        }
    }

    /// Reads bit `index`.
    pub fn get(&self, index: usize) -> (r: bool)
        requires
            index < self.len(),
        ensures
            r == self.bit(index as int),
    {
        let cell_index = index / 64;
        let offset = index % 64;
        proof {
            vstd::arithmetic::div_mod::lemma_fundamental_div_mod(index as int, 64);
        }
        let c = self.cells[cell_index];
        let r = c & (1u64 << (offset as u64)) != 0;
        proof {
            let j = offset as u64;
            assert((c & (1u64 << j) != 0) == ((c >> j) & 1 == 1)) by (bit_vector)
                requires
                    j < 64,
            ;
        }
        r
    }
}

} // verus!
