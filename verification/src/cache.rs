//! Buffered block layer: a block cache with pinning and eviction by
//! release stamp, and a write-ahead log with group commit.
//!
//! The block device is the `Disk` value the cache owns: a verified model
//! of a fixed array of 512-byte blocks that counts its reads and writes.

use vstd::prelude::*;

verus! {

use crate::BLOCK_SIZE;

/// Most distinct blocks one operation context may sync.
pub const OP_MAX_NUM_BLOCKS: usize = 10;

/// How many most-recently-released blocks the cache keeps safe from
/// eviction.
pub const EVICTION_THRESHOLD: usize = 10;

/// Entries of the on-disk log header: what fits in one block after its
/// count word.
pub const LOG_MAX_SIZE: usize = 63;

/// The on-disk layout, read from block 1.
pub struct SuperBlock {
    /// Total blocks in the file system.
    pub num_blocks: u32,
    /// Blocks of the data region.
    pub num_data_blocks: u32,
    /// Inodes on disk.
    pub num_inodes: u32,
    /// Blocks of the log region, its header block included.
    pub num_log_blocks: u32,
    /// First block of the log region.
    pub log_start: u32,
    /// First block of the inode region.
    pub inode_start: u32,
    /// First block of the bitmap region.
    pub bitmap_start: u32,
}

/// The log's on-disk header: how many blocks the log holds and where each
/// one belongs.
pub struct LogHeader {
    /// Blocks in the log; 0 outside a commit.
    pub num_blocks: usize,
    /// Home location of each logged block.
    pub block_no: Vec<usize>,
}

/// A fixed array of 512-byte blocks that counts the traffic it sees.
pub struct Disk {
    /// The blocks.
    pub blocks: Vec<Vec<u8>>,
    /// Completed reads.
    pub reads: usize,
    /// Completed writes.
    pub writes: usize,
}

impl Disk {
    /// Every block present and 512 bytes long.
    pub open spec fn wf(self) -> bool {
        forall|i: int| 0 <= i < self.blocks@.len() ==> (#[trigger] self.blocks@[i])@.len()
            == BLOCK_SIZE
    }

    /// A disk of `n` zeroed blocks.
    pub fn new(n: usize) -> (r: Self)
        ensures
            r.wf(),
            r.blocks@.len() == n,
            r.reads == 0,
            r.writes == 0,
            forall|i: int, b: int|
                0 <= i < n && 0 <= b < BLOCK_SIZE ==> #[trigger] r.blocks@[i]@[b] == 0,
    {
        let mut blocks: Vec<Vec<u8>> = Vec::new();
        let mut i: usize = 0;
        while i < n
            invariant
                i <= n,
                blocks@.len() == i,
                forall|k: int| 0 <= k < i ==> (#[trigger] blocks@[k])@.len() == BLOCK_SIZE,
                forall|k: int, b: int|
                    0 <= k < i && 0 <= b < BLOCK_SIZE ==> #[trigger] blocks@[k]@[b] == 0,
            decreases n - i,
        {
            let mut blk: Vec<u8> = Vec::new();
            let mut b: usize = 0;
            while b < BLOCK_SIZE
                invariant
                    b <= BLOCK_SIZE,
                    blk@.len() == b,
                    forall|j: int| 0 <= j < b ==> blk@[j] == 0,
                decreases BLOCK_SIZE - b,
            {
                blk.push(0);
                b += 1;
            }
            blocks.push(blk);
            i += 1;
        }
        Disk { blocks, reads: 0, writes: 0 }
    }

    /// Reads one block.
    pub fn read(&mut self, block_no: usize) -> (r: Vec<u8>)
        requires
            old(self).wf(),
            block_no < old(self).blocks@.len(),
        ensures
            final(self).wf(),
            r@ == old(self).blocks@[block_no as int]@,
            final(self).blocks@ == old(self).blocks@,
            old(self).reads < usize::MAX ==> final(self).reads == old(self).reads + 1,
            final(self).writes == old(self).writes,
    {
        proof {
            assert(self.blocks@[block_no as int]@.len() == BLOCK_SIZE);
        }
        let r = clone_bytes(&self.blocks[block_no]);
        if self.reads < usize::MAX {
            self.reads = self.reads + 1;
        }
        r
    }

    /// Writes one block.
    pub fn write(&mut self, block_no: usize, buf: &Vec<u8>)
        requires
            old(self).wf(),
            block_no < old(self).blocks@.len(),
            buf@.len() == BLOCK_SIZE,
        ensures
            final(self).wf(),
            final(self).blocks@.len() == old(self).blocks@.len(),
            final(self).blocks@[block_no as int]@ == buf@,
            forall|i: int|
                0 <= i < old(self).blocks@.len() && i != block_no ==> final(self).blocks@[i]
                    == old(self).blocks@[i],
            final(self).reads == old(self).reads,
            old(self).writes < usize::MAX ==> final(self).writes == old(self).writes + 1,
    {
        let copy = clone_bytes(buf);
        self.blocks.set(block_no, copy);
        if self.writes < usize::MAX {
            self.writes = self.writes + 1;
        }
    }
}

/// Copies a byte vector.
fn clone_bytes(src: &Vec<u8>) -> (r: Vec<u8>)
    ensures
        r@ == src@,
{
    let mut r: Vec<u8> = Vec::new();
    let mut i: usize = 0;
    while i < src.len()
        invariant
            i <= src@.len(),
            r@ == src@.subrange(0, i as int),
        decreases src@.len() - i,
    {
        r.push(src[i]);
        i += 1;
    }
    proof {
        assert(src@.subrange(0, src@.len() as int) =~= src@);
    }
    r
}

} // verus!
verus! {

use vstd::bytes::{spec_u64_from_le_bytes, spec_u64_to_le_bytes, u64_from_le_bytes, u64_to_le_bytes};
use vstd::slice::slice_subrange;

/// The log header laid out in its block: the count word, then one word
/// per logged block, then zero padding to the block size.
pub open spec fn spec_encode_header(n: int, homes: Seq<int>) -> Seq<u8> {
    spec_u64_to_le_bytes(n as u64) + spec_encode_homes(homes)
        + Seq::new((BLOCK_SIZE - 8 - 8 * homes.len()) as nat, |i: int| 0u8)
}

/// The logged blocks' home numbers as packed words.
pub open spec fn spec_encode_homes(homes: Seq<int>) -> Seq<u8>
    decreases homes.len(),
{
    if homes.len() == 0 {
        Seq::empty()
    } else {
        spec_u64_to_le_bytes(homes[0] as u64) + spec_encode_homes(homes.drop_first())
    }
}

proof fn lemma_encode_homes_len(homes: Seq<int>)
    ensures
        spec_encode_homes(homes).len() == 8 * homes.len(),
    decreases homes.len(),
{
    vstd::bytes::lemma_auto_spec_u64_to_from_le_bytes();
    if homes.len() > 0 {
        lemma_encode_homes_len(homes.drop_first());
    }
}

proof fn lemma_encode_homes_index(homes: Seq<int>, i: int)
    requires
        0 <= i < homes.len(),
    ensures
        spec_encode_homes(homes).subrange(8 * i, 8 * i + 8) == spec_u64_to_le_bytes(
            homes[i] as u64,
        ),
    decreases i,
{
    lemma_encode_homes_len(homes);
    vstd::bytes::lemma_auto_spec_u64_to_from_le_bytes();
    if i == 0 {
        lemma_encode_homes_len(homes.drop_first());
        assert(spec_encode_homes(homes).subrange(0, 8) =~= spec_u64_to_le_bytes(
            homes[0] as u64,
        ));
    } else {
        lemma_encode_homes_index(homes.drop_first(), i - 1);
        lemma_encode_homes_len(homes.drop_first());
        assert(spec_encode_homes(homes).subrange(8 * i, 8 * i + 8)
            =~= spec_encode_homes(homes.drop_first()).subrange(8 * (i - 1), 8 * (i - 1) + 8));
    }
}

/// Writes the log header into a 512-byte block image.
fn encode_header(n: usize, homes: &Vec<usize>) -> (r: Vec<u8>)
    requires
        homes@.len() <= LOG_MAX_SIZE,
        n <= homes@.len(),
    ensures
        r@ == spec_encode_header(n as int, homes@.map_values(|x: usize| x as int)),
        r@.len() == BLOCK_SIZE,
{
    let ghost ih = homes@.map_values(|x: usize| x as int);
    let mut r = u64_to_le_bytes(n as u64);
    let mut i: usize = 0;
    while i < homes.len()
        invariant
            i <= homes@.len(),
            homes@.len() <= LOG_MAX_SIZE,
            ih == homes@.map_values(|x: usize| x as int),
            r@ == spec_u64_to_le_bytes(n as u64) + spec_encode_homes(ih.take(i as int)),
        decreases homes@.len() - i,
    {
        let w = u64_to_le_bytes(homes[i] as u64);
        let ghost r0 = r@;
        let mut k: usize = 0;
        while k < 8
            invariant
                k <= 8,
                w@.len() == 8,
                w@ == spec_u64_to_le_bytes(homes@[i as int] as u64),
                i < homes@.len(),
                r@ == r0 + w@.subrange(0, k as int),
            decreases 8 - k,
        {
            r.push(w[k]);
            k += 1;
        }
        proof {
            assert(w@.subrange(0, 8) =~= w@);
            lemma_encode_homes_snoc(ih.take(i as int + 1));
            assert(ih.take(i as int + 1).drop_last() =~= ih.take(i as int));
            assert(r0 + w@ =~= spec_u64_to_le_bytes(n as u64) + (spec_encode_homes(
                ih.take(i as int),
            ) + spec_u64_to_le_bytes(ih[i as int] as u64)));
        }
        i += 1;
    }
    proof {
        assert(ih.take(homes@.len() as int) =~= ih);
        lemma_encode_homes_len(ih);
        vstd::bytes::lemma_auto_spec_u64_to_from_le_bytes();
    }
    let target = 8 + 8 * homes.len();
    let ghost r1 = r@;
    let mut pad: usize = 0;
    while pad < BLOCK_SIZE - target
        invariant
            target == 8 + 8 * homes@.len(),
            target <= BLOCK_SIZE,
            pad <= BLOCK_SIZE - target,
            r@ == r1 + Seq::new(pad as nat, |j: int| 0u8),
            r1.len() == target,
        decreases BLOCK_SIZE - target - pad,
    {
        r.push(0);
        proof {
            assert(r1 + Seq::new((pad + 1) as nat, |j: int| 0u8) =~= (r1 + Seq::new(
                pad as nat,
                |j: int| 0u8,
            )).push(0u8));
        }
        pad += 1;
    }
    proof {
        assert(r@ =~= spec_encode_header(n as int, ih));
    }
    r
}

proof fn lemma_encode_homes_snoc(homes: Seq<int>)
    requires
        homes.len() > 0,
    ensures
        spec_encode_homes(homes) == spec_encode_homes(homes.drop_last()) + spec_u64_to_le_bytes(
            homes.last() as u64,
        ),
    decreases homes.len(),
{
    if homes.len() == 1 {
        assert(homes.drop_last() =~= Seq::<int>::empty());
        assert(spec_encode_homes(homes.drop_first()) =~= Seq::<u8>::empty());
        assert(spec_encode_homes(homes) =~= spec_u64_to_le_bytes(homes[0] as u64));
        assert(spec_encode_homes(homes.drop_last()) + spec_u64_to_le_bytes(homes.last() as u64)
            =~= spec_u64_to_le_bytes(homes[0] as u64));
    } else {
        lemma_encode_homes_snoc(homes.drop_first());
        assert(homes.drop_first().drop_last() =~= homes.drop_last().drop_first());
        assert(homes.drop_last()[0] == homes[0]);
        assert(homes.drop_first().last() == homes.last());
        assert(spec_u64_to_le_bytes(homes[0] as u64) + (spec_encode_homes(
            homes.drop_last().drop_first(),
        ) + spec_u64_to_le_bytes(homes.last() as u64)) =~= (spec_u64_to_le_bytes(homes[0] as u64)
            + spec_encode_homes(homes.drop_last().drop_first())) + spec_u64_to_le_bytes(
            homes.last() as u64,
        ));
    }
}

/// Reads the header count back out of a header block image.
fn decode_count(bytes: &Vec<u8>) -> (n: u64)
    requires
        bytes@.len() == BLOCK_SIZE,
    ensures
        n == spec_u64_from_le_bytes(bytes@.subrange(0, 8)),
{
    u64_from_le_bytes(slice_subrange(bytes.as_slice(), 0, 8))
}

/// Reads the `i`th home number back out of a header block image.
fn decode_home(bytes: &Vec<u8>, i: usize) -> (b: u64)
    requires
        bytes@.len() == BLOCK_SIZE,
        i < LOG_MAX_SIZE,
    ensures
        b == spec_u64_from_le_bytes(bytes@.subrange(8 + 8 * i, 16 + 8 * i)),
{
    u64_from_le_bytes(slice_subrange(bytes.as_slice(), 8 + 8 * i, 16 + 8 * i))
}

} // verus!
verus! {

/// One cache slot.
pub struct Block {
    /// Which disk block the slot holds.
    pub block_no: usize,
    /// Whether a caller holds the slot exclusively.
    pub acquired: bool,
    /// Whether the slot is pinned against eviction by the log.
    pub pinned: bool,
    /// Whether the slot holds a block at all.
    pub valid: bool,
    /// Whether the slot is newer than the disk.
    pub dirty: bool,
    /// Release stamp; eviction takes the smallest.
    pub last_release: usize,
    /// The block's bytes.
    pub data: Vec<u8>,
}

impl Block {
    /// An empty slot.
    pub fn new() -> (r: Self)
        ensures
            !r.valid && !r.acquired && !r.pinned && !r.dirty,
            r.data@.len() == BLOCK_SIZE,
            forall|i: int| 0 <= i < BLOCK_SIZE ==> r.data@[i] == 0,
    {
        let mut data: Vec<u8> = Vec::new();
        let mut b: usize = 0;
        while b < BLOCK_SIZE
            invariant
                b <= BLOCK_SIZE,
                data@.len() == b,
                forall|j: int| 0 <= j < b ==> data@[j] == 0,
            decreases BLOCK_SIZE - b,
        {
            data.push(0);
            b += 1;
        }
        Block {
            block_no: 0,
            acquired: false,
            pinned: false,
            valid: false,
            dirty: false,
            last_release: 0,
            data,
        }
    }

    /// Zeroes the slot's bytes.
    pub fn fill_zero(&mut self)
        requires
            old(self).data@.len() == BLOCK_SIZE,
        ensures
            final(self).data@.len() == BLOCK_SIZE,
            forall|i: int| 0 <= i < BLOCK_SIZE ==> final(self).data@[i] == 0,
            final(self).block_no == old(self).block_no,
            final(self).acquired == old(self).acquired,
            final(self).pinned == old(self).pinned,
            final(self).valid == old(self).valid,
            final(self).dirty == old(self).dirty,
            final(self).last_release == old(self).last_release,
    {
        let mut i: usize = 0;
        while i < BLOCK_SIZE
            invariant
                i <= BLOCK_SIZE,
                self.data@.len() == BLOCK_SIZE,
                forall|j: int| 0 <= j < i ==> self.data@[j] == 0,
                self.block_no == old(self).block_no,
                self.acquired == old(self).acquired,
                self.pinned == old(self).pinned,
                self.valid == old(self).valid,
                self.dirty == old(self).dirty,
                self.last_release == old(self).last_release,
            decreases BLOCK_SIZE - i,
        {
            self.data.set(i, 0);
            i += 1;
        }
    }
}

/// A handle for one atomic multi-block operation.
pub struct OpContext {
    /// Ticket of the group the operation joined.
    pub ts: usize,
    /// The distinct blocks this operation has synced.
    pub blocks: Vec<usize>,
}

impl OpContext {
    /// A handle that has joined no group yet.
    pub fn new() -> (r: Self)
        ensures
            r.ts == 0,
            r.blocks@.len() == 0,
    {
        OpContext { ts: 0, blocks: Vec::new() }
    }
}

/// The block cache over its disk, with the write-ahead log's bookkeeping.
pub struct BlockCacheImpl {
    /// On-disk layout.
    pub sblock: SuperBlock,
    /// The device.
    pub disk: Disk,
    /// The cache slots.
    pub slots: Vec<Block>,
    /// Next release stamp.
    pub stamp: usize,
    /// Open operations in the current group.
    pub outstanding: usize,
    /// Distinct blocks synced by the group, not yet checkpointed.
    pub pending: Vec<usize>,
    /// Next group ticket.
    pub next_ts: usize,
}

impl BlockCacheImpl {
    /// The layout invariants plus the cache's: slots hold 512 bytes for
    /// blocks inside the disk, a block sits in at most one slot, a clean
    /// slot agrees with the disk, and the uncommitted set stays under the
    /// log's capacity with every member dirty and pinned in some slot.
    pub open spec fn wf(self) -> bool {
        &&& self.disk.wf()
        &&& self.disk.blocks@.len() == self.sblock.num_blocks
        &&& 2 <= self.sblock.log_start
        &&& self.sblock.num_log_blocks >= 2
        &&& self.sblock.num_log_blocks <= LOG_MAX_SIZE + 1
        &&& self.sblock.log_start + self.sblock.num_log_blocks <= self.sblock.num_blocks
        &&& forall|i: int|
            0 <= i < self.slots@.len() ==> (#[trigger] self.slots@[i]).data@.len() == BLOCK_SIZE
        &&& forall|i: int|
            0 <= i < self.slots@.len() && (#[trigger] self.slots@[i]).valid
                ==> self.slots@[i].block_no < self.sblock.num_blocks && !(self.sblock.log_start
                <= self.slots@[i].block_no < self.sblock.log_start
                + self.sblock.num_log_blocks)
        &&& forall|i: int, j: int|
            0 <= i < j < self.slots@.len() && (#[trigger] self.slots@[i]).valid
                && (#[trigger] self.slots@[j]).valid ==> self.slots@[i].block_no
                != self.slots@[j].block_no
        &&& forall|i: int|
            0 <= i < self.slots@.len() && (#[trigger] self.slots@[i]).valid
                && !self.slots@[i].dirty ==> self.slots@[i].data@ == self.disk.blocks@[
                self.slots@[i].block_no as int]@
        &&& forall|i: int|
            0 <= i < self.slots@.len() && ((#[trigger] self.slots@[i]).pinned
                || self.slots@[i].dirty) ==> self.slots@[i].valid
        &&& self.pending@.len() <= self.sblock.num_log_blocks - 1
        &&& forall|a: int, b: int|
            0 <= a < b < self.pending@.len() ==> (#[trigger] self.pending@[a])
                != (#[trigger] self.pending@[b])
        &&& forall|a: int|
            0 <= a < self.pending@.len() ==> slot_logged(self.slots@, #[trigger] self.pending@[a])
        &&& forall|a: int|
            0 <= a < self.pending@.len() ==> self.sblock.log_start + self.sblock.num_log_blocks
                <= (#[trigger] self.pending@[a]) < self.sblock.num_blocks
    }

        /// What an operation handle may hold between `begin_op` and `end_op`:
    /// at most its share of distinct blocks, each of them uncommitted.
    pub open spec fn ctx_ok(self, ctx: OpContext) -> bool {
        &&& ctx.blocks@.len() <= OP_MAX_NUM_BLOCKS
        &&& forall|a: int, b: int|
            0 <= a < b < ctx.blocks@.len() ==> (#[trigger] ctx.blocks@[a])
                != (#[trigger] ctx.blocks@[b])
        &&& forall|a: int|
            0 <= a < ctx.blocks@.len() ==> self.pending@.contains(#[trigger] ctx.blocks@[a])
    }

    /// A cache over a fresh view of the device.
    pub fn init_bcache(sblock: SuperBlock, disk: Disk) -> (r: Self)
        requires
            disk.wf(),
            disk.blocks@.len() == sblock.num_blocks,
            2 <= sblock.log_start,
            2 <= sblock.num_log_blocks <= LOG_MAX_SIZE + 1,
            sblock.log_start + sblock.num_log_blocks <= sblock.num_blocks,
        ensures
            r.wf(),
            r.slots@.len() == 0,
            r.pending@.len() == 0,
            r.outstanding == 0,
            r.disk == disk,
            r.sblock == sblock,
    {
        BlockCacheImpl {
            sblock,
            disk,
            slots: Vec::new(),
            stamp: 0,
            outstanding: 0,
            pending: Vec::new(),
            next_ts: 1,
        }
    }

    /// How many blocks the cache holds.
    pub fn get_num_cached_blocks(&self) -> (r: usize)
        ensures
            r == spec_count_valid(self.slots@),
    {
        let mut count: usize = 0;
        let mut i: usize = 0;
        while i < self.slots.len()
            invariant
                i <= self.slots@.len(),
                count <= i,
                count == spec_count_valid(self.slots@.take(i as int)),
            decreases self.slots@.len() - i,
        {
            proof {
                assert(self.slots@.take(i as int + 1).drop_last() =~= self.slots@.take(
                    i as int,
                ));
                assert(self.slots@.take(i as int + 1).last() == self.slots@[i as int]);
            }
            if self.slots[i].valid {
                count += 1;
            }
            i += 1;
        }
        proof {
            assert(self.slots@.take(self.slots@.len() as int) =~= self.slots@);
        }
        count
    }

    /// The slot caching `block_no`, if any.
    fn find_slot(&self, block_no: usize) -> (r: Option<usize>)
        ensures
            match r {
                Some(i) => i < self.slots@.len() && self.slots@[i as int].valid
                    && self.slots@[i as int].block_no == block_no,
                None => forall|i: int|
                    0 <= i < self.slots@.len() ==> !((#[trigger] self.slots@[i]).valid
                        && self.slots@[i].block_no == block_no),
            },
    {
        let mut i: usize = 0;
        while i < self.slots.len()
            invariant
                i <= self.slots@.len(),
                forall|k: int|
                    0 <= k < i ==> !((#[trigger] self.slots@[k]).valid && self.slots@[k].block_no
                        == block_no),
            decreases self.slots@.len() - i,
        {
            if self.slots[i].valid && self.slots[i].block_no == block_no {
                return Some(i);
            }
            i += 1;
        }
        None
    }

    /// Returns an exclusive handle on `block_no`, reading the block from
    /// the device only when no slot holds it; a held block keeps its bytes,
    /// synced or not.
    #[verifier::rlimit(100)]
    #[verifier::spinoff_prover]
    pub fn acquire(&mut self, block_no: usize) -> (r: usize)
        requires
            old(self).wf(),
            block_no < old(self).sblock.num_blocks,
            !(old(self).sblock.log_start <= block_no < old(self).sblock.log_start + old(
                self,
            ).sblock.num_log_blocks),
            forall|i: int|
                0 <= i < old(self).slots@.len() ==> !((#[trigger] old(self).slots@[i]).valid
                    && old(self).slots@[i].block_no == block_no && old(self).slots@[i].acquired),
        ensures
            final(self).wf(),
            r < final(self).slots@.len(),
            final(self).slots@[r as int].valid,
            final(self).slots@[r as int].acquired,
            final(self).slots@[r as int].block_no == block_no,
            final(self).sblock == old(self).sblock,
            final(self).pending@ == old(self).pending@,
            final(self).outstanding == old(self).outstanding,
            // A cached block keeps its bytes; a fresh one mirrors the disk.
            (exists|i: int|
                0 <= i < old(self).slots@.len() && (#[trigger] old(self).slots@[i]).valid
                    && old(self).slots@[i].block_no == block_no) ==> ({
                let i = choose|i: int|
                    0 <= i < old(self).slots@.len() && (#[trigger] old(self).slots@[i]).valid
                        && old(self).slots@[i].block_no == block_no;
                &&& final(self).slots@[r as int].data@ == old(self).slots@[i].data@
                &&& final(self).slots@[r as int].dirty == old(self).slots@[i].dirty
                &&& final(self).disk.blocks@ == old(self).disk.blocks@
                &&& final(self).disk.reads == old(self).disk.reads
                &&& final(self).disk.writes == old(self).disk.writes
            }),
            (forall|i: int|
                0 <= i < old(self).slots@.len() ==> !((#[trigger] old(self).slots@[i]).valid
                    && old(self).slots@[i].block_no == block_no)) ==> ({
                &&& final(self).slots@[r as int].data@ == old(self).disk.blocks@[
                    block_no as int]@
                &&& !final(self).slots@[r as int].dirty
                &&& final(self).disk.blocks@ == old(self).disk.blocks@
                &&& old(self).disk.reads < usize::MAX ==> final(self).disk.reads == old(
                    self,
                ).disk.reads + 1
                &&& final(self).disk.writes == old(self).disk.writes
            }),
            // Every other cached block keeps its slot.
            forall|i: int|
                0 <= i < old(self).slots@.len() && (#[trigger] old(self).slots@[i]).valid
                    && old(self).slots@[i].block_no != block_no && (old(self).slots@[i].acquired
                    || old(self).slots@[i].pinned || old(self).slots@[i].dirty) ==> exists|
                    j: int,
                |
                    0 <= j < final(self).slots@.len() && #[trigger] final(self).slots@[j] == old(
                        self,
                    ).slots@[i],
    {
        match self.find_slot(block_no) {
            Some(i) => {
                let ghost pre = *self;
                let b = vec_block_mut(&mut self.slots, i);
                b.acquired = true;
                proof {
                    assert(self.slots@[i as int].valid == pre.slots@[i as int].valid);
                    assert(self.slots@[i as int].block_no == pre.slots@[i as int].block_no);
                    assert(self.slots@[i as int].dirty == pre.slots@[i as int].dirty);
                    assert(self.slots@[i as int].pinned == pre.slots@[i as int].pinned);
                    assert(self.slots@[i as int].data@ == pre.slots@[i as int].data@);
                    assert(forall|k: int|
                        0 <= k < self.slots@.len() && k != i ==> self.slots@[k]
                            == pre.slots@[k]);
                    assert forall|a: int|
                        0 <= a < self.pending@.len() implies slot_logged(
                        self.slots@,
                        #[trigger] self.pending@[a],
                    ) by {
                        assert(slot_logged(pre.slots@, pre.pending@[a]));
                        let ii = choose|ii: int|
                            0 <= ii < pre.slots@.len() && (#[trigger] pre.slots@[ii]).valid
                                && pre.slots@[ii].block_no == pre.pending@[a]
                                && pre.slots@[ii].dirty && pre.slots@[ii].pinned;
                        assert(self.slots@[ii].valid && self.slots@[ii].dirty
                            && self.slots@[ii].pinned);
                    }
                    assert forall|k: int|
                        0 <= k < pre.slots@.len() && (#[trigger] pre.slots@[k]).valid
                            && pre.slots@[k].block_no != block_no && (pre.slots@[k].acquired
                            || pre.slots@[k].pinned || pre.slots@[k].dirty) implies exists|
                        j: int,
                    |
                        0 <= j < self.slots@.len() && #[trigger] self.slots@[j]
                            == pre.slots@[k] by {
                        assert(self.slots@[k] == pre.slots@[k]);
                    }
                    let w = choose|w: int|
                        0 <= w < pre.slots@.len() && (#[trigger] pre.slots@[w]).valid
                            && pre.slots@[w].block_no == block_no;
                    assert(w == i as int);
                }
                i
            },
            None => {
                let data = self.disk.read(block_no);
                let ghost pre = *self;
                // Evict the stalest clean, unpinned, free slot if the cache
                // is at its threshold; otherwise add a slot.
                let mut victim: Option<usize> = None;
                let mut i: usize = 0;
                if self.slots.len() >= EVICTION_THRESHOLD {
                    while i < self.slots.len()
                        invariant
                            *self == pre,
                            i <= self.slots@.len(),
                            match victim {
                                Some(v) => v < self.slots@.len()
                                    && !self.slots@[v as int].acquired
                                    && !self.slots@[v as int].pinned
                                    && !self.slots@[v as int].dirty,
                                None => true,
                            },
                        decreases self.slots@.len() - i,
                    {
                        let s = &self.slots[i];
                        if !s.acquired && !s.pinned && !s.dirty {
                            let better = match victim {
                                Some(v) => self.slots[v].last_release > s.last_release,
                                None => true,
                            };
                            if better {
                                victim = Some(i);
                            }
                        }
                        i += 1;
                    }
                }
                let slot = match victim {
                    Some(v) => v,
                    None => {
                        self.slots.push(Block::new());
                        self.slots.len() - 1
                    },
                };
                let b = vec_block_mut(&mut self.slots, slot);
                b.valid = true;
                b.acquired = true;
                b.pinned = false;
                b.dirty = false;
                b.block_no = block_no;
                b.data = data;
                proof {
                    assert forall|a: int|
                        0 <= a < self.pending@.len() implies slot_logged(
                        self.slots@,
                        #[trigger] self.pending@[a],
                    ) by {
                        assert(slot_logged(pre.slots@, pre.pending@[a]));
                        let ii = choose|ii: int|
                            0 <= ii < pre.slots@.len() && (#[trigger] pre.slots@[ii]).valid
                                && pre.slots@[ii].block_no == pre.pending@[a]
                                && pre.slots@[ii].dirty && pre.slots@[ii].pinned;
                        assert(ii != slot as int);
                        assert(self.slots@[ii] == pre.slots@[ii]);
                    }
                    assert forall|k: int|
                        0 <= k < old(self).slots@.len() && (#[trigger] old(
                            self,
                        ).slots@[k]).valid && old(self).slots@[k].block_no != block_no && (old(
                            self,
                        ).slots@[k].acquired || old(self).slots@[k].pinned || old(
                            self,
                        ).slots@[k].dirty) implies exists|j: int|
                        0 <= j < self.slots@.len() && #[trigger] self.slots@[j] == old(
                            self,
                        ).slots@[k] by {
                        assert(k != slot as int);
                        assert(self.slots@[k] == old(self).slots@[k]);
                    }
                }
                slot
            },
        }
    }
}

/// How many slots hold a block.
pub open spec fn spec_count_valid(slots: Seq<Block>) -> int
    decreases slots.len(),
{
    if slots.len() == 0 {
        0
    } else {
        spec_count_valid(slots.drop_last()) + if slots.last().valid {
            1int
        } else {
            0
        }
    }
}

/// Whether some slot holds block `b` dirty and pinned for the log.
pub open spec fn slot_logged(slots: Seq<Block>, b: usize) -> bool {
    exists|i: int|
        0 <= i < slots.len() && (#[trigger] slots[i]).valid && slots[i].block_no == b
            && slots[i].dirty && slots[i].pinned
}

/// A mutable view of one cache slot.
fn vec_block_mut(slots: &mut Vec<Block>, i: usize) -> (r: &mut Block)
    requires
        i < old(slots)@.len(),
    ensures
        *r == old(slots)@[i as int],
        final(slots)@ == old(slots)@.update(i as int, *final(r)),
{
    &mut slots[i]
}

} // verus!
verus! {

/// The bytes the cache holds for block `b`.
pub open spec fn logged_data(slots: Seq<Block>, b: usize) -> Seq<u8> {
    let i = choose|i: int|
        0 <= i < slots.len() && (#[trigger] slots[i]).valid && slots[i].block_no == b
            && slots[i].dirty && slots[i].pinned;
    slots[i].data@
}

impl BlockCacheImpl {
    /// Drops the exclusive hold on a slot and stamps it most recently
    /// released.
    pub fn release(&mut self, slot: usize)
        requires
            old(self).wf(),
            slot < old(self).slots@.len(),
            old(self).slots@[slot as int].acquired,
        ensures
            final(self).wf(),
            final(self).slots@.len() == old(self).slots@.len(),
            !final(self).slots@[slot as int].acquired,
            final(self).slots@[slot as int].data@ == old(self).slots@[slot as int].data@,
            final(self).slots@[slot as int].block_no == old(self).slots@[slot as int].block_no,
            final(self).slots@[slot as int].dirty == old(self).slots@[slot as int].dirty,
            final(self).slots@[slot as int].valid == old(self).slots@[slot as int].valid,
            final(self).slots@[slot as int].pinned == old(self).slots@[slot as int].pinned,
            forall|i: int|
                0 <= i < old(self).slots@.len() && i != slot ==> final(self).slots@[i] == old(
                    self,
                ).slots@[i],
            final(self).disk == old(self).disk,
            final(self).pending@ == old(self).pending@,
            final(self).outstanding == old(self).outstanding,
            final(self).sblock == old(self).sblock,
            final(self).slots@[slot as int].last_release == old(self).stamp,
            old(self).stamp < usize::MAX ==> final(self).stamp == old(self).stamp + 1,
    {
        let stamp = self.stamp;
        let b = vec_block_mut(&mut self.slots, slot);
        b.acquired = false;
        b.last_release = stamp;
        if self.stamp < usize::MAX {
            self.stamp = self.stamp + 1;
        }
        proof {
            assert forall|a: int|
                0 <= a < self.pending@.len() implies slot_logged(
                self.slots@,
                #[trigger] self.pending@[a],
            ) by {
                assert(slot_logged(old(self).slots@, self.pending@[a]));
                let ii = choose|ii: int|
                    0 <= ii < old(self).slots@.len() && (#[trigger] old(
                        self,
                    ).slots@[ii]).valid && old(self).slots@[ii].block_no == self.pending@[a]
                        && old(self).slots@[ii].dirty && old(self).slots@[ii].pinned;
                assert(self.slots@[ii].valid && self.slots@[ii].dirty
                    && self.slots@[ii].pinned);
            }
        }
    }

    /// Replaces a held block's bytes. The slot becomes newer than the
    /// disk until a sync carries it there.
    pub fn set_data(&mut self, slot: usize, data: Vec<u8>)
        requires
            old(self).wf(),
            slot < old(self).slots@.len(),
            old(self).slots@[slot as int].acquired,
            old(self).slots@[slot as int].valid,
            data@.len() == BLOCK_SIZE,
        ensures
            final(self).wf(),
            final(self).slots@.len() == old(self).slots@.len(),
            final(self).slots@[slot as int].data@ == data@,
            final(self).slots@[slot as int].dirty,
            final(self).slots@[slot as int].acquired,
            final(self).slots@[slot as int].valid == old(self).slots@[slot as int].valid,
            final(self).slots@[slot as int].pinned == old(self).slots@[slot as int].pinned,
            final(self).slots@[slot as int].block_no == old(self).slots@[slot as int].block_no,
            forall|i: int|
                0 <= i < old(self).slots@.len() && i != slot ==> final(self).slots@[i] == old(
                    self,
                ).slots@[i],
            final(self).disk == old(self).disk,
            final(self).pending@ == old(self).pending@,
            final(self).outstanding == old(self).outstanding,
            final(self).sblock == old(self).sblock,
    {
        let b = vec_block_mut(&mut self.slots, slot);
        b.data = data;
        b.dirty = true;
        proof {
            assert forall|a: int|
                0 <= a < self.pending@.len() implies slot_logged(
                self.slots@,
                #[trigger] self.pending@[a],
            ) by {
                assert(slot_logged(old(self).slots@, self.pending@[a]));
                let ii = choose|ii: int|
                    0 <= ii < old(self).slots@.len() && (#[trigger] old(
                        self,
                    ).slots@[ii]).valid && old(self).slots@[ii].block_no == self.pending@[a]
                        && old(self).slots@[ii].dirty && old(self).slots@[ii].pinned;
                if ii == slot as int {
                    assert(self.slots@[ii].valid && self.slots@[ii].dirty
                        && self.slots@[ii].pinned);
                } else {
                    assert(self.slots@[ii] == old(self).slots@[ii]);
                }
            }
        }
    }

    /// Write-through sync of a held block, used outside any operation: the
    /// block goes to the device at once.
    pub fn sync_direct(&mut self, slot: usize)
        requires
            old(self).wf(),
            slot < old(self).slots@.len(),
            old(self).slots@[slot as int].acquired,
            old(self).slots@[slot as int].valid,
            !old(self).slots@[slot as int].pinned,
        ensures
            final(self).wf(),
            final(self).slots@.len() == old(self).slots@.len(),
            final(self).disk.blocks@[old(self).slots@[slot as int].block_no as int]@ == old(
                self,
            ).slots@[slot as int].data@,
            forall|i: int|
                0 <= i < old(self).disk.blocks@.len() && i != old(self).slots@[
                    slot as int].block_no ==> final(self).disk.blocks@[i] == old(
                    self,
                ).disk.blocks@[i],
            !final(self).slots@[slot as int].dirty,
            final(self).slots@[slot as int].data@ == old(self).slots@[slot as int].data@,
            final(self).slots@[slot as int].acquired,
            forall|i: int|
                0 <= i < old(self).slots@.len() && i != slot ==> final(self).slots@[i] == old(
                    self,
                ).slots@[i],
            final(self).pending@ == old(self).pending@,
            final(self).outstanding == old(self).outstanding,
            final(self).sblock == old(self).sblock,
            old(self).disk.writes < usize::MAX ==> final(self).disk.writes == old(
                self,
            ).disk.writes + 1,
            final(self).disk.reads == old(self).disk.reads,
    {
        let block_no = self.slots[slot].block_no;
        let data = clone_bytes(&self.slots[slot].data);
        self.disk.write(block_no, &data);
        let b = vec_block_mut(&mut self.slots, slot);
        b.dirty = false;
        proof {
            assert forall|a: int|
                0 <= a < self.pending@.len() implies slot_logged(
                self.slots@,
                #[trigger] self.pending@[a],
            ) by {
                assert(slot_logged(old(self).slots@, self.pending@[a]));
                let ii = choose|ii: int|
                    0 <= ii < old(self).slots@.len() && (#[trigger] old(
                        self,
                    ).slots@[ii]).valid && old(self).slots@[ii].block_no == self.pending@[a]
                        && old(self).slots@[ii].dirty && old(self).slots@[ii].pinned;
                assert(ii != slot as int);
                assert(self.slots@[ii] == old(self).slots@[ii]);
            }
        }
    }

    /// Opens an operation in the current commit group, handing it the
    /// next ticket; tickets grow by one per open, so later operations
    /// carry strictly larger tickets.
    pub fn begin_op(&mut self, ctx: &mut OpContext)
        requires
            old(self).wf(),
            old(self).outstanding < usize::MAX,
            old(self).next_ts < usize::MAX,
        ensures
            final(self).wf(),
            final(ctx).blocks@.len() == 0,
            final(ctx).ts == old(self).next_ts,
            final(self).next_ts == old(self).next_ts + 1,
            final(self).outstanding == old(self).outstanding + 1,
            final(self).slots@ == old(self).slots@,
            final(self).pending@ == old(self).pending@,
            final(self).disk == old(self).disk,
            final(self).sblock == old(self).sblock,
            final(self).ctx_ok(*final(ctx)),
    {
        ctx.ts = self.next_ts;
        self.next_ts = self.next_ts + 1;
        ctx.blocks = Vec::new();
        self.outstanding = self.outstanding + 1;
    }

    /// Marks a held block as part of the operation. A block already synced
    /// by the group absorbs into its existing log entry; a new one takes a
    /// log slot, so the operation must still be within its share and the
    /// log within its capacity.
    pub fn sync(&mut self, ctx: &mut OpContext, slot: usize)
        requires
            old(self).wf(),
            old(self).ctx_ok(*old(ctx)),
            slot < old(self).slots@.len(),
            old(self).slots@[slot as int].acquired,
            old(self).slots@[slot as int].valid,
            old(self).sblock.log_start + old(self).sblock.num_log_blocks <= old(self).slots@[
                slot as int].block_no,
            !old(ctx).blocks@.contains(old(self).slots@[slot as int].block_no) ==> old(
                ctx,
            ).blocks@.len() < OP_MAX_NUM_BLOCKS,
            !old(self).pending@.contains(old(self).slots@[slot as int].block_no) ==> old(
                self,
            ).pending@.len() < old(self).sblock.num_log_blocks - 1,
        ensures
            final(self).wf(),
            final(self).ctx_ok(*final(ctx)),
            final(self).slots@.len() == old(self).slots@.len(),
            final(self).slots@[slot as int].dirty,
            final(self).slots@[slot as int].pinned,
            final(self).slots@[slot as int].data@ == old(self).slots@[slot as int].data@,
            final(self).slots@[slot as int].block_no == old(self).slots@[slot as int].block_no,
            final(self).slots@[slot as int].acquired,
            final(self).slots@[slot as int].valid,
            forall|i: int|
                0 <= i < old(self).slots@.len() && i != slot ==> final(self).slots@[i] == old(
                    self,
                ).slots@[i],
            final(ctx).blocks@ == if old(ctx).blocks@.contains(
                old(self).slots@[slot as int].block_no,
            ) {
                old(ctx).blocks@
            } else {
                old(ctx).blocks@.push(old(self).slots@[slot as int].block_no)
            },
            final(self).pending@ == if old(self).pending@.contains(
                old(self).slots@[slot as int].block_no,
            ) {
                old(self).pending@
            } else {
                old(self).pending@.push(old(self).slots@[slot as int].block_no)
            },
            final(self).disk == old(self).disk,
            final(self).outstanding == old(self).outstanding,
            final(self).sblock == old(self).sblock,
            final(ctx).ts == old(ctx).ts,
    {
        let block_no = self.slots[slot].block_no;
        let b = vec_block_mut(&mut self.slots, slot);
        b.dirty = true;
        b.pinned = true;
        let in_ctx = contains_usize(&ctx.blocks, block_no);
        if !in_ctx {
            ctx.blocks.push(block_no);
        }
        let in_pending = contains_usize(&self.pending, block_no);
        if !in_pending {
            self.pending.push(block_no);
        }
        proof {
            assert forall|a: int|
                0 <= a < self.pending@.len() implies slot_logged(
                self.slots@,
                #[trigger] self.pending@[a],
            ) by {
                if a < old(self).pending@.len() {
                    assert(slot_logged(old(self).slots@, self.pending@[a]));
                    let ii = choose|ii: int|
                        0 <= ii < old(self).slots@.len() && (#[trigger] old(
                            self,
                        ).slots@[ii]).valid && old(self).slots@[ii].block_no
                            == self.pending@[a] && old(self).slots@[ii].dirty && old(
                            self,
                        ).slots@[ii].pinned;
                    if ii == slot as int {
                        assert(self.slots@[ii].valid && self.slots@[ii].dirty
                            && self.slots@[ii].pinned);
                    } else {
                        assert(self.slots@[ii] == old(self).slots@[ii]);
                    }
                } else {
                    assert(self.pending@[a] == block_no);
                    assert(self.slots@[slot as int].valid && self.slots@[slot as int].dirty
                        && self.slots@[slot as int].pinned);
                }
            }
            assert forall|a: int|
                0 <= a < final(ctx).blocks@.len() implies self.pending@.contains(
                #[trigger] final(ctx).blocks@[a],
            ) by {
                if a < old(ctx).blocks@.len() {
                    assert(old(self).pending@.contains(old(ctx).blocks@[a]));
                    let w = choose|w: int|
                        0 <= w < old(self).pending@.len() && old(self).pending@[w] == old(
                            ctx,
                        ).blocks@[a];
                    assert(self.pending@[w] == old(ctx).blocks@[a]);
                } else {
                    if !in_pending {
                        assert(self.pending@.last() == block_no);
                    }
                }
            }
        }
    }
}

/// Whether a list of block numbers holds `x`.
fn contains_usize(v: &Vec<usize>, x: usize) -> (r: bool)
    ensures
        r == v@.contains(x),
{
    let mut i: usize = 0;
    while i < v.len()
        invariant
            i <= v@.len(),
            forall|k: int| 0 <= k < i ==> v@[k] != x,
        decreases v@.len() - i,
    {
        if v[i] == x {
            return true;
        }
        i += 1;
    }
    proof {
        assert(!v@.contains(x));
    }
    false
}

} // verus!
verus! {

impl BlockCacheImpl {
    /// Closes an operation. Every close but the group's last just leaves
    /// its blocks for the group; the last close checkpoints: it copies
    /// each logged block to the log area, writes the header, copies the
    /// blocks home, clears the header, and unpins.
    #[verifier::rlimit(100)]
    #[verifier::spinoff_prover]
    pub fn end_op(&mut self, ctx: &mut OpContext)
        requires
            old(self).wf(),
            old(self).ctx_ok(*old(ctx)),
            old(self).outstanding >= 1,
        ensures
            final(self).wf(),
            final(self).outstanding == old(self).outstanding - 1,
            final(ctx).blocks@.len() == 0,
            final(self).sblock == old(self).sblock,
            old(self).outstanding > 1 ==> final(self).disk == old(self).disk
                && final(self).slots@ == old(self).slots@
                && final(self).pending@ == old(self).pending@,
            old(self).outstanding == 1 ==> checkpointed(*old(self), *final(self)),
    {
        self.outstanding = self.outstanding - 1;
        ctx.blocks = Vec::new();
        if self.outstanding > 0 {
            return ;
        }
        let ghost pre = *self;
        let n = self.pending.len();
        let log_start = self.sblock.log_start as usize;
        // Copy every logged block from its slot to the log area.
        let mut i: usize = 0;
        while i < n
            invariant
                pre.wf(),
                n == pre.pending@.len(),
                self.sblock == pre.sblock,
                self.slots@ == pre.slots@,
                self.pending@ == pre.pending@,
                self.outstanding == 0,
                log_start == pre.sblock.log_start,
                i <= n,
                self.disk.wf(),
                self.disk.blocks@.len() == pre.disk.blocks@.len(),
                forall|k: int|
                    0 <= k < i ==> self.disk.blocks@[log_start + 1 + k]@ == logged_data(
                        pre.slots@,
                        #[trigger] pre.pending@[k],
                    ),
                forall|b: int|
                    0 <= b < self.disk.blocks@.len() && !(log_start + 1 <= b < log_start + 1
                        + i) ==> self.disk.blocks@[b] == pre.disk.blocks@[b],
            decreases n - i,
        {
            let b = self.pending[i];
            let slot = match self.find_slot(b) {
                Some(s) => s,
                None => {
                    proof {
                        assert(slot_logged(self.slots@, b));
                        assert(false);
                    }
                    return ;
                },
            };
            proof {
                assert(slot_logged(pre.slots@, pre.pending@[i as int]));
                let c = choose|c: int|
                    0 <= c < pre.slots@.len() && (#[trigger] pre.slots@[c]).valid
                        && pre.slots@[c].block_no == pre.pending@[i as int]
                        && pre.slots@[c].dirty && pre.slots@[c].pinned;
                assert(c == slot as int);
            }
            let data = clone_bytes(&self.slots[slot].data);
            self.disk.write(log_start + 1 + i, &data);
            i += 1;
        }
        // Write the header: the log is now complete on disk.
        let header = encode_header(n, &self.pending);
        self.disk.write(log_start, &header);
        let ghost disk_committed = self.disk;
        // Copy every logged block to its home location.
        let mut j: usize = 0;
        while j < n
            invariant
                pre.wf(),
                n == pre.pending@.len(),
                self.sblock == pre.sblock,
                self.slots@ == pre.slots@,
                self.pending@ == pre.pending@,
                self.outstanding == 0,
                log_start == pre.sblock.log_start,
                j <= n,
                self.disk.wf(),
                self.disk.blocks@.len() == pre.disk.blocks@.len(),
                forall|k: int|
                    0 <= k < j ==> self.disk.blocks@[#[trigger] pre.pending@[k] as int]@
                        == logged_data(pre.slots@, pre.pending@[k]),
                forall|b: int|
                    0 <= b < self.disk.blocks@.len() && !(log_start <= b < log_start
                        + pre.sblock.num_log_blocks) && (forall|k: int|
                        0 <= k < j ==> (#[trigger] pre.pending@[k]) != b)
                        ==> self.disk.blocks@[b] == pre.disk.blocks@[b],
                forall|k: int|
                    0 <= k < n ==> self.disk.blocks@[log_start + 1 + k]@ == logged_data(
                        pre.slots@,
                        #[trigger] pre.pending@[k],
                    ),
            decreases n - j,
        {
            let b = self.pending[j];
            let slot = match self.find_slot(b) {
                Some(s) => s,
                None => {
                    proof {
                        assert(slot_logged(self.slots@, b));
                        assert(false);
                    }
                    return ;
                },
            };
            proof {
                assert(slot_logged(pre.slots@, pre.pending@[j as int]));
                let c = choose|c: int|
                    0 <= c < pre.slots@.len() && (#[trigger] pre.slots@[c]).valid
                        && pre.slots@[c].block_no == pre.pending@[j as int]
                        && pre.slots@[c].dirty && pre.slots@[c].pinned;
                assert(c == slot as int);
            }
            let data = clone_bytes(&self.slots[slot].data);
            self.disk.write(b, &data);
            j += 1;
        }
        // Clear the header: the commit is durable and the log is free.
        let empty: Vec<usize> = Vec::new();
        let header0 = encode_header(0, &empty);
        proof {
            assert(empty@.map_values(|x: usize| x as int) =~= Seq::<int>::empty());
        }
        self.disk.write(log_start, &header0);
        // Unpin the logged blocks; they now match the disk.
        let ghost disk3 = self.disk;
        let mut s: usize = 0;
        let slots_len = self.slots.len();
        while s < slots_len
            invariant
                pre.wf(),
                self.sblock == pre.sblock,
                self.pending@ == pre.pending@,
                self.outstanding == 0,
                slots_len == pre.slots@.len(),
                s <= slots_len,
                self.disk == disk3,
                self.slots@.len() == pre.slots@.len(),
                forall|k: int|
                    0 <= k < s ==> #[trigger] self.slots@[k] == checkpoint_slot(
                        pre.slots@[k],
                        pre.pending@,
                    ),
                forall|k: int| s <= k < slots_len ==> #[trigger] self.slots@[k] == pre.slots@[k],
            decreases slots_len - s,
        {
            let dirty = self.slots[s].dirty;
            let logged = contains_usize(&self.pending, self.slots[s].block_no);
            if dirty && logged {
                let bl = vec_block_mut(&mut self.slots, s);
                bl.dirty = false;
                bl.pinned = false;
            }
            s += 1;
        }
        self.pending = Vec::new();
        proof {
            assert forall|k: int|
                0 <= k < self.slots@.len() && (#[trigger] self.slots@[k]).valid
                    && !self.slots@[k].dirty implies self.slots@[k].data@ == self.disk.blocks@[
                self.slots@[k].block_no as int]@ by {
                if pre.slots@[k].dirty {
                    assert(pre.pending@.contains(pre.slots@[k].block_no));
                    let a = choose|a: int|
                        0 <= a < pre.pending@.len() && pre.pending@[a] == pre.slots@[
                            k].block_no;
                    assert(self.disk.blocks@[pre.pending@[a] as int]@ == logged_data(
                        pre.slots@,
                        pre.pending@[a],
                    ));
                    let c = choose|c: int|
                        0 <= c < pre.slots@.len() && (#[trigger] pre.slots@[c]).valid
                            && pre.slots@[c].block_no == pre.pending@[a] && pre.slots@[c].dirty
                            && pre.slots@[c].pinned;
                    assert(c == k);
                } else {
                    assert(pre.slots@[k].data@ == pre.disk.blocks@[pre.slots@[
                        k].block_no as int]@);
                }
            }
            assert forall|k: int|
                0 <= k < self.slots@.len() && ((#[trigger] self.slots@[k]).pinned
                    || self.slots@[k].dirty) implies self.slots@[k].valid by {
                assert(pre.slots@[k].pinned || pre.slots@[k].dirty);
            }
        }
    }
}

/// A slot as the checkpoint leaves it: a slot whose block the group had
/// logged comes back clean and unpinned; any other keeps its state.
pub open spec fn checkpoint_slot(b: Block, pending: Seq<usize>) -> Block {
    if b.dirty && pending.contains(b.block_no) {
        Block { dirty: false, pinned: false, ..b }
    } else {
        b
    }
}

/// What the group's last close guarantees: every block the group synced
/// sits at its home location on disk holding the cache's bytes, the log
/// header is clear again, every other block outside the log area kept its
/// bytes, and nothing is left pending.
pub open spec fn checkpointed(pre: BlockCacheImpl, post: BlockCacheImpl) -> bool {
    &&& post.pending@.len() == 0
    &&& post.slots@.len() == pre.slots@.len()
    &&& forall|k: int|
        0 <= k < pre.slots@.len() ==> #[trigger] post.slots@[k] == checkpoint_slot(
            pre.slots@[k],
            pre.pending@,
        )
    &&& post.disk.blocks@.len() == pre.disk.blocks@.len()
    &&& forall|a: int|
        0 <= a < pre.pending@.len() ==> post.disk.blocks@[#[trigger] pre.pending@[a] as int]@
            == logged_data(pre.slots@, pre.pending@[a])
    &&& post.disk.blocks@[pre.sblock.log_start as int]@ == spec_encode_header(0, Seq::empty())
    &&& forall|b: int|
        0 <= b < pre.disk.blocks@.len() && !(pre.sblock.log_start <= b < pre.sblock.log_start
            + pre.sblock.num_log_blocks) && (forall|a: int|
            0 <= a < pre.pending@.len() ==> (#[trigger] pre.pending@[a]) != b)
            ==> post.disk.blocks@[b] == pre.disk.blocks@[b]
}

} // verus!
verus! {

/// Replays the log at boot: with a nonzero header, every logged block is
/// copied from the log area to its home and the header is cleared; with a
/// zero header nothing is touched. Replaying after a completed `end_op`
/// therefore changes nothing, which is what makes a crash after commit
/// and a clean boot the same.
pub fn recover(disk: &mut Disk, log_start: usize, num_log_blocks: usize) -> (n: usize)
    requires
        old(disk).wf(),
        2 <= log_start,
        2 <= num_log_blocks <= LOG_MAX_SIZE + 1,
        log_start + num_log_blocks <= old(disk).blocks@.len(),
        spec_u64_from_le_bytes(old(disk).blocks@[log_start as int]@.subrange(0, 8))
            <= num_log_blocks - 1,
        forall|i: int|
            0 <= i < spec_u64_from_le_bytes(old(disk).blocks@[log_start as int]@.subrange(0, 8))
                ==> log_start + num_log_blocks <= spec_u64_from_le_bytes(
                #[trigger] old(disk).blocks@[log_start as int]@.subrange(8 + 8 * i, 16 + 8 * i),
            ) < old(disk).blocks@.len(),
        forall|i: int, j: int|
            0 <= i < j < spec_u64_from_le_bytes(
                old(disk).blocks@[log_start as int]@.subrange(0, 8),
            ) ==> spec_u64_from_le_bytes(
                #[trigger] old(disk).blocks@[log_start as int]@.subrange(8 + 8 * i, 16 + 8 * i),
            ) != spec_u64_from_le_bytes(
                #[trigger] old(disk).blocks@[log_start as int]@.subrange(8 + 8 * j, 16 + 8 * j),
            ),
    ensures
        final(disk).wf(),
        final(disk).blocks@.len() == old(disk).blocks@.len(),
        n == spec_u64_from_le_bytes(old(disk).blocks@[log_start as int]@.subrange(0, 8)),
        n == 0 ==> final(disk).blocks@ == old(disk).blocks@,
        n > 0 ==> {
            &&& forall|i: int|
                0 <= i < n ==> final(disk).blocks@[spec_u64_from_le_bytes(
                    #[trigger] old(disk).blocks@[log_start as int]@.subrange(
                        8 + 8 * i,
                        16 + 8 * i,
                    ),
                ) as int]@ == old(disk).blocks@[log_start + 1 + i]@
            &&& final(disk).blocks@[log_start as int]@ == spec_encode_header(0, Seq::empty())
            &&& forall|b: int|
                0 <= b < old(disk).blocks@.len() && b != log_start && (forall|i: int|
                    0 <= i < n ==> spec_u64_from_le_bytes(
                        #[trigger] old(disk).blocks@[log_start as int]@.subrange(
                            8 + 8 * i,
                            16 + 8 * i,
                        ),
                    ) != b) ==> final(disk).blocks@[b] == old(disk).blocks@[b]
        },
{
    let ghost d0 = *disk;
    let header = disk.read(log_start);
    let n64 = decode_count(&header);
    let n = n64 as usize;
    if n == 0 {
        return 0;
    }
    let nb = disk.blocks.len();
    let mut i: usize = 0;
    while i < n
        invariant
            nb == d0.blocks@.len(),
            d0.wf(),
            2 <= log_start,
            2 <= num_log_blocks <= LOG_MAX_SIZE + 1,
            log_start + num_log_blocks <= d0.blocks@.len(),
            header@ == d0.blocks@[log_start as int]@,
            header@.len() == BLOCK_SIZE,
            n == spec_u64_from_le_bytes(d0.blocks@[log_start as int]@.subrange(0, 8)),
            0 < n <= num_log_blocks - 1,
            i <= n,
            disk.wf(),
            disk.blocks@.len() == d0.blocks@.len(),
            forall|k: int|
                0 <= k < n ==> log_start + num_log_blocks <= spec_u64_from_le_bytes(
                    #[trigger] d0.blocks@[log_start as int]@.subrange(8 + 8 * k, 16 + 8 * k),
                ) < d0.blocks@.len(),
            forall|k: int, j: int|
                0 <= k < j < n ==> spec_u64_from_le_bytes(
                    #[trigger] d0.blocks@[log_start as int]@.subrange(8 + 8 * k, 16 + 8 * k),
                ) != spec_u64_from_le_bytes(
                    #[trigger] d0.blocks@[log_start as int]@.subrange(8 + 8 * j, 16 + 8 * j),
                ),
            forall|k: int|
                0 <= k < i ==> disk.blocks@[spec_u64_from_le_bytes(
                    #[trigger] d0.blocks@[log_start as int]@.subrange(8 + 8 * k, 16 + 8 * k),
                ) as int]@ == d0.blocks@[log_start + 1 + k]@,
            forall|b: int|
                0 <= b < d0.blocks@.len() && (forall|k: int|
                    0 <= k < i ==> spec_u64_from_le_bytes(
                        #[trigger] d0.blocks@[log_start as int]@.subrange(
                            8 + 8 * k,
                            16 + 8 * k,
                        ),
                    ) != b) ==> disk.blocks@[b] == d0.blocks@[b],
        decreases n - i,
    {
        let home64 = decode_home(&header, i);
        let home = home64 as usize;
        proof {
            assert(home == spec_u64_from_le_bytes(
                d0.blocks@[log_start as int]@.subrange(8 + 8 * i, 16 + 8 * i),
            ));
        }
        let data = disk.read(log_start + 1 + i);
        disk.write(home, &data);
        i += 1;
    }
    let empty: Vec<usize> = Vec::new();
    let header0 = encode_header(0, &empty);
    proof {
        assert(empty@.map_values(|x: usize| x as int) =~= Seq::<int>::empty());
    }
    disk.write(log_start, &header0);
    n
}

/// After a committed close, the header block holds a zero count, so a
/// crash followed by replay leaves every block exactly as a clean boot
/// sees it.
pub proof fn lemma_replay_after_commit(pre: BlockCacheImpl, post: BlockCacheImpl)
    requires
        checkpointed(pre, post),
        pre.sblock.log_start < post.disk.blocks@.len(),
    ensures
        spec_u64_from_le_bytes(
            post.disk.blocks@[pre.sblock.log_start as int]@.subrange(0, 8),
        ) == 0,
{
    vstd::bytes::lemma_auto_spec_u64_to_from_le_bytes();
    assert(spec_encode_homes(Seq::empty()) =~= Seq::<u8>::empty());
    assert(spec_encode_header(0, Seq::empty()).subrange(0, 8) =~= spec_u64_to_le_bytes(0u64));
}

} // verus!
verus! {

impl BlockCacheImpl {
    /// Boots the block layer: replays the on-disk log first, as a clean
    /// start after a crash demands, then builds the cache over the
    /// recovered disk. With a zero header the disk comes through
    /// untouched, so booting after a completed close equals a clean boot.
    pub fn boot_bcache(sblock: SuperBlock, disk: Disk) -> (r: Self)
        requires
            disk.wf(),
            disk.blocks@.len() == sblock.num_blocks,
            2 <= sblock.log_start,
            2 <= sblock.num_log_blocks <= LOG_MAX_SIZE + 1,
            sblock.log_start + sblock.num_log_blocks <= sblock.num_blocks,
            spec_u64_from_le_bytes(disk.blocks@[sblock.log_start as int]@.subrange(0, 8))
                <= sblock.num_log_blocks - 1,
            forall|i: int|
                0 <= i < spec_u64_from_le_bytes(
                    disk.blocks@[sblock.log_start as int]@.subrange(0, 8),
                ) ==> sblock.log_start + sblock.num_log_blocks <= spec_u64_from_le_bytes(
                    #[trigger] disk.blocks@[sblock.log_start as int]@.subrange(
                        8 + 8 * i,
                        16 + 8 * i,
                    ),
                ) < disk.blocks@.len(),
            forall|i: int, j: int|
                0 <= i < j < spec_u64_from_le_bytes(
                    disk.blocks@[sblock.log_start as int]@.subrange(0, 8),
                ) ==> spec_u64_from_le_bytes(
                    #[trigger] disk.blocks@[sblock.log_start as int]@.subrange(
                        8 + 8 * i,
                        16 + 8 * i,
                    ),
                ) != spec_u64_from_le_bytes(
                    #[trigger] disk.blocks@[sblock.log_start as int]@.subrange(
                        8 + 8 * j,
                        16 + 8 * j,
                    ),
                ),
        ensures
            r.wf(),
            r.slots@.len() == 0,
            r.pending@.len() == 0,
            r.outstanding == 0,
            r.sblock == sblock,
            spec_u64_from_le_bytes(disk.blocks@[sblock.log_start as int]@.subrange(0, 8)) == 0
                ==> r.disk.blocks@ == disk.blocks@,
            spec_u64_from_le_bytes(disk.blocks@[sblock.log_start as int]@.subrange(0, 8)) > 0
                ==> {
                let n = spec_u64_from_le_bytes(
                    disk.blocks@[sblock.log_start as int]@.subrange(0, 8),
                );
                forall|i: int|
                    0 <= i < n ==> r.disk.blocks@[spec_u64_from_le_bytes(
                        #[trigger] disk.blocks@[sblock.log_start as int]@.subrange(
                            8 + 8 * i,
                            16 + 8 * i,
                        ),
                    ) as int]@ == disk.blocks@[sblock.log_start + 1 + i]@
            },
    {
        let mut disk = disk;
        let log_start = sblock.log_start as usize;
        let num_log = sblock.num_log_blocks as usize;
        recover(&mut disk, log_start, num_log);
        BlockCacheImpl::init_bcache(sblock, disk)
    }
}

} // verus!
