//! Parsing of the master boot record's partition table.

use vstd::prelude::*;

verus! {

use vstd::bytes::{spec_u32_from_le_bytes, u32_from_le_bytes};
use vstd::slice::{slice_index_get, slice_subrange};

/// One entry of the partition table, as read from a 16-byte record.
pub struct MBRPartition {
    pub bootable: bool,
    pub start: u32,
    pub size: u32,
}

/// The partition table of a master boot record.
pub struct MBR {
    pub partitions: Vec<MBRPartition>,
}

impl MBRPartition {
    /// What a parsed 16-byte partition record holds: the boot flag byte, the
    /// starting sector at offset 8 and the sector count at offset 12, both
    /// little-endian.
    pub open spec fn parsed(entry: Seq<u8>, p: MBRPartition) -> bool {
        &&& p.bootable == (entry[0] != 0)
        &&& p.start == spec_u32_from_le_bytes(entry.subrange(0x8, 0xC))
        &&& p.size == spec_u32_from_le_bytes(entry.subrange(0xC, 0x10))
    }

    /// Reads one 16-byte partition record.
    pub fn parse(buf: &[u8]) -> (p: Self)
        requires
            buf@.len() == 16,
        ensures
            Self::parsed(buf@, p),
    {
        let bootable = *slice_index_get(buf, 0) != 0;
        let start = u32_from_le_bytes(slice_subrange(buf, 0x8, 0xC));
        let size = u32_from_le_bytes(slice_subrange(buf, 0xC, 0x10));
        MBRPartition { bootable, start, size }
    }
}

impl MBR {
    /// What a parsed boot sector holds: the four partition records that start
    /// at offset 0x1BE.
    pub open spec fn parsed(sector: Seq<u8>, m: MBR) -> bool {
        &&& m.partitions@.len() == 4
        &&& forall|i: int|
            0 <= i < 4 ==> MBRPartition::parsed(
                sector.subrange(0x1BE + 16 * i, 0x1CE + 16 * i),
                #[trigger] m.partitions@[i],
            )
    }

    /// Reads the partition table of a 512-byte boot sector.
    pub fn parse(buf: &[u8]) -> (m: Self)
        requires
            buf@.len() >= 0x1FE,
        ensures
            Self::parsed(buf@, m),
    {
        let mut partitions: Vec<MBRPartition> = Vec::new();
        partitions.push(MBRPartition::parse(slice_subrange(buf, 0x1BE, 0x1CE)));
        partitions.push(MBRPartition::parse(slice_subrange(buf, 0x1CE, 0x1DE)));
        partitions.push(MBRPartition::parse(slice_subrange(buf, 0x1DE, 0x1EE)));
        partitions.push(MBRPartition::parse(slice_subrange(buf, 0x1EE, 0x1FE)));
        MBR { partitions }
    }
}

} // verus!
