//! Page-table entries and a four-level page-table directory.
//!
//! An entry is one 64-bit descriptor word; its accessors read and write the
//! architectural bit fields. The directory keeps its tables in an arena and
//! names a table by its index, so the translation walk is ordinary verified
//! code; attaching the table to the translation hardware is not done here.

use vstd::prelude::*;

verus! {

use crate::bits::{field_of, get_bits, lemma_high_part_field, lemma_low_part_field, set_bits};

/// Entries per translation table.
pub const N_PTE_PER_TABLE: usize = 512;

/// Whether a valid descriptor maps a block or points to a table (or, at the
/// last level, a page).
#[derive(Clone, Copy, PartialEq, Eq, Structural)]
pub enum PageTableEntryType {
    Block,
    TableOrPage,
}

/// Shareability field of a descriptor.
#[derive(Clone, Copy, PartialEq, Eq, Structural)]
pub enum Shareability {
    NonShareable,
    OuterShareable,
    InnerShareable,
}

/// Access-permission field of a descriptor.
#[derive(Clone, Copy, PartialEq, Eq, Structural)]
pub enum AccessPermission {
    El1rwEl0n,
    El1rwEl0rw,
    EL1rEL0n,
    EL1rEL0r,
}

/// One 64-bit translation-table descriptor.
#[derive(Clone, Copy, PartialEq, Eq, Structural)]
pub struct PageTableEntry(pub u64);

/// Encoding of the descriptor-type bit.
pub open spec fn type_encoding(t: PageTableEntryType) -> u64 {
    match t {
        PageTableEntryType::Block => 0,
        PageTableEntryType::TableOrPage => 1,
    }
}

/// Encoding of the shareability field.
pub open spec fn shareability_encoding(s: Shareability) -> u64 {
    match s {
        Shareability::NonShareable => 0,
        Shareability::OuterShareable => 2,
        Shareability::InnerShareable => 3,
    }
}

/// Encoding of the access-permission field.
pub open spec fn access_permission_encoding(a: AccessPermission) -> u64 {
    match a {
        AccessPermission::El1rwEl0n => 0,
        AccessPermission::El1rwEl0rw => 1,
        AccessPermission::EL1rEL0n => 2,
        AccessPermission::EL1rEL0r => 3,
    }
}

impl PageTableEntry {
    /// The empty descriptor.
    pub fn new() -> (r: Self)
        ensures
            r.0 == 0,
    {
        PageTableEntry(0)
    }

    /// Whether the descriptor is valid, bit 0.
    pub open spec fn spec_valid(&self) -> bool {
        field_of(self.0, 0, 1) == 1
    }

    /// Reads the valid bit.
    pub fn valid(&self) -> (r: bool)
        ensures
            r == self.spec_valid(),
    {
        get_bits(self.0, 0, 1) == 1
    }

    /// Writes the valid bit.
    pub fn set_valid(&mut self, valid: bool)
        ensures
            final(self).spec_valid() == valid,
            field_of(final(self).0, 1, 64) == field_of(old(self).0, 1, 64),
    {
        let bits: u64 = if valid { 1 } else { 0 };
        let ghost b = bits;
        proof {
            assert(field_of(b, 0, 1) == b) by (bit_vector)
                requires b == 0 || b == 1;
        }
        set_bits(&mut self.0, bits, 0, 1);
    }

    /// The descriptor-type bit, bit 1.
    pub open spec fn spec_type(&self) -> PageTableEntryType {
        if field_of(self.0, 1, 2) == 1 {
            PageTableEntryType::TableOrPage
        } else {
            PageTableEntryType::Block
        }
    }

    /// Reads the descriptor type.
    pub fn type_(&self) -> (r: PageTableEntryType)
        ensures
            r == self.spec_type(),
    {
        if get_bits(self.0, 1, 2) == 1 {
            PageTableEntryType::TableOrPage
        } else {
            PageTableEntryType::Block
        }
    }

    /// Writes the descriptor type; every other bit keeps its value.
    pub fn set_type(&mut self, type_: PageTableEntryType)
        ensures
            final(self).spec_type() == type_,
            field_of(final(self).0, 0, 1) == field_of(old(self).0, 0, 1),
            field_of(final(self).0, 2, 64) == field_of(old(self).0, 2, 64),
            final(self).spec_valid() == old(self).spec_valid(),
    {
        let bits: u64 = match type_ {
            PageTableEntryType::Block => 0,
            PageTableEntryType::TableOrPage => 1,
        };
        let ghost b = bits;
        proof {
            assert(field_of(b, 0, 1) == b) by (bit_vector)
                requires b == 0 || b == 1;
        }
        set_bits(&mut self.0, bits, 1, 2);
        proof {
            lemma_low_part_field(self.0, old(self).0, 1, 0, 1);
        }
    }

    /// Bit position where the output address starts, which depends on the
    /// level for block descriptors.
    pub open spec fn spec_addr_offset(&self, level: u8) -> u8 {
        match self.spec_type() {
            PageTableEntryType::Block => (12 + 9 * (3 - level)) as u8,
            PageTableEntryType::TableOrPage => 12,
        }
    }

    fn addr_offset(&self, level: u8) -> (r: u8)
        requires
            level <= 3,
        ensures
            r == self.spec_addr_offset(level),
            12 <= r <= 39,
    {
        match self.type_() {
            PageTableEntryType::Block => 12 + 9 * (3 - level),
            PageTableEntryType::TableOrPage => 12,
        }
    }

    /// The output address held by the descriptor: its address field shifted
    /// back into place.
    pub open spec fn spec_addr(&self, level: u8) -> u64 {
        field_of(self.0, self.spec_addr_offset(level) as u64, 64)
            << self.spec_addr_offset(level) as u64
    }

    /// Reads the output address.
    pub fn addr(&self, level: u8) -> (r: u64)
        requires
            level <= 3,
        ensures
            r == self.spec_addr(level),
    {
        let offset = self.addr_offset(level);
        let f = get_bits(self.0, offset, 64);
        f << offset
    }

    /// Writes the output address; bits below the address field keep their
    /// value.
    pub fn set_addr(&mut self, addr: u64, level: u8)
        requires
            level <= 3,
        ensures
            field_of(final(self).0, final(self).spec_addr_offset(level) as u64, 64)
                == field_of(addr >> old(self).spec_addr_offset(level) as u64, 0,
                (64 - old(self).spec_addr_offset(level)) as u64),
            field_of(final(self).0, 0, final(self).spec_addr_offset(level) as u64)
                == field_of(old(self).0, 0, old(self).spec_addr_offset(level) as u64),
            final(self).spec_valid() == old(self).spec_valid(),
            final(self).spec_type() == old(self).spec_type(),
            final(self).spec_addr_offset(level) == old(self).spec_addr_offset(level),
    {
        let offset = self.addr_offset(level);
        let bits = addr >> offset;
        set_bits(&mut self.0, bits, offset, 64);
        proof {
            lemma_low_part_field(self.0, old(self).0, offset as u64, 0, 1);
            lemma_low_part_field(self.0, old(self).0, offset as u64, 1, 2);
        }
    }

    /// Whether instruction fetch from this mapping is forbidden at EL0,
    /// bit 54.
    pub open spec fn spec_execute_never(&self) -> bool {
        field_of(self.0, 54, 55) == 1
    }

    /// Reads the execute-never bit.
    pub fn execute_never(&self) -> (r: bool)
        ensures
            r == self.spec_execute_never(),
    {
        get_bits(self.0, 54, 55) == 1
    }

    /// Writes the execute-never bit; every other bit keeps its value.
    pub fn set_execute_never(&mut self, execute_never: bool)
        ensures
            final(self).spec_execute_never() == execute_never,
            field_of(final(self).0, 0, 54) == field_of(old(self).0, 0, 54),
            field_of(final(self).0, 55, 64) == field_of(old(self).0, 55, 64),
    {
        let bits: u64 = if execute_never { 1 } else { 0 };
        let ghost b = bits;
        proof {
            assert(field_of(b, 0, 1) == b) by (bit_vector)
                requires b == 0 || b == 1;
        }
        set_bits(&mut self.0, bits, 54, 55);
    }

    /// Whether privileged instruction fetch is forbidden, bit 53.
    pub open spec fn spec_privileged_execute_never(&self) -> bool {
        field_of(self.0, 53, 54) == 1
    }

    /// Reads the privileged-execute-never bit.
    pub fn privileged_execute_never(&self) -> (r: bool)
        ensures
            r == self.spec_privileged_execute_never(),
    {
        get_bits(self.0, 53, 54) == 1
    }

    /// Writes the privileged-execute-never bit; every other bit keeps its
    /// value.
    pub fn set_privileged_execute_never(&mut self, privileged_execute_never: bool)
        ensures
            final(self).spec_privileged_execute_never() == privileged_execute_never,
            field_of(final(self).0, 0, 53) == field_of(old(self).0, 0, 53),
            field_of(final(self).0, 54, 64) == field_of(old(self).0, 54, 64),
    {
        let bits: u64 = if privileged_execute_never { 1 } else { 0 };
        let ghost b = bits;
        proof {
            assert(field_of(b, 0, 1) == b) by (bit_vector)
                requires b == 0 || b == 1;
        }
        set_bits(&mut self.0, bits, 53, 54);
    }

    /// Whether the mapping has been accessed, bit 10.
    pub open spec fn spec_accessed(&self) -> bool {
        field_of(self.0, 10, 11) == 1
    }

    /// Reads the accessed bit.
    pub fn accessed(&self) -> (r: bool)
        ensures
            r == self.spec_accessed(),
    {
        get_bits(self.0, 10, 11) == 1
    }

    /// Writes the accessed bit; every other bit keeps its value.
    pub fn set_accessed(&mut self, accessed: bool)
        ensures
            final(self).spec_accessed() == accessed,
            field_of(final(self).0, 0, 10) == field_of(old(self).0, 0, 10),
            field_of(final(self).0, 11, 64) == field_of(old(self).0, 11, 64),
            final(self).spec_valid() == old(self).spec_valid(),
            final(self).spec_type() == old(self).spec_type(),
    {
        let bits: u64 = if accessed { 1 } else { 0 };
        let ghost b = bits;
        proof {
            assert(field_of(b, 0, 1) == b) by (bit_vector)
                requires b == 0 || b == 1;
        }
        set_bits(&mut self.0, bits, 10, 11);
        proof {
            lemma_low_part_field(self.0, old(self).0, 10, 0, 1);
            lemma_low_part_field(self.0, old(self).0, 10, 1, 2);
        }
    }

    /// The shareability field, bits 8 and 9.
    pub open spec fn spec_shareability_raw(&self) -> u64 {
        field_of(self.0, 8, 10)
    }

    /// Reads the shareability field. The encoding 1 is reserved, so reading
    /// it is refused here rather than read.
    pub fn shareability(&self) -> (r: Shareability)
        requires
            self.spec_shareability_raw() != 1,
        ensures
            shareability_encoding(r) == self.spec_shareability_raw(),
    {
        proof {
            let v = self.0;
            assert(field_of(v, 8, 10) < 4) by (bit_vector);
        }
        match get_bits(self.0, 8, 10) {
            0 => Shareability::NonShareable,
            2 => Shareability::OuterShareable,
            _ => Shareability::InnerShareable,
        }
    }

    /// Writes the shareability field; every other bit keeps its value.
    pub fn set_shareability(&mut self, shareability: Shareability)
        ensures
            final(self).spec_shareability_raw() == shareability_encoding(shareability),
            field_of(final(self).0, 0, 8) == field_of(old(self).0, 0, 8),
            field_of(final(self).0, 10, 64) == field_of(old(self).0, 10, 64),
            final(self).spec_valid() == old(self).spec_valid(),
            final(self).spec_type() == old(self).spec_type(),
    {
        let bits: u64 = match shareability {
            Shareability::NonShareable => 0,
            Shareability::OuterShareable => 2,
            Shareability::InnerShareable => 3,
        };
        let ghost b = bits;
        proof {
            assert(field_of(b, 0, 2) == b) by (bit_vector)
                requires b < 4;
        }
        set_bits(&mut self.0, bits, 8, 10);
        proof {
            lemma_low_part_field(self.0, old(self).0, 8, 0, 1);
            lemma_low_part_field(self.0, old(self).0, 8, 1, 2);
        }
    }

    /// The access-permission field, bits 6 and 7.
    pub open spec fn spec_access_permission_raw(&self) -> u64 {
        field_of(self.0, 6, 8)
    }

    /// Reads the access-permission field.
    pub fn access_permission(&self) -> (r: AccessPermission)
        ensures
            access_permission_encoding(r) == self.spec_access_permission_raw(),
    {
        proof {
            let v = self.0;
            assert(field_of(v, 6, 8) < 4) by (bit_vector);
        }
        match get_bits(self.0, 6, 8) {
            0 => AccessPermission::El1rwEl0n,
            1 => AccessPermission::El1rwEl0rw,
            2 => AccessPermission::EL1rEL0n,
            _ => AccessPermission::EL1rEL0r,
        }
    }

    /// Writes the access-permission field; every other bit keeps its value.
    pub fn set_access_permission(&mut self, access_permission: AccessPermission)
        ensures
            final(self).spec_access_permission_raw()
                == access_permission_encoding(access_permission),
            field_of(final(self).0, 0, 6) == field_of(old(self).0, 0, 6),
            field_of(final(self).0, 8, 64) == field_of(old(self).0, 8, 64),
            final(self).spec_valid() == old(self).spec_valid(),
            final(self).spec_type() == old(self).spec_type(),
    {
        let bits: u64 = match access_permission {
            AccessPermission::El1rwEl0n => 0,
            AccessPermission::El1rwEl0rw => 1,
            AccessPermission::EL1rEL0n => 2,
            AccessPermission::EL1rEL0r => 3,
        };
        let ghost b = bits;
        proof {
            assert(field_of(b, 0, 2) == b) by (bit_vector)
                requires b < 4;
        }
        set_bits(&mut self.0, bits, 6, 8);
        proof {
            lemma_low_part_field(self.0, old(self).0, 6, 0, 1);
            lemma_low_part_field(self.0, old(self).0, 6, 1, 2);
        }
    }

    /// Whether the mapping is non-secure, bit 5.
    pub open spec fn spec_non_secure(&self) -> bool {
        field_of(self.0, 5, 6) == 1
    }

    /// Reads the non-secure bit.
    pub fn non_secure(&self) -> (r: bool)
        ensures
            r == self.spec_non_secure(),
    {
        get_bits(self.0, 5, 6) == 1
    }

    /// Writes the non-secure bit; every other bit keeps its value.
    pub fn set_non_secure(&mut self, non_secure: bool)
        ensures
            final(self).spec_non_secure() == non_secure,
            field_of(final(self).0, 0, 5) == field_of(old(self).0, 0, 5),
            field_of(final(self).0, 6, 64) == field_of(old(self).0, 6, 64),
    {
        let bits: u64 = if non_secure { 1 } else { 0 };
        let ghost b = bits;
        proof {
            assert(field_of(b, 0, 1) == b) by (bit_vector)
                requires b == 0 || b == 1;
        }
        set_bits(&mut self.0, bits, 5, 6);
    }

    /// The memory-attribute index, bits 2 to 4.
    pub open spec fn spec_attr_index(&self) -> u64 {
        field_of(self.0, 2, 5)
    }

    /// Reads the attribute index.
    pub fn attr_index(&self) -> (r: u8)
        ensures
            r == self.spec_attr_index(),
    {
        proof {
            let v = self.0;
            assert(field_of(v, 2, 5) < 8) by (bit_vector);
        }
        get_bits(self.0, 2, 5) as u8
    }

    /// Writes the attribute index; every other bit keeps its value.
    pub fn set_attr_index(&mut self, attr_index: u8)
        requires
            attr_index < 8,
        ensures
            final(self).spec_attr_index() == attr_index,
            field_of(final(self).0, 0, 2) == field_of(old(self).0, 0, 2),
            field_of(final(self).0, 5, 64) == field_of(old(self).0, 5, 64),
            final(self).spec_valid() == old(self).spec_valid(),
            final(self).spec_type() == old(self).spec_type(),
    {
        let bits = attr_index as u64;
        let ghost b = bits;
        proof {
            assert(field_of(b, 0, 3) == b) by (bit_vector)
                requires b < 8;
        }
        set_bits(&mut self.0, bits, 2, 5);
        proof {
            lemma_low_part_field(self.0, old(self).0, 2, 0, 1);
            lemma_low_part_field(self.0, old(self).0, 2, 1, 2);
        }
    }
}

/// Marks the entry accessible from user mode.
    pub fn user(pte: &mut PageTableEntry)
        ensures
            final(pte).spec_access_permission_raw()
                == access_permission_encoding(AccessPermission::El1rwEl0rw),
    {
        pte.set_access_permission(AccessPermission::El1rwEl0rw)
    }

    /// Marks the entry as ordinary cached memory.
    pub fn normal(pte: &mut PageTableEntry)
        ensures
            final(pte).spec_attr_index() == 1,
            final(pte).spec_accessed(),
            final(pte).spec_shareability_raw()
                == shareability_encoding(Shareability::OuterShareable),
            final(pte).spec_access_permission_raw()
                == old(pte).spec_access_permission_raw(),
            final(pte).spec_valid() == old(pte).spec_valid(),
            final(pte).spec_type() == old(pte).spec_type(),
    {
        pte.set_attr_index(1);
        let ghost p1 = *pte;
        pte.set_accessed(true);
        let ghost p2 = *pte;
        proof {
            lemma_low_part_field(p2.0, p1.0, 10, 2, 5);
            lemma_low_part_field(p2.0, p1.0, 10, 6, 8);
            lemma_high_part_field(p1.0, old(pte).0, 5, 6, 8);
        }
        pte.set_shareability(Shareability::OuterShareable);
        proof {
            let v = (*pte).0;
            lemma_low_part_field(v, p2.0, 8, 2, 5);
            lemma_low_part_field(v, p2.0, 8, 6, 8);
            lemma_high_part_field(v, p2.0, 10, 10, 11);
        }
    }

    /// Marks the entry as a user-accessible page of ordinary memory.
    pub fn user_page(pte: &mut PageTableEntry)
        ensures
            final(pte).spec_access_permission_raw()
                == access_permission_encoding(AccessPermission::El1rwEl0rw),
            final(pte).spec_attr_index() == 1,
            final(pte).spec_accessed(),
            final(pte).spec_shareability_raw()
                == shareability_encoding(Shareability::OuterShareable),
            final(pte).spec_type() == PageTableEntryType::TableOrPage,
    {
        user(pte);
        normal(pte);
        let ghost p2 = *pte;
        pte.set_type(PageTableEntryType::TableOrPage);
        proof {
            let v = (*pte).0;
            lemma_high_part_field(v, p2.0, 2, 2, 5);
            lemma_high_part_field(v, p2.0, 2, 6, 8);
            lemma_high_part_field(v, p2.0, 2, 8, 10);
            lemma_high_part_field(v, p2.0, 2, 10, 11);
        }
    }

/// A virtual address split into four 9-bit table indices.
pub struct FourLevelVirtualAddress(pub u64);

impl FourLevelVirtualAddress {
    /// The table index used at `level`: 9 bits starting at bit
    /// `12 + 9 * (3 - level)`.
    pub open spec fn spec_level_index(&self, level: u8) -> u64 {
        field_of(self.0, (12 + 9 * (3 - level)) as u64, (21 + 9 * (3 - level)) as u64)
    }

    /// Reads the table index used at `level`.
    pub fn level_index(&self, level: u8) -> (r: u64)
        requires
            level <= 3,
        ensures
            r == self.spec_level_index(level),
            r < 512,
    {
        let offset = 12 + 9 * (3 - level);
        let r = get_bits(self.0, offset, offset + 9);
        proof {
            let v = self.0;
            let o = offset as u64;
            assert(field_of(v, o, (o + 9) as u64) < 512) by (bit_vector)
                requires o <= 39;
        }
        r
    }
}

} // verus!
