//! Core logic of a small teaching kernel, verified with Verus.
//!
//! The crate models the kernel's four cores over plain values: the buddy
//! page allocator and SLOB small-object allocator, the fair scheduler with
//! its process tree, the buffered block layer with its write-ahead log, and
//! the System-V style message queues. Hardware access (registers, context
//! switches, interrupts) stays outside; the logic here is what the proofs
//! are about.

use vstd::prelude::*;

pub mod bitmap;
pub mod bits;
pub mod cache;
pub mod ipc;
pub mod mbr;
pub mod mmu;
pub mod pool;
pub mod proc;
pub mod sched;
pub mod sem;
pub mod slob;
pub mod virtual_memory;

verus! {

/// Size in bytes of one page of physical memory.
pub const PAGE_SIZE: usize = 4096;

/// Size in bytes of one block of the block device.
pub const BLOCK_SIZE: usize = 512;

} // verus!
