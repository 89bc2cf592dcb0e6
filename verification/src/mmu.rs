//! Address-space helpers: moving an address between the kernel's high
//! mapping and its physical alias, and the UART clock divisor.

use vstd::prelude::*;

verus! {

/// The high bits that put an address in the kernel's mapping.
pub const KSPACE_MASK: u64 = 0xffff000000000000;

/// Top of the usable physical range.
pub const PHYSICAL_TOP: u64 = 0x3f000000;

/// The serial peripheral's input clock in hertz.
pub const AUX_UART_CLOCK: u32 = 250000000;

/// Turns a kernel-mapped address into its physical alias.
pub fn kernel2physical(addr: u64) -> (r: u64)
    requires
        addr >= KSPACE_MASK,
    ensures
        r == addr - KSPACE_MASK,
{
    addr - KSPACE_MASK
}

/// Turns a physical address into its kernel-mapped alias.
pub fn physical2kernel(addr: u64) -> (r: u64)
    requires
        addr + KSPACE_MASK <= u64::MAX,
    ensures
        r == addr + KSPACE_MASK,
{
    addr + KSPACE_MASK
}

/// Forces an address into the kernel mapping by setting the high bits.
pub fn into_kernel_addr(addr: u64) -> (r: u64)
    ensures
        r == addr | KSPACE_MASK,
{
    addr | KSPACE_MASK
}

/// Strips the kernel mapping's high bits off an address.
pub fn into_physical_addr(addr: u64) -> (r: u64)
    ensures
        r == addr & !KSPACE_MASK,
{
    addr & !KSPACE_MASK
}

/// The divisor that makes the serial clock tick at `bandrate`.
pub fn aux_mu_baud(bandrate: u32) -> (r: u32)
    requires
        0 < bandrate,
        bandrate * 8 <= AUX_UART_CLOCK,
    ensures
        r == AUX_UART_CLOCK as int / (bandrate as int * 8) - 1,
{
    proof {
        vstd::arithmetic::div_mod::lemma_div_non_zero(
            AUX_UART_CLOCK as int,
            bandrate as int * 8,
        );
    }
    (AUX_UART_CLOCK / (bandrate * 8)) - 1
}

} // verus!
