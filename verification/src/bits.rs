//! Word-level helpers: rounding to an alignment and reading or writing a
//! bit field of a `u64`.

use vstd::prelude::*;

verus! {

/// The mask with the low `len` bits set, for `len <= 64`.
pub open spec fn low_mask(len: u64) -> u64 {
    if len == 64 {
        0xffff_ffff_ffff_ffffu64
    } else {
        ((1u64 << len) - 1) as u64
    }
}

/// The value of the bit field `[start, end)` of `num`, shifted down to bit 0.
pub open spec fn field_of(num: u64, start: u64, end: u64) -> u64
    recommends
        start <= end <= 64,
{
    ((num >> start) & low_mask((end - start) as u64)) as u64
}

/// A bit field of a preserved low part is itself preserved.
pub proof fn lemma_low_part_field(v: u64, w: u64, s: u64, a: u64, b: u64)
    by (bit_vector)
    requires
        a <= b,
        b <= s,
        s <= 64,
        field_of(v, 0, s) == field_of(w, 0, s),
    ensures
        field_of(v, a, b) == field_of(w, a, b),
{
}

/// A bit field of a preserved high part is itself preserved.
#[verifier::rlimit(100)]
pub proof fn lemma_high_part_field(v: u64, w: u64, e: u64, a: u64, b: u64)
    by (bit_vector)
    requires
        e <= a,
        a <= b,
        b <= 64,
        field_of(v, e, 64) == field_of(w, e, 64),
    ensures
        field_of(v, a, b) == field_of(w, a, b),
{
}

/// Largest multiple of `align` that is at most `addr`.
pub fn round_down(addr: usize, align: usize) -> (r: usize)
    requires
        align > 0,
    ensures
        r == addr - addr % align,
        r as int % align as int == 0,
        r <= addr,
        addr - r < align,
{
    proof {
        vstd::arithmetic::div_mod::lemma_mod_decreases(addr as nat, align as nat);
        vstd::arithmetic::div_mod::lemma_fundamental_div_mod(addr as int, align as int);
        vstd::arithmetic::div_mod::lemma_mod_multiples_basic(
            addr as int / align as int, align as int);
    }
    addr - (addr % align)
}

/// Smallest multiple of `align` that is at least `addr`.
pub fn round_up(addr: usize, align: usize) -> (r: usize)
    requires
        align > 0,
        addr + align - 1 <= usize::MAX,
    ensures
        r as int % align as int == 0,
        addr <= r,
        r - addr < align,
{
    let r = round_down(addr + (align - 1), align);
    assert(addr <= r && r - addr < align) by {
        let a = (addr + align - 1) as int;
        assert(0 <= a % (align as int) < align) by {
            vstd::arithmetic::div_mod::lemma_mod_bound(a, align as int);
        }
    }
    r
}

/// Number of filler bytes needed after `size` bytes to reach a multiple of
/// `align`.
pub fn padding(size: usize, align: usize) -> (r: usize)
    requires
        align > 0,
    ensures
        (size + r) % align as int == 0,
        r < align,
{
    if size % align == 0 {
        0
    } else {
        let r = align - size % align;
        assert((size + r) % align as int == 0) by {
            let q = size as int / align as int;
            vstd::arithmetic::div_mod::lemma_fundamental_div_mod(size as int, align as int);
            assert(size + r == (q + 1) * align) by (nonlinear_arith)
                requires
                    size as int == align as int * q + (size as int % align as int),
                    r == align - size % align,
            ;
            vstd::arithmetic::div_mod::lemma_mod_multiples_basic(q + 1, align as int);
        }
        r
    }
}

/// Reads the bit field `[start, end)` of `num`.
pub fn get_bits(num: u64, start: u8, end: u8) -> (r: u64)
    requires
        start <= end,
        end <= 64,
    ensures
        r == field_of(num, start as u64, end as u64),
{
    if start == end {
        proof {
            let s = start;
            assert(field_of(num, s as u64, s as u64) == 0) by (bit_vector);
        }
        return 0;
    }
    if end - start == 64 {
        proof {
            let s = start;
            let e = end;
            assert(field_of(num, s as u64, e as u64) == num) by (bit_vector)
                requires
                    s == 0 && e == 64,
            ;
        }
        return num;
    }
    let len = end - start;
    proof {
        assert(len < 64 ==> 1u64 << len >= 1) by (bit_vector);
    }
    let mask = (1u64 << len) - 1;
    let r = (num >> start) & mask;
    proof {
        let s = start;
        let e = end;
        assert(r == field_of(num, s as u64, e as u64)) by (bit_vector)
            requires
                s < e,
                e <= 64,
                len == e - s,
                len < 64,
                mask == (1u64 << len) - 1,
                r == (num >> s) & mask,
        ;
    }
    r
}

/// Replaces the bit field `[start, end)` of `num` with the low `end - start`
/// bits of `bits`; all other bits keep their value.
pub fn set_bits(num: &mut u64, bits: u64, start: u8, end: u8)
    requires
        start <= end,
        end <= 64,
    ensures
        field_of(*final(num), start as u64, end as u64)
            == field_of(bits, 0, (end - start) as u64),
        field_of(*final(num), 0, start as u64) == field_of(*old(num), 0, start as u64),
        field_of(*final(num), end as u64, 64) == field_of(*old(num), end as u64, 64),
{
    let ghost n0: u64 = *num;
    if start == end {
        proof {
            let s = start;
            let b = bits;
            assert(field_of(n0, s as u64, s as u64) == 0 && field_of(b, 0, 0) == 0)
                by (bit_vector);
        }
        return;
    }
    if end - start == 64 {
        *num = bits;
        proof {
            let s = start;
            let e = end;
            let b = bits;
            let v = *num;
            assert(field_of(v, s as u64, e as u64) == field_of(b, 0, 64)
                && field_of(v, 0, s as u64) == field_of(n0, 0, s as u64)
                && field_of(v, e as u64, 64) == field_of(n0, e as u64, 64)) by (bit_vector)
                requires
                    s == 0 && e == 64 && v == b,
            ;
        }
        return;
    }
    let len = end - start;
    proof {
        assert(len < 64 ==> 1u64 << len >= 1) by (bit_vector);
    }
    let low = (1u64 << len) - 1;
    let field_mask = low << start;
    *num = (*num & !field_mask) | ((bits & low) << start);
    proof {
        let s = start;
        let e = end;
        let b = bits;
        let v = *num;
        assert(field_of(v, s as u64, e as u64) == field_of(b, 0, (e - s) as u64)
            && field_of(v, 0, s as u64) == field_of(n0, 0, s as u64)
            && field_of(v, e as u64, 64) == field_of(n0, e as u64, 64)) by (bit_vector)
            requires
                s < e,
                e <= 64,
                len == e - s,
                len < 64,
                low == (1u64 << len) - 1,
                field_mask == low << s,
                v == (n0 & !field_mask) | ((b & low) << s),
        ;
    }
}

} // verus!
