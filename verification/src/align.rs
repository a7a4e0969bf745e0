//! Rounding to a power-of-two alignment, saturating as the allocator does.
use vstd::prelude::*;
use vstd::arithmetic::power2::pow2;
use vstd::bits::{low_bits_mask, lemma_u64_low_bits_mask_is_mod};

verus! {

/// An alignment the allocator can work with: a power of two no smaller than a
/// header word.
pub open spec fn good_align(a: usize) -> bool {
    a >= 8 && exists|n: nat| n < 64 && pow2(n) == a
}

/// For a power of two, the low bits are the remainder.
pub proof fn lemma_mask_is_mod(x: usize, a: usize)
    requires
        good_align(a),
    ensures
        x % a == x & ((a - 1) as usize),
        a & ((a - 1) as usize) == 0,
{
    let n = choose|n: nat| n < 64 && pow2(n) == a;
    let m = (a - 1) as usize;
    assert(low_bits_mask(n) == pow2(n) - 1);
    lemma_u64_low_bits_mask_is_mod(x as u64, n);
    lemma_u64_low_bits_mask_is_mod(a as u64, n);
    assert((x as u64) & (m as u64) == (x & m) as u64) by (bit_vector);
    assert((a as u64) & (m as u64) == (a & m) as u64) by (bit_vector);
}

/// `value.saturating_add(mask) & !mask`, with `mask` one less than `align`.
pub open spec fn align_up(value: usize, align: usize) -> usize {
    let mask: usize = if align == 0 { 0 } else { (align - 1) as usize };
    let sum: usize = if value + mask > usize::MAX { usize::MAX } else { (value + mask) as usize };
    sum & !mask
}

/// `value & !mask`: round down.
pub open spec fn align_down(value: usize, align: usize) -> usize {
    let mask: usize = if align == 0 { 0 } else { (align - 1) as usize };
    value & !mask
}

/// Round `value` up to a multiple of `align`, saturating.
pub fn align_up_exec(value: usize, align: usize) -> (r: usize)
    ensures
        r == align_up(value, align),
{
    let mask = align.saturating_sub(1);
    value.saturating_add(mask) & !mask
}

/// Rounding down lands on a multiple at most an alignment below.
pub proof fn lemma_align_down(x: usize, a: usize)
    requires
        good_align(a),
    ensures
        align_down(x, a) % a == 0,
        align_down(x, a) % 8 == 0,
        align_down(x, a) <= x,
        x - align_down(x, a) < a,
        x % a == 0 ==> align_down(x, a) == x,
{
    let m = (a - 1) as usize;
    lemma_mask_is_mod(x, a);
    lemma_mask_is_mod(x & !m, a);
    lemma_mask_is_mod(7, a);
    vstd::arithmetic::div_mod::lemma_small_mod(7, a as nat);
    assert(m & 7 == 7) by (bit_vector)
        requires 7usize & m == 7usize;
    assert((x & !m) & m == 0usize && (x & !m) & 7usize == 0usize && (x & !m) <= x
        && x - (x & !m) == x & m && x & m <= m) by (bit_vector)
        requires m & 7usize == 7usize;
    assert((x & !m) % 8 == 0) by (bit_vector)
        requires (x & !m) & 7usize == 0usize;
}

/// Rounding up lands on a multiple less than an alignment above, unless it
/// saturates.
pub proof fn lemma_align_up(x: usize, a: usize)
    requires
        good_align(a),
    ensures
        align_up(x, a) % a == 0,
        align_up(x, a) % 8 == 0,
        x + (a - 1) <= usize::MAX ==> x <= align_up(x, a) && align_up(x, a) < x + a,
        x + (a - 1) > usize::MAX ==> align_up(x, a) > usize::MAX - a,
{
    let m = (a - 1) as usize;
    if x + m <= usize::MAX {
        let s = (x + m) as usize;
        lemma_align_down(s, a);
        assert(align_up(x, a) == align_down(s, a));
    } else {
        lemma_align_down(usize::MAX, a);
        assert(align_up(x, a) == align_down(usize::MAX, a));
    }
}

} // verus!
