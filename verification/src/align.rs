//! Rounding addresses to power-of-two boundaries.

use vstd::prelude::*;
use vstd::arithmetic::div_mod::{
    lemma_fundamental_div_mod, lemma_fundamental_div_mod_converse, lemma_mod_bound,
};
use vstd::arithmetic::power::pow;
use vstd::arithmetic::power2::{
    is_pow2, is_pow2_equiv, lemma2_to64, lemma_pow2_adds, lemma_pow2_pos,
    lemma_pow2_strictly_increases, pow2,
};
use vstd::bits::{lemma_usize_low_bits_mask_is_mod, low_bits_mask};

verus! {

/// Whether `x` is a multiple of `align`.
pub open spec fn is_aligned(x: int, align: int) -> bool {
    x % align == 0
}

/// The largest multiple of `align` that is at most `x`.
pub open spec fn aligned_down(x: int, align: int) -> int {
    x - x % align
}

/// The smallest multiple of `align` that is at least `x`.
pub open spec fn aligned_up(x: int, align: int) -> int {
    if x % align == 0 {
        x
    } else {
        x - x % align + align
    }
}

/// A word is a power of two exactly when it is not zero and clearing its
/// lowest set bit leaves nothing.
pub proof fn lemma_pow2_single_bit(x: usize)
    ensures
        is_pow2(x as int) <==> x != 0 && x & ((x - 1) as usize) == 0,
    decreases x,
{
    reveal(is_pow2);
    if x == 1 {
        assert(1usize & ((1usize - 1) as usize) == 0) by (bit_vector);
    } else if x > 1 {
        let half: usize = x / 2;
        lemma_pow2_single_bit(half);
        assert((x != 0 && x & ((x - 1) as usize) == 0) <==> (x % 2 == 0 && half != 0 && half & ((
        half - 1) as usize) == 0)) by (bit_vector)
            requires
                x > 1,
                half == x / 2,
        ;
    }
}

/// Whether `x` is a power of two.
pub fn is_power_of_two(x: usize) -> (b: bool)
    ensures
        b <==> is_pow2(x as int),
{
    proof {
        lemma_pow2_single_bit(x);
    }
    x != 0 && x & (x - 1) == 0
}

/// A power of two that fits in a machine word is `2^k` for some `k` below
/// the word's width.
proof fn lemma_pow2_exponent(align: usize) -> (k: nat)
    requires
        is_pow2(align as int),
    ensures
        k < usize::BITS,
        pow2(k) == align,
{
    is_pow2_equiv(align as int);
    let k = choose|i: nat| pow(2, i) == align as int;
    if k >= usize::BITS {
        lemma2_to64();
        if k > usize::BITS {
            lemma_pow2_strictly_increases(usize::BITS as nat, k);
        }
    }
    k
}

/// Masking off the bits below a power of two subtracts the remainder.
pub proof fn lemma_mask_clears_remainder(x: usize, align: usize)
    requires
        is_pow2(align as int),
    ensures
        align >= 1,
        x & !((align - 1) as usize) == aligned_down(x as int, align as int),
{
    let k = lemma_pow2_exponent(align);
    lemma_pow2_pos(k);
    lemma_usize_low_bits_mask_is_mod(x, k);
    let mask: usize = (align - 1) as usize;
    assert(mask == low_bits_mask(k) as usize);
    assert(x & mask == x % align);
    assert(x & !mask == x - (x & mask)) by (bit_vector);
}

/// Rounds `x` down to a multiple of `align`.
pub fn align_down(x: usize, align: usize) -> (r: usize)
    requires
        is_pow2(align as int),
    ensures
        r == aligned_down(x as int, align as int),
{
    proof {
        lemma_mask_clears_remainder(x, align);
    }
    x & !(align - 1)
}

/// Rounds `x` up to a multiple of `align`.
pub fn align_up(x: usize, align: usize) -> (r: usize)
    requires
        is_pow2(align as int),
        x + align - 1 <= usize::MAX,
    ensures
        r == aligned_up(x as int, align as int),
{
    proof {
        lemma_mask_clears_remainder((x + align - 1) as usize, align);
        lemma_aligned_up_by_rounding_down(x as int, align as int);
    }
    let mask: usize = align - 1;
    (x + mask) & !mask
}

/// Where `x + align - 1` does not fit in a machine word, neither does any
/// multiple of `align` at or above `x`.
pub proof fn lemma_aligned_up_overflows(x: usize, align: usize)
    requires
        is_pow2(align as int),
        x + align - 1 > usize::MAX,
    ensures
        aligned_up(x as int, align as int) > usize::MAX,
{
    let k = lemma_pow2_exponent(align);
    let bits = usize::BITS as nat;
    let rest = (bits - k) as nat;
    lemma2_to64();
    lemma_pow2_adds(k, rest);
    lemma_pow2_pos(k);
    let limit = usize::MAX + 1;
    assert(limit == pow2(rest) * align + 0) by (nonlinear_arith)
        requires
            limit == pow2(k) * pow2(rest),
            pow2(k) == align,
    ;
    lemma_fundamental_div_mod_converse(limit, align as int, pow2(rest) as int, 0);
    let up = aligned_up(x as int, align as int);
    lemma_aligned_up_is_least(x as int, align as int);
    if up <= usize::MAX {
        lemma_multiples_are_spaced(up, limit, align as int);
    }
}

/// Rounding up is rounding down after adding one less than the alignment.
pub proof fn lemma_aligned_up_by_rounding_down(x: int, align: int)
    requires
        align > 0,
    ensures
        aligned_up(x, align) == aligned_down(x + align - 1, align),
{
    let q = x / align;
    let m = x % align;
    lemma_fundamental_div_mod(x, align);
    lemma_mod_bound(x, align);
    assert(align * q == q * align && (q + 1) * align == q * align + align) by (nonlinear_arith);
    if m == 0 {
        lemma_fundamental_div_mod_converse(x + align - 1, align, q, align - 1);
    } else {
        lemma_fundamental_div_mod_converse(x + align - 1, align, q + 1, m - 1);
    }
}

/// `aligned_down(x, align)` is a multiple of `align`, lies within one
/// alignment unit below `x`, and no larger multiple of `align` is at most `x`.
pub proof fn lemma_aligned_down_is_greatest(x: int, align: int)
    requires
        align > 0,
    ensures
        is_aligned(aligned_down(x, align), align),
        aligned_down(x, align) <= x < aligned_down(x, align) + align,
        forall|m: int| #[trigger] is_aligned(m, align) && m <= x ==> m <= aligned_down(x, align),
{
    let r = aligned_down(x, align);
    let q = x / align;
    lemma_fundamental_div_mod(x, align);
    lemma_mod_bound(x, align);
    assert(align * q == q * align) by (nonlinear_arith);
    lemma_fundamental_div_mod_converse(r, align, q, 0);
    assert forall|m: int| #[trigger] is_aligned(m, align) && m <= x implies m <= r by {
        if m > r {
            lemma_multiples_are_spaced(r, m, align);
        }
    }
}

/// `aligned_up(x, align)` is a multiple of `align`, lies within one alignment
/// unit above `x`, and no smaller multiple of `align` is at least `x`.
pub proof fn lemma_aligned_up_is_least(x: int, align: int)
    requires
        align > 0,
    ensures
        is_aligned(aligned_up(x, align), align),
        x <= aligned_up(x, align) < x + align,
        forall|m: int| #[trigger] is_aligned(m, align) && x <= m ==> aligned_up(x, align) <= m,
{
    let r = aligned_up(x, align);
    let q = x / align;
    lemma_fundamental_div_mod(x, align);
    lemma_mod_bound(x, align);
    if x % align != 0 {
        assert(align * q == q * align && (q + 1) * align == q * align + align)
            by (nonlinear_arith);
        lemma_fundamental_div_mod_converse(r, align, q + 1, 0);
    }
    assert forall|m: int| #[trigger] is_aligned(m, align) && x <= m implies r <= m by {
        if m < r {
            lemma_multiples_are_spaced(m, r, align);
        }
    }
}

/// Two distinct multiples of `align` are at least `align` apart.
pub proof fn lemma_multiples_are_spaced(lo: int, hi: int, align: int)
    requires
        align > 0,
        lo % align == 0,
        hi % align == 0,
        lo < hi,
    ensures
        lo + align <= hi,
{
    lemma_fundamental_div_mod(lo, align);
    lemma_fundamental_div_mod(hi, align);
    let a = lo / align;
    let b = hi / align;
    assert(a < b) by (nonlinear_arith)
        requires
            align > 0,
            align * a < align * b,
    ;
    assert(align * (a + 1) <= align * b) by (nonlinear_arith)
        requires
            align > 0,
            a + 1 <= b,
    ;
    assert(align * (a + 1) == align * a + align) by (nonlinear_arith);
}

} // verus!
