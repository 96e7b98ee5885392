//! Counting the set bits of a machine word, and the facts about single bits
//! that the rest of the crate builds on.

use vstd::arithmetic::div_mod::{lemma_basic_div, lemma_div_non_zero};
use vstd::arithmetic::power2::{
    lemma2_to64, lemma_pow2_pos, lemma_pow2_strictly_increases, lemma_pow2_unfold, pow2,
};
use vstd::bits::lemma_usize_shr_is_div;
use vstd::layout::unsigned_int_max_values;
use vstd::prelude::*;

verus! {

/// The number of set bits in the binary form of `x`.
pub open spec fn popcount(x: usize) -> nat
    decreases x,
{
    if x == 0 {
        0
    } else {
        (x % 2) as nat + popcount(x / 2)
    }
}

/// `d` has exactly one set bit.
pub open spec fn is_single_bit(d: usize) -> bool {
    d != 0 && d & ((d - 1) as usize) == 0
}

/// The lowest set bit of `e`, for `e` other than zero.
pub open spec fn lowest_bit(e: usize) -> usize {
    e & !((e - 1) as usize)
}

/// `x` can be written with `width` binary digits.
pub open spec fn fits_width(x: usize, width: nat) -> bool {
    x < pow2(width)
}

/// A word that fits `width` binary digits has at most `width` set bits.
pub proof fn lemma_popcount_le_width(x: usize, width: nat)
    requires
        fits_width(x, width),
    ensures
        popcount(x) <= width,
    decreases width,
{
    if width == 0 {
        lemma2_to64();
    } else if x != 0 {
        lemma_pow2_unfold(width);
        lemma_popcount_le_width(x / 2, (width - 1) as nat);
    }
}

/// No word has more set bits than it has bits.
pub proof fn lemma_popcount_le_bits(x: usize)
    ensures
        popcount(x) <= usize::BITS,
{
    unsigned_int_max_values();
    lemma_popcount_le_width(x, usize::BITS as nat);
}

/// Only zero has no set bit.
pub proof fn lemma_popcount_zero(x: usize)
    ensures
        popcount(x) == 0 <==> x == 0,
    decreases x,
{
    if x != 0 {
        lemma_popcount_zero(x / 2);
    }
}

/// A word has exactly one set bit just when its bit count is one.
pub proof fn lemma_single_bit_popcount(d: usize)
    ensures
        is_single_bit(d) <==> popcount(d) == 1,
    decreases d,
{
    if d != 0 {
        let h: usize = d / 2;
        lemma_popcount_zero(h);
        lemma_single_bit_popcount(h);
        assert(h == d / 2 && d != 0 ==> (d % 2 == 1 ==> (is_single_bit(d) <==> h == 0)) && (d % 2
            == 0 ==> (is_single_bit(d) <==> is_single_bit(h)))) by (bit_vector);
    }
}

/// The lowest set bit of a word is a single bit of that word.
pub proof fn lemma_lowest_bit(e: usize)
    requires
        e != 0,
    ensures
        is_single_bit(lowest_bit(e)),
        lowest_bit(e) & !e == 0,
{
    assert(e != 0 ==> is_single_bit(lowest_bit(e)) && lowest_bit(e) & !e == 0) by (bit_vector);
}

/// Setting a bit that was clear raises the bit count by one.
pub proof fn lemma_popcount_set_bit(x: usize, d: usize)
    requires
        is_single_bit(d),
        x & d == 0,
    ensures
        popcount(x | d) == popcount(x) + 1,
    decreases d,
{
    let y: usize = x | d;
    assert(is_single_bit(d) && x & d == 0 && y == x | d ==> y != 0 && (d % 2 == 1 ==> y % 2 == 1
        && x % 2 == 0 && y / 2 == x / 2) && (d % 2 == 0 ==> y % 2 == x % 2 && is_single_bit(d / 2)
        && (x / 2) & (d / 2) == 0 && y / 2 == (x / 2) | (d / 2) && d / 2 < d)) by (bit_vector);
    if d % 2 == 0 {
        lemma_popcount_set_bit(x / 2, d / 2);
    }
}

/// Tells whether `x` can be written with `width` binary digits.
pub fn fits(x: usize, width: usize) -> (yes: bool)
    ensures
        yes == fits_width(x, width as nat),
{
    if width >= usize::BITS as usize {
        proof {
            unsigned_int_max_values();
            if width > usize::BITS {
                lemma_pow2_strictly_increases(usize::BITS as nat, width as nat);
            }
        }
        true
    } else {
        proof {
            lemma_usize_shr_is_div(x, width);
            lemma_pow2_pos(width as nat);
            let p = pow2(width as nat) as int;
            if x < p {
                lemma_basic_div(x as int, p);
            } else {
                lemma_div_non_zero(x as int, p);
            }
        }
        (x >> width) == 0
    }
}

/// Counts the set bits of `num`.
pub fn calc_ones(num: usize) -> (ones: usize)
    ensures
        ones == popcount(num),
        ones <= usize::BITS,
{
    let mut rest: usize = num;
    let mut ones: usize = 0;
    proof {
        lemma_popcount_le_bits(num);
    }
    while rest > 0
        invariant
            ones + popcount(rest) == popcount(num),
            popcount(num) <= usize::BITS,
        decreases rest,
    {
        assert(rest & 1 == rest % 2 && rest >> 1 == rest / 2) by (bit_vector);
        ones += rest & 1;
        rest >>= 1;
    }
    ones
}

} // verus!
