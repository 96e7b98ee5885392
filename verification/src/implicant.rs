//! Implicants of a boolean function, as sets of minterms.
//!
//! A product term is a pair of words: `mask` has a set bit for each variable
//! that the term leaves out, and `value` gives the polarity of each variable
//! that it keeps. The pair is canonical when `value` has no bit under `mask`,
//! and every function here takes canonical pairs.

use crate::bits::{
    is_single_bit, lemma_lowest_bit, lemma_popcount_set_bit, lemma_single_bit_popcount, lowest_bit,
    popcount,
};
use vstd::arithmetic::power2::{lemma2_to64, lemma_pow2_unfold, pow2};
use vstd::prelude::*;
use vstd::set_lib::lemma_set_disjoint_lens;

verus! {

/// The minterms that the term `(value, mask)` stands for: those that agree
/// with `value` on every variable outside `mask`.
pub open spec fn cube(value: usize, mask: usize) -> Set<usize> {
    Set::new(|m: usize| m & !mask == value)
}

/// The term `(value, mask)` is canonical, and the function that is true on
/// exactly the minterms of `on` is true on all of the term's minterms.
pub open spec fn is_implicant(on: Set<usize>, value: usize, mask: usize) -> bool {
    value & mask == 0 && cube(value, mask).subset_of(on)
}

/// The term `(value, mask)` is an implicant that no other implicant contains.
pub open spec fn is_prime_implicant(on: Set<usize>, value: usize, mask: usize) -> bool {
    &&& is_implicant(on, value, mask)
    &&& forall|v: usize, k: usize| #[trigger]
        is_implicant(on, v, k) && cube(value, mask).subset_of(cube(v, k)) ==> v == value && k
            == mask
}

/// Two terms over the same variables that differ in the polarity of exactly
/// one of them.
pub open spec fn adjacent(value_a: usize, value_b: usize, mask: usize) -> bool {
    popcount((value_a ^ value_b) & !mask) == 1
}

/// A canonical term contains the minterm that sets all of its free variables
/// to zero, and the one that sets them all to one.
pub proof fn lemma_cube_corners(value: usize, mask: usize)
    requires
        value & mask == 0,
    ensures
        cube(value, mask).contains(value),
        cube(value, mask).contains(value | mask),
{
    assert(value & mask == 0 ==> value & !mask == value && (value | mask) & !mask == value)
        by (bit_vector);
}

/// Freeing one more variable joins a term with its neighbour across that
/// variable.
pub proof fn lemma_cube_split(value: usize, mask: usize, d: usize)
    requires
        value & mask == 0,
        is_single_bit(d),
        mask & d == 0,
        value & d == 0,
    ensures
        cube(value, mask | d) == cube(value, mask).union(cube(value | d, mask)),
        cube(value, mask).disjoint(cube(value | d, mask)),
        (value | d) & mask == 0,
        value & (mask | d) == 0,
{
    assert forall|m: usize|
        cube(value, mask | d).contains(m) <==> cube(value, mask).contains(m) || cube(
            value | d,
            mask,
        ).contains(m) by {
        assert(is_single_bit(d) && value & mask == 0 && mask & d == 0 && value & d == 0 ==> (m & !(
        mask | d) == value <==> m & !mask == value || m & !mask == value | d)) by (bit_vector);
    }
    assert(cube(value, mask | d) =~= cube(value, mask).union(cube(value | d, mask)));
    assert forall|m: usize|
        !(cube(value, mask).contains(m) && cube(value | d, mask).contains(m)) by {
        assert(d != 0 && value & d == 0 ==> value != value | d) by (bit_vector);
    }
    assert(value & mask == 0 && mask & d == 0 && value & d == 0 ==> (value | d) & mask == 0 && value
        & (mask | d) == 0) by (bit_vector);
}

/// Two adjacent canonical terms differ by one bit, which one of them has and
/// the other lacks.
pub proof fn lemma_adjacent_bit(value_a: usize, value_b: usize, mask: usize)
    requires
        value_a & mask == 0,
        value_b & mask == 0,
        adjacent(value_a, value_b, mask),
    ensures
        ({
            let d = (value_a ^ value_b) & !mask;
            &&& is_single_bit(d)
            &&& mask & d == 0
            &&& (value_a & d == 0 && value_b == value_a | d && value_a & value_b == value_a) || (
            value_b & d == 0 && value_a == value_b | d && value_a & value_b == value_b)
        }),
{
    let d = (value_a ^ value_b) & !mask;
    lemma_single_bit_popcount(d);
    assert(is_single_bit(d) ==> value_a & d == 0 || value_a & d == d) by (bit_vector);
    assert(value_a & mask == 0 && value_b & mask == 0 && d == (value_a ^ value_b) & !mask ==> mask
        & d == 0 && (value_a & d == 0 ==> value_b == value_a | d && value_a & value_b == value_a)
        && (value_a & d == d ==> value_b & d == 0 && value_a == value_b | d && value_a & value_b
        == value_b)) by (bit_vector);
}

/// Of two adjacent canonical terms, the one with the smaller bit count is the
/// one that lacks the differing bit.
pub proof fn lemma_adjacent_ordered(value_a: usize, value_b: usize, mask: usize)
    requires
        value_a & mask == 0,
        value_b & mask == 0,
        adjacent(value_a, value_b, mask),
        popcount(value_a) < popcount(value_b),
    ensures
        ({
            let d = (value_a ^ value_b) & !mask;
            &&& is_single_bit(d)
            &&& mask & d == 0
            &&& value_a & d == 0
            &&& value_b == value_a | d
            &&& value_a & value_b == value_a
            &&& popcount(value_b) == popcount(value_a) + 1
            &&& popcount(mask | d) == popcount(mask) + 1
        }),
{
    let d = (value_a ^ value_b) & !mask;
    lemma_adjacent_bit(value_a, value_b, mask);
    if value_b & d == 0 && value_a == value_b | d {
        lemma_popcount_set_bit(value_b, d);
    } else {
        lemma_popcount_set_bit(value_a, d);
    }
    lemma_popcount_set_bit(mask, d);
}

/// Fixing one free variable of an implicant, either way, gives an implicant.
pub proof fn lemma_implicant_halves(on: Set<usize>, value: usize, mask: usize, d: usize)
    requires
        is_implicant(on, value, mask),
        is_single_bit(d),
        d & !mask == 0,
    ensures
        is_implicant(on, value, mask & !d),
        is_implicant(on, value | d, mask & !d),
        (mask & !d) | d == mask,
        (mask & !d) & d == 0,
        value & d == 0,
        popcount(mask) == popcount(mask & !d) + 1,
        popcount(value | d) == popcount(value) + 1,
        adjacent(value, value | d, mask & !d),
{
    let k = mask & !d;
    assert(value & mask == 0 && d & !mask == 0 && k == mask & !d ==> k | d == mask && k & d == 0
        && value & d == 0 && value & k == 0 && (value ^ (value | d)) & !k == d) by (bit_vector);
    lemma_cube_split(value, k, d);
    lemma_popcount_set_bit(k, d);
    lemma_popcount_set_bit(value, d);
    lemma_single_bit_popcount(d);
}

/// Two adjacent implicants join into an implicant with one more free
/// variable.
pub proof fn lemma_implicant_join(on: Set<usize>, value: usize, mask: usize, d: usize)
    requires
        is_implicant(on, value, mask),
        is_implicant(on, value | d, mask),
        is_single_bit(d),
        mask & d == 0,
        value & d == 0,
    ensures
        is_implicant(on, value, mask | d),
        cube(value, mask).subset_of(cube(value, mask | d)),
        cube(value | d, mask).subset_of(cube(value, mask | d)),
        mask | d != mask,
{
    lemma_cube_split(value, mask, d);
    assert(d != 0 && mask & d == 0 ==> mask | d != mask) by (bit_vector);
}

/// An implicant is prime as soon as freeing any single one of its variables
/// leaves the function.
pub proof fn lemma_prime_by_single_steps(on: Set<usize>, value: usize, mask: usize)
    requires
        is_implicant(on, value, mask),
        forall|d: usize|
            is_single_bit(d) && mask & d == 0 ==> !#[trigger] is_implicant(
                on,
                value & !d,
                mask | d,
            ),
    ensures
        is_prime_implicant(on, value, mask),
{
    assert forall|v: usize, k: usize| #[trigger]
        is_implicant(on, v, k) && cube(value, mask).subset_of(cube(v, k)) implies v == value && k
        == mask by {
        lemma_cube_corners(value, mask);
        assert(cube(v, k).contains(value));
        assert(cube(v, k).contains(value | mask));
        assert(value & mask == 0 && v & k == 0 && value & !k == v && (value | mask) & !k == v
            ==> mask & !k == 0 && (k == mask ==> v == value)) by (bit_vector);
        if k != mask {
            let e: usize = k & !mask;
            let d: usize = lowest_bit(e);
            assert(mask & !k == 0 && k != mask ==> k & !mask != 0) by (bit_vector);
            lemma_lowest_bit(e);
            assert(e == k & !mask && d & !e == 0 ==> mask & d == 0 && d & !k == 0)
                by (bit_vector);
            assert forall|m: usize| cube(value & !d, mask | d).contains(m) implies on.contains(
                m,
            ) by {
                assert(value & mask == 0 && v & k == 0 && value & !k == v && mask & !k == 0 && d
                    & !k == 0 && m & !(mask | d) == value & !d ==> m & !k == v) by (bit_vector);
                assert(cube(v, k).contains(m));
            }
            assert(value & mask == 0 ==> (value & !d) & (mask | d) == 0) by (bit_vector);
            assert(is_implicant(on, value & !d, mask | d));
        }
    }
}

/// Every implicant lies within a prime implicant.
pub proof fn lemma_grow_to_prime(on: Set<usize>, value: usize, mask: usize) -> (prime: (
    usize,
    usize,
))
    requires
        is_implicant(on, value, mask),
    ensures
        is_prime_implicant(on, prime.0, prime.1),
        cube(value, mask).subset_of(cube(prime.0, prime.1)),
    decreases usize::MAX - mask,
{
    if is_prime_implicant(on, value, mask) {
        (value, mask)
    } else {
        if !exists|d: usize|
            is_single_bit(d) && mask & d == 0 && #[trigger] is_implicant(
                on,
                value & !d,
                mask | d,
            ) {
            lemma_prime_by_single_steps(on, value, mask);
        }
        let d = choose|d: usize|
            is_single_bit(d) && mask & d == 0 && #[trigger] is_implicant(
                on,
                value & !d,
                mask | d,
            );
        assert(d != 0 && mask & d == 0 ==> mask | d > mask) by (bit_vector);
        assert forall|m: usize| cube(value, mask).contains(m) implies cube(
            value & !d,
            mask | d,
        ).contains(m) by {
            assert(m & !mask == value ==> m & !(mask | d) == value & !d) by (bit_vector);
        }
        lemma_grow_to_prime(on, value & !d, mask | d)
    }
}

/// A term that has eliminated `n` variables stands for two to the `n`
/// minterms.
pub proof fn lemma_cube_len(value: usize, mask: usize)
    requires
        value & mask == 0,
    ensures
        cube(value, mask).finite(),
        cube(value, mask).len() == pow2(popcount(mask)),
    decreases mask,
{
    if mask == 0 {
        assert forall|m: usize| cube(value, mask).contains(m) <==> m == value by {
            assert(m & !0usize == m) by (bit_vector);
        }
        assert(cube(value, mask) =~= set![value]);
        lemma2_to64();
    } else {
        let d = lowest_bit(mask);
        lemma_lowest_bit(mask);
        let rest: usize = mask & !d;
        assert(d != 0 && d & !mask == 0 && rest == mask & !d && value & mask == 0 ==> rest < mask
            && rest | d == mask && rest & d == 0 && value & d == 0 && value & rest == 0 && (value
            | d) & rest == 0) by (bit_vector);
        lemma_cube_split(value, rest, d);
        lemma_cube_len(value, rest);
        lemma_cube_len(value | d, rest);
        lemma_set_disjoint_lens(cube(value, rest), cube(value | d, rest));
        lemma_popcount_set_bit(rest, d);
        lemma_pow2_unfold(popcount(mask));
    }
}

} // verus!
