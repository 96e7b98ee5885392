//! Lists of terms that hold the prime implicants of a function, and what is
//! true of every such list.

use crate::bits::{fits_width, popcount};
use crate::implicant::{
    cube, is_implicant, is_prime_implicant, lemma_adjacent_bit, lemma_cube_corners,
    lemma_cube_len, lemma_grow_to_prime, lemma_implicant_join,
};
use crate::term::AssociatedTerm;
use vstd::arithmetic::power2::pow2;
use vstd::prelude::*;

verus! {

/// `terms` holds a term with this value and mask.
pub open spec fn holds_product(terms: Seq<AssociatedTerm>, value: usize, mask: usize) -> bool {
    exists|j: int|
        0 <= j < terms.len() && (#[trigger] terms[j])@.value == value && terms[j]@.mask == mask
}

/// The products in `terms`, each as its value and mask.
pub open spec fn products(terms: Seq<AssociatedTerm>) -> Set<(usize, usize)> {
    Set::new(|product: (usize, usize)| holds_product(terms, product.0, product.1))
}

/// No two terms of `terms` are the same product.
pub open spec fn distinct_products(terms: Seq<AssociatedTerm>) -> bool {
    forall|p: int, q: int|
        0 <= p < q < terms.len() ==> !(#[trigger] terms[p])@.same_product((#[trigger] terms[q])@)
}

/// Some term of `terms` records the minterm `m`.
pub open spec fn covers_minterm(terms: Seq<AssociatedTerm>, m: usize) -> bool {
    exists|p: int| 0 <= p < terms.len() && (#[trigger] terms[p])@.covers.contains(m)
}

/// No two terms of `terms` are mergeable.
pub open spec fn no_two_mergeable(terms: Seq<AssociatedTerm>) -> bool {
    forall|p: int, q: int|
        0 <= p < terms.len() && 0 <= q < terms.len() && p != q ==> !(#[trigger] terms[p])@.mergeable(
            (#[trigger] terms[q])@,
        )
}

/// Every term of `terms` can be written over `width` variables: neither its
/// value nor its mask has a set bit beyond them.
pub open spec fn terms_fit(terms: Seq<AssociatedTerm>, width: nat) -> bool {
    forall|i: int|
        0 <= i < terms.len() ==> fits_width((#[trigger] terms[i])@.value, width) && fits_width(
            terms[i]@.mask,
            width,
        )
}

/// `terms` holds each prime implicant of the function that is true on `on`
/// once, with the minterms it stands for, and nothing else.
pub open spec fn is_prime_set(terms: Seq<AssociatedTerm>, on: Set<usize>) -> bool {
    &&& distinct_products(terms)
    &&& forall|p: int|
        0 <= p < terms.len() ==> (#[trigger] terms[p])@.well_formed() && is_prime_implicant(
            on,
            terms[p]@.value,
            terms[p]@.mask,
        )
    &&& forall|v: usize, k: usize| #[trigger]
        is_prime_implicant(on, v, k) ==> holds_product(terms, v, k)
}

/// A well-formed term that has eliminated `n` variables records two to the
/// `n` minterms: those that its value and mask expand to.
pub proof fn lemma_covers_len(term: AssociatedTerm)
    requires
        term@.well_formed(),
    ensures
        term@.covers == cube(term@.value, term@.mask),
        term@.covers.finite(),
        term@.covers.len() == pow2(popcount(term@.mask)),
{
    let raw = term.binary;
    let k = term.ignored;
    assert((raw & !k) & k == 0) by (bit_vector);
    lemma_cube_len(term@.value, term@.mask);
}

/// The prime implicants of a function of `width` variables can be written
/// over `width` variables.
pub proof fn lemma_primes_fit(terms: Seq<AssociatedTerm>, on: Set<usize>, width: nat)
    requires
        is_prime_set(terms, on),
        forall|m: usize| on.contains(m) ==> fits_width(m, width),
    ensures
        terms_fit(terms, width),
{
    assert forall|i: int| 0 <= i < terms.len() implies fits_width(
        (#[trigger] terms[i])@.value,
        width,
    ) && fits_width(terms[i]@.mask, width) by {
        let v = terms[i]@.value;
        let k = terms[i]@.mask;
        assert(is_prime_implicant(on, v, k));
        lemma_cube_corners(v, k);
        assert(on.contains(v));
        assert(on.contains(v | k));
        assert(k <= v | k) by (bit_vector);
    }
}

/// Every minterm of the function is recorded by one of its prime implicants.
pub proof fn lemma_primes_cover(terms: Seq<AssociatedTerm>, on: Set<usize>, m: usize)
    requires
        is_prime_set(terms, on),
        on.contains(m),
    ensures
        covers_minterm(terms, m),
{
    assert forall|x: usize| cube(m, 0).contains(x) implies on.contains(x) by {
        assert(x & !0usize == x) by (bit_vector);
    }
    assert(m & 0 == 0) by (bit_vector);
    lemma_cube_corners(m, 0);
    let (v, k) = lemma_grow_to_prime(on, m, 0);
    assert(holds_product(terms, v, k));
    let p = choose|p: int|
        0 <= p < terms.len() && (#[trigger] terms[p])@.value == v && terms[p]@.mask == k;
    assert(terms[p]@.covers.contains(m));
}

/// No two prime implicants of a function are mergeable: what they merged
/// into would contain both.
pub proof fn lemma_primes_not_mergeable(terms: Seq<AssociatedTerm>, on: Set<usize>)
    requires
        is_prime_set(terms, on),
    ensures
        no_two_mergeable(terms),
{
    assert forall|p: int, q: int|
        0 <= p < terms.len() && 0 <= q < terms.len() && p != q implies !(#[trigger] terms[p])@.mergeable(
        (#[trigger] terms[q])@,
    ) by {
        let a = terms[p]@;
        let b = terms[q]@;
        if a.mergeable(b) {
            let d = (a.value ^ b.value) & !a.mask;
            lemma_adjacent_bit(a.value, b.value, a.mask);
            if a.value & d == 0 && b.value == a.value | d {
                lemma_implicant_join(on, a.value, a.mask, d);
                assert(is_implicant(on, a.value, a.mask | d));
            } else {
                lemma_implicant_join(on, b.value, a.mask, d);
                assert(is_implicant(on, b.value, a.mask | d));
            }
        }
    }
}

/// A function has one set of prime implicants: two lists that hold it hold
/// the same products, and record the same minterms for each.
pub proof fn lemma_prime_set_unique(
    terms_a: Seq<AssociatedTerm>,
    terms_b: Seq<AssociatedTerm>,
    on: Set<usize>,
)
    requires
        is_prime_set(terms_a, on),
        is_prime_set(terms_b, on),
    ensures
        products(terms_a) == products(terms_b),
        forall|p: int, q: int|
            0 <= p < terms_a.len() && 0 <= q < terms_b.len() && (#[trigger] terms_a[p])@.same_product(
                (#[trigger] terms_b[q])@,
            ) ==> terms_a[p]@.covers == terms_b[q]@.covers,
{
    assert forall|product: (usize, usize)|
        products(terms_a).contains(product) <==> products(terms_b).contains(product) by {
        if holds_product(terms_a, product.0, product.1) {
            let p = choose|p: int|
                0 <= p < terms_a.len() && (#[trigger] terms_a[p])@.value == product.0
                    && terms_a[p]@.mask == product.1;
            assert(is_prime_implicant(on, terms_a[p]@.value, terms_a[p]@.mask));
        }
        if holds_product(terms_b, product.0, product.1) {
            let q = choose|q: int|
                0 <= q < terms_b.len() && (#[trigger] terms_b[q])@.value == product.0
                    && terms_b[q]@.mask == product.1;
            assert(is_prime_implicant(on, terms_b[q]@.value, terms_b[q]@.mask));
        }
    }
    assert(products(terms_a) =~= products(terms_b));
}

} // verus!
