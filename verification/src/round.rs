//! What one round of merging does to the groups of terms, and why the terms
//! that take no part in it are the prime implicants.

use crate::bits::{is_single_bit, lemma_lowest_bit, lemma_popcount_zero, lowest_bit, popcount};
use crate::implicant::{
    cube, is_implicant, is_prime_implicant, lemma_adjacent_ordered, lemma_cube_split,
    lemma_implicant_halves, lemma_implicant_join, lemma_prime_by_single_steps,
};
use crate::primes::{distinct_products, holds_product};
use crate::term::{AssociatedTerm, TermView};
use vstd::prelude::*;

verus! {

/// Some term of `group` is mergeable with `a`, taken as the term of the
/// lower group.
pub open spec fn has_partner_above(a: TermView, group: Seq<AssociatedTerm>) -> bool {
    exists|j: int| 0 <= j < group.len() && a.mergeable((#[trigger] group[j])@)
}

/// Some term of `group` is mergeable with `b`, taken as the term of the
/// upper group.
pub open spec fn has_partner_below(b: TermView, group: Seq<AssociatedTerm>) -> bool {
    exists|i: int| 0 <= i < group.len() && (#[trigger] group[i])@.mergeable(b)
}

/// `t` is what `a` and some term of `group` merge into.
pub open spec fn merge_of(t: TermView, a: TermView, group: Seq<AssociatedTerm>) -> bool {
    exists|j: int|
        0 <= j < group.len() && a.mergeable((#[trigger] group[j])@) && t == a.merged(group[j]@)
}

/// `t` is what some term of `lower` and some term of `upper` merge into.
pub open spec fn pair_merge_of(
    t: TermView,
    lower: Seq<AssociatedTerm>,
    upper: Seq<AssociatedTerm>,
) -> bool {
    exists|i: int| 0 <= i < lower.len() && merge_of(t, (#[trigger] lower[i])@, upper)
}

/// `group` holds a term that means `t`, at `from` or later.
pub open spec fn holds_from(group: Seq<AssociatedTerm>, from: int, t: TermView) -> bool {
    exists|i: int| from <= i < group.len() && (#[trigger] group[i])@ == t
}

/// `next` is what one round of merging makes of `groups`: group `i` of it
/// holds what the terms of groups `i` and `i + 1` merge into, all of it and
/// nothing else.
pub open spec fn is_merge_of(
    next: Seq<Vec<AssociatedTerm>>,
    groups: Seq<Vec<AssociatedTerm>>,
) -> bool {
    &&& next.len() + 1 == groups.len()
    &&& forall|i: int, t: int|
        0 <= i < next.len() && 0 <= t < next[i]@.len() ==> pair_merge_of(
            (#[trigger] next[i]@[t])@,
            groups[i]@,
            groups[i + 1]@,
        )
    &&& forall|i: int, u: int, x: int, y: int|
        0 <= i < next.len() && u == i + 1 && 0 <= x < groups[i]@.len() && 0 <= y < groups[u]@.len()
            && (#[trigger] groups[i]@[x])@.mergeable((#[trigger] groups[u]@[y])@) ==> holds_from(
            next[i]@,
            0,
            groups[i]@[x]@.merged(groups[u]@[y]@),
        )
}

/// Term `j` of group `i` is mergeable with a term of a group next to its own.
pub open spec fn took_part(groups: Seq<Vec<AssociatedTerm>>, i: int, j: int) -> bool {
    ||| i + 1 < groups.len() && has_partner_above(groups[i]@[j]@, groups[i + 1]@)
    ||| 0 < i && has_partner_below(groups[i]@[j]@, groups[i - 1]@)
}

/// `used` has one flag for each term of `groups`, set just when the term is
/// mergeable with a term of a group next to its own.
pub open spec fn is_used_of(used: Seq<Vec<bool>>, groups: Seq<Vec<AssociatedTerm>>) -> bool {
    &&& used.len() == groups.len()
    &&& forall|i: int| 0 <= i < used.len() ==> (#[trigger] used[i])@.len() == groups[i]@.len()
    &&& forall|i: int, j: int|
        0 <= i < used.len() && 0 <= j < used[i]@.len() ==> (#[trigger] used[i]@[j] <==> took_part(
            groups,
            i,
            j,
        ))
}

/// `terms` is as `is_prime_set` asks, but for the prime implicants that have
/// eliminated `round` variables or more, which it need not hold.
pub open spec fn is_prime_set_below(terms: Seq<AssociatedTerm>, on: Set<usize>, round: nat) -> bool {
    &&& distinct_products(terms)
    &&& forall|p: int|
        0 <= p < terms.len() ==> (#[trigger] terms[p])@.well_formed() && is_prime_implicant(
            on,
            terms[p]@.value,
            terms[p]@.mask,
        )
    &&& forall|v: usize, k: usize| #[trigger]
        is_prime_implicant(on, v, k) && popcount(k) < round ==> holds_product(terms, v, k)
}

/// The values of all the terms in `groups`.
pub open spec fn minterms_of(groups: Seq<Vec<AssociatedTerm>>) -> Set<usize> {
    Set::new(
        |m: usize|
            exists|i: int, j: int|
                0 <= i < groups.len() && 0 <= j < groups[i]@.len() && (#[trigger] groups[i]@[j])@.value
                    == m,
    )
}

/// `groups` sorts the terms of single minterms by their bit counts: group
/// `i` holds minterms with `i` set bits.
pub open spec fn is_base_grouping(groups: Seq<Vec<AssociatedTerm>>) -> bool {
    forall|i: int, j: int|
        0 <= i < groups.len() && 0 <= j < groups[i]@.len() ==> {
            &&& (#[trigger] groups[i]@[j])@.mask == 0
            &&& groups[i]@[j]@.covers == set![groups[i]@[j]@.value]
            &&& popcount(groups[i]@[j]@.value) == i
        }
}

/// A term as it stands in group `index` of round `round`: it has eliminated
/// `round` variables, has `index` set bits, is an implicant of the function
/// that is true on `on`, and records the minterms it stands for.
pub open spec fn term_in_round(t: TermView, on: Set<usize>, round: nat, index: int) -> bool {
    &&& t.well_formed()
    &&& is_implicant(on, t.value, t.mask)
    &&& popcount(t.mask) == round
    &&& popcount(t.value) == index
}

/// `groups` is the state of round `round`: it holds every implicant that has
/// eliminated `round` variables, each in the group of its bit count, and
/// nothing else.
pub open spec fn is_round(groups: Seq<Vec<AssociatedTerm>>, on: Set<usize>, round: nat) -> bool {
    &&& forall|i: int, j: int|
        0 <= i < groups.len() && 0 <= j < groups[i]@.len() ==> term_in_round(
            (#[trigger] groups[i]@[j])@,
            on,
            round,
            i,
        )
    &&& forall|v: usize, k: usize| #[trigger]
        is_implicant(on, v, k) && popcount(k) == round ==> popcount(v) < groups.len()
            && holds_product(groups[popcount(v) as int]@, v, k)
}

/// What two mergeable terms of neighbouring groups merge into belongs to the
/// next round, and contains both.
pub proof fn lemma_merged_term(a: TermView, b: TermView, on: Set<usize>, round: nat, index: int)
    requires
        term_in_round(a, on, round, index),
        term_in_round(b, on, round, index + 1),
        a.mergeable(b),
    ensures
        term_in_round(a.merged(b), on, round + 1, index),
        a.merged(b).value == a.value,
        a.merged(b).mask != a.mask,
        cube(a.value, a.mask).subset_of(cube(a.merged(b).value, a.merged(b).mask)),
        cube(b.value, b.mask).subset_of(cube(a.merged(b).value, a.merged(b).mask)),
{
    let d = (a.value ^ b.value) & !a.mask;
    lemma_adjacent_ordered(a.value, b.value, a.mask);
    lemma_implicant_join(on, a.value, a.mask, d);
    lemma_cube_split(a.value, a.mask, d);
}

/// One round of merging turns the state of a round into the state of the
/// next.
pub proof fn lemma_next_round(
    groups: Seq<Vec<AssociatedTerm>>,
    next: Seq<Vec<AssociatedTerm>>,
    on: Set<usize>,
    round: nat,
)
    requires
        is_round(groups, on, round),
        is_merge_of(next, groups),
    ensures
        is_round(next, on, round + 1),
{
    assert forall|i: int, t: int|
        0 <= i < next.len() && 0 <= t < next[i]@.len() implies term_in_round(
        (#[trigger] next[i]@[t])@,
        on,
        round + 1,
        i,
    ) by {
        let m = next[i]@[t]@;
        assert(pair_merge_of(m, groups[i]@, groups[i + 1]@));
        let x = choose|x: int|
            0 <= x < groups[i]@.len() && merge_of(m, (#[trigger] groups[i]@[x])@, groups[i + 1]@);
        let a = groups[i]@[x]@;
        let y = choose|y: int|
            0 <= y < groups[i + 1]@.len() && a.mergeable((#[trigger] groups[i + 1]@[y])@) && m
                == a.merged(groups[i + 1]@[y]@);
        let b = groups[i + 1]@[y]@;
        assert(term_in_round(a, on, round, i));
        assert(term_in_round(b, on, round, i + 1));
        lemma_merged_term(a, b, on, round, i);
    }
    assert forall|v: usize, k: usize| #[trigger]
        is_implicant(on, v, k) && popcount(k) == round + 1 implies popcount(v) < next.len()
        && holds_product(next[popcount(v) as int]@, v, k) by {
        lemma_popcount_zero(k);
        let d = lowest_bit(k);
        lemma_lowest_bit(k);
        lemma_implicant_halves(on, v, k, d);
        let k0: usize = k & !d;
        let i = popcount(v) as int;
        assert(is_implicant(on, v, k0));
        assert(is_implicant(on, (v | d), k0));
        assert(holds_product(groups[i]@, v, k0));
        assert(holds_product(groups[i + 1]@, (v | d), k0));
        let x = choose|x: int|
            0 <= x < groups[i]@.len() && (#[trigger] groups[i]@[x])@.value == v
                && groups[i]@[x]@.mask == k0;
        let u = i + 1;
        let y = choose|y: int|
            0 <= y < groups[u]@.len() && (#[trigger] groups[u]@[y])@.value == (v | d)
                && groups[u]@[y]@.mask == k0;
        let a = groups[i]@[x]@;
        let b = groups[u]@[y]@;
        assert(a.mergeable(b));
        assert(holds_from(next[i]@, 0, a.merged(b)));
        let t = choose|t: int| 0 <= t < next[i]@.len() && (#[trigger] next[i]@[t])@ == a.merged(b);
        assert((v ^ (v | d)) & !k0 == d && v & (v | d) == v && k0 | d == k) by (bit_vector)
            requires
                v & d == 0,
                k0 & d == 0,
                v & k == 0,
                k0 == k & !d,
                d & !k == 0,
        ;
        assert(next[i]@[t]@.value == v && next[i]@[t]@.mask == k);
    }
}

/// In the state of a round, the terms that are mergeable with a term of a
/// group next to their own are those that are no prime implicants.
pub proof fn lemma_took_part_iff_not_prime(
    groups: Seq<Vec<AssociatedTerm>>,
    on: Set<usize>,
    round: nat,
    i: int,
    j: int,
)
    requires
        is_round(groups, on, round),
        0 <= i < groups.len(),
        0 <= j < groups[i]@.len(),
    ensures
        took_part(groups, i, j) <==> !is_prime_implicant(
            on,
            groups[i]@[j]@.value,
            groups[i]@[j]@.mask,
        ),
{
    let t = groups[i]@[j]@;
    assert(term_in_round(t, on, round, i));
    if i + 1 < groups.len() && has_partner_above(t, groups[i + 1]@) {
        let y = choose|y: int|
            0 <= y < groups[i + 1]@.len() && t.mergeable((#[trigger] groups[i + 1]@[y])@);
        let b = groups[i + 1]@[y]@;
        assert(term_in_round(b, on, round, i + 1));
        lemma_merged_term(t, b, on, round, i);
        assert(is_implicant(on, t.merged(b).value, t.merged(b).mask));
    }
    if 0 < i && has_partner_below(t, groups[i - 1]@) {
        let x = choose|x: int|
            0 <= x < groups[i - 1]@.len() && (#[trigger] groups[i - 1]@[x])@.mergeable(t);
        let a = groups[i - 1]@[x]@;
        assert(term_in_round(a, on, round, i - 1));
        lemma_merged_term(a, t, on, round, i - 1);
        assert(is_implicant(on, a.merged(t).value, a.merged(t).mask));
    }
    if !is_prime_implicant(on, t.value, t.mask) {
        if !exists|d: usize|
            is_single_bit(d) && t.mask & d == 0 && #[trigger] is_implicant(
                on,
                t.value & !d,
                t.mask | d,
            ) {
            lemma_prime_by_single_steps(on, t.value, t.mask);
        }
        let d = choose|d: usize|
            is_single_bit(d) && t.mask & d == 0 && #[trigger] is_implicant(
                on,
                t.value & !d,
                t.mask | d,
            );
        let v = t.value;
        let v0: usize = v & !d;
        let v1: usize = v0 | d;
        let k = t.mask;
        assert((k | d) & !d == k && d & !(k | d) == 0 && (v == v0 || v == v1)) by (bit_vector)
            requires
                k & d == 0,
                v0 == v & !d,
                v1 == v0 | d,
                is_single_bit(d),
        ;
        lemma_implicant_halves(on, v0, (k | d), d);
        assert(is_implicant(on, v0, k));
        assert(is_implicant(on, v1, k));
        if t.value == v0 {
            let u = i + 1;
            assert(holds_product(groups[u]@, v1, k));
            let y = choose|y: int|
                0 <= y < groups[u]@.len() && (#[trigger] groups[u]@[y])@.value == v1
                    && groups[u]@[y]@.mask == k;
            assert(t.mergeable(groups[u]@[y]@));
        } else {
            let u = i - 1;
            assert(holds_product(groups[u]@, v0, k));
            let x = choose|x: int|
                0 <= x < groups[u]@.len() && (#[trigger] groups[u]@[x])@.value == v0
                    && groups[u]@[x]@.mask == k;
            assert(groups[u]@[x]@.mergeable(t));
        }
    }
}

/// A grouping of single minterms is the state of the first round.
pub proof fn lemma_first_round(groups: Seq<Vec<AssociatedTerm>>)
    requires
        is_base_grouping(groups),
    ensures
        is_round(groups, minterms_of(groups), 0),
{
    let on = minterms_of(groups);
    assert forall|m: usize| cube(m, 0).contains(m) && (forall|x: usize|
        cube(m, 0).contains(x) ==> x == m) && m & 0 == 0 by {
        assert forall|x: usize| x & !0usize == x by {
            assert(x & !0usize == x) by (bit_vector);
        }
        assert(m & 0 == 0) by (bit_vector);
    }
    assert forall|i: int, j: int|
        0 <= i < groups.len() && 0 <= j < groups[i]@.len() implies term_in_round(
        (#[trigger] groups[i]@[j])@,
        on,
        0,
        i,
    ) by {
        let t = groups[i]@[j]@;
        assert(t.covers =~= cube(t.value, 0));
        assert(on.contains(t.value));
    }
    assert forall|v: usize, k: usize| #[trigger]
        is_implicant(on, v, k) && popcount(k) == 0 implies popcount(v) < groups.len()
        && holds_product(groups[popcount(v) as int]@, v, k) by {
        lemma_popcount_zero(k);
        assert(cube(v, 0).contains(v));
        assert(on.contains(v));
        let (i, j) = choose|i: int, j: int|
            0 <= i < groups.len() && 0 <= j < groups[i]@.len() && (#[trigger] groups[i]@[j])@.value
                == v;
        assert(groups[i]@[j]@.mask == 0);
    }
}

/// Where no implicant has eliminated exactly `round` variables, none has
/// eliminated more.
pub proof fn lemma_no_wider_implicant(on: Set<usize>, round: nat, value: usize, mask: usize)
    requires
        forall|v: usize, k: usize| #[trigger] is_implicant(on, v, k) ==> popcount(k) != round,
        is_implicant(on, value, mask),
    ensures
        popcount(mask) < round,
    decreases popcount(mask),
{
    if popcount(mask) > round {
        lemma_popcount_zero(mask);
        let d = lowest_bit(mask);
        lemma_lowest_bit(mask);
        lemma_implicant_halves(on, value, mask, d);
        lemma_no_wider_implicant(on, round, value, mask & !d);
    }
}

} // verus!
