//! The merge engine: rounds of pairwise merging that leave the prime
//! implicants behind.

use crate::bits::{calc_ones, fits, fits_width, lemma_popcount_le_width, popcount};
use crate::implicant::{is_implicant, is_prime_implicant};
use crate::primes::{
    covers_minterm, distinct_products, holds_product, is_prime_set, lemma_prime_set_unique,
    lemma_primes_cover, lemma_primes_fit, lemma_primes_not_mergeable, no_two_mergeable, products,
    terms_fit,
};
use crate::round::{
    has_partner_above, has_partner_below, holds_from, is_base_grouping, is_merge_of,
    is_prime_set_below, is_round, is_used_of, lemma_first_round, lemma_next_round,
    lemma_no_wider_implicant, lemma_took_part_iff_not_prime, merge_of, minterms_of, pair_merge_of,
    term_in_round, took_part,
};
use crate::term::AssociatedTerm;
use std::collections::HashSet;
use vstd::prelude::*;

verus! {

broadcast use vstd::std_specs::hash::group_hash_axioms;

/// Merges `a` with each term of the next group that it is mergeable with.
///
/// The merged terms are appended to `merged`, and `upper_used` is set for
/// each term of `upper` that took part. The result tells whether `a` did.
fn merge_with_group(
    a: &AssociatedTerm,
    upper: &Vec<AssociatedTerm>,
    upper_used: &mut Vec<bool>,
    merged: &mut Vec<AssociatedTerm>,
) -> (used: bool)
    requires
        old(upper_used)@.len() == upper@.len(),
    ensures
        final(upper_used)@.len() == upper@.len(),
        forall|j: int|
            0 <= j < upper@.len() ==> (#[trigger] final(upper_used)@[j] <==> old(upper_used)@[j]
                || a@.mergeable(upper@[j]@)),
        used <==> has_partner_above(a@, upper@),
        old(merged)@.len() <= final(merged)@.len(),
        forall|t: int|
            0 <= t < old(merged)@.len() ==> #[trigger] final(merged)@[t] == old(merged)@[t],
        forall|t: int|
            old(merged)@.len() <= t < final(merged)@.len() ==> merge_of(
                (#[trigger] final(merged)@[t])@,
                a@,
                upper@,
            ),
        forall|j: int|
            0 <= j < upper@.len() && a@.mergeable((#[trigger] upper@[j])@) ==> holds_from(
                final(merged)@,
                old(merged)@.len() as int,
                a@.merged(upper@[j]@),
            ),
{
    let mut used = false;
    let ghost start = merged@.len() as int;
    for j in 0..upper.len()
        invariant
            upper_used@.len() == upper@.len(),
            forall|x: int|
                0 <= x < upper@.len() ==> (#[trigger] upper_used@[x] <==> old(upper_used)@[x] || (x
                    < j && a@.mergeable(upper@[x]@))),
            used <==> exists|x: int| 0 <= x < j && a@.mergeable((#[trigger] upper@[x])@),
            start == old(merged)@.len(),
            start <= merged@.len(),
            forall|t: int| 0 <= t < start ==> #[trigger] merged@[t] == old(merged)@[t],
            forall|t: int|
                start <= t < merged@.len() ==> merge_of((#[trigger] merged@[t])@, a@, upper@),
            forall|x: int|
                0 <= x < j && a@.mergeable((#[trigger] upper@[x])@) ==> holds_from(
                    merged@,
                    start,
                    a@.merged(upper@[x]@),
                ),
    {
        let ghost before = merged@;
        match a.merge(&upper[j]) {
            Some(term) => {
                used = true;
                upper_used.set(j, true);
                merged.push(term);
                proof {
                    assert(merged@[merged@.len() - 1]@ == a@.merged(upper@[j as int]@));
                    assert forall|x: int|
                        0 <= x < j + 1 && a@.mergeable((#[trigger] upper@[x])@) implies holds_from(
                        merged@,
                        start,
                        a@.merged(upper@[x]@),
                    ) by {
                        if x < j {
                            let w = choose|i: int|
                                start <= i < before.len() && (#[trigger] before[i])@ == a@.merged(
                                    upper@[x]@,
                                );
                            assert(merged@[w] == before[w]);
                        }
                    }
                }
            },
            None => {},
        }
    }
    used
}

/// A list of `len` flags, none of them set.
fn all_clear(len: usize) -> (flags: Vec<bool>)
    ensures
        flags@.len() == len,
        forall|i: int| 0 <= i < len ==> !#[trigger] flags@[i],
{
    let mut flags: Vec<bool> = Vec::new();
    for n in 0..len
        invariant
            flags@.len() == n,
            forall|i: int| 0 <= i < n ==> !#[trigger] flags@[i],
    {
        flags.push(false);
    }
    flags
}

/// Merges every term of `lower` with every term of `upper` that it is
/// mergeable with.
///
/// Returns the merged terms, and one flag for each term of `upper` that tells
/// whether it took part. `lower_used` is set for each term of `lower` that
/// did.
fn merge_adjacent(
    lower: &Vec<AssociatedTerm>,
    upper: &Vec<AssociatedTerm>,
    lower_used: &mut Vec<bool>,
) -> (out: (Vec<AssociatedTerm>, Vec<bool>))
    requires
        old(lower_used)@.len() == lower@.len(),
    ensures
        final(lower_used)@.len() == lower@.len(),
        forall|i: int|
            0 <= i < lower@.len() ==> (#[trigger] final(lower_used)@[i] <==> old(lower_used)@[i]
                || has_partner_above(lower@[i]@, upper@)),
        out.1@.len() == upper@.len(),
        forall|j: int|
            0 <= j < upper@.len() ==> (#[trigger] out.1@[j] <==> has_partner_below(
                upper@[j]@,
                lower@,
            )),
        forall|t: int|
            0 <= t < out.0@.len() ==> pair_merge_of((#[trigger] out.0@[t])@, lower@, upper@),
        forall|i: int, j: int|
            0 <= i < lower@.len() && 0 <= j < upper@.len() && (#[trigger] lower@[i])@.mergeable(
                (#[trigger] upper@[j])@,
            ) ==> holds_from(out.0@, 0, lower@[i]@.merged(upper@[j]@)),
{
    let mut merged: Vec<AssociatedTerm> = Vec::new();
    let mut upper_used = all_clear(upper.len());
    for i in 0..lower.len()
        invariant
            lower_used@.len() == lower@.len(),
            forall|x: int|
                0 <= x < lower@.len() ==> (#[trigger] lower_used@[x] <==> old(lower_used)@[x] || (x
                    < i && has_partner_above(lower@[x]@, upper@))),
            upper_used@.len() == upper@.len(),
            forall|y: int|
                0 <= y < upper@.len() ==> (#[trigger] upper_used@[y] <==> exists|x: int|
                    0 <= x < i && (#[trigger] lower@[x])@.mergeable(upper@[y]@)),
            forall|t: int|
                0 <= t < merged@.len() ==> pair_merge_of((#[trigger] merged@[t])@, lower@, upper@),
            forall|x: int, y: int|
                0 <= x < i && 0 <= y < upper@.len() && (#[trigger] lower@[x])@.mergeable(
                    (#[trigger] upper@[y])@,
                ) ==> holds_from(merged@, 0, lower@[x]@.merged(upper@[y]@)),
    {
        let ghost before = merged@;
        let ghost used_before = upper_used@;
        let used = merge_with_group(&lower[i], upper, &mut upper_used, &mut merged);
        if used {
            lower_used.set(i, true);
        }
        proof {
            assert forall|y: int| 0 <= y < upper@.len() implies (#[trigger] upper_used@[y]
                <==> exists|x: int|
                0 <= x < i + 1 && (#[trigger] lower@[x])@.mergeable(upper@[y]@)) by {
                if used_before[y] {
                    let w = choose|x: int|
                        0 <= x < i && (#[trigger] lower@[x])@.mergeable(upper@[y]@);
                    assert(lower@[w]@.mergeable(upper@[y]@));
                }
                if lower@[i as int]@.mergeable(upper@[y]@) {
                }
            }
            assert forall|t: int| 0 <= t < merged@.len() implies pair_merge_of(
                (#[trigger] merged@[t])@,
                lower@,
                upper@,
            ) by {
                if t < before.len() {
                    assert(merged@[t] == before[t]);
                } else {
                    assert(merge_of(merged@[t]@, lower@[i as int]@, upper@));
                }
            }
            assert forall|x: int, y: int|
                0 <= x < i + 1 && 0 <= y < upper@.len() && (#[trigger] lower@[x])@.mergeable(
                    (#[trigger] upper@[y])@,
                ) implies holds_from(merged@, 0, lower@[x]@.merged(upper@[y]@)) by {
                let goal = lower@[x]@.merged(upper@[y]@);
                if x < i {
                    let w = choose|t: int| 0 <= t < before.len() && (#[trigger] before[t])@ == goal;
                    assert(merged@[w] == before[w]);
                } else {
                    let w = choose|t: int|
                        before.len() <= t < merged@.len() && (#[trigger] merged@[t])@ == goal;
                    assert(merged@[w]@ == goal);
                }
            }
        }
    }
    proof {
        assert forall|j: int| 0 <= j < upper@.len() implies (#[trigger] upper_used@[j]
            <==> has_partner_below(upper@[j]@, lower@)) by {
            if has_partner_below(upper@[j]@, lower@) {
                let w = choose|x: int|
                    0 <= x < lower@.len() && (#[trigger] lower@[x])@.mergeable(upper@[j]@);
                assert(lower@[w]@.mergeable(upper@[j]@));
            }
        }
    }
    (merged, upper_used)
}

/// One round of merging: every group against the next.
///
/// Returns the groups of the next round, one fewer than there were, and for
/// each term of this round a flag that tells whether it took part in a merge.
fn merge_round(groups: &Vec<Vec<AssociatedTerm>>) -> (out: (
    Vec<Vec<AssociatedTerm>>,
    Vec<Vec<bool>>,
))
    requires
        groups@.len() > 0,
    ensures
        is_merge_of(out.0@, groups@),
        is_used_of(out.1@, groups@),
{
    let mut next: Vec<Vec<AssociatedTerm>> = Vec::new();
    let mut used: Vec<Vec<bool>> = Vec::new();
    let mut lower_used = all_clear(groups[0].len());
    let last = groups.len() - 1;
    for i in 0..last
        invariant
            last + 1 == groups@.len(),
            next@.len() == i,
            used@.len() == i,
            lower_used@.len() == groups@[i as int]@.len(),
            forall|x: int|
                0 <= x < lower_used@.len() ==> (#[trigger] lower_used@[x] <==> 0 < i
                    && has_partner_below(groups@[i as int]@[x]@, groups@[i - 1]@)),
            forall|g: int| 0 <= g < i ==> (#[trigger] used@[g])@.len() == groups@[g]@.len(),
            forall|g: int, j: int|
                0 <= g < i && 0 <= j < used@[g]@.len() ==> (#[trigger] used@[g]@[j] <==> took_part(
                    groups@,
                    g,
                    j,
                )),
            forall|g: int, t: int|
                0 <= g < i && 0 <= t < next@[g]@.len() ==> pair_merge_of(
                    (#[trigger] next@[g]@[t])@,
                    groups@[g]@,
                    groups@[g + 1]@,
                ),
            forall|g: int, u: int, x: int, y: int|
                0 <= g < i && u == g + 1 && 0 <= x < groups@[g]@.len() && 0 <= y
                    < groups@[u]@.len() && (#[trigger] groups@[g]@[x])@.mergeable(
                    (#[trigger] groups@[u]@[y])@,
                ) ==> holds_from(next@[g]@, 0, groups@[g]@[x]@.merged(groups@[u]@[y]@)),
    {
        let (merged, upper_used) = merge_adjacent(&groups[i], &groups[i + 1], &mut lower_used);
        next.push(merged);
        used.push(lower_used);
        lower_used = upper_used;
    }
    used.push(lower_used);
    (next, used)
}

/// Appends `term` to `terms`, unless `terms` holds the same product already.
fn insert_unique(terms: &mut Vec<AssociatedTerm>, term: AssociatedTerm)
    requires
        distinct_products(old(terms)@),
    ensures
        distinct_products(final(terms)@),
        holds_product(old(terms)@, term@.value, term@.mask) ==> final(terms)@ == old(terms)@,
        !holds_product(old(terms)@, term@.value, term@.mask) ==> final(terms)@ == old(terms)@.push(
            term,
        ),
{
    for p in 0..terms.len()
        invariant
            terms@ == old(terms)@,
            distinct_products(terms@),
            forall|q: int| 0 <= q < p ==> !(#[trigger] terms@[q])@.same_product(term@),
    {
        if terms[p].same_product(&term) {
            return ;
        }
    }
    terms.push(term);
}

/// `term` is one of the terms of `groups` whose flag in `used` is clear.
pub open spec fn is_unused_term(
    term: AssociatedTerm,
    groups: Seq<Vec<AssociatedTerm>>,
    used: Seq<Vec<bool>>,
) -> bool {
    exists|i: int, j: int|
        0 <= i < groups.len() && 0 <= j < groups[i]@.len() && !used[i]@[j] && (
        #[trigger] groups[i]@[j]) == term
}

/// Moves the terms of `groups` whose flag in `used` is clear to the end of
/// `primes`, leaving out each that `primes` holds already.
fn collect_unused(
    groups: Vec<Vec<AssociatedTerm>>,
    used: &Vec<Vec<bool>>,
    primes: &mut Vec<AssociatedTerm>,
)
    requires
        used@.len() == groups@.len(),
        forall|i: int| 0 <= i < used@.len() ==> (#[trigger] used@[i])@.len() == groups@[i]@.len(),
        distinct_products(old(primes)@),
    ensures
        distinct_products(final(primes)@),
        old(primes)@.len() <= final(primes)@.len(),
        forall|p: int|
            0 <= p < old(primes)@.len() ==> #[trigger] final(primes)@[p] == old(primes)@[p],
        forall|p: int|
            old(primes)@.len() <= p < final(primes)@.len() ==> is_unused_term(
                #[trigger] final(primes)@[p],
                groups@,
                used@,
            ),
        forall|i: int, j: int|
            0 <= i < groups@.len() && 0 <= j < groups@[i]@.len() && !used@[i]@[j] ==> holds_product(
                final(primes)@,
                (#[trigger] groups@[i]@[j])@.value,
                groups@[i]@[j]@.mask,
            ),
{
    let ghost all = groups@;
    assert(all.len() == groups.len());
    let mut i: usize = 0;
    for group in git: groups.into_iter()
        invariant
            git.seq() == all,
            all.len() <= usize::MAX,
            i == git.index(),
            used@.len() == all.len(),
            forall|g: int| 0 <= g < used@.len() ==> (#[trigger] used@[g])@.len() == all[g]@.len(),
            distinct_products(primes@),
            old(primes)@.len() <= primes@.len(),
            forall|p: int| 0 <= p < old(primes)@.len() ==> #[trigger] primes@[p] == old(primes)@[p],
            forall|p: int|
                old(primes)@.len() <= p < primes@.len() ==> is_unused_term(
                    #[trigger] primes@[p],
                    all,
                    used@,
                ),
            forall|g: int, j: int|
                0 <= g < i && 0 <= j < all[g]@.len() && !used@[g]@[j] ==> holds_product(
                    primes@,
                    (#[trigger] all[g]@[j])@.value,
                    all[g]@[j]@.mask,
                ),
    {
        let ghost members = group@;
        assert(members.len() == group.len());
        let mut j: usize = 0;
        for term in tit: group.into_iter()
            invariant
                tit.seq() == members,
                members.len() <= usize::MAX,
                members == all[i as int]@,
                j == tit.index(),
                0 <= i < all.len(),
                used@.len() == all.len(),
                forall|g: int|
                    0 <= g < used@.len() ==> (#[trigger] used@[g])@.len() == all[g]@.len(),
                distinct_products(primes@),
                old(primes)@.len() <= primes@.len(),
                forall|p: int|
                    0 <= p < old(primes)@.len() ==> #[trigger] primes@[p] == old(primes)@[p],
                forall|p: int|
                    old(primes)@.len() <= p < primes@.len() ==> is_unused_term(
                        #[trigger] primes@[p],
                        all,
                        used@,
                    ),
                forall|g: int, x: int|
                    0 <= g < i && 0 <= x < all[g]@.len() && !used@[g]@[x] ==> holds_product(
                        primes@,
                        (#[trigger] all[g]@[x])@.value,
                        all[g]@[x]@.mask,
                    ),
                forall|x: int|
                    0 <= x < j && !used@[i as int]@[x] ==> holds_product(
                        primes@,
                        (#[trigger] members[x])@.value,
                        members[x]@.mask,
                    ),
        {
            let ghost before = primes@;
            if !used[i][j] {
                insert_unique(primes, term);
                proof {
                    lemma_holds_after_insert(before, primes@, term);
                }
            }
            j += 1;
        }
        i += 1;
    }
}

/// Whatever a list of terms held, it holds after an insertion, and the
/// inserted term with it.
proof fn lemma_holds_after_insert(
    before: Seq<AssociatedTerm>,
    after: Seq<AssociatedTerm>,
    term: AssociatedTerm,
)
    requires
        after == before || after == before.push(term),
        after == before ==> holds_product(before, term@.value, term@.mask),
    ensures
        holds_product(after, term@.value, term@.mask),
        forall|v: usize, k: usize| holds_product(before, v, k) ==> holds_product(after, v, k),
{
    if after != before {
        assert(after[before.len() as int] == term);
    }
    assert forall|v: usize, k: usize| holds_product(before, v, k) implies holds_product(
        after,
        v,
        k,
    ) by {
        let w = choose|j: int|
            0 <= j < before.len() && (#[trigger] before[j])@.value == v && before[j]@.mask == k;
        assert(after[w] == before[w]);
    }
}

/// Collecting the unused terms of a round completes the prime implicants up
/// to that round.
proof fn lemma_collected(
    groups: Seq<Vec<AssociatedTerm>>,
    used: Seq<Vec<bool>>,
    before: Seq<AssociatedTerm>,
    after: Seq<AssociatedTerm>,
    on: Set<usize>,
    round: nat,
)
    requires
        is_round(groups, on, round),
        is_used_of(used, groups),
        is_prime_set_below(before, on, round),
        distinct_products(after),
        before.len() <= after.len(),
        forall|p: int| 0 <= p < before.len() ==> #[trigger] after[p] == before[p],
        forall|p: int|
            before.len() <= p < after.len() ==> is_unused_term(#[trigger] after[p], groups, used),
        forall|i: int, j: int|
            0 <= i < groups.len() && 0 <= j < groups[i]@.len() && !used[i]@[j] ==> holds_product(
                after,
                (#[trigger] groups[i]@[j])@.value,
                groups[i]@[j]@.mask,
            ),
    ensures
        is_prime_set_below(after, on, round + 1),
{
    assert forall|p: int| 0 <= p < after.len() implies (#[trigger] after[p])@.well_formed()
        && is_prime_implicant(on, after[p]@.value, after[p]@.mask) by {
        if p < before.len() {
            assert(after[p] == before[p]);
        } else {
            assert(is_unused_term(after[p], groups, used));
            let (i, j) = choose|i: int, j: int|
                0 <= i < groups.len() && 0 <= j < groups[i]@.len() && !used[i]@[j] && (
                #[trigger] groups[i]@[j]) == after[p];
            assert(used[i]@.len() == groups[i]@.len());
            assert(used[i]@[j] <==> took_part(groups, i, j));
            lemma_took_part_iff_not_prime(groups, on, round, i, j);
            assert(term_in_round(groups[i]@[j]@, on, round, i));
        }
    }
    assert forall|v: usize, k: usize| #[trigger]
        is_prime_implicant(on, v, k) && popcount(k) < round + 1 implies holds_product(
        after,
        v,
        k,
    ) by {
        if popcount(k) < round {
            let w = choose|j: int|
                0 <= j < before.len() && (#[trigger] before[j])@.value == v && before[j]@.mask
                    == k;
            assert(after[w] == before[w]);
        } else {
            let i = popcount(v) as int;
            assert(is_implicant(on, v, k));
            assert(holds_product(groups[i]@, v, k));
            let j = choose|j: int|
                0 <= j < groups[i]@.len() && (#[trigger] groups[i]@[j])@.value == v
                    && groups[i]@[j]@.mask == k;
            lemma_took_part_iff_not_prime(groups, on, round, i, j);
            assert(used[i]@.len() == groups[i]@.len());
            assert(used[i]@[j] <==> took_part(groups, i, j));
        }
    }
}

/// Runs the rounds of merging on the minterms in `groups`, until no group is
/// left, and returns the prime implicants with the number of rounds run.
///
/// Each round merges the terms of every two neighbouring groups, and keeps
/// the terms that merged with none as prime implicants. A round leaves one
/// group fewer than it found, so there are as many rounds as groups.
pub fn merge_groups(groups: Vec<Vec<AssociatedTerm>>) -> (out: (Vec<AssociatedTerm>, usize))
    requires
        is_base_grouping(groups@),
    ensures
        is_prime_set(out.0@, minterms_of(groups@)),
        out.1 == groups@.len(),
{
    let ghost on = minterms_of(groups@);
    let ghost total = groups@.len();
    assert(total == groups.len());
    let mut groups = groups;
    let mut primes: Vec<AssociatedTerm> = Vec::new();
    let mut rounds: usize = 0;
    proof {
        lemma_first_round(groups@);
    }
    while groups.len() > 0
        invariant
            is_round(groups@, on, rounds as nat),
            is_prime_set_below(primes@, on, rounds as nat),
            rounds + groups@.len() == total,
            total <= usize::MAX,
        decreases groups@.len(),
    {
        let ghost current = groups@;
        let ghost before = primes@;
        let (next, used) = merge_round(&groups);
        collect_unused(groups, &used, &mut primes);
        proof {
            lemma_next_round(current, next@, on, rounds as nat);
            lemma_collected(current, used@, before, primes@, on, rounds as nat);
        }
        groups = next;
        rounds += 1;
    }
    proof {
        assert forall|v: usize, k: usize| #[trigger]
            is_prime_implicant(on, v, k) implies holds_product(primes@, v, k) by {
            lemma_no_wider_implicant(on, rounds as nat, v, k);
        }
    }
    (primes, rounds)
}

/// Why a list of minterms was turned down.
#[derive(Debug, Clone, Copy, PartialEq, Eq, Structural)]
pub enum MinimizeError {
    /// There are more variables than a machine word has bits.
    TooManyVariables,
    /// The minterm at `index` has a set bit beyond the last variable. It is
    /// the first such minterm of the list.
    MintermOutOfRange { index: usize },
}

/// The minterms in `min_terms` can be minterms of a function of
/// `variables_c` variables.
pub open spec fn is_valid_input(min_terms: Seq<usize>, variables_c: usize) -> bool {
    &&& variables_c <= usize::BITS
    &&& forall|i: int|
        0 <= i < min_terms.len() ==> fits_width(#[trigger] min_terms[i], variables_c as nat)
}

/// What is reported for a list of minterms that is no valid input: the
/// variable count if it is too large, else the place of the first minterm
/// that does not fit it.
pub open spec fn is_error_of(
    error: MinimizeError,
    min_terms: Seq<usize>,
    variables_c: usize,
) -> bool {
    match error {
        MinimizeError::TooManyVariables => variables_c > usize::BITS,
        MinimizeError::MintermOutOfRange { index } => {
            &&& variables_c <= usize::BITS
            &&& index < min_terms.len()
            &&& !fits_width(min_terms[index as int], variables_c as nat)
            &&& forall|i: int|
                0 <= i < index ==> fits_width(#[trigger] min_terms[i], variables_c as nat)
        },
    }
}

/// Sorts the minterms in `min_terms` into `variables_c + 1` groups by their
/// bit counts, as terms that have eliminated nothing.
///
/// A minterm that occurs more than once in `min_terms` gets one term.
pub fn group_minterms(min_terms: &Vec<usize>, variables_c: usize) -> (result: Result<
    Vec<Vec<AssociatedTerm>>,
    MinimizeError,
>)
    ensures
        result is Ok <==> is_valid_input(min_terms@, variables_c),
        match result {
            Ok(groups) => {
                &&& groups@.len() == variables_c + 1
                &&& is_base_grouping(groups@)
                &&& minterms_of(groups@) == min_terms@.to_set()
                &&& forall|i: int|
                    0 <= i < groups@.len() ==> distinct_products((#[trigger] groups@[i])@)
            },
            Err(error) => is_error_of(error, min_terms@, variables_c),
        },
{
    if variables_c > usize::BITS as usize {
        return Err(MinimizeError::TooManyVariables);
    }
    let mut groups: Vec<Vec<AssociatedTerm>> = Vec::new();
    for n in 0..variables_c + 1
        invariant
            variables_c <= usize::BITS,
            groups@.len() == n,
            forall|i: int| 0 <= i < n ==> (#[trigger] groups@[i])@.len() == 0,
    {
        groups.push(Vec::new());
    }
    let mut seen: HashSet<usize> = HashSet::new();
    for at in 0..min_terms.len()
        invariant
            variables_c <= usize::BITS,
            groups@.len() == variables_c + 1,
            is_base_grouping(groups@),
            minterms_of(groups@) == seen@,
            forall|i: int| 0 <= i < groups@.len() ==> distinct_products((#[trigger] groups@[i])@),
            forall|m: usize|
                seen@.contains(m) <==> exists|i: int| 0 <= i < at && #[trigger] min_terms@[i] == m,
            forall|i: int|
                0 <= i < at ==> fits_width(#[trigger] min_terms@[i], variables_c as nat),
    {
        let minterm = min_terms[at];
        if !fits(minterm, variables_c) {
            return Err(MinimizeError::MintermOutOfRange { index: at });
        }
        if !seen.contains(&minterm) {
            seen.insert(minterm);
            let ones = calc_ones(minterm);
            proof {
                lemma_popcount_le_width(minterm, variables_c as nat);
            }
            let ghost before = groups@;
            let term = AssociatedTerm::new(minterm);
            groups[ones].push(term);
            proof {
                assert(groups@[ones as int]@ == before[ones as int]@.push(term));
                assert(forall|i: int|
                    0 <= i < groups@.len() && i != ones ==> groups@[i] == before[i]);
                lemma_base_grouping_push(before, groups@, ones as int, term);
            }
        }
    }
    proof {
        assert(seen@ =~= min_terms@.to_set());
    }
    Ok(groups)
}

/// Finds the prime implicants of the boolean function of `variables_c`
/// variables that is true on exactly the minterms in `min_terms`.
///
/// A minterm that occurs more than once counts once. Every prime implicant is
/// returned once, with the minterms that it covers. A list with a minterm
/// that does not fit `variables_c` bits is turned down, and so is a variable
/// count above the number of bits in a machine word.
pub fn minimize(min_terms: Vec<usize>, variables_c: usize) -> (result: Result<
    Vec<AssociatedTerm>,
    MinimizeError,
>)
    ensures
        result is Ok <==> is_valid_input(min_terms@, variables_c),
        match result {
            Ok(primes) => {
                &&& is_prime_set(primes@, min_terms@.to_set())
                &&& forall|i: int|
                    0 <= i < min_terms@.len() ==> covers_minterm(primes@, #[trigger] min_terms@[i])
                &&& no_two_mergeable(primes@)
                &&& terms_fit(primes@, variables_c as nat)
            },
            Err(error) => is_error_of(error, min_terms@, variables_c),
        },
{
    match group_minterms(&min_terms, variables_c) {
        Ok(groups) => {
            let (primes, _) = merge_groups(groups);
            proof {
                let on = min_terms@.to_set();
                lemma_primes_not_mergeable(primes@, on);
                lemma_primes_fit(primes@, on, variables_c as nat);
                assert forall|i: int| 0 <= i < min_terms@.len() implies covers_minterm(
                    primes@,
                    #[trigger] min_terms@[i],
                ) by {
                    assert(on.contains(min_terms@[i]));
                    lemma_primes_cover(primes@, on, min_terms@[i]);
                }
            }
            Ok(primes)
        },
        Err(error) => Err(error),
    }
}

/// Listing the minterms of a function in another order changes neither
/// whether they are a valid input nor the products that `minimize` returns.
pub proof fn lemma_order_of_minterms_irrelevant(
    listed_a: Seq<usize>,
    listed_b: Seq<usize>,
    variables_c: usize,
    primes_a: Seq<AssociatedTerm>,
    primes_b: Seq<AssociatedTerm>,
)
    requires
        listed_a.to_multiset() == listed_b.to_multiset(),
        is_prime_set(primes_a, listed_a.to_set()),
        is_prime_set(primes_b, listed_b.to_set()),
    ensures
        is_valid_input(listed_a, variables_c) <==> is_valid_input(listed_b, variables_c),
        products(primes_a) == products(primes_b),
{
    listed_a.to_multiset_ensures();
    listed_b.to_multiset_ensures();
    assert forall|m: usize| listed_a.contains(m) <==> listed_b.contains(m) by {
        assert(listed_a.contains(m) <==> listed_a.to_multiset().count(m) > 0);
        assert(listed_b.contains(m) <==> listed_b.to_multiset().count(m) > 0);
    }
    assert(listed_a.to_set() =~= listed_b.to_set());
    lemma_prime_set_unique(primes_a, primes_b, listed_a.to_set());
    if is_valid_input(listed_a, variables_c) {
        assert forall|i: int| 0 <= i < listed_b.len() implies fits_width(
            #[trigger] listed_b[i],
            variables_c as nat,
        ) by {
            assert(listed_a.contains(listed_b[i]));
        }
    }
    if is_valid_input(listed_b, variables_c) {
        assert forall|i: int| 0 <= i < listed_a.len() implies fits_width(
            #[trigger] listed_a[i],
            variables_c as nat,
        ) by {
            assert(listed_b.contains(listed_a[i]));
        }
    }
}

/// Adding the term of a single minterm to the group of its bit count keeps a
/// grouping of single minterms, and adds that minterm to its values.
proof fn lemma_base_grouping_push(
    before: Seq<Vec<AssociatedTerm>>,
    after: Seq<Vec<AssociatedTerm>>,
    at: int,
    term: AssociatedTerm,
)
    requires
        is_base_grouping(before),
        0 <= at < before.len(),
        after.len() == before.len(),
        after[at]@ == before[at]@.push(term),
        forall|i: int| 0 <= i < after.len() && i != at ==> after[i] == before[i],
        term@.mask == 0,
        term@.covers == set![term@.value],
        popcount(term@.value) == at,
        !minterms_of(before).contains(term@.value),
        forall|i: int| 0 <= i < before.len() ==> distinct_products((#[trigger] before[i])@),
    ensures
        is_base_grouping(after),
        minterms_of(after) == minterms_of(before).insert(term@.value),
        forall|i: int| 0 <= i < after.len() ==> distinct_products((#[trigger] after[i])@),
{
    assert forall|i: int| 0 <= i < after.len() implies distinct_products(
        (#[trigger] after[i])@,
    ) by {
        if i == at {
            assert(distinct_products(before[at]@));
            assert forall|p: int, q: int| 0 <= p < q < after[at]@.len() implies !(
            #[trigger] after[at]@[p])@.same_product((#[trigger] after[at]@[q])@) by {
                assert(after[at]@[p] == before[at]@[p]);
                if q < before[at]@.len() {
                    assert(after[at]@[q] == before[at]@[q]);
                } else {
                    assert(minterms_of(before).contains(before[at]@[p]@.value));
                }
            }
        } else {
            assert(after[i] == before[i]);
        }
    }
    assert forall|i: int, j: int| 0 <= i < after.len() && 0 <= j < after[i]@.len() implies {
        &&& (#[trigger] after[i]@[j])@.mask == 0
        &&& after[i]@[j]@.covers == set![after[i]@[j]@.value]
        &&& popcount(after[i]@[j]@.value) == i
    } by {
        if i == at && j == before[at]@.len() {
        } else {
            assert(after[i]@[j] == before[i]@[j]);
        }
    }
    assert forall|m: usize| minterms_of(after).contains(m) <==> minterms_of(before).insert(
        term@.value,
    ).contains(m) by {
        if minterms_of(after).contains(m) {
            let (i, j) = choose|i: int, j: int|
                0 <= i < after.len() && 0 <= j < after[i]@.len() && (#[trigger] after[i]@[j])@.value
                    == m;
            if i == at && j == before[at]@.len() {
            } else {
                assert(after[i]@[j] == before[i]@[j]);
            }
        }
        if minterms_of(before).contains(m) {
            let (i, j) = choose|i: int, j: int|
                0 <= i < before.len() && 0 <= j < before[i]@.len() && (
                #[trigger] before[i]@[j])@.value == m;
            assert(after[i]@[j] == before[i]@[j]);
        }
        if m == term@.value {
            assert(after[at]@[before[at]@.len() as int]@.value == m);
        }
    }
    assert(minterms_of(after) =~= minterms_of(before).insert(term@.value));
}

} // verus!
