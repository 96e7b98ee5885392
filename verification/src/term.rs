//! Product terms: how one is represented, compared and combined with another.

use crate::bits::calc_ones;
use crate::implicant::{adjacent, cube};
use std::collections::HashSet;
use vstd::prelude::*;

verus! {

broadcast use vstd::std_specs::hash::group_hash_axioms;

/// A product term together with the minterms that it was built from.
///
/// Bit `i` of `ignored` is set when variable `i` has been eliminated from the
/// term. For every other variable, bit `i` of `binary` gives its polarity. A
/// bit of `binary` under a set bit of `ignored` means nothing.
#[derive(Debug)]
pub struct AssociatedTerm {
    pub binary: usize,
    pub ignored: usize,
    pub min_terms: HashSet<usize>,
}

/// What a term means: its polarities with the meaningless bits cleared, the
/// variables it has eliminated, and the minterms recorded for it.
pub struct TermView {
    pub value: usize,
    pub mask: usize,
    pub covers: Set<usize>,
}

impl View for AssociatedTerm {
    type V = TermView;

    open spec fn view(&self) -> TermView {
        TermView {
            value: self.binary & !self.ignored,
            mask: self.ignored,
            covers: self.min_terms@,
        }
    }
}

impl TermView {
    /// The recorded minterms are exactly those that the term stands for.
    pub open spec fn well_formed(self) -> bool {
        self.covers == cube(self.value, self.mask)
    }

    /// The two terms are the same product, whatever minterms are recorded for
    /// them.
    pub open spec fn same_product(self, other: TermView) -> bool {
        self.value == other.value && self.mask == other.mask
    }

    /// The two terms have eliminated the same variables and differ in the
    /// polarity of exactly one of the others.
    pub open spec fn mergeable(self, other: TermView) -> bool {
        self.mask == other.mask && adjacent(self.value, other.value, self.mask)
    }

    /// The term that two mergeable terms combine into: the variable in which
    /// they differ is eliminated, and the recorded minterms are pooled.
    pub open spec fn merged(self, other: TermView) -> TermView {
        TermView {
            value: self.value & other.value,
            mask: self.mask | ((self.value ^ other.value) & !self.mask),
            covers: self.covers.union(other.covers),
        }
    }
}

impl PartialEq for AssociatedTerm {
    /// Two terms are equal when they are the same product.
    fn eq(&self, other: &AssociatedTerm) -> (same: bool) {
        self.same_product(other)
    }
}

impl vstd::std_specs::cmp::PartialEqSpecImpl for AssociatedTerm {
    open spec fn obeys_eq_spec() -> bool {
        true
    }

    open spec fn eq_spec(&self, other: &AssociatedTerm) -> bool {
        self@.same_product(other@)
    }
}

impl Eq for AssociatedTerm {

}

impl Clone for AssociatedTerm {
    /// A copy with the same fields, the recorded minterms among them.
    fn clone(&self) -> (copy: AssociatedTerm)
        ensures
            copy.binary == self.binary,
            copy.ignored == self.ignored,
            copy.min_terms@ == self.min_terms@,
            copy@ == self@,
    {
        let mut min_terms: HashSet<usize> = HashSet::new();
        add_all(&mut min_terms, &self.min_terms);
        assert(min_terms@ =~= self.min_terms@);
        AssociatedTerm { binary: self.binary, ignored: self.ignored, min_terms }
    }
}

/// `usize::hash` of std feeds a word to a hasher. Nothing is claimed of what
/// that does to the hasher.
pub assume_specification<H: std::hash::Hasher>[ <usize as std::hash::Hash>::hash ](
    word: &usize,
    state: &mut H,
);

impl std::hash::Hash for AssociatedTerm {
    /// Feeds the hasher what equality looks at: the value with the bits under
    /// the mask cleared, and the mask.
    fn hash<H: std::hash::Hasher>(&self, state: &mut H) {
        let value: usize = self.binary & !self.ignored;
        value.hash(state);
        self.ignored.hash(state);
    }
}

/// Adds every minterm of `from` to `into`.
fn add_all(into: &mut HashSet<usize>, from: &HashSet<usize>)
    ensures
        final(into)@ == old(into)@.union(from@),
{
    for m in it: from.iter()
        invariant
            forall|x: usize|
                into@.contains(x) <==> old(into)@.contains(x) || exists|i: int|
                    0 <= i < it.index() && it.seq().unref()[i] == x,
            it.seq().unref().to_set() == from@,
    {
        assert(it.seq().unref()[it.index()] == *m);
        into.insert(*m);
    }
    assert(into@ =~= old(into)@.union(from@));
}

impl AssociatedTerm {
    /// The term of a single minterm: no variable is eliminated.
    pub fn new(minterm: usize) -> (term: AssociatedTerm)
        ensures
            term.binary == minterm,
            term.ignored == 0,
            term@.value == minterm,
            term@.mask == 0,
            term@.covers == set![minterm],
            term@.well_formed(),
    {
        let mut min_terms: HashSet<usize> = HashSet::new();
        min_terms.insert(minterm);
        let term = AssociatedTerm { binary: minterm, ignored: 0, min_terms };
        proof {
            assert(minterm & !0usize == minterm) by (bit_vector);
            assert(term@.covers =~= set![minterm]);
            assert forall|m: usize| cube(minterm, 0).contains(m) <==> m == minterm by {
                assert(m & !0usize == m) by (bit_vector);
            }
            assert(term@.covers =~= cube(minterm, 0));
        }
        term
    }

    /// Tells whether the term and `other` are the same product. The recorded
    /// minterms, and the bits of `binary` under `ignored`, play no part.
    pub fn same_product(&self, other: &AssociatedTerm) -> (same: bool)
        ensures
            same == self@.same_product(other@),
    {
        self.ignored == other.ignored && (self.binary & !self.ignored) == (other.binary
            & !other.ignored)
    }

    /// Combines the term with `other`, if the two are mergeable.
    pub fn merge(&self, other: &AssociatedTerm) -> (merged: Option<AssociatedTerm>)
        ensures
            merged is Some <==> self@.mergeable(other@),
            merged matches Some(term) ==> term@ == self@.merged(other@),
    {
        if self.ignored != other.ignored {
            return None;
        }
        let diff: usize = (self.binary ^ other.binary) & !self.ignored;
        let ghost a = self.binary;
        let ghost b = other.binary;
        let ghost k = self.ignored;
        assert(diff == ((a & !k) ^ (b & !k)) & !k && (a & b) & !(k | diff) == (a & !k) & (b & !k))
            by (bit_vector)
            requires
                diff == (a ^ b) & !k,
        ;
        if calc_ones(diff) != 1 {
            return None;
        }
        let mut min_terms: HashSet<usize> = HashSet::new();
        add_all(&mut min_terms, &self.min_terms);
        add_all(&mut min_terms, &other.min_terms);
        assert(min_terms@ =~= self.min_terms@.union(other.min_terms@));
        Some(
            AssociatedTerm {
                binary: self.binary & other.binary,
                ignored: self.ignored | diff,
                min_terms,
            },
        )
    }
}

} // verus!
