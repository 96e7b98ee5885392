use quine_mccluskey::bits::{calc_ones, fits};
use quine_mccluskey::AssociatedTerm;
use std::collections::hash_map::DefaultHasher;
use std::collections::HashSet;
use std::hash::{Hash, Hasher};

fn term(binary: usize, ignored: usize, covers: &[usize]) -> AssociatedTerm {
    AssociatedTerm { binary, ignored, min_terms: covers.iter().cloned().collect() }
}

fn sorted(set: &HashSet<usize>) -> Vec<usize> {
    let mut all: Vec<usize> = set.iter().cloned().collect();
    all.sort();
    all
}

#[test]
fn calc_ones_counts_set_bits() {
    assert_eq!(calc_ones(0), 0);
    assert_eq!(calc_ones(1), 1);
    assert_eq!(calc_ones(2), 1);
    assert_eq!(calc_ones(3), 2);
    assert_eq!(calc_ones(22), 3);
    assert_eq!(calc_ones(31), 5);
    assert_eq!(calc_ones(0b1010_1010), 4);
    assert_eq!(calc_ones(usize::MAX), usize::BITS as usize);
    assert_eq!(calc_ones(1 << (usize::BITS - 1)), 1);
}

#[test]
fn fits_compares_with_a_power_of_two() {
    assert!(fits(0, 0));
    assert!(!fits(1, 0));
    assert!(fits(1, 1));
    assert!(!fits(2, 1));
    assert!(fits(31, 5));
    assert!(!fits(32, 5));
    assert!(fits(usize::MAX, usize::BITS as usize));
    assert!(!fits(usize::MAX, usize::BITS as usize - 1));
    assert!(fits(usize::MAX, usize::MAX));
}

#[test]
fn new_term_covers_its_minterm() {
    let t = AssociatedTerm::new(13);
    assert_eq!(t.binary, 13);
    assert_eq!(t.ignored, 0);
    assert_eq!(sorted(&t.min_terms), vec![13]);
}

#[test]
fn merge_eliminates_the_differing_variable() {
    let a = AssociatedTerm::new(2);
    let b = AssociatedTerm::new(3);
    let merged = a.merge(&b).unwrap();
    assert_eq!(merged.binary, 2);
    assert_eq!(merged.ignored, 1);
    assert_eq!(sorted(&merged.min_terms), vec![2, 3]);

    let c = term(8, 2, &[8, 10]);
    let d = term(0, 2, &[0, 2]);
    let merged = d.merge(&c).unwrap();
    assert_eq!(merged.binary, 0);
    assert_eq!(merged.ignored, 10);
    assert_eq!(sorted(&merged.min_terms), vec![0, 2, 8, 10]);
}

#[test]
fn merge_is_the_same_either_way_round() {
    let a = AssociatedTerm::new(14);
    let b = AssociatedTerm::new(15);
    let one = a.merge(&b).unwrap();
    let other = b.merge(&a).unwrap();
    assert_eq!(one, other);
    assert_eq!(one.binary, other.binary);
    assert_eq!(sorted(&one.min_terms), sorted(&other.min_terms));
}

#[test]
fn merge_refuses_terms_that_are_not_adjacent() {
    assert!(AssociatedTerm::new(0).merge(&AssociatedTerm::new(3)).is_none());
    assert!(AssociatedTerm::new(5).merge(&AssociatedTerm::new(5)).is_none());
    assert!(term(0, 1, &[0, 1]).merge(&term(2, 4, &[2, 6])).is_none());
    assert!(term(0, 1, &[0, 1]).merge(&term(6, 1, &[6, 7])).is_none());
    assert!(term(0, 1, &[0, 1]).merge(&term(2, 1, &[2, 3])).is_some());
}

#[test]
fn merge_ignores_bits_under_the_mask() {
    let a = term(0b001, 0b001, &[0, 1]);
    let b = term(0b100, 0b001, &[4, 5]);
    let merged = a.merge(&b).unwrap();
    assert_eq!(merged.ignored, 0b101);
    assert_eq!(merged.binary & !merged.ignored, 0);
    assert_eq!(sorted(&merged.min_terms), vec![0, 1, 4, 5]);
}

#[test]
fn equality_looks_at_value_and_mask_only() {
    let a = term(2, 1, &[2, 3]);
    let b = term(2, 1, &[]);
    let c = term(3, 1, &[2, 3]);
    let d = term(2, 0, &[2]);
    let e = term(4, 1, &[4, 5]);
    assert!(a == b);
    assert!(a.same_product(&b));
    assert!(a == c);
    assert!(a.same_product(&c));
    assert!(a != d);
    assert!(!a.same_product(&d));
    assert!(a != e);
    assert!(!a.same_product(&e));
}

fn hash_of(term: &AssociatedTerm) -> u64 {
    let mut state = DefaultHasher::new();
    term.hash(&mut state);
    state.finish()
}

#[test]
fn equal_terms_hash_alike() {
    let a = term(2, 1, &[2, 3]);
    let b = term(2, 1, &[]);
    let c = term(3, 1, &[2]);
    assert_eq!(hash_of(&a), hash_of(&b));
    assert_eq!(hash_of(&a), hash_of(&c));
    let mut set: HashSet<AssociatedTerm> = HashSet::new();
    assert!(set.insert(a));
    assert!(!set.insert(b));
    assert!(!set.insert(c));
    assert!(set.insert(term(2, 0, &[2])));
    assert!(set.insert(term(0, 1, &[0, 1])));
    assert_eq!(set.len(), 3);
    assert!(set.contains(&term(1, 1, &[])));
    assert!(!set.contains(&term(1, 0, &[])));
}

#[test]
fn clone_keeps_every_field() {
    let a = term(5, 2, &[5, 7]);
    let b = a.clone();
    assert_eq!(b.binary, 5);
    assert_eq!(b.ignored, 2);
    assert_eq!(sorted(&b.min_terms), vec![5, 7]);
    let raw = term(7, 2, &[]);
    let copy = raw.clone();
    assert_eq!(copy.binary, 7);
    assert!(copy.min_terms.is_empty());
}
