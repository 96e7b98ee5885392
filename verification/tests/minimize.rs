use quine_mccluskey::{
    group_minterms, merge_groups, minimize, pretty_print_term, AssociatedTerm, MinimizeError,
};
use std::collections::HashSet;

fn products(primes: &Vec<AssociatedTerm>) -> Vec<(usize, usize)> {
    let mut products: Vec<(usize, usize)> =
        primes.iter().map(|t| (t.binary, t.ignored)).collect();
    products.sort();
    products
}

fn covers(term: &AssociatedTerm) -> Vec<usize> {
    let mut covers: Vec<usize> = term.min_terms.iter().cloned().collect();
    covers.sort();
    covers
}

fn expansion(value: usize, mask: usize) -> Vec<usize> {
    let mut all: Vec<usize> = Vec::new();
    let mut sub = mask;
    loop {
        all.push(value | sub);
        if sub == 0 {
            break;
        }
        sub = (sub - 1) & mask;
    }
    all.sort();
    all
}

fn names(text: &str) -> Vec<String> {
    text.split('-').map(String::from).collect()
}

fn five_variable_example() -> Vec<usize> {
    vec![0, 2, 3, 8, 10, 14, 15, 22, 24, 27, 31]
}

#[test]
fn five_variables_cover_every_minterm_without_duplicates() {
    let minterms = five_variable_example();
    let primes = minimize(minterms.clone(), 5).unwrap();
    for m in minterms.iter() {
        assert!(primes.iter().any(|t| t.min_terms.contains(m)));
    }
    let distinct: HashSet<(usize, usize)> = products(&primes).into_iter().collect();
    assert_eq!(distinct.len(), primes.len());
}

#[test]
fn five_variables_give_these_prime_implicants() {
    let primes = minimize(five_variable_example(), 5).unwrap();
    assert_eq!(
        products(&primes),
        vec![(0, 10), (2, 1), (8, 16), (10, 4), (14, 1), (15, 16), (22, 0), (27, 4)]
    );
    for term in primes.iter() {
        let expected = match (term.binary, term.ignored) {
            (0, 10) => vec![0, 2, 8, 10],
            (2, 1) => vec![2, 3],
            (8, 16) => vec![8, 24],
            (10, 4) => vec![10, 14],
            (14, 1) => vec![14, 15],
            (15, 16) => vec![15, 31],
            (22, 0) => vec![22],
            (27, 4) => vec![27, 31],
            _ => unreachable!(),
        };
        assert_eq!(covers(term), expected);
    }
}

#[test]
fn one_variable_both_minterms_eliminate_it() {
    let primes = minimize(vec![0, 1], 1).unwrap();
    assert_eq!(primes.len(), 1);
    assert_eq!(primes[0].ignored, 1);
    assert_eq!(primes[0].binary & !primes[0].ignored, 0);
    assert_eq!(covers(&primes[0]), vec![0, 1]);
    assert_eq!(pretty_print_term(&primes[0], &names("A")), "()");
}

#[test]
fn lone_minterm_is_its_own_prime_implicant() {
    let primes = minimize(vec![0], 2).unwrap();
    assert_eq!(primes.len(), 1);
    assert_eq!(primes[0].binary, 0);
    assert_eq!(primes[0].ignored, 0);
    assert_eq!(covers(&primes[0]), vec![0]);
    assert_eq!(pretty_print_term(&primes[0], &names("A-B")), "(A * B)");
}

#[test]
fn empty_list_has_no_prime_implicants() {
    let primes = minimize(vec![], 3).unwrap();
    assert!(primes.is_empty());
}

#[test]
fn no_variables_and_the_one_minterm() {
    let primes = minimize(vec![0], 0).unwrap();
    assert_eq!(products(&primes), vec![(0, 0)]);
}

#[test]
fn whole_square_merges_into_one_term() {
    let primes = minimize(vec![0, 1, 2, 3], 2).unwrap();
    assert_eq!(products(&primes), vec![(0, 3)]);
    assert_eq!(covers(&primes[0]), vec![0, 1, 2, 3]);
}

#[test]
fn repeated_minterms_count_once() {
    let repeated = minimize(vec![1, 2, 1, 2, 3, 3, 1], 2).unwrap();
    let once = minimize(vec![1, 2, 3], 2).unwrap();
    assert_eq!(products(&repeated), products(&once));
    assert_eq!(products(&repeated), vec![(1, 2), (2, 1)]);
    for term in repeated.iter() {
        assert_eq!(covers(term), expansion(term.binary, term.ignored));
    }
}

#[test]
fn six_of_eight_minterms_give_six_pairs() {
    let primes = minimize(vec![0, 1, 2, 5, 6, 7], 3).unwrap();
    assert_eq!(products(&primes), vec![(0, 1), (0, 2), (1, 4), (2, 4), (5, 2), (6, 1)]);
}

#[test]
fn every_minterm_is_covered() {
    let minterms = vec![1, 3, 4, 5, 9, 11, 12, 13, 14, 15];
    let primes = minimize(minterms.clone(), 4).unwrap();
    for m in minterms.iter() {
        assert!(primes.iter().any(|t| t.min_terms.contains(m)));
    }
    for term in primes.iter() {
        for m in term.min_terms.iter() {
            assert!(minterms.contains(m));
        }
    }
}

#[test]
fn covers_are_the_expansion_of_value_and_mask() {
    let primes = minimize(five_variable_example(), 5).unwrap();
    for term in primes.iter() {
        assert_eq!(term.binary & term.ignored, 0);
        assert_eq!(covers(term), expansion(term.binary, term.ignored));
        assert_eq!(term.min_terms.len(), 1usize << term.ignored.count_ones());
    }
}

#[test]
fn order_of_minterms_does_not_matter() {
    let forward = minimize(five_variable_example(), 5).unwrap();
    let mut reversed_list = five_variable_example();
    reversed_list.reverse();
    let backward = minimize(reversed_list, 5).unwrap();
    let shuffled = minimize(vec![15, 0, 31, 2, 27, 3, 24, 8, 22, 10, 14], 5).unwrap();
    assert_eq!(products(&forward), products(&backward));
    assert_eq!(products(&forward), products(&shuffled));
}

#[test]
fn no_two_prime_implicants_are_adjacent() {
    let primes = minimize(five_variable_example(), 5).unwrap();
    for a in primes.iter() {
        for b in primes.iter() {
            assert!(a.merge(b).is_none());
            let differing = (a.binary ^ b.binary) & !a.ignored;
            assert!(a.ignored != b.ignored || differing.count_ones() != 1);
        }
    }
}

#[test]
fn there_is_one_round_for_each_group() {
    let groups = group_minterms(&five_variable_example(), 5).unwrap();
    assert_eq!(groups.len(), 6);
    let (primes, rounds) = merge_groups(groups);
    assert_eq!(rounds, 6);
    assert_eq!(primes.len(), 8);

    let groups = group_minterms(&vec![0, 1], 1).unwrap();
    let (_, rounds) = merge_groups(groups);
    assert_eq!(rounds, 2);

    let (primes, rounds) = merge_groups(Vec::new());
    assert_eq!(rounds, 0);
    assert!(primes.is_empty());
}

#[test]
fn minterms_are_grouped_by_their_bit_counts() {
    let groups = group_minterms(&vec![7, 0, 5, 3, 5, 4, 6], 3).unwrap();
    let values: Vec<Vec<usize>> =
        groups.iter().map(|g| g.iter().map(|t| t.binary).collect()).collect();
    assert_eq!(values, vec![vec![0], vec![4], vec![5, 3, 6], vec![7]]);
    for group in groups.iter() {
        for term in group.iter() {
            assert_eq!(term.ignored, 0);
            assert_eq!(covers(term), vec![term.binary]);
        }
    }
}

#[test]
fn minterm_out_of_range_is_rejected() {
    assert_eq!(
        minimize(vec![0, 4, 8], 2).unwrap_err(),
        MinimizeError::MintermOutOfRange { index: 1 }
    );
    assert_eq!(
        minimize(vec![1], 0).unwrap_err(),
        MinimizeError::MintermOutOfRange { index: 0 }
    );
    assert_eq!(
        group_minterms(&vec![3, 2, 1, 0, 16, 32], 4).unwrap_err(),
        MinimizeError::MintermOutOfRange { index: 4 }
    );
    assert!(minimize(vec![0, 3], 2).is_ok());
}

#[test]
fn too_many_variables_are_rejected() {
    let bits = usize::BITS as usize;
    assert_eq!(minimize(vec![0], bits + 1).unwrap_err(), MinimizeError::TooManyVariables);
    assert_eq!(minimize(vec![], usize::MAX).unwrap_err(), MinimizeError::TooManyVariables);
    assert_eq!(
        group_minterms(&vec![usize::MAX], bits + 1).unwrap_err(),
        MinimizeError::TooManyVariables
    );
}

#[test]
fn every_word_fits_the_full_width() {
    let bits = usize::BITS as usize;
    let primes = minimize(vec![usize::MAX, usize::MAX - 1], bits).unwrap();
    assert_eq!(products(&primes), vec![(usize::MAX - 1, 1)]);
    assert_eq!(covers(&primes[0]), vec![usize::MAX - 1, usize::MAX]);
}
