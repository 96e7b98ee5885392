use quine_mccluskey::{minimize, pretty_print, pretty_print_term, print_chart, AssociatedTerm};

fn term(binary: usize, ignored: usize, covers: &[usize]) -> AssociatedTerm {
    AssociatedTerm { binary, ignored, min_terms: covers.iter().cloned().collect() }
}

fn names(text: &str) -> Vec<String> {
    text.split('-').map(String::from).collect()
}

fn sorted_primes(minterms: Vec<usize>, variables: usize) -> Vec<AssociatedTerm> {
    let mut primes = minimize(minterms, variables).unwrap();
    primes.sort_by_key(|t| (t.binary, t.ignored));
    primes
}

#[test]
fn set_bits_are_primed() {
    let variables = names("A-B-C-D-E");
    assert_eq!(pretty_print_term(&term(22, 0, &[22]), &variables), "(A' * B * C' * D' * E)");
    assert_eq!(pretty_print_term(&term(0, 0, &[0]), &variables), "(A * B * C * D * E)");
    assert_eq!(pretty_print_term(&term(31, 0, &[31]), &variables), "(A' * B' * C' * D' * E')");
}

#[test]
fn eliminated_variables_are_left_out() {
    let variables = names("A-B-C-D-E");
    assert_eq!(pretty_print_term(&term(0, 10, &[0, 2, 8, 10]), &variables), "(A * C * E)");
    assert_eq!(pretty_print_term(&term(15, 16, &[15, 31]), &variables), "(B' * C' * D' * E')");
    assert_eq!(pretty_print_term(&term(2, 1, &[2, 3]), &variables), "(A * B * C * D')");
    assert_eq!(pretty_print_term(&term(0, 31, &[]), &variables), "()");
    assert_eq!(pretty_print_term(&term(16, 15, &[]), &variables), "(A')");
}

#[test]
fn bits_under_the_mask_are_not_printed() {
    let variables = names("A-B-C");
    assert_eq!(pretty_print_term(&term(0b111, 0b010, &[5, 7]), &variables), "(A' * C')");
    assert_eq!(pretty_print_term(&term(0b101, 0b010, &[5, 7]), &variables), "(A' * C')");
}

#[test]
fn no_names_give_an_empty_product() {
    assert_eq!(pretty_print_term(&term(0, 0, &[0]), &Vec::new()), "()");
}

#[test]
fn names_may_be_long() {
    let variables = names("alpha-beta");
    assert_eq!(pretty_print_term(&term(1, 0, &[1]), &variables), "(alpha * beta')");
    assert_eq!(pretty_print_term(&term(2, 0, &[2]), &variables), "(alpha' * beta)");
}

#[test]
fn full_width_names_reach_the_top_bit() {
    let bits = usize::BITS as usize;
    let variables: Vec<String> = (0..bits).map(|i| format!("x{}", i)).collect();
    let top = 1usize << (bits - 1);
    let text = pretty_print_term(&term(top, usize::MAX >> 2, &[]), &variables);
    assert_eq!(text, "(x0' * x1)");
}

#[test]
fn sum_joins_products_in_order() {
    let variables = names("A-B-C-D-E");
    let terms = vec![term(22, 0, &[22]), term(2, 1, &[2, 3]), term(0, 10, &[0, 2, 8, 10])];
    assert_eq!(
        pretty_print(&terms, &variables),
        "(A' * B * C' * D' * E) + (A * B * C * D') + (A * C * E)"
    );
    assert_eq!(pretty_print(&vec![term(1, 0, &[1])], &names("A")), "(A')");
    assert_eq!(pretty_print(&Vec::new(), &variables), "");
}

#[test]
fn sum_of_the_five_variable_example() {
    let primes = sorted_primes(vec![0, 2, 3, 8, 10, 14, 15, 22, 24, 27, 31], 5);
    assert_eq!(
        pretty_print(&primes, &names("A-B-C-D-E")),
        "(A * C * E) + (A * B * C * D') + (B' * C * D * E) + (A * B' * D' * E) + \
         (A * B' * C' * D') + (B' * C' * D' * E') + (A' * B * C' * D' * E) + (A' * B' * D' * E')"
    );
}

#[test]
fn chart_marks_the_covered_minterms() {
    let minterms = vec![0, 1, 2, 5, 6, 7];
    let primes = sorted_primes(minterms.clone(), 3);
    let expected = [
        "expression                      | 0   | 1   | 2   | 5   | 6   | 7   ",
        "(A * B)                         | V   | V   |     |     |     |     ",
        "(A * C)                         | V   |     | V   |     |     |     ",
        "(B * C')                        |     | V   |     | V   |     |     ",
        "(B' * C)                        |     |     | V   |     | V   |     ",
        "(A' * C')                       |     |     |     | V   |     | V   ",
        "(A' * B')                       |     |     |     |     | V   | V   ",
    ]
    .join("\n");
    assert_eq!(print_chart(&primes, &minterms, &names("A-B-C")), expected);
}

#[test]
fn chart_does_not_cut_what_is_too_wide() {
    let variables: Vec<String> = (0..14).map(|i| format!("x{}", i)).collect();
    let terms = vec![term(5, 0, &[5]), term(12345, 0, &[12345])];
    let expected = [
        "expression                      | 5   | 12345",
        "(x0 * x1 * x2 * x3 * x4 * x5 * x6 * x7 * x8 * x9 * x10 * x11' * x12 * x13')| V   |     ",
        "(x0' * x1' * x2 * x3 * x4 * x5 * x6 * x7 * x8' * x9' * x10' * x11 * x12 * x13')|     | V   ",
    ]
    .join("\n");
    assert_eq!(print_chart(&terms, &vec![5, 12345], &variables), expected);
}

#[test]
fn chart_without_terms_or_columns() {
    let variables = names("A-B");
    assert_eq!(
        print_chart(&Vec::new(), &vec![3], &variables),
        "expression                      | 3   \n"
    );
    assert_eq!(
        print_chart(&vec![term(0, 3, &[0, 1, 2, 3])], &Vec::new(), &variables),
        "expression                      \n()                              "
    );
    assert_eq!(
        print_chart(&vec![term(0, 3, &[0, 1, 2, 3])], &vec![2, 4, 2, 1000], &variables),
        "expression                      | 2   | 4   | 2   | 1000\n\
         ()                              | V   |     | V   |     "
    );
}
