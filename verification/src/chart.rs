//! The prime implicant chart: which prime implicant covers which minterm, as
//! a table in text.

use crate::primes::terms_fit;
use crate::render::{join, joined, pretty_print_term, rendered, texts};
use crate::term::AssociatedTerm;
use vstd::prelude::*;
use vstd::string::{StrSliceExecFns, StringExecFns};

verus! {

broadcast use vstd::std_specs::hash::group_hash_axioms;

/// The decimal digit `d`, as a character.
pub open spec fn digit(d: nat) -> char {
    if d == 0 {
        '0'
    } else if d == 1 {
        '1'
    } else if d == 2 {
        '2'
    } else if d == 3 {
        '3'
    } else if d == 4 {
        '4'
    } else if d == 5 {
        '5'
    } else if d == 6 {
        '6'
    } else if d == 7 {
        '7'
    } else if d == 8 {
        '8'
    } else {
        '9'
    }
}

/// The number `n` in decimal digits, without leading zeros.
pub open spec fn decimal(n: nat) -> Seq<char>
    decreases n,
{
    if n < 10 {
        seq![digit(n)]
    } else {
        decimal(n / 10).push(digit(n % 10))
    }
}

/// `count` spaces.
pub open spec fn spaces(count: nat) -> Seq<char> {
    Seq::new(count, |i: int| ' ')
}

/// `text`, followed by as many spaces as it lacks to `width` characters.
pub open spec fn padded(text: Seq<char>, width: nat) -> Seq<char> {
    if text.len() < width {
        text + spaces((width - text.len()) as nat)
    } else {
        text
    }
}

/// One cell of the chart after the first of its row: a bar, a space, and
/// `text` padded to four characters.
pub open spec fn cell(text: Seq<char>) -> Seq<char> {
    seq!['|', ' '] + padded(text, 4)
}

/// The header's cells for the first `count` minterms of `columns`: each
/// holds its minterm in decimal digits.
pub open spec fn header_cells(columns: Seq<usize>, count: nat) -> Seq<char>
    decreases count,
{
    if count == 0 {
        Seq::empty()
    } else {
        header_cells(columns, (count - 1) as nat) + cell(decimal(columns[count - 1] as nat))
    }
}

/// A row's cells for the first `count` minterms of `columns`: each holds a
/// `V` if `covers` has its minterm, and is blank if not.
pub open spec fn mark_cells(covers: Set<usize>, columns: Seq<usize>, count: nat) -> Seq<char>
    decreases count,
{
    if count == 0 {
        Seq::empty()
    } else {
        mark_cells(covers, columns, (count - 1) as nat) + cell(
            if covers.contains(columns[count - 1]) {
                seq!['V']
            } else {
                Seq::empty()
            },
        )
    }
}

/// The header row: the word `expression` padded to 32 characters, then one
/// cell for each minterm of `columns`.
pub open spec fn header_row(columns: Seq<usize>) -> Seq<char> {
    padded(seq!['e', 'x', 'p', 'r', 'e', 's', 's', 'i', 'o', 'n'], 32) + header_cells(
        columns,
        columns.len(),
    )
}

/// The row of one term: its text padded to 32 characters, then one cell for
/// each minterm of `columns`.
pub open spec fn term_row(term: AssociatedTerm, columns: Seq<usize>, names: Seq<Seq<char>>) -> Seq<
    char,
> {
    padded(rendered(term@.value, term@.mask, names), 32) + mark_cells(
        term@.covers,
        columns,
        columns.len(),
    )
}

/// The rows of `terms`, in their order.
pub open spec fn term_rows(
    terms: Seq<AssociatedTerm>,
    columns: Seq<usize>,
    names: Seq<Seq<char>>,
) -> Seq<Seq<char>> {
    Seq::new(terms.len(), |i: int| term_row(terms[i], columns, names))
}

/// The chart: the header row, a line break, and the rows of `terms` with a
/// line break between each two.
pub open spec fn chart(
    terms: Seq<AssociatedTerm>,
    columns: Seq<usize>,
    names: Seq<Seq<char>>,
) -> Seq<char> {
    header_row(columns) + seq!['\n'] + joined(term_rows(terms, columns, names), seq!['\n'])
}

/// The text of one decimal digit.
fn digit_text(d: usize) -> (text: &'static str)
    requires
        d < 10,
    ensures
        text@ == seq![digit(d as nat)],
{
    proof {
        reveal_strlit("0");
        reveal_strlit("1");
        reveal_strlit("2");
        reveal_strlit("3");
        reveal_strlit("4");
        reveal_strlit("5");
        reveal_strlit("6");
        reveal_strlit("7");
        reveal_strlit("8");
        reveal_strlit("9");
    }
    let text = if d == 0 {
        "0"
    } else if d == 1 {
        "1"
    } else if d == 2 {
        "2"
    } else if d == 3 {
        "3"
    } else if d == 4 {
        "4"
    } else if d == 5 {
        "5"
    } else if d == 6 {
        "6"
    } else if d == 7 {
        "7"
    } else if d == 8 {
        "8"
    } else {
        "9"
    };
    assert(text@ =~= seq![digit(d as nat)]);
    text
}

/// Writes `n` in decimal digits.
fn decimal_text(n: usize) -> (text: String)
    ensures
        text@ == decimal(n as nat),
    decreases n,
{
    if n < 10 {
        String::from_str(digit_text(n))
    } else {
        let mut text = decimal_text(n / 10);
        text.append(digit_text(n % 10));
        text
    }
}

/// Appends spaces to `text` until it has `width` characters.
fn pad(text: &mut String, width: usize)
    ensures
        final(text)@ == padded(old(text)@, width as nat),
{
    let length = text.as_str().unicode_len();
    if length < width {
        for n in length..width
            invariant
                length < width,
                length == old(text)@.len(),
                text@ == old(text)@ + spaces((n - length) as nat),
        {
            proof {
                reveal_strlit(" ");
            }
            text.append(" ");
            assert(" "@ =~= seq![' ']);
            assert(text@ =~= old(text)@ + spaces((n + 1 - length) as nat));
        }
    }
}

/// Draws the prime implicant chart of `primes` over the minterms in
/// `related_terms`.
///
/// The first row names the columns, one for each minterm. Each row after it
/// belongs to one term: its text as `pretty_print_term` gives it, then a `V`
/// in the column of each minterm that the term covers.
pub fn print_chart(
    primes: &Vec<AssociatedTerm>,
    related_terms: &Vec<usize>,
    variables: &Vec<String>,
) -> (text: String)
    requires
        variables@.len() <= usize::BITS,
        terms_fit(primes@, variables@.len()),
    ensures
        text@ == chart(primes@, related_terms@, texts(variables@)),
{
    let ghost columns = related_terms@;
    let ghost names = texts(variables@);
    proof {
        reveal_strlit("expression");
    }
    let mut text = String::from_str("expression");
    assert(text@ =~= seq!['e', 'x', 'p', 'r', 'e', 's', 's', 'i', 'o', 'n']);
    pad(&mut text, 32);
    let ghost label = text@;
    for c in 0..related_terms.len()
        invariant
            columns == related_terms@,
            text@ == label + header_cells(columns, c as nat),
    {
        proof {
            reveal_strlit("| ");
        }
        let ghost before = text@;
        let mut number = decimal_text(related_terms[c]);
        pad(&mut number, 4);
        text.append("| ");
        text.append(number.as_str());
        assert("| "@ =~= seq!['|', ' ']);
        assert(text@ =~= label + (header_cells(columns, c as nat) + cell(
            decimal(columns[c as int] as nat),
        )));
    }
    proof {
        reveal_strlit("\n");
    }
    text.append("\n");
    assert("\n"@ =~= seq!['\n']);
    let mut rows: Vec<String> = Vec::new();
    for r in 0..primes.len()
        invariant
            columns == related_terms@,
            names == texts(variables@),
            variables@.len() <= usize::BITS,
            terms_fit(primes@, variables@.len()),
            texts(rows@) == term_rows(primes@, columns, names).take(r as int),
    {
        let term = &primes[r];
        let mut row = pretty_print_term(term, variables);
        pad(&mut row, 32);
        let ghost label = row@;
        for c in 0..related_terms.len()
            invariant
                columns == related_terms@,
                row@ == label + mark_cells(term@.covers, columns, c as nat),
        {
            proof {
                reveal_strlit("| ");
                reveal_strlit("V");
            }
            let mut mark = String::new();
            if term.min_terms.contains(&related_terms[c]) {
                mark.append("V");
                assert(mark@ =~= seq!['V']);
            }
            let ghost content = mark@;
            pad(&mut mark, 4);
            row.append("| ");
            row.append(mark.as_str());
            assert("| "@ =~= seq!['|', ' ']);
            assert(row@ =~= label + (mark_cells(term@.covers, columns, c as nat) + cell(content)));
        }
        let ghost before = texts(rows@);
        rows.push(row);
        assert(texts(rows@) =~= before.push(row@));
        assert(row@ == term_row(primes@[r as int], columns, names));
    }
    proof {
        let all = term_rows(primes@, columns, names);
        assert(all.take(primes@.len() as int) == all);
    }
    let body = join(&rows, "\n");
    text.append(body.as_str());
    text
}

} // verus!
