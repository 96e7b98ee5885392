//! Product terms and sums of them as text.

use crate::bits::fits_width;
use crate::primes::terms_fit;
use crate::term::AssociatedTerm;
use vstd::prelude::*;
use vstd::string::StringExecFns;

verus! {

/// Bit `bit` of `x` is set.
pub open spec fn has_bit(x: usize, bit: usize) -> bool {
    (x >> bit) & 1 == 1
}

/// The text of each string of `names`.
pub open spec fn texts(names: Seq<String>) -> Seq<Seq<char>> {
    names.map_values(|name: String| name@)
}

/// The text of one variable in a product: its name, followed by an
/// apostrophe when its bit of the term's value is set.
pub open spec fn factor(name: Seq<char>, primed: bool) -> Seq<char> {
    if primed {
        name.push('\'')
    } else {
        name
    }
}

/// The factors of the term `(value, mask)` for the first `count` variables,
/// in the order of `names`. The first name belongs to the most significant
/// of `names.len()` bits, and an eliminated variable has no factor.
pub open spec fn factors(value: usize, mask: usize, names: Seq<Seq<char>>, count: nat) -> Seq<
    Seq<char>,
>
    decreases count,
{
    if count == 0 {
        Seq::empty()
    } else {
        let before = factors(value, mask, names, (count - 1) as nat);
        let bit = (names.len() - count) as usize;
        if has_bit(mask, bit) {
            before
        } else {
            before.push(factor(names[count - 1], has_bit(value, bit)))
        }
    }
}

/// The texts of `parts` in a row, with `separator` between each two.
pub open spec fn joined(parts: Seq<Seq<char>>, separator: Seq<char>) -> Seq<char>
    decreases parts.len(),
{
    if parts.len() == 0 {
        Seq::empty()
    } else if parts.len() == 1 {
        parts[0]
    } else {
        joined(parts.drop_last(), separator) + separator + parts.last()
    }
}

/// The text of the term `(value, mask)`: its factors with ` * ` between them,
/// in parentheses.
pub open spec fn rendered(value: usize, mask: usize, names: Seq<Seq<char>>) -> Seq<char> {
    seq!['('] + joined(factors(value, mask, names, names.len()), seq![' ', '*', ' ']) + seq![')']
}

/// The texts of the terms of `terms`, in their order.
pub open spec fn rendered_each(terms: Seq<AssociatedTerm>, names: Seq<Seq<char>>) -> Seq<
    Seq<char>,
> {
    Seq::new(terms.len(), |i: int| rendered(terms[i]@.value, terms[i]@.mask, names))
}

/// Joins the strings of `parts` with `separator` between each two.
pub(crate) fn join(parts: &Vec<String>, separator: &str) -> (text: String)
    ensures
        text@ == joined(texts(parts@), separator@),
{
    let mut text = String::new();
    for i in 0..parts.len()
        invariant
            text@ == joined(texts(parts@).take(i as int), separator@),
    {
        let ghost all = texts(parts@);
        assert(all.take(i + 1).drop_last() == all.take(i as int));
        assert(all.take(i + 1).last() == parts@[i as int]@);
        if i > 0 {
            text.append(separator);
        }
        text.append(parts[i].as_str());
    }
    assert(texts(parts@).take(parts@.len() as int) == texts(parts@));
    text
}

/// Renders `term` as a product of the variables named in `variables`.
///
/// The first name stands for the most significant of as many bits as there
/// are names. A variable that the term has eliminated is left out; any other
/// is followed by an apostrophe when its bit of the term is set.
pub fn pretty_print_term(term: &AssociatedTerm, variables: &Vec<String>) -> (text: String)
    requires
        variables@.len() <= usize::BITS,
        fits_width(term@.value, variables@.len()),
        fits_width(term@.mask, variables@.len()),
    ensures
        text@ == rendered(term@.value, term@.mask, texts(variables@)),
{
    let ghost names = texts(variables@);
    let mut parts: Vec<String> = Vec::new();
    let width = variables.len();
    for i in 0..width
        invariant
            width == variables@.len(),
            width <= usize::BITS,
            names == texts(variables@),
            texts(parts@) == factors(term@.value, term@.mask, names, i as nat),
    {
        let bit: usize = width - 1 - i;
        let probe: usize = 1usize << bit;
        let ghost raw = term.binary;
        let ghost k = term.ignored;
        assert((k & probe == 0) == !has_bit(k, bit) && (k & probe == 0 ==> (raw & probe == probe)
            == has_bit(raw & !k, bit))) by (bit_vector)
            requires
                probe == 1usize << bit,
                bit < usize::BITS,
        ;
        let ghost before = texts(parts@);
        if term.ignored & probe == 0 {
            let mut part = variables[i].clone();
            if term.binary & probe == probe {
                proof {
                    reveal_strlit("'");
                }
                part.append("'");
                assert(part@ == names[i as int].push('\''));
            }
            parts.push(part);
            assert(texts(parts@) == before.push(part@));
        }
    }
    let mut text = String::new();
    proof {
        reveal_strlit("(");
        reveal_strlit(" * ");
        reveal_strlit(")");
    }
    text.append("(");
    let product = join(&parts, " * ");
    text.append(product.as_str());
    text.append(")");
    assert(" * "@ == seq![' ', '*', ' ']);
    assert("("@ == seq!['(']);
    assert(")"@ == seq![')']);
    text
}

/// Renders `terms` as a sum of products, in their order, with ` + ` between
/// each two.
pub fn pretty_print(terms: &Vec<AssociatedTerm>, variables: &Vec<String>) -> (text: String)
    requires
        variables@.len() <= usize::BITS,
        terms_fit(terms@, variables@.len()),
    ensures
        text@ == joined(rendered_each(terms@, texts(variables@)), seq![' ', '+', ' ']),
{
    let mut summands: Vec<String> = Vec::new();
    for i in 0..terms.len()
        invariant
            variables@.len() <= usize::BITS,
            terms_fit(terms@, variables@.len()),
            texts(summands@) == rendered_each(terms@, texts(variables@)).take(i as int),
    {
        let ghost before = texts(summands@);
        let summand = pretty_print_term(&terms[i], variables);
        summands.push(summand);
        assert(texts(summands@) == before.push(summand@));
    }
    proof {
        reveal_strlit(" + ");
        assert(" + "@ == seq![' ', '+', ' ']);
        let all = rendered_each(terms@, texts(variables@));
        assert(all.take(terms@.len() as int) == all);
    }
    join(&summands, " + ")
}

} // verus!
