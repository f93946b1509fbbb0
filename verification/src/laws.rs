//! What holds of the order of strings, whatever the strings are.

use crate::digits::{digit_value, is_numeric, lemma_ascii_digit_value};
use crate::order::{
    lemma_lex_order_equal, lemma_lex_order_prefix, lemma_magnitude_after_zero,
    lemma_magnitude_grows, lemma_magnitude_push, magnitude,
};
use crate::runs::{
    after_leading_run, leading_run, lemma_last_kind, lemma_leading_run, lemma_tokenize_concat,
    lemma_tokenize_grow, lemma_tokenize_round_trip, lemma_tokenize_uniform, uniform,
};
use crate::token::{
    compare, digits_of, lemma_compare_common_prefix, lemma_compare_reflexive, tokenize, Token,
};
use std::cmp::Ordering;
use vstd::prelude::*;

verus! {

/// The ASCII digit that is worth `d`.
pub open spec fn digit_char(d: nat) -> char {
    (0x30 + d) as char
}

/// The number `n` written in base ten with ASCII digits and no zero in
/// front.
pub open spec fn decimal(n: nat) -> Seq<char>
    decreases n,
{
    if n < 10 {
        seq![digit_char(n)]
    } else {
        decimal(n / 10).push(digit_char(n % 10))
    }
}

/// The values of the digits of two texts put together are the values of the
/// digits of the first and then those of the second.
pub proof fn lemma_digits_of_concat(a: Seq<char>, b: Seq<char>)
    ensures
        digits_of(a + b) == digits_of(a) + digits_of(b),
{
}

/// A number written in base ten is a run of numeric characters that writes
/// the number.
pub proof fn lemma_decimal(n: nat)
    ensures
        decimal(n).len() > 0,
        uniform(decimal(n), true),
        magnitude(digits_of(decimal(n))) == n,
    decreases n,
{
    let last = digit_char(n % 10);
    lemma_ascii_digit_value(last);
    if n < 10 {
        assert(digits_of(decimal(n)) =~= Seq::<u8>::empty().push((n % 10) as u8));
        lemma_magnitude_push(Seq::<u8>::empty(), (n % 10) as u8);
    } else {
        lemma_decimal(n / 10);
        let front = decimal(n / 10);
        assert(digits_of(decimal(n)) =~= digits_of(front).push((n % 10) as u8));
        lemma_magnitude_push(digits_of(front), (n % 10) as u8);
        assert(uniform(decimal(n), true));
    }
}

/// Every string is equal to itself in the natural order.
pub proof fn lemma_order_reflexive(s: Seq<char>)
    ensures
        compare(tokenize(s), tokenize(s)) == Some(Ordering::Equal),
{
    lemma_compare_reflexive(tokenize(s));
}

/// Of two strings that differ only in a number written in them, between the
/// same letters before and the same letters after, the one with the smaller
/// number comes first.
pub proof fn lemma_smaller_number_first(before: Seq<char>, n: nat, m: nat, after: Seq<char>)
    requires
        n < m,
        uniform(before, false),
        uniform(after, false),
    ensures
        compare(tokenize(before + decimal(n) + after), tokenize(before + decimal(m) + after))
            == Some(Ordering::Less),
{
    let x = decimal(n);
    let y = decimal(m);
    lemma_decimal(n);
    lemma_decimal(m);
    lemma_tokenize_uniform(x, true);
    lemma_tokenize_uniform(y, true);
    lemma_tokenize_concat(before, x);
    lemma_tokenize_concat(before, y);
    lemma_tokenize_concat(before + x, after);
    lemma_tokenize_concat(before + y, after);
    let shared = tokenize(before);
    let rest = tokenize(after);
    let a = seq![Token::Number(x)] + rest;
    let b = seq![Token::Number(y)] + rest;
    assert(tokenize(before + x + after) =~= shared + a);
    assert(tokenize(before + y + after) =~= shared + b);
    lemma_compare_common_prefix(shared, a, b);
}

/// Whether `s` ends in a number that is zero and `more` is made of digits
/// that write zero: the one way to continue a string and stay equal to it.
pub open spec fn continues_zero_by_zeros(s: Seq<char>, more: Seq<char>) -> bool {
    &&& s.len() > 0
    &&& is_numeric(s.last())
    &&& tokenize(s).last().value() == 0
    &&& uniform(more, true)
    &&& magnitude(digits_of(more)) == 0
}

/// How a string stands to what continues it: it comes first, but for a
/// number zero at its end that is continued by zeros alone, which stays
/// equal.
pub proof fn lemma_order_of_continued(s: Seq<char>, more: Seq<char>)
    requires
        more.len() > 0,
    ensures
        compare(tokenize(s), tokenize(s + more)) == Some(
            if continues_zero_by_zeros(s, more) {
                Ordering::Equal
            } else {
                Ordering::Less
            },
        ),
{
    if s.len() == 0 {
        lemma_last_kind(more);
    } else {
        let kind = is_numeric(s.last());
        let x = leading_run(more, kind);
        let y = after_leading_run(more, kind);
        lemma_leading_run(more, kind);
        lemma_last_kind(s);
        let runs = tokenize(s);
        let shared = runs.drop_last();
        let last = runs.last();
        let grown = Token::of_kind(kind, last.text() + x);
        lemma_tokenize_grow(s, x);
        assert(s + more =~= (s + x) + y);
        lemma_tokenize_concat(s + x, y);
        let rest = tokenize(y);
        let a = seq![last];
        let b = seq![grown] + rest;
        assert(runs =~= shared + a);
        assert(tokenize(s + more) =~= shared + b);
        lemma_compare_common_prefix(shared, a, b);
        if y.len() > 0 {
            lemma_last_kind(y);
            assert(!uniform(more, kind));
        }
        assert(compare(a.drop_first(), b.drop_first()) == Some(
            if rest.len() == 0 {
                Ordering::Equal
            } else {
                Ordering::Less
            },
        ));
        if x.len() == 0 {
            lemma_lex_order_equal(last.text(), last.text());
        } else if !kind {
            lemma_lex_order_prefix(last.text(), x);
        } else {
            lemma_digits_of_concat(last.text(), x);
            if last.value() > 0 {
                lemma_magnitude_grows(digits_of(last.text()), digits_of(x));
            } else {
                lemma_magnitude_after_zero(digits_of(last.text()), digits_of(x));
            }
        }
    }
}

/// A string comes before every string that continues it, unless it ends in a
/// number zero and is continued by zeros alone.
pub proof fn lemma_continued_comes_later(s: Seq<char>, more: Seq<char>)
    requires
        more.len() > 0,
        !continues_zero_by_zeros(s, more),
    ensures
        compare(tokenize(s), tokenize(s + more)) == Some(Ordering::Less),
{
    lemma_order_of_continued(s, more);
}

/// Zeros in front of a number do not change where a string stands, though
/// they make it a string of other tokens.
pub proof fn lemma_leading_zeros(before: Seq<char>, zeros: Seq<char>, digits: Seq<char>)
    requires
        uniform(before, false),
        uniform(zeros, true),
        magnitude(digits_of(zeros)) == 0,
        uniform(digits, true),
        digits.len() > 0,
    ensures
        compare(tokenize(before + zeros + digits), tokenize(before + digits)) == Some(
            Ordering::Equal,
        ),
        zeros.len() > 0 ==> tokenize(before + zeros + digits) != tokenize(before + digits),
{
    lemma_tokenize_round_trip(before + zeros + digits);
    lemma_tokenize_round_trip(before + digits);
    let padded = zeros + digits;
    assert(uniform(padded, true));
    lemma_tokenize_uniform(padded, true);
    lemma_tokenize_uniform(digits, true);
    lemma_tokenize_concat(before, padded);
    lemma_tokenize_concat(before, digits);
    assert(before + zeros + digits =~= before + padded);
    lemma_digits_of_concat(zeros, digits);
    lemma_magnitude_after_zero(digits_of(zeros), digits_of(digits));
    let shared = tokenize(before);
    let a = seq![Token::Number(padded)];
    let b = seq![Token::Number(digits)];
    lemma_compare_common_prefix(shared, a, b);
    assert(compare(a.drop_first(), b.drop_first()) == Some(Ordering::Equal));
}

} // verus!
