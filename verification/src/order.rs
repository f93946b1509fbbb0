//! The two orders that runs are compared by: numeric magnitude for runs of
//! digits, code points for everything else.

use std::cmp::Ordering;
use vstd::prelude::*;

verus! {

/// How the natural number `x` stands to `y`.
pub open spec fn nat_order(x: nat, y: nat) -> Ordering {
    if x < y {
        Ordering::Less
    } else if x == y {
        Ordering::Equal
    } else {
        Ordering::Greater
    }
}

/// The order seen from the other side.
pub open spec fn reversed(order: Ordering) -> Ordering {
    match order {
        Ordering::Less => Ordering::Greater,
        Ordering::Equal => Ordering::Equal,
        Ordering::Greater => Ordering::Less,
    }
}

/// What two steps that never go down add up to: no step at all where both
/// stand still, and a step up otherwise.
pub open spec fn chained(first: Ordering, second: Ordering) -> Ordering {
    if first == Ordering::Equal && second == Ordering::Equal {
        Ordering::Equal
    } else {
        Ordering::Less
    }
}

/// The number that `digits` writes in base `radix`, most significant digit
/// first. The empty sequence writes zero.
pub open spec fn radix_value(digits: Seq<u8>, radix: u32) -> nat
    decreases digits.len(),
{
    if digits.len() == 0 {
        0
    } else {
        radix_value(digits.drop_last(), radix) * (radix as nat) + (digits.last() as nat)
    }
}

/// Whether every element of `digits` is a digit of base `radix`.
pub open spec fn digits_in_radix(digits: Seq<u8>, radix: u32) -> bool {
    forall|i: int| 0 <= i < digits.len() ==> digits[i] < radix
}

/// Builds a `num::BigUint` from each digit sequence with
/// `BigUint::from_radix_be` and orders the two with `Ord::cmp`. The first
/// gives the number that the digits write, most significant first, or `None`
/// when some element is no digit of the base; the second orders by magnitude.
#[verifier::external_body]
fn compare_in_radix(a: &[u8], b: &[u8], radix: u32) -> (r: Option<Ordering>)
    requires
        2 <= radix <= 256,
    ensures
        r == (if digits_in_radix(a@, radix) && digits_in_radix(b@, radix) {
            Some(nat_order(radix_value(a@, radix), radix_value(b@, radix)))
        } else {
            None
        }),
{
    match (num::BigUint::from_radix_be(a, radix), num::BigUint::from_radix_be(b, radix)) {
        (Some(x), Some(y)) => Some(x.cmp(&y)),
        _ => None,
    }
}

/// The number that a sequence of decimal digits writes.
pub open spec fn magnitude(digits: Seq<u8>) -> nat {
    radix_value(digits, 10)
}

/// Whether every element of `digits` is at most nine.
pub open spec fn is_decimal(digits: Seq<u8>) -> bool {
    digits_in_radix(digits, 10)
}

/// A digit put behind a number multiplies the number by ten and adds the
/// digit.
pub proof fn lemma_magnitude_push(digits: Seq<u8>, digit: u8)
    ensures
        magnitude(digits.push(digit)) == magnitude(digits) * 10 + digit,
{
    assert(digits.push(digit).drop_last() =~= digits);
}

/// Digits that write zero add nothing in front of a number.
pub proof fn lemma_magnitude_after_zero(zeros: Seq<u8>, digits: Seq<u8>)
    requires
        magnitude(zeros) == 0,
    ensures
        magnitude(zeros + digits) == magnitude(digits),
    decreases digits.len(),
{
    if digits.len() == 0 {
        assert(zeros + digits =~= zeros);
    } else {
        lemma_magnitude_after_zero(zeros, digits.drop_last());
        assert((zeros + digits).drop_last() =~= zeros + digits.drop_last());
    }
}

/// Digits put behind a number make it at least ten times as large.
pub proof fn lemma_magnitude_grows(digits: Seq<u8>, more: Seq<u8>)
    requires
        more.len() > 0,
    ensures
        magnitude(digits + more) >= 10 * magnitude(digits),
    decreases more.len(),
{
    assert((digits + more).drop_last() =~= digits + more.drop_last());
    if more.len() == 1 {
        assert(digits + more.drop_last() =~= digits);
    } else {
        lemma_magnitude_grows(digits, more.drop_last());
    }
}

/// Orders two sequences of decimal digits by the numbers they write, however
/// long they are.
pub fn compare_magnitudes(a: &Vec<u8>, b: &Vec<u8>) -> (r: Ordering)
    requires
        is_decimal(a@),
        is_decimal(b@),
    ensures
        r == nat_order(magnitude(a@), magnitude(b@)),
{
    match compare_in_radix(a.as_slice(), b.as_slice(), 10) {
        Some(order) => order,
        None => Ordering::Equal,
    }
}

/// What is left of `s` from position `i` on.
pub open spec fn tail_from<T>(s: Seq<T>, i: usize) -> Seq<T> {
    s.skip(i as int)
}

/// How `a` stands to `b` when both are read code point by code point: the
/// first position at which they differ decides, and a proper prefix comes
/// before what it is a prefix of.
pub open spec fn lex_order(a: Seq<char>, b: Seq<char>) -> Ordering
    decreases a.len(),
{
    if a.len() == 0 || b.len() == 0 {
        nat_order(a.len(), b.len())
    } else if a[0] < b[0] {
        Ordering::Less
    } else if a[0] > b[0] {
        Ordering::Greater
    } else {
        lex_order(a.drop_first(), b.drop_first())
    }
}

/// Read from the other side, the order of two texts by code points turns
/// round.
pub proof fn lemma_lex_order_converse(a: Seq<char>, b: Seq<char>)
    ensures
        lex_order(b, a) == reversed(lex_order(a, b)),
    decreases a.len(),
{
    if a.len() > 0 && b.len() > 0 && a[0] == b[0] {
        lemma_lex_order_converse(a.drop_first(), b.drop_first());
    }
}

/// The order of texts by code points is transitive: where `a` is not after
/// `b` and `b` is not after `c`, `a` is not after `c`, and it equals `c` only
/// where it equals `b` and `b` equals `c`.
pub proof fn lemma_lex_order_transitive(a: Seq<char>, b: Seq<char>, c: Seq<char>)
    requires
        lex_order(a, b) != Ordering::Greater,
        lex_order(b, c) != Ordering::Greater,
    ensures
        lex_order(a, c) == chained(lex_order(a, b), lex_order(b, c)),
    decreases a.len(),
{
    if a.len() > 0 && b.len() > 0 && c.len() > 0 && a[0] == b[0] && b[0] == c[0] {
        lemma_lex_order_transitive(a.drop_first(), b.drop_first(), c.drop_first());
    }
}

/// Two texts are equal in the order by code points only where they are the
/// same text.
pub proof fn lemma_lex_order_equal(a: Seq<char>, b: Seq<char>)
    ensures
        lex_order(a, b) == Ordering::Equal <==> a == b,
    decreases a.len(),
{
    if a.len() > 0 && b.len() > 0 && a[0] == b[0] {
        lemma_lex_order_equal(a.drop_first(), b.drop_first());
        if a.drop_first() == b.drop_first() {
            assert(a =~= seq![a[0]] + a.drop_first());
            assert(b =~= seq![b[0]] + b.drop_first());
        }
    } else if a.len() == 0 && b.len() == 0 {
        assert(a =~= b);
    }
}

/// A text comes before every text that continues it.
pub proof fn lemma_lex_order_prefix(text: Seq<char>, more: Seq<char>)
    requires
        more.len() > 0,
    ensures
        lex_order(text, text + more) == Ordering::Less,
    decreases text.len(),
{
    if text.len() > 0 {
        lemma_lex_order_prefix(text.drop_first(), more);
        assert((text + more).drop_first() =~= text.drop_first() + more);
    }
}

/// Orders two texts code point by code point.
pub fn compare_text(a: &Vec<char>, b: &Vec<char>) -> (r: Ordering)
    ensures
        r == lex_order(a@, b@),
{
    let mut i: usize = 0;
    proof {
        assert(tail_from(a@, 0) =~= a@);
        assert(tail_from(b@, 0) =~= b@);
    }
    while i < a.len() && i < b.len()
        invariant
            i <= a.len(),
            i <= b.len(),
            lex_order(a@, b@) == lex_order(tail_from(a@, i), tail_from(b@, i)),
        decreases a.len() - i,
    {
        proof {
            assert(tail_from(a@, i).drop_first() =~= a@.skip(i + 1));
            assert(tail_from(b@, i).drop_first() =~= b@.skip(i + 1));
        }
        if a[i] < b[i] {
            return Ordering::Less;
        }
        if a[i] > b[i] {
            return Ordering::Greater;
        }
        i = i + 1;
    }
    if a.len() < b.len() {
        Ordering::Less
    } else if a.len() == b.len() {
        Ordering::Equal
    } else {
        Ordering::Greater
    }
}

} // verus!
