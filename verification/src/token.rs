//! Tokens: the runs that a string falls into, and how two sequences of them
//! are ordered.

use crate::digits::{digit_value, is_numeric};
use crate::order::{
    chained, lemma_lex_order_converse, lemma_lex_order_equal, lemma_lex_order_transitive,
    lex_order, magnitude, nat_order, reversed,
};
use std::cmp::Ordering;
use vstd::prelude::*;

verus! {

/// A run as the contracts speak of it: its kind, and the text it was read
/// from.
pub enum Token {
    /// A run of characters none of which is numeric.
    Letters(Seq<char>),
    /// A run of numeric characters.
    Number(Seq<char>),
}

impl Token {
    /// The characters of the run, as they stood in the string.
    pub open spec fn text(self) -> Seq<char> {
        match self {
            Token::Letters(text) => text,
            Token::Number(text) => text,
        }
    }

    /// Whether the run is one of numeric characters.
    pub open spec fn is_number(self) -> bool {
        self is Number
    }

    /// The run of the given kind and text.
    pub open spec fn of_kind(numeric: bool, text: Seq<char>) -> Token {
        if numeric {
            Token::Number(text)
        } else {
            Token::Letters(text)
        }
    }

    /// A run is never empty, and each of its characters is of its kind.
    pub open spec fn wf(self) -> bool {
        &&& self.text().len() > 0
        &&& forall|i: int|
            0 <= i < self.text().len() ==> is_numeric(#[trigger] self.text()[i])
                == self.is_number()
    }

    /// The number that a run of digits writes in base ten. Leading zeros add
    /// nothing to it.
    pub open spec fn value(self) -> nat {
        magnitude(digits_of(self.text()))
    }
}

/// The values of the digits of `text`, in order.
pub open spec fn digits_of(text: Seq<char>) -> Seq<u8> {
    Seq::new(text.len(), |i: int| digit_value(text[i]) as u8)
}

/// The tokens of a string that continues `tokens` by the character `c`: the
/// last run grows by `c` where `c` is of its kind, and a new run starts with
/// `c` where it is not, or where there is no run yet.
pub open spec fn append_char(tokens: Seq<Token>, c: char) -> Seq<Token> {
    if tokens.len() > 0 && tokens.last().is_number() == is_numeric(c) {
        tokens.drop_last().push(
            Token::of_kind(tokens.last().is_number(), tokens.last().text().push(c)),
        )
    } else {
        tokens.push(Token::of_kind(is_numeric(c), seq![c]))
    }
}

/// The tokens of the string `s`: its maximal runs of numeric and of other
/// characters, from left to right.
pub open spec fn tokenize(s: Seq<char>) -> Seq<Token>
    decreases s.len(),
{
    if s.len() == 0 {
        Seq::empty()
    } else {
        append_char(tokenize(s.drop_last()), s.last())
    }
}

/// Whether `tokens` is a sequence that tokenizing can give: every run is well
/// formed, and no two neighbours are of one kind.
pub open spec fn alternating(tokens: Seq<Token>) -> bool {
    &&& forall|i: int| 0 <= i < tokens.len() ==> (#[trigger] tokens[i]).wf()
    &&& forall|i: int|
        0 < i < tokens.len() ==> tokens[i - 1].is_number() != (#[trigger] tokens[i]).is_number()
}

/// Continuing a well-formed sequence of runs by one character leaves it well
/// formed.
pub proof fn lemma_append_char_alternating(tokens: Seq<Token>, c: char)
    requires
        alternating(tokens),
    ensures
        alternating(append_char(tokens, c)),
{
    let next = append_char(tokens, c);
    assert forall|i: int| 0 <= i < next.len() implies (#[trigger] next[i]).wf() by {
        if i < next.len() - 1 {
            assert(next[i] == tokens[i]);
        } else if next.len() == tokens.len() {
            assert(tokens.last().wf());
        }
    }
    assert forall|i: int| 0 < i < next.len() implies next[i - 1].is_number() != (
    #[trigger] next[i]).is_number() by {
        if i < tokens.len() {
            assert(tokens[i - 1].is_number() != tokens[i].is_number());
        }
    }
}

/// The runs of a string are never empty, each holds characters of its own
/// kind only, and they alternate in kind.
pub proof fn lemma_tokenize_alternating(s: Seq<char>)
    ensures
        alternating(tokenize(s)),
    decreases s.len(),
{
    if s.len() > 0 {
        lemma_tokenize_alternating(s.drop_last());
        lemma_append_char_alternating(tokenize(s.drop_last()), s.last());
    }
}

/// How one run stands to another: two numbers by magnitude, two runs of
/// letters code point by code point, and a number and letters not at all.
pub open spec fn compare_tokens(a: Token, b: Token) -> Option<Ordering> {
    match (a, b) {
        (Token::Number(_), Token::Number(_)) => Some(nat_order(a.value(), b.value())),
        (Token::Letters(x), Token::Letters(y)) => Some(lex_order(x, y)),
        _ => None,
    }
}

/// How one sequence of tokens stands to another. The tokens are paired from
/// the left; the first pair that is not equal decides, be it by an order or
/// by having none; and where one sequence runs out first, the shorter comes
/// before the longer.
pub open spec fn compare(a: Seq<Token>, b: Seq<Token>) -> Option<Ordering>
    decreases a.len(),
{
    if a.len() == 0 || b.len() == 0 {
        Some(nat_order(a.len(), b.len()))
    } else {
        match compare_tokens(a[0], b[0]) {
            Some(Ordering::Equal) => compare(a.drop_first(), b.drop_first()),
            decided => decided,
        }
    }
}

/// Every sequence of tokens is equal to itself.
pub proof fn lemma_compare_reflexive(a: Seq<Token>)
    ensures
        compare(a, a) == Some(Ordering::Equal),
    decreases a.len(),
{
    if a.len() > 0 {
        lemma_lex_order_equal(a[0].text(), a[0].text());
        lemma_compare_reflexive(a.drop_first());
    }
}

/// Runs that two sequences share at their start do not change how the two
/// stand to each other.
pub proof fn lemma_compare_common_prefix(shared: Seq<Token>, a: Seq<Token>, b: Seq<Token>)
    ensures
        compare(shared + a, shared + b) == compare(a, b),
    decreases shared.len(),
{
    if shared.len() > 0 {
        lemma_lex_order_equal(shared[0].text(), shared[0].text());
        assert((shared + a).drop_first() =~= shared.drop_first() + a);
        assert((shared + b).drop_first() =~= shared.drop_first() + b);
        lemma_compare_common_prefix(shared.drop_first(), a, b);
    }
}

/// An outcome seen from the other side: an order turns round, and no order
/// stays none.
pub open spec fn turned(outcome: Option<Ordering>) -> Option<Ordering> {
    match outcome {
        Some(order) => Some(reversed(order)),
        None => None,
    }
}

/// Whether an outcome says that the first does not come after the second.
pub open spec fn not_after(outcome: Option<Ordering>) -> bool {
    outcome == Some(Ordering::Less) || outcome == Some(Ordering::Equal)
}

/// Comparing two runs the other way round turns the outcome round.
pub proof fn lemma_compare_tokens_converse(a: Token, b: Token)
    ensures
        compare_tokens(b, a) == turned(compare_tokens(a, b)),
{
    lemma_lex_order_converse(a.text(), b.text());
}

/// Comparing two sequences of tokens the other way round turns the outcome
/// round: what was less is greater, what was equal stays equal, and what had
/// no order has none.
pub proof fn lemma_compare_converse(a: Seq<Token>, b: Seq<Token>)
    ensures
        compare(b, a) == turned(compare(a, b)),
    decreases a.len(),
{
    if a.len() > 0 && b.len() > 0 {
        lemma_compare_tokens_converse(a[0], b[0]);
        lemma_compare_converse(a.drop_first(), b.drop_first());
    }
}

/// The order of runs is transitive.
pub proof fn lemma_compare_tokens_transitive(a: Token, b: Token, c: Token)
    requires
        not_after(compare_tokens(a, b)),
        not_after(compare_tokens(b, c)),
    ensures
        compare_tokens(a, c) == Some(
            chained(compare_tokens(a, b).unwrap(), compare_tokens(b, c).unwrap()),
        ),
{
    if a is Letters {
        lemma_lex_order_transitive(a.text(), b.text(), c.text());
    }
}

/// The order of token sequences is transitive: where `a` does not come after
/// `b` and `b` does not come after `c`, `a` does not come after `c`, and it is
/// equal to `c` only where it is equal to `b` and `b` to `c`.
pub proof fn lemma_compare_transitive(a: Seq<Token>, b: Seq<Token>, c: Seq<Token>)
    requires
        not_after(compare(a, b)),
        not_after(compare(b, c)),
    ensures
        compare(a, c) == Some(chained(compare(a, b).unwrap(), compare(b, c).unwrap())),
    decreases a.len(),
{
    if a.len() > 0 && b.len() > 0 && c.len() > 0 {
        lemma_compare_tokens_transitive(a[0], b[0], c[0]);
        if compare_tokens(a[0], b[0]) == Some(Ordering::Equal) && compare_tokens(b[0], c[0])
            == Some(Ordering::Equal) {
            lemma_compare_transitive(a.drop_first(), b.drop_first(), c.drop_first());
        }
    }
}

/// What is left of alternating runs behind the first is alternating, and
/// starts with a run of the other kind.
pub proof fn lemma_drop_first_alternating(tokens: Seq<Token>)
    requires
        alternating(tokens),
        tokens.len() > 0,
    ensures
        alternating(tokens.drop_first()),
        tokens.len() > 1 ==> tokens.drop_first()[0].is_number() != tokens[0].is_number(),
{
    let rest = tokens.drop_first();
    assert forall|i: int| 0 <= i < rest.len() implies (#[trigger] rest[i]).wf() by {
        assert(rest[i] == tokens[i + 1]);
    }
    assert forall|i: int| 0 < i < rest.len() implies rest[i - 1].is_number() != (
    #[trigger] rest[i]).is_number() by {
        assert(tokens[i].is_number() != tokens[i + 1].is_number());
    }
    if tokens.len() > 1 {
        assert(tokens[0].is_number() != tokens[1].is_number());
    }
}

/// Whether two token sequences start alike: one of them is empty, or their
/// first runs are of one kind.
pub open spec fn start_alike(a: Seq<Token>, b: Seq<Token>) -> bool {
    a.len() == 0 || b.len() == 0 || a[0].is_number() == b[0].is_number()
}

/// Two tokenized strings have an order exactly where they start alike: as
/// the runs alternate, runs at one position are then of one kind all along.
pub proof fn lemma_compare_decided(a: Seq<Token>, b: Seq<Token>)
    requires
        alternating(a),
        alternating(b),
    ensures
        compare(a, b) is Some <==> start_alike(a, b),
    decreases a.len(),
{
    if a.len() > 0 && b.len() > 0 && a[0].is_number() == b[0].is_number() {
        let x = a.drop_first();
        let y = b.drop_first();
        lemma_drop_first_alternating(a);
        lemma_drop_first_alternating(b);
        lemma_compare_decided(x, y);
    }
}

/// Whether `a` and `b` have an order.
pub open spec fn comparable(a: Seq<Token>, b: Seq<Token>) -> bool {
    compare(a, b) is Some
}

/// Whether `a` comes before `b` or is equal to it.
pub open spec fn precedes(a: Seq<Token>, b: Seq<Token>) -> bool {
    not_after(compare(a, b))
}

/// Whether `a` comes after `b`.
pub open spec fn follows(a: Seq<Token>, b: Seq<Token>) -> bool {
    compare(a, b) == Some(Ordering::Greater)
}

/// Of two sequences that have an order, one comes after the other or does
/// not.
pub proof fn lemma_precedes_or_follows(a: Seq<Token>, b: Seq<Token>)
    requires
        comparable(a, b),
    ensures
        precedes(a, b) != follows(a, b),
{
    match compare(a, b) {
        Some(Ordering::Less) => {},
        Some(Ordering::Equal) => {},
        Some(Ordering::Greater) => {},
        None => {},
    }
}

/// Where `a` does not come after `b`, nor `b` after `c`, `a` does not come
/// after `c`.
pub proof fn lemma_precedes_transitive(a: Seq<Token>, b: Seq<Token>, c: Seq<Token>)
    requires
        precedes(a, b),
        precedes(b, c),
    ensures
        precedes(a, c),
{
    lemma_compare_transitive(a, b, c);
}

/// Where `a` comes after `b`, `b` comes before `a`.
pub proof fn lemma_follows_converse(a: Seq<Token>, b: Seq<Token>)
    requires
        follows(a, b),
    ensures
        precedes(b, a),
        !follows(b, a),
{
    lemma_compare_converse(a, b);
}

} // verus!
