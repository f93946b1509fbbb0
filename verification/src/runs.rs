//! What tokenizing does to a string: the runs give the string back, they are
//! the only way to cut it into alternating runs, and they follow the string
//! when it is put together from parts.

use crate::digits::is_numeric;
use crate::token::{alternating, append_char, tokenize, Token};
use vstd::prelude::*;

verus! {

/// The texts of `tokens` written one after the other.
pub open spec fn joined(tokens: Seq<Token>) -> Seq<char>
    decreases tokens.len(),
{
    if tokens.len() == 0 {
        Seq::empty()
    } else {
        joined(tokens.drop_last()) + tokens.last().text()
    }
}

/// Whether every character of `text` is numeric, for `numeric` true, or none
/// is, for `numeric` false.
pub open spec fn uniform(text: Seq<char>, numeric: bool) -> bool {
    forall|i: int| 0 <= i < text.len() ==> is_numeric(#[trigger] text[i]) == numeric
}

/// How many characters at the start of `text` are of the kind `numeric`
/// before one of the other kind comes.
pub open spec fn run_len(text: Seq<char>, numeric: bool) -> nat
    decreases text.len(),
{
    if text.len() == 0 || is_numeric(text[0]) != numeric {
        0
    } else {
        1 + run_len(text.drop_first(), numeric)
    }
}

/// The leading run of a text lies within it, holds characters of its kind
/// only, and ends where the text ends or a character of the other kind
/// stands.
pub proof fn lemma_run_len(text: Seq<char>, numeric: bool)
    ensures
        run_len(text, numeric) <= text.len(),
        uniform(text.take(run_len(text, numeric) as int), numeric),
        run_len(text, numeric) < text.len() ==> is_numeric(text[run_len(text, numeric) as int])
            != numeric,
        uniform(text, numeric) ==> run_len(text, numeric) == text.len(),
    decreases text.len(),
{
    if text.len() > 0 && is_numeric(text[0]) == numeric {
        let rest = text.drop_first();
        lemma_run_len(rest, numeric);
        let r = run_len(rest, numeric) as int;
        assert forall|i: int| 0 <= i < r + 1 implies is_numeric(
            #[trigger] text.take(r + 1)[i],
        ) == numeric by {
            if i > 0 {
                assert(text.take(r + 1)[i] == rest.take(r)[i - 1]);
            }
        }
        if uniform(text, numeric) {
            assert(uniform(rest, numeric));
        }
    }
}

/// The leading run of `text`, taken to be of the kind `numeric`.
pub open spec fn leading_run(text: Seq<char>, numeric: bool) -> Seq<char> {
    text.take(run_len(text, numeric) as int)
}

/// What follows the leading run of `text`.
pub open spec fn after_leading_run(text: Seq<char>, numeric: bool) -> Seq<char> {
    text.skip(run_len(text, numeric) as int)
}

/// A text is its leading run and what follows it; the run holds characters
/// of its kind only, and what follows it is empty or starts with a character
/// of the other kind. A text of one kind is its own leading run.
pub proof fn lemma_leading_run(text: Seq<char>, numeric: bool)
    ensures
        leading_run(text, numeric) + after_leading_run(text, numeric) == text,
        uniform(leading_run(text, numeric), numeric),
        after_leading_run(text, numeric).len() > 0 ==> is_numeric(
            after_leading_run(text, numeric)[0],
        ) != numeric,
        uniform(text, numeric) ==> leading_run(text, numeric) == text,
        after_leading_run(text, numeric).len() == 0 ==> leading_run(text, numeric) == text,
{
    lemma_run_len(text, numeric);
}

/// Continuing the runs by a character continues their joined text by it.
pub proof fn lemma_joined_append_char(tokens: Seq<Token>, c: char)
    ensures
        joined(append_char(tokens, c)) == joined(tokens).push(c),
{
    let next = append_char(tokens, c);
    if tokens.len() > 0 && tokens.last().is_number() == is_numeric(c) {
        assert(next.drop_last() =~= tokens.drop_last());
    } else {
        assert(next.drop_last() =~= tokens);
    }
}

/// Writing the texts of the tokens of a string one after the other gives the
/// string back.
pub proof fn lemma_tokenize_round_trip(s: Seq<char>)
    ensures
        joined(tokenize(s)) == s,
    decreases s.len(),
{
    if s.len() > 0 {
        lemma_tokenize_round_trip(s.drop_last());
        lemma_joined_append_char(tokenize(s.drop_last()), s.last());
    }
}

/// The last run of a string is of the kind of its last character.
pub proof fn lemma_last_kind(s: Seq<char>)
    requires
        s.len() > 0,
    ensures
        tokenize(s).len() > 0,
        tokenize(s).last().is_number() == is_numeric(s.last()),
        tokenize(s).last().text().len() > 0,
        tokenize(s).last().text().last() == s.last(),
{
}

/// The tokens of a string are the only sequence of well-formed, alternating
/// runs whose texts join to the string.
pub proof fn lemma_tokenize_unique(s: Seq<char>, tokens: Seq<Token>)
    requires
        alternating(tokens),
        joined(tokens) == s,
    ensures
        tokens == tokenize(s),
    decreases s.len(),
{
    if tokens.len() > 0 {
        let last = tokens.last();
        let front = tokens.drop_last();
        let c = last.text().last();
        let shorter = if last.text().len() == 1 {
            front
        } else {
            front.push(Token::of_kind(last.is_number(), last.text().drop_last()))
        };
        assert(alternating(shorter)) by {
            assert forall|i: int| 0 <= i < shorter.len() implies (#[trigger] shorter[i]).wf() by {
                if i >= front.len() {
                    assert(shorter[i].text() == last.text().drop_last());
                }
            }
        }
        assert(joined(shorter) =~= s.drop_last()) by {
            if last.text().len() > 1 {
                assert(shorter.drop_last() =~= front);
            }
        }
        lemma_tokenize_unique(s.drop_last(), shorter);
        if last.text().len() == 1 {
            assert(last.text() =~= seq![c]);
        } else {
            assert(last.text().drop_last().push(c) =~= last.text());
        }
    }
}

/// A string whose characters are all of one kind is one run.
pub proof fn lemma_tokenize_uniform(text: Seq<char>, numeric: bool)
    requires
        text.len() > 0,
        uniform(text, numeric),
    ensures
        tokenize(text) == seq![Token::of_kind(numeric, text)],
    decreases text.len(),
{
    let front = text.drop_last();
    if front.len() == 0 {
        assert(tokenize(front) =~= Seq::<Token>::empty());
        assert(seq![text.last()] =~= text);
    } else {
        assert(uniform(front, numeric));
        lemma_tokenize_uniform(front, numeric);
        assert(front.push(text.last()) =~= text);
    }
}

/// Where a string is continued by characters of the kind of its last one,
/// its last run grows by them and the runs before it stay.
pub proof fn lemma_tokenize_grow(s: Seq<char>, more: Seq<char>)
    requires
        s.len() > 0,
        uniform(more, is_numeric(s.last())),
    ensures
        tokenize(s).len() > 0,
        tokenize(s + more) == tokenize(s).drop_last().push(
            Token::of_kind(is_numeric(s.last()), tokenize(s).last().text() + more),
        ),
    decreases more.len(),
{
    let runs = tokenize(s);
    let kind = is_numeric(s.last());
    lemma_last_kind(s);
    if more.len() > 0 {
        let front = more.drop_last();
        assert(uniform(front, kind));
        lemma_tokenize_grow(s, front);
        assert((s + more).drop_last() =~= s + front);
        assert((runs.last().text() + front).push(more.last()) =~= runs.last().text() + more);
    }
}

/// Continuing by a character what two sequences of runs make together
/// continues the second of them, where it has a run.
pub proof fn lemma_append_char_after(first: Seq<Token>, second: Seq<Token>, c: char)
    requires
        second.len() > 0,
    ensures
        append_char(first + second, c) == first + append_char(second, c),
{
    assert((first + second).last() == second.last());
}

/// Where two strings meet at characters of different kinds, or one of them
/// is empty, the runs of the two put together are the runs of the first and
/// then the runs of the second.
pub proof fn lemma_tokenize_concat(s: Seq<char>, t: Seq<char>)
    requires
        s.len() == 0 || t.len() == 0 || is_numeric(s.last()) != is_numeric(t[0]),
    ensures
        tokenize(s + t) == tokenize(s) + tokenize(t),
    decreases t.len(),
{
    if t.len() > 0 {
        let front = t.drop_last();
        assert((s + t).drop_last() =~= s + front);
        if front.len() == 0 {
            assert(tokenize(front) =~= Seq::<Token>::empty());
            if s.len() > 0 {
                lemma_last_kind(s);
            }
        } else {
            lemma_tokenize_concat(s, front);
            lemma_last_kind(front);
            lemma_append_char_after(tokenize(s), tokenize(front), t.last());
        }
    }
}

} // verus!
