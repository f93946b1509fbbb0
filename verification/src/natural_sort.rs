//! Human-comparable strings and the sort built on them.

use crate::digits::Classifier;
use crate::merge::{
    all_comparable, ascending, lemma_picked_rearranged, lemma_picked_span, picked, sort_span,
    span, views,
};
use crate::order::{compare_magnitudes, compare_text, tail_from};
use crate::runs::{joined, lemma_tokenize_round_trip};
use crate::token::{
    alternating, append_char, comparable, compare, compare_tokens, digits_of,
    lemma_compare_decided, lemma_tokenize_alternating, start_alike, tokenize, Token,
};
use std::cmp::Ordering;
use vstd::prelude::*;
use vstd::std_specs::cmp::{PartialEqSpecImpl, PartialOrdSpecImpl};

verus! {

/// One run of a string.
#[derive(Debug, PartialEq, Eq)]
pub enum StringElem {
    /// A run of characters none of which is numeric, as written.
    Letters(Vec<char>),
    /// A run of numeric characters: as written, and as the values of its
    /// digits, most significant first.
    Number { text: Vec<char>, digits: Vec<u8> },
}

impl View for StringElem {
    type V = Token;

    open spec fn view(&self) -> Token {
        match self {
            StringElem::Letters(text) => Token::Letters(text@),
            StringElem::Number { text, digits } => Token::Number(text@),
        }
    }
}

impl StringElem {
    /// The run is well formed, and a number holds the values of the digits
    /// of its text.
    pub open spec fn wf(&self) -> bool {
        &&& self@.wf()
        &&& match self {
            StringElem::Letters(_) => true,
            StringElem::Number { text, digits } => digits@ == digits_of(text@),
        }
    }
}

/// Orders two runs: numbers by magnitude, letters code point by code point,
/// and gives `None` for a number and letters.
fn compare_elems(a: &StringElem, b: &StringElem) -> (r: Option<Ordering>)
    requires
        a.wf(),
        b.wf(),
    ensures
        r == compare_tokens(a@, b@),
{
    match (a, b) {
        (
            StringElem::Number { text: _, digits: x },
            StringElem::Number { text: _, digits: y },
        ) => { Some(compare_magnitudes(x, y)) },
        (StringElem::Letters(x), StringElem::Letters(y)) => { Some(compare_text(x, y)) },
        _ => None,
    }
}

/// The tokens that a sequence of runs stands for.
pub open spec fn tokens_of(elems: Seq<StringElem>) -> Seq<Token> {
    Seq::new(elems.len(), |i: int| elems[i]@)
}

/// Whether two texts are the same, character for character.
fn same_text(a: &Vec<char>, b: &Vec<char>) -> (r: bool)
    ensures
        r == (a@ == b@),
{
    if a.len() != b.len() {
        return false;
    }
    let mut i: usize = 0;
    while i < a.len()
        invariant
            a@.len() == b@.len(),
            i <= a.len(),
            a@.take(i as int) == b@.take(i as int),
        decreases a.len() - i,
    {
        if a[i] != b[i] {
            return false;
        }
        i = i + 1;
        proof {
            assert(a@.take(i as int) =~= a@.take(i - 1).push(a@[i - 1]));
            assert(b@.take(i as int) =~= b@.take(i - 1).push(b@[i - 1]));
        }
    }
    proof {
        assert(a@.take(a@.len() as int) =~= a@);
        assert(b@.take(b@.len() as int) =~= b@);
    }
    true
}

/// Whether two runs are of one kind and have the same text.
fn same_run(a: &StringElem, b: &StringElem) -> (r: bool)
    ensures
        r == (a@ == b@),
{
    match (a, b) {
        (
            StringElem::Number { text: x, digits: _ },
            StringElem::Number { text: y, digits: _ },
        ) => { same_text(x, y) },
        (StringElem::Letters(x), StringElem::Letters(y)) => { same_text(x, y) },
        _ => false,
    }
}

/// A `HumanString` is a sort of string-like object that can be compared in a
/// human-friendly way.
#[derive(Debug)]
pub struct HumanString {
    elems: Vec<StringElem>,
}

impl View for HumanString {
    type V = Seq<Token>;

    closed spec fn view(&self) -> Seq<Token> {
        tokens_of(self.elems@)
    }
}

impl HumanString {
    #[verifier::type_invariant]
    spec fn well_formed(self) -> bool {
        &&& forall|i: int| 0 <= i < self.elems@.len() ==> (#[trigger] self.elems@[i]).wf()
        &&& alternating(tokens_of(self.elems@))
    }

    /// The runs of the string, in order.
    pub fn elems(&self) -> (elems: &Vec<StringElem>)
        ensures
            tokens_of(elems@) == self@,
            forall|i: int| 0 <= i < elems@.len() ==> (#[trigger] elems@[i]).wf(),
            alternating(self@),
    {
        proof {
            use_type_invariant(self);
        }
        &self.elems
    }

    /// The kind of the first run: `Some(true)` for a number, `Some(false)`
    /// for letters, `None` where there is no run.
    pub fn leading_kind(&self) -> (kind: Option<bool>)
        ensures
            kind == (if self@.len() == 0 {
                None
            } else {
                Some(self@[0].is_number())
            }),
    {
        if self.elems.len() == 0 {
            None
        } else {
            match &self.elems[0] {
                StringElem::Letters(_) => Some(false),
                StringElem::Number { text: _, digits: _ } => Some(true),
            }
        }
    }

    /// Turns a finished run of numeric characters into its token.
    fn process_number(classifier: &mut Classifier, text: Vec<char>) -> (elem: StringElem)
        requires
            Token::Number(text@).wf(),
        ensures
            elem@ == Token::Number(text@),
            elem.wf(),
    {
        let mut digits: Vec<u8> = Vec::new();
        let mut i: usize = 0;
        while i < text.len()
            invariant
                i <= text.len(),
                digits@ == digits_of(text@.take(i as int)),
            decreases text.len() - i,
        {
            let d = classifier.digit_value_of(text[i]);
            digits.push(d);
            i = i + 1;
        }
        proof {
            assert(text@.take(text@.len() as int) =~= text@);
        }
        StringElem::Number { text, digits }
    }

    /// Turns a finished run of other characters into its token.
    fn process_letters(text: Vec<char>) -> (elem: StringElem)
        requires
            Token::Letters(text@).wf(),
        ensures
            elem@ == Token::Letters(text@),
            elem.wf(),
    {
        StringElem::Letters(text)
    }

    /// Constructs a `HumanString` from a `&str`: the maximal runs of numeric
    /// and of other characters of the string, from left to right. The runs
    /// alternate in kind, and their texts put together give the string.
    pub fn from_str(string: &str) -> (human: HumanString)
        ensures
            human@ == tokenize(string@),
            alternating(human@),
            joined(human@) == string@,
    {
        let mut classifier = Classifier::new();
        proof {
            lemma_tokenize_alternating(string@);
            lemma_tokenize_round_trip(string@);
        }
        HumanString::tokenized(&mut classifier, string)
    }

    /// The runs of `string`, told apart by `classifier`.
    fn tokenized(classifier: &mut Classifier, string: &str) -> (human: HumanString)
        ensures
            human@ == tokenize(string@),
    {
        let mut elems: Vec<StringElem> = Vec::new();
        let mut text: Vec<char> = Vec::new();
        let mut numeric: bool = false;
        for c in it: string.chars()
            invariant
                it.seq() == string@,
                forall|i: int| 0 <= i < elems@.len() ==> (#[trigger] elems@[i]).wf(),
                text@.len() == 0 ==> it.index() == 0 && elems@.len() == 0,
                text@.len() > 0 ==> tokenize(string@.take(it.index() as int)) == tokens_of(
                    elems@,
                ).push(Token::of_kind(numeric, text@)),
        {
            let ghost before = string@.take(it.index() as int);
            let ghost runs = tokenize(before);
            proof {
                assert(string@.take(it.index() + 1).drop_last() =~= before);
                lemma_tokenize_alternating(before);
            }
            let class = classifier.is_numeric_char(c);
            if text.len() > 0 && class != numeric {
                let ghost done = tokens_of(elems@);
                proof {
                    assert(runs.last().wf());
                }
                let elem = if numeric {
                    HumanString::process_number(classifier, text)
                } else {
                    HumanString::process_letters(text)
                };
                elems.push(elem);
                text = Vec::new();
                proof {
                    assert(tokens_of(elems@) =~= done.push(elem@));
                }
            }
            let ghost done = tokens_of(elems@);
            let ghost open = text@;
            text.push(c);
            numeric = class;
            proof {
                if open.len() > 0 {
                    assert(runs.drop_last() =~= done);
                } else {
                    assert(runs =~= done);
                    assert(text@ =~= seq![c]);
                }
                assert(append_char(runs, c) == done.push(Token::of_kind(numeric, text@)));
            }
        }
        proof {
            assert(string@.take(string@.len() as int) =~= string@);
            lemma_tokenize_alternating(string@);
        }
        if text.len() > 0 {
            let ghost done = tokens_of(elems@);
            proof {
                assert(tokenize(string@).last().wf());
            }
            let elem = if numeric {
                HumanString::process_number(classifier, text)
            } else {
                HumanString::process_letters(text)
            };
            elems.push(elem);
            proof {
                assert(tokens_of(elems@) =~= done.push(elem@));
            }
        }
        HumanString { elems }
    }
}

/// Two strings that have no order between them.
#[derive(Debug, PartialEq, Eq)]
pub struct Unorderable {
    /// The one that stood first among the strings to sort.
    pub left: String,
    /// The one that stood later.
    pub right: String,
}

/// The tokens of each of `strs`.
pub open spec fn keys_of(strs: Seq<&str>) -> Seq<Seq<Token>> {
    Seq::new(strs.len(), |i: int| tokenize(strs[i]@))
}

/// Whether `i` and `j` are the first two positions, read pair by pair from
/// the left, whose elements have no order.
pub open spec fn first_clash(keys: Seq<Seq<Token>>, i: int, j: int) -> bool {
    &&& 0 <= i < j < keys.len()
    &&& !comparable(keys[i], keys[j])
    &&& forall|p: int, q: int|
        0 <= p < q < keys.len() && (p < i || (p == i && q < j)) ==> comparable(keys[p], keys[q])
}

/// Looks for two keys that have no order: the first such pair, or `None`
/// where any two have one.
fn find_clash(keys: &Vec<HumanString>) -> (clash: Option<(usize, usize)>)
    requires
        forall|k: int| 0 <= k < keys@.len() ==> alternating(#[trigger] views(keys@)[k]),
    ensures
        match clash {
            Some((i, j)) => first_clash(views(keys@), i as int, j as int),
            None => all_comparable(views(keys@)),
        },
{
    let ghost kv = views(keys@);
    let n = keys.len();
    let mut first: usize = 0;
    let mut kind: bool = false;
    let mut found: bool = false;
    while first < n && !found
        invariant
            n == keys.len(),
            kv == views(keys@),
            first <= n,
            forall|k: int| 0 <= k < kv.len() ==> alternating(#[trigger] kv[k]),
            forall|k: int| 0 <= k < first ==> (#[trigger] kv[k]).len() == 0,
            found ==> first < n && kv[first as int].len() > 0 && kv[first as int][0].is_number()
                == kind,
        decreases n - first + (if found { 0int } else { 1int }),
    {
        match keys[first].leading_kind() {
            Some(leading) => {
                kind = leading;
                found = true;
            },
            None => {
                first = first + 1;
            },
        }
    }
    if !found {
        proof {
            assert forall|p: int, q: int| 0 <= p < kv.len() && 0 <= q < kv.len() implies comparable(
                kv[p],
                kv[q],
            ) by {
                lemma_compare_decided(kv[p], kv[q]);
            }
        }
        return None;
    }
    let mut j: usize = first + 1;
    while j < n
        invariant
            n == keys.len(),
            kv == views(keys@),
            first < j <= n,
            kv[first as int].len() > 0,
            kv[first as int][0].is_number() == kind,
            forall|k: int| 0 <= k < kv.len() ==> alternating(#[trigger] kv[k]),
            forall|k: int| 0 <= k < first ==> (#[trigger] kv[k]).len() == 0,
            forall|k: int| first < k < j ==> start_alike(kv[first as int], #[trigger] kv[k]),
        decreases n - j,
    {
        match keys[j].leading_kind() {
            Some(leading) => {
                if leading != kind {
                    proof {
                        lemma_compare_decided(kv[first as int], kv[j as int]);
                        assert forall|p: int, q: int|
                            0 <= p < q < kv.len() && (p < first || (p == first && q < j))
                            implies comparable(kv[p], kv[q]) by {
                            lemma_compare_decided(kv[p], kv[q]);
                        }
                    }
                    return Some((first, j));
                }
            },
            None => {},
        }
        j = j + 1;
    }
    proof {
        assert forall|p: int, q: int| 0 <= p < kv.len() && 0 <= q < kv.len() implies comparable(
            kv[p],
            kv[q],
        ) by {
            lemma_compare_decided(kv[p], kv[q]);
        }
    }
    None
}

/// A utility function for sorting a list of strings using human sorting.
///
/// Where any two of the strings have an order, the strings are rearranged so
/// that none comes after a later one. Where two of them have none, the
/// strings are left as they were, and the first such pair is handed back.
pub fn natural_sort(strs: &mut [&str]) -> (r: Result<(), Unorderable>)
    ensures
        r is Ok <==> all_comparable(keys_of(old(strs)@)),
        match r {
            Ok(_) => {
                &&& final(strs)@.len() == old(strs)@.len()
                &&& final(strs)@.to_multiset() == old(strs)@.to_multiset()
                &&& ascending(keys_of(final(strs)@))
            },
            Err(pair) => {
                &&& final(strs)@ == old(strs)@
                &&& exists|i: int, j: int|
                    {
                        &&& first_clash(keys_of(old(strs)@), i, j)
                        &&& pair.left@ == old(strs)@[i]@
                        &&& pair.right@ == old(strs)@[j]@
                    }
            },
        },
{
    let n = strs.len();
    let mut keys: Vec<HumanString> = Vec::new();
    let mut unsorted: Vec<&str> = Vec::new();
    let mut classifier = Classifier::new();
    let mut i: usize = 0;
    while i < n
        invariant
            n == strs@.len(),
            strs@ == old(strs)@,
            i <= n,
            keys@.len() == i,
            unsorted@ == strs@.take(i as int),
            forall|k: int| 0 <= k < i ==> (#[trigger] keys@[k])@ == tokenize(strs@[k]@),
        decreases n - i,
    {
        let s: &str = strs[i];
        keys.push(HumanString::tokenized(&mut classifier, s));
        unsorted.push(s);
        i = i + 1;
    }
    proof {
        assert(unsorted@ =~= strs@);
        assert(views(keys@) =~= keys_of(strs@));
        assert forall|k: int| 0 <= k < keys@.len() implies alternating(
            #[trigger] views(keys@)[k],
        ) by {
            lemma_tokenize_alternating(strs@[k]@);
        }
    }
    match find_clash(&keys) {
        Some((a, b)) => {
            Err(Unorderable { left: unsorted[a].to_owned(), right: unsorted[b].to_owned() })
        },
        None => {
            let order = sort_span(&keys, 0, n);
            let mut k: usize = 0;
            proof {
                vstd::seq_lib::to_multiset_len(order@);
                vstd::seq_lib::to_multiset_len(span(0, n));
            }
            while k < n
                invariant
                    n == strs@.len(),
                    n == order@.len(),
                    n == unsorted@.len(),
                    k <= n,
                    forall|p: int| 0 <= p < n ==> (#[trigger] order@[p]) < n,
                    forall|p: int|
                        0 <= p < k ==> strs@[p] == unsorted@[(#[trigger] order@[p]) as int],
                decreases n - k,
            {
                strs[k] = unsorted[order[k]];
                k = k + 1;
            }
            proof {
                assert(strs@ =~= picked(unsorted@, order@));
                lemma_picked_rearranged(unsorted@, order@, span(0, n));
                lemma_picked_span(unsorted@);
                assert(keys_of(strs@) =~= picked(views(keys@), order@));
            }
            Ok(())
        },
    }
}

impl PartialEqSpecImpl for HumanString {
    open spec fn obeys_eq_spec() -> bool {
        true
    }

    open spec fn eq_spec(&self, other: &HumanString) -> bool {
        self@ == other@
    }
}

impl PartialEq for HumanString {
    /// Two `HumanString`s are the same where they have the same runs: as
    /// many, and at each position runs of one kind with the same text. A
    /// number with zeros in front is not the same as the number without
    /// them, though the two are equal in the order.
    fn eq(&self, other: &HumanString) -> (r: bool) {
        if self.elems.len() != other.elems.len() {
            proof {
                assert(self@.len() != other@.len());
            }
            return false;
        }
        let mut i: usize = 0;
        while i < self.elems.len()
            invariant
                self.elems@.len() == other.elems@.len(),
                i <= self.elems.len(),
                forall|k: int| 0 <= k < i ==> (#[trigger] self.elems@[k])@ == other.elems@[k]@,
            decreases self.elems.len() - i,
        {
            if !same_run(&self.elems[i], &other.elems[i]) {
                proof {
                    assert(self@[i as int] != other@[i as int]);
                }
                return false;
            }
            i = i + 1;
        }
        proof {
            assert(self@ =~= other@);
        }
        true
    }
}

impl Eq for HumanString {

}

impl PartialOrdSpecImpl for HumanString {
    open spec fn obeys_partial_cmp_spec() -> bool {
        true
    }

    open spec fn partial_cmp_spec(&self, other: &HumanString) -> Option<Ordering> {
        compare(self@, other@)
    }
}

impl PartialOrd for HumanString {
    /// `HumanString`s are ordered based on their sub-components (a
    /// `HumanString` is represented as a sequence of numbers and strings). If
    /// two strings have analogous components, then they can be compared.
    /// If the components of two strings do not match before a difference is
    /// found, then no comparison can be made.
    fn partial_cmp(&self, other: &HumanString) -> (r: Option<Ordering>) {
        proof {
            use_type_invariant(self);
            use_type_invariant(other);
        }
        let ghost a = self@;
        let ghost b = other@;
        let mut i: usize = 0;
        proof {
            assert(tail_from(a, 0) =~= a);
            assert(tail_from(b, 0) =~= b);
        }
        while i < self.elems.len() && i < other.elems.len()
            invariant
                a == tokens_of(self.elems@),
                b == tokens_of(other.elems@),
                forall|k: int| 0 <= k < self.elems@.len() ==> (#[trigger] self.elems@[k]).wf(),
                forall|k: int| 0 <= k < other.elems@.len() ==> (#[trigger] other.elems@[k]).wf(),
                i <= self.elems.len(),
                i <= other.elems.len(),
                compare(a, b) == compare(tail_from(a, i), tail_from(b, i)),
            decreases self.elems.len() - i,
        {
            proof {
                assert(tail_from(a, i).drop_first() =~= a.skip(i + 1));
                assert(tail_from(b, i).drop_first() =~= b.skip(i + 1));
            }
            match compare_elems(&self.elems[i], &other.elems[i]) {
                Some(Ordering::Equal) => {},
                decided => {
                    return decided;
                },
            }
            i = i + 1;
        }
        if self.elems.len() < other.elems.len() {
            Some(Ordering::Less)
        } else if self.elems.len() == other.elems.len() {
            Some(Ordering::Equal)
        } else {
            Some(Ordering::Greater)
        }
    }
}

} // verus!
