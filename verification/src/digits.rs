//! Classification of characters into numeric and other ones, and the value of
//! a digit.

use regex::Regex;
use vstd::prelude::*;

verus! {

/// A compiled regular expression of the regex crate. Nothing is known of
/// what is inside one.
#[verifier::external_type_specification]
#[verifier::external_body]
pub struct ExRegex(regex::Regex);

/// Whether `regex::Regex::new` accepts `pattern`.
pub uninterp spec fn regex_accepts(pattern: Seq<char>) -> bool;

/// Whether the regular expression that `regex::Regex::new` compiles from
/// `pattern` has a match in the text made of the single character `c`.
pub uninterp spec fn regex_matches_char(pattern: Seq<char>, c: char) -> bool;

/// The pattern that selects the decimal digits of every script.
pub open spec fn digit_pattern() -> Seq<char> {
    "^\\p{Nd}$"@
}

/// A compiled regular expression, kept with the pattern it was compiled
/// from. The two are put together in `compile` and nowhere else.
pub(crate) struct Matcher {
    pattern: String,
    compiled: Regex,
}

impl Matcher {
    /// The pattern that was compiled.
    pub closed spec fn pattern(&self) -> Seq<char> {
        self.pattern@
    }

    /// Compiles the digit pattern with `regex::Regex::new`, which gives an
    /// error for a pattern that it does not accept. All that is claimed is
    /// that the outcome is the same every time.
    #[verifier::external_body]
    fn compile(pattern: &str) -> (matcher: Option<Matcher>)
        requires
            pattern@ == digit_pattern(),
        ensures
            matcher is Some <==> regex_accepts(pattern@),
            matcher is Some ==> matcher.unwrap().pattern() == pattern@,
    {
        match Regex::new(pattern) {
            Ok(compiled) => Some(Matcher { pattern: pattern.to_owned(), compiled }),
            Err(_) => None,
        }
    }

    /// Asks `regex::Regex::is_match` whether the compiled expression has a
    /// match in the one-character text `c`. All that is claimed of the answer
    /// is that it depends on the pattern and the character alone.
    #[verifier::external_body]
    fn matches_char(&self, c: char) -> (b: bool)
        ensures
            b == regex_matches_char(self.pattern(), c),
    {
        self.compiled.is_match(c.encode_utf8(&mut [0u8; 4]))
    }
}

/// The first code point beyond ASCII.
pub const ASCII_END: u32 = 0x80;

/// Whether `c` counts as numeric: an ASCII digit, or a character beyond ASCII
/// that the decimal-digit class of the regex crate contains.
pub open spec fn is_numeric(c: char) -> bool {
    if (c as u32) < ASCII_END {
        '0' <= c <= '9'
    } else {
        regex_accepts(digit_pattern()) && regex_matches_char(digit_pattern(), c)
    }
}

/// `char::from_u32` turns a code point into the character it encodes, and
/// gives `None` for a number that is no Unicode scalar value.
pub assume_specification[ char::from_u32 ](i: u32) -> (r: Option<char>)
    ensures
        r == (if vstd::utf8::is_scalar(i) {
            Some(i as char)
        } else {
            None::<char>
        }),
;

/// How many numeric characters lie directly below the code point `u` without
/// a gap: the distance from `u` down to the start of the unbroken span of
/// numeric code points that ends just before it.
pub open spec fn digits_below(u: u32) -> nat
    decreases u,
{
    if u == 0 || !vstd::utf8::is_scalar((u - 1) as u32) || !is_numeric(((u - 1) as u32) as char) {
        0
    } else {
        1 + digits_below((u - 1) as u32)
    }
}

/// The value, from 0 to 9, of the digit `c`. Unicode gives the ten digits of
/// a script consecutive code points in ascending order, zero first, so the
/// value of a digit is its distance from the start of the unbroken span of
/// digits that holds it, modulo ten.
pub open spec fn digit_value(c: char) -> nat {
    digits_below(c as u32) % 10
}

/// An ASCII digit is worth its distance from `'0'`, and every other ASCII
/// character is worth nothing.
pub proof fn lemma_ascii_digit_value(c: char)
    requires
        (c as u32) < ASCII_END,
    ensures
        digit_value(c) == (if '0' <= c <= '9' {
            (c as u32 - '0' as u32) as nat
        } else {
            0
        }),
{
    reveal_with_fuel(digits_below, 12);
}

/// Tells numeric characters from others. The digit pattern is compiled when
/// the first character beyond ASCII is asked about, and then kept.
pub(crate) struct Classifier {
    tried: bool,
    matcher: Option<Matcher>,
}

impl Classifier {
    #[verifier::type_invariant]
    spec fn well_formed(self) -> bool {
        &&& self.tried ==> (self.matcher is Some <==> regex_accepts(digit_pattern()))
        &&& self.matcher is Some ==> self.matcher.unwrap().pattern() == digit_pattern()
    }

    /// Whether the digit pattern has been handed to the regex crate, be it
    /// accepted or not.
    pub closed spec fn has_tried(&self) -> bool {
        self.tried
    }

    /// Whether a compiled pattern is kept.
    pub closed spec fn has_matcher(&self) -> bool {
        self.matcher is Some
    }

    /// A classifier that has compiled nothing yet: it has not tried the
    /// digit pattern and keeps no compiled one.
    pub fn new() -> (classifier: Classifier)
        ensures
            !classifier.has_tried(),
            !classifier.has_matcher(),
    {
        Classifier { tried: false, matcher: None }
    }

    /// Decides whether `c` is numeric. An ASCII character leaves the
    /// classifier as it was; the first one beyond ASCII has the digit pattern
    /// compiled, and every later one finds it done.
    pub fn is_numeric_char(&mut self, c: char) -> (b: bool)
        ensures
            b == is_numeric(c),
            (c as u32) < ASCII_END || old(self).has_tried() ==> *final(self) == *old(self),
            (c as u32) >= ASCII_END ==> final(self).has_tried(),
            final(self).has_tried() ==> final(self).has_matcher() == regex_accepts(digit_pattern()),
    {
        proof {
            use_type_invariant(&*self);
        }
        if (c as u32) < ASCII_END {
            '0' <= c && c <= '9'
        } else {
            if !self.tried {
                let matcher = Matcher::compile("^\\p{Nd}$");
                *self = Classifier { tried: true, matcher };
            }
            proof {
                use_type_invariant(&*self);
            }
            match &self.matcher {
                Some(matcher) => matcher.matches_char(c),
                None => false,
            }
        }
    }

    /// Computes the value of the digit `c`. An ASCII character leaves the
    /// classifier as it was, and so does any character once the digit pattern
    /// has been tried.
    pub fn digit_value_of(&mut self, c: char) -> (d: u8)
        ensures
            d as nat == digit_value(c),
            d < 10,
            (c as u32) < ASCII_END || old(self).has_tried() ==> *final(self) == *old(self),
            old(self).has_tried() ==> final(self).has_tried(),
    {
        let u: u32 = c as u32;
        let ghost start = *self;
        if u < ASCII_END {
            proof {
                lemma_ascii_digit_value(c);
            }
            if '0' <= c && c <= '9' {
                (u - 0x30) as u8
            } else {
                0
            }
        } else {
            let mut v: u32 = u;
            let mut d: u8 = 0;
            let mut more: bool = true;
            while more
                invariant
                    ASCII_END <= v <= u,
                    d < 10,
                    d as nat == ((u - v) as nat) % 10,
                    digits_below(u) == (u - v) as nat + digits_below(v),
                    !more ==> digits_below(v) == 0,
                    start.has_tried() ==> *self == start,
                decreases v + (if more { 1int } else { 0int }),
            {
                more = false;
                if v > ASCII_END {
                    match char::from_u32(v - 1) {
                        Some(below) => {
                            if self.is_numeric_char(below) {
                                v = v - 1;
                                d = if d == 9 { 0 } else { d + 1 };
                                more = true;
                            }
                        },
                        None => {},
                    }
                } else {
                    assert(!is_numeric(0x7fu32 as char));
                }
            }
            d
        }
    }
}

} // verus!
