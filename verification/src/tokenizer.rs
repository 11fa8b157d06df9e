//! The reading steps that the content tokenizer and the PDF tokenizer share.
//!
//! A tokenizer is a byte string and an offset into it; the spec functions
//! below say what each step reads when it starts at position `p` of `d`.

use vstd::prelude::*;
use crate::chars::{
    is_identifier_char, is_numeric, is_whitespace, spec_is_identifier_char, spec_is_numeric,
    spec_is_whitespace,
};
use crate::numeral::{check_numeral, is_valid_numeral};

verus! {

pub open spec fn spec_peek(d: Seq<u8>, p: int) -> Option<u8> {
    if 0 <= p < d.len() {
        Some(d[p])
    } else {
        None
    }
}

/// The first position at or after `p` that does not hold whitespace.
pub open spec fn skip_ws(d: Seq<u8>, p: int) -> int
    decreases d.len() - p,
{
    if 0 <= p < d.len() && spec_is_whitespace(d[p]) {
        skip_ws(d, p + 1)
    } else {
        p
    }
}

/// The first position at or after `p` that does not hold a word character.
pub open spec fn word_end(d: Seq<u8>, p: int) -> int
    decreases d.len() - p,
{
    if 0 <= p < d.len() && spec_is_identifier_char(d[p]) {
        word_end(d, p + 1)
    } else {
        p
    }
}

pub open spec fn spec_is_number_char(b: u8) -> bool {
    b == 46 || spec_is_numeric(b)
}

/// The first position at or after `p` that holds neither `.` nor a number.
pub open spec fn number_end(d: Seq<u8>, p: int) -> int
    decreases d.len() - p,
{
    if 0 <= p < d.len() && spec_is_number_char(d[p]) {
        number_end(d, p + 1)
    } else {
        p
    }
}

/// A word: a run of word characters, or else the single byte at `p`.
pub open spec fn spec_lex_word(d: Seq<u8>, p: int) -> Option<(Seq<u8>, int)> {
    if !(0 <= p < d.len()) {
        None
    } else if !spec_is_identifier_char(d[p]) {
        Some((seq![d[p]], p + 1))
    } else {
        Some((d.subrange(p, word_end(d, p)), word_end(d, p)))
    }
}

/// A number: an optional `-`, then a run of `.` and numbers; the text read
/// must be a numeral.
pub open spec fn spec_lex_number(d: Seq<u8>, p: int) -> Option<(Seq<u8>, int)> {
    let s = if spec_peek(d, p) == Some(45u8) {
        p + 1
    } else {
        p
    };
    let q = number_end(d, s);
    if 0 <= p && is_valid_numeral(d.subrange(p, q)) {
        Some((d.subrange(p, q), q))
    } else {
        None
    }
}

pub proof fn lemma_skip_ws(d: Seq<u8>, p: int)
    requires
        0 <= p <= d.len(),
    ensures
        p <= skip_ws(d, p) <= d.len(),
        skip_ws(d, p) < d.len() ==> !spec_is_whitespace(d[skip_ws(d, p)]),
        forall|k: int| p <= k < skip_ws(d, p) ==> spec_is_whitespace(#[trigger] d[k]),
    decreases d.len() - p,
{
    if p < d.len() && spec_is_whitespace(d[p]) {
        lemma_skip_ws(d, p + 1);
    }
}

pub proof fn lemma_word_end(d: Seq<u8>, p: int)
    requires
        0 <= p <= d.len(),
    ensures
        p <= word_end(d, p) <= d.len(),
        word_end(d, p) < d.len() ==> !spec_is_identifier_char(d[word_end(d, p)]),
        forall|k: int| p <= k < word_end(d, p) ==> spec_is_identifier_char(#[trigger] d[k]),
    decreases d.len() - p,
{
    if p < d.len() && spec_is_identifier_char(d[p]) {
        lemma_word_end(d, p + 1);
    }
}

pub proof fn lemma_number_end(d: Seq<u8>, p: int)
    requires
        0 <= p <= d.len(),
    ensures
        p <= number_end(d, p) <= d.len(),
    decreases d.len() - p,
{
    if p < d.len() && spec_is_number_char(d[p]) {
        lemma_number_end(d, p + 1);
    }
}

/// A word, when there is one, is never empty.
pub proof fn lemma_lex_word_advances(d: Seq<u8>, p: int)
    requires
        0 <= p <= d.len(),
    ensures
        spec_lex_word(d, p) matches Some((w, q)) ==> p < q <= d.len() && w == d.subrange(p, q),
{
    if 0 <= p < d.len() {
        lemma_word_end(d, p);
        if spec_is_identifier_char(d[p]) {
            assert(word_end(d, p) == word_end(d, p + 1));
            lemma_word_end(d, p + 1);
        } else {
            assert(seq![d[p]] =~= d.subrange(p, p + 1));
        }
    }
}

/// A numeral holds at least one digit, so a number is never empty.
pub proof fn lemma_lex_number_advances(d: Seq<u8>, p: int)
    requires
        0 <= p <= d.len(),
    ensures
        spec_lex_number(d, p) matches Some((w, q)) ==> p < q <= d.len() && w == d.subrange(p, q),
{
    let s = if spec_peek(d, p) == Some(45u8) {
        p + 1
    } else {
        p
    };
    lemma_number_end(d, s);
    let q = number_end(d, s);
    if is_valid_numeral(d.subrange(p, q)) {
        let t = d.subrange(p, q);
        if q <= p {
            assert(t.len() == 0);
            let body = if t.len() > 0 && t[0] == 45 {
                t.drop_first()
            } else {
                t
            };
            assert(body.len() == 0);
            let i = choose|i: int| 0 <= i < body.len() && crate::chars::spec_is_ascii_digit(#[trigger] body[i]);
            assert(false);
        }
    }
}

/// A reader of a byte string, one byte at a time, that turns the words it
/// reads into tokens of type `T`.
pub trait Tokenizer<T: View>: Sized {
    /// The bytes being read.
    spec fn data_view(&self) -> Seq<u8>;

    /// The position of the next byte to read.
    spec fn offset_view(&self) -> int;

    /// The token that a word stands for, if any.
    spec fn spec_token_from_word(word: Seq<u8>) -> Option<T::V>;

    /// The token matching the given word or delimiter, or `None` for a word
    /// that is no token.
    fn token_from_word(&self, word: &Vec<u8>) -> (r: Option<T>)
        ensures
            match r {
                Some(t) => Self::spec_token_from_word(word@) == Some(t@),
                None => Self::spec_token_from_word(word@) is None,
            },
    ;

    /// The next byte, without moving forward.
    fn peek_u8(&self) -> (r: u8)
        requires
            0 <= self.offset_view() < self.data_view().len(),
        ensures
            r == self.data_view()[self.offset_view()],
    ;

    /// Move one byte forward.
    fn step_ahead(&mut self)
        requires
            0 <= old(self).offset_view() < old(self).data_view().len(),
        ensures
            final(self).data_view() == old(self).data_view(),
            final(self).offset_view() == old(self).offset_view() + 1,
    ;

    /// Whether a byte is left to read.
    fn has_next(&self) -> (r: bool)
        requires
            0 <= self.offset_view() <= self.data_view().len(),
        ensures
            r == (self.offset_view() < self.data_view().len()),
    ;

    /// The next byte, if there is one, without moving forward.
    fn peek(&self) -> (r: Option<u8>)
        requires
            0 <= self.offset_view() <= self.data_view().len(),
        ensures
            r == spec_peek(self.data_view(), self.offset_view()),
    {
        if self.has_next() {
            Some(self.peek_u8())
        } else {
            None
        }
    }

    /// Whether the next byte is `c`.
    fn peek_is(&self, c: u8) -> (r: bool)
        requires
            0 <= self.offset_view() <= self.data_view().len(),
        ensures
            r == (spec_peek(self.data_view(), self.offset_view()) == Some(c)),
    {
        self.has_next() && self.peek_u8() == c
    }

    /// Read the next byte.
    fn lex_char(&mut self) -> (r: u8)
        requires
            0 <= old(self).offset_view() < old(self).data_view().len(),
        ensures
            0 <= final(self).offset_view() <= final(self).data_view().len(),
            r == old(self).data_view()[old(self).offset_view()],
            final(self).data_view() == old(self).data_view(),
            final(self).offset_view() == old(self).offset_view() + 1,
    {
        let r = self.peek_u8();
        self.step_ahead();
        r
    }

    /// Read the next byte if it is `c`; otherwise stay put and say so.
    fn eat_char(&mut self, c: u8) -> (r: bool)
        requires
            0 <= old(self).offset_view() <= old(self).data_view().len(),
        ensures
            0 <= final(self).offset_view() <= final(self).data_view().len(),
            r == (spec_peek(old(self).data_view(), old(self).offset_view()) == Some(c)),
            final(self).data_view() == old(self).data_view(),
            final(self).offset_view() == old(self).offset_view() + if r {
                1int
            } else {
                0int
            },
    {
        if self.has_next() && self.peek_u8() == c {
            self.step_ahead();
            true
        } else {
            false
        }
    }

    /// Skip the whitespace ahead.
    fn skip_whitespace(&mut self)
        requires
            0 <= old(self).offset_view() <= old(self).data_view().len(),
        ensures
            0 <= final(self).offset_view() <= final(self).data_view().len(),
            final(self).data_view() == old(self).data_view(),
            final(self).offset_view() == skip_ws(old(self).data_view(), old(self).offset_view()),
    {
        while self.has_next() && is_whitespace(self.peek_u8())
            invariant
                0 <= self.offset_view() <= self.data_view().len(),
                self.data_view() == old(self).data_view(),
                skip_ws(self.data_view(), self.offset_view()) == skip_ws(
                    old(self).data_view(),
                    old(self).offset_view(),
                ),
            decreases self.data_view().len() - self.offset_view(),
        {
            self.step_ahead();
        }
    }

    /// Read the next word, or the single byte ahead when it is no word
    /// character.
    fn lex_word(&mut self) -> (r: Option<Vec<u8>>)
        requires
            0 <= old(self).offset_view() <= old(self).data_view().len(),
        ensures
            0 <= final(self).offset_view() <= final(self).data_view().len(),
            final(self).data_view() == old(self).data_view(),
            match spec_lex_word(old(self).data_view(), old(self).offset_view()) {
                Some((w, q)) => r is Some && r->0@ == w && final(self).offset_view() == q,
                None => r is None && final(self).offset_view() == old(self).offset_view(),
            },
    {
        if !self.has_next() {
            return None;
        }
        let c = self.peek_u8();
        if !is_identifier_char(c) {
            self.step_ahead();
            let mut one: Vec<u8> = Vec::new();
            one.push(c);
            return Some(one);
        }
        let ghost d = self.data_view();
        let ghost p = self.offset_view();
        let mut chars: Vec<u8> = Vec::new();
        while self.has_next() && is_identifier_char(self.peek_u8())
            invariant
                p <= self.offset_view() <= self.data_view().len(),
                0 <= p,
                self.data_view() == d,
                d == old(self).data_view(),
                p == old(self).offset_view(),
                chars@ =~= d.subrange(p, self.offset_view()),
                word_end(d, self.offset_view()) == word_end(d, p),
            decreases self.data_view().len() - self.offset_view(),
        {
            let b = self.peek_u8();
            chars.push(b);
            self.step_ahead();
        }
        Some(chars)
    }

    /// Read a number: an optional `-`, then the run of `.` and numbers ahead;
    /// `None` when the text read is no numeral.
    fn parse_next_number(&mut self) -> (r: Option<Vec<u8>>)
        requires
            0 <= old(self).offset_view() <= old(self).data_view().len(),
        ensures
            0 <= final(self).offset_view() <= final(self).data_view().len(),
            final(self).data_view() == old(self).data_view(),
            match spec_lex_number(old(self).data_view(), old(self).offset_view()) {
                Some((w, q)) => r is Some && r->0@ == w && final(self).offset_view() == q,
                None => r is None,
            },
    {
        let ghost d = self.data_view();
        let ghost p = self.offset_view();
        let mut chars: Vec<u8> = Vec::new();
        if self.peek_is(45) {
            let b = self.lex_char();
            chars.push(b);
        }
        let ghost s = self.offset_view();
        while self.has_next() && (self.peek_u8() == 46 || is_numeric(self.peek_u8()))
            invariant
                p <= s <= self.offset_view() <= self.data_view().len(),
                0 <= p,
                s == (if spec_peek(d, p) == Some(45u8) {
                    p + 1
                } else {
                    p
                }),
                self.data_view() == d,
                d == old(self).data_view(),
                p == old(self).offset_view(),
                chars@ =~= d.subrange(p, self.offset_view()),
                number_end(d, self.offset_view()) == number_end(d, s),
            decreases self.data_view().len() - self.offset_view(),
        {
            let b = self.peek_u8();
            chars.push(b);
            self.step_ahead();
        }
        if check_numeral(&chars) {
            Some(chars)
        } else {
            None
        }
    }
}

} // verus!
