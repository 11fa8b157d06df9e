//! Text extraction from a content stream: a reader of the characters of the
//! stream into a few kinds of token, and an interpreter of its text blocks
//! that gathers the strings they show, line by line.
//!
//! Numbers are kept as their numeral text.  A line is identified by the
//! first operand of the last `Tm` of its block, rounded toward zero.

use vstd::prelude::*;
use crate::content::pretty::{numeral_display, numeral_text};
use crate::numeral::{check_numeral, is_valid_numeral, numeral_to_i32};
use crate::pdf::parser::to_i32;

verus! {

/// Whether the character has Unicode's `White_Space` property.
pub open spec fn spec_char_is_whitespace(c: char) -> bool {
    let u = c as u32;
    ||| 9 <= u <= 13
    ||| u == 32
    ||| u == 0x85
    ||| u == 0xA0
    ||| u == 0x1680
    ||| 0x2000 <= u <= 0x200A
    ||| u == 0x2028
    ||| u == 0x2029
    ||| u == 0x202F
    ||| u == 0x205F
    ||| u == 0x3000
}

/// Whether the character has Unicode's `White_Space` property, as
/// `char::is_whitespace` has it.
pub fn char_is_whitespace(c: char) -> (r: bool)
    ensures
        r == spec_char_is_whitespace(c),
{
    let u = c as u32;
    (9 <= u && u <= 13) || u == 32 || u == 0x85 || u == 0xA0 || u == 0x1680 || (0x2000 <= u && u
        <= 0x200A) || u == 0x2028 || u == 0x2029 || u == 0x202F || u == 0x205F || u == 0x3000
}

/// What `char::is_numeric` says of the character.
pub uninterp spec fn spec_char_is_numeric(c: char) -> bool;

/// What `char::is_alphanumeric` says of the character.
pub uninterp spec fn spec_char_is_alphanumeric(c: char) -> bool;

/// `char::is_numeric`.  Trusted: the result is `spec_char_is_numeric` of the
/// character (the Unicode general categories `Nd`, `Nl` and `No`, which
/// are not written out here).
#[verifier::external_body]
fn char_is_numeric(c: char) -> (r: bool)
    ensures
        r == spec_char_is_numeric(c),
{
    c.is_numeric()
}

/// `char::is_alphanumeric`.  Trusted: the result is
/// `spec_char_is_alphanumeric` of the character (Unicode `Alphabetic` or
/// numeric, not written out here).
#[verifier::external_body]
fn char_is_alphanumeric(c: char) -> (r: bool)
    ensures
        r == spec_char_is_alphanumeric(c),
{
    c.is_alphanumeric()
}

/// Whether the character may stand in a word.
pub open spec fn spec_is_identifier_char(c: char) -> bool {
    spec_char_is_alphanumeric(c) || c == '.' || c == '-' || c == '+'
}

/// Whether the character may stand in a word.
pub fn is_identifier_char(c: char) -> (r: bool)
    ensures
        r == spec_is_identifier_char(c),
{
    char_is_alphanumeric(c) || c == '.' || c == '-' || c == '+'
}

/// A token of the text reader.
#[derive(Debug, PartialEq)]
pub enum ContentToken {
    SaveGraphicsState,
    RestoreGraphicsState,
    Number(Vec<u8>),
    RectKeyword,
    WKeyword,
    WStarKeyword,
    NKeyword,
    Identifier(Vec<char>),
    CsStroke,
    CsNoStroke,
    EndCsStroke,
    EndCsNoStroke,
    Fill,
    IKeyword,
    CmStroke,
    BTKeyword,
    TmKeyword,
    TfKeyword,
    LParens,
    RParens,
    TjKeyword,
    TJKeyword,
    ETKeyword,
    LBracket,
    RBracket,
    Null,
}

/// What a token of the text reader stands for.
pub enum SpecContentToken {
    SaveGraphicsState,
    RestoreGraphicsState,
    Number(Seq<u8>),
    RectKeyword,
    WKeyword,
    WStarKeyword,
    NKeyword,
    Identifier(Seq<char>),
    CsStroke,
    CsNoStroke,
    EndCsStroke,
    EndCsNoStroke,
    Fill,
    IKeyword,
    CmStroke,
    BTKeyword,
    TmKeyword,
    TfKeyword,
    LParens,
    RParens,
    TjKeyword,
    TJKeyword,
    ETKeyword,
    LBracket,
    RBracket,
    Null,
}

impl View for ContentToken {
    type V = SpecContentToken;

    open spec fn view(&self) -> SpecContentToken {
        match self {
            ContentToken::SaveGraphicsState => SpecContentToken::SaveGraphicsState,
            ContentToken::RestoreGraphicsState => SpecContentToken::RestoreGraphicsState,
            ContentToken::Number(n) => SpecContentToken::Number(n@),
            ContentToken::RectKeyword => SpecContentToken::RectKeyword,
            ContentToken::WKeyword => SpecContentToken::WKeyword,
            ContentToken::WStarKeyword => SpecContentToken::WStarKeyword,
            ContentToken::NKeyword => SpecContentToken::NKeyword,
            ContentToken::Identifier(s) => SpecContentToken::Identifier(s@),
            ContentToken::CsStroke => SpecContentToken::CsStroke,
            ContentToken::CsNoStroke => SpecContentToken::CsNoStroke,
            ContentToken::EndCsStroke => SpecContentToken::EndCsStroke,
            ContentToken::EndCsNoStroke => SpecContentToken::EndCsNoStroke,
            ContentToken::Fill => SpecContentToken::Fill,
            ContentToken::IKeyword => SpecContentToken::IKeyword,
            ContentToken::CmStroke => SpecContentToken::CmStroke,
            ContentToken::BTKeyword => SpecContentToken::BTKeyword,
            ContentToken::TmKeyword => SpecContentToken::TmKeyword,
            ContentToken::TfKeyword => SpecContentToken::TfKeyword,
            ContentToken::LParens => SpecContentToken::LParens,
            ContentToken::RParens => SpecContentToken::RParens,
            ContentToken::TjKeyword => SpecContentToken::TjKeyword,
            ContentToken::TJKeyword => SpecContentToken::TJKeyword,
            ContentToken::ETKeyword => SpecContentToken::ETKeyword,
            ContentToken::LBracket => SpecContentToken::LBracket,
            ContentToken::RBracket => SpecContentToken::RBracket,
            ContentToken::Null => SpecContentToken::Null,
        }
    }
}

pub open spec fn text_tokens_view(s: Seq<ContentToken>) -> Seq<SpecContentToken> {
    s.map_values(|t: ContentToken| t@)
}

/// Where the run of word characters from `p` ends; `None` where it runs to
/// the end of the stream (the reader looks at the character after a run).
pub open spec fn ident_run_end(d: Seq<char>, p: int) -> Option<int>
    decreases d.len() - p,
{
    if !(0 <= p < d.len()) {
        None
    } else if spec_is_identifier_char(d[p]) {
        ident_run_end(d, p + 1)
    } else {
        Some(p)
    }
}

/// Where the run of `.` and numeric characters from `p` ends; `None` where
/// it runs to the end of the stream.
pub open spec fn number_run_end(d: Seq<char>, p: int) -> Option<int>
    decreases d.len() - p,
{
    if !(0 <= p < d.len()) {
        None
    } else if d[p] == '.' || spec_char_is_numeric(d[p]) {
        number_run_end(d, p + 1)
    } else {
        Some(p)
    }
}

/// Whether every character is ASCII.
pub open spec fn is_ascii_chars(s: Seq<char>) -> bool {
    forall|i: int| 0 <= i < s.len() ==> (#[trigger] s[i] as u32) < 128
}

/// The bytes of ASCII characters.
pub open spec fn ascii_bytes(s: Seq<char>) -> Seq<u8> {
    s.map_values(|c: char| (c as u32) as u8)
}

/// The characters of ASCII bytes.
pub open spec fn bytes_chars(s: Seq<u8>) -> Seq<char> {
    s.map_values(|b: u8| (b as u32) as char)
}

/// The number at `p` (which holds `-`, `.` or a numeric character): an
/// optional `-`, then a run of `.` and numeric characters, which must be a
/// numeral.
pub open spec fn text_lex_number(d: Seq<char>, p: int) -> Option<(Seq<u8>, int)> {
    let p1 = if 0 <= p < d.len() && d[p] == '-' {
        p + 1
    } else {
        p
    };
    match number_run_end(d, p1) {
        Some(q) => {
            let s = d.subrange(p, q);
            if is_ascii_chars(s) && is_valid_numeral(ascii_bytes(s)) {
                Some((ascii_bytes(s), q))
            } else {
                None
            }
        },
        None => None,
    }
}

/// The operator a word names, if any.
pub open spec fn text_keyword(w: Seq<char>) -> Option<SpecContentToken> {
    if w.len() == 2 && w[0] == 'S' && w[1] == 'C' {
        Some(SpecContentToken::EndCsNoStroke)
    } else if w.len() == 2 && w[0] == 's' && w[1] == 'c' {
        Some(SpecContentToken::EndCsStroke)
    } else if w.len() == 1 && w[0] == 'f' {
        Some(SpecContentToken::Fill)
    } else if w.len() == 1 && w[0] == 'i' {
        Some(SpecContentToken::IKeyword)
    } else if w.len() == 2 && w[0] == 'c' && w[1] == 's' {
        Some(SpecContentToken::CsStroke)
    } else if w.len() == 2 && w[0] == 'C' && w[1] == 'S' {
        Some(SpecContentToken::CsNoStroke)
    } else if w.len() == 2 && w[0] == 'c' && w[1] == 'm' {
        Some(SpecContentToken::CmStroke)
    } else if w.len() == 2 && w[0] == 'B' && w[1] == 'T' {
        Some(SpecContentToken::BTKeyword)
    } else if w.len() == 2 && w[0] == 'T' && w[1] == 'm' {
        Some(SpecContentToken::TmKeyword)
    } else if w.len() == 2 && w[0] == 'T' && w[1] == 'f' {
        Some(SpecContentToken::TfKeyword)
    } else if w.len() == 1 && w[0] == '(' {
        Some(SpecContentToken::LParens)
    } else if w.len() == 2 && w[0] == 'T' && w[1] == 'j' {
        Some(SpecContentToken::TjKeyword)
    } else if w.len() == 2 && w[0] == 'E' && w[1] == 'T' {
        Some(SpecContentToken::ETKeyword)
    } else if w.len() == 1 && w[0] == '[' {
        Some(SpecContentToken::LBracket)
    } else if w.len() == 1 && w[0] == ']' {
        Some(SpecContentToken::RBracket)
    } else if w.len() == 2 && w[0] == 'T' && w[1] == 'J' {
        Some(SpecContentToken::TJKeyword)
    } else if w.len() == 2 && w[0] == 'r' && w[1] == 'e' {
        Some(SpecContentToken::RectKeyword)
    } else {
        None
    }
}

/// The characters of a string after its `(`, up to the `)` that closes it or
/// the end of the stream.  Parentheses nest; a backslash keeps the character
/// after it.
pub open spec fn text_string_body(d: Seq<char>, p: int, depth: nat, acc: Seq<char>) -> (
    Seq<char>,
    int,
)
    decreases d.len() - p,
{
    if depth == 0 || !(0 <= p < d.len()) {
        (acc, p)
    } else if d[p] == '\\' {
        if p + 1 < d.len() {
            text_string_body(d, p + 2, depth, acc.push(d[p]).push(d[p + 1]))
        } else {
            text_string_body(d, p + 1, depth, acc.push(d[p]))
        }
    } else if d[p] == ')' {
        if depth > 1 {
            text_string_body(d, p + 1, (depth - 1) as nat, acc.push(d[p]))
        } else {
            text_string_body(d, p + 1, 0, acc)
        }
    } else if d[p] == '(' {
        text_string_body(d, p + 1, depth + 1, acc.push(d[p]))
    } else {
        text_string_body(d, p + 1, depth, acc.push(d[p]))
    }
}

/// The tokens read at position `p` (which holds a character), and the
/// position after them.  `None` where the reader fails there: a number that
/// is no numeral, an unknown word, a run of word or number characters (or a
/// `W`) that ends the stream.
pub open spec fn text_step(d: Seq<char>, p: int) -> Option<(Seq<SpecContentToken>, int)> {
    let c = d[p];
    if spec_char_is_whitespace(c) {
        Some((Seq::empty(), p + 1))
    } else if c == '\0' {
        Some((seq![SpecContentToken::Null], p + 1))
    } else if c == 'q' {
        Some((seq![SpecContentToken::SaveGraphicsState], p + 1))
    } else if c == 'Q' {
        Some((seq![SpecContentToken::RestoreGraphicsState], p + 1))
    } else if spec_char_is_numeric(c) || c == '.' || c == '-' {
        match text_lex_number(d, p) {
            Some((n, q)) => Some((seq![SpecContentToken::Number(n)], q)),
            None => None,
        }
    } else if c == 'W' {
        if p + 1 < d.len() {
            if d[p + 1] == '*' {
                Some((seq![SpecContentToken::WStarKeyword], p + 2))
            } else {
                Some((seq![SpecContentToken::WKeyword], p + 1))
            }
        } else {
            None
        }
    } else if c == 'n' {
        Some((seq![SpecContentToken::NKeyword], p + 1))
    } else if c == '/' {
        match ident_run_end(d, p + 1) {
            Some(q) => Some((seq![SpecContentToken::Identifier(d.subrange(p + 1, q))], q)),
            None => None,
        }
    } else {
        let w_end = if !spec_is_identifier_char(c) {
            Some(p + 1)
        } else {
            ident_run_end(d, p)
        };
        match w_end {
            Some(q) => match text_keyword(d.subrange(p, q)) {
                Some(SpecContentToken::LParens) => {
                    let (s, q2) = text_string_body(d, q, 1, Seq::empty());
                    Some(
                        (
                            seq![
                                SpecContentToken::LParens,
                                SpecContentToken::Identifier(s),
                                SpecContentToken::RParens,
                            ],
                            q2,
                        ),
                    )
                },
                Some(t) => Some((seq![t], q)),
                None => None,
            },
            None => None,
        }
    }
}

/// The tokens of the characters from `p` on.
pub open spec fn text_tokenize_from(d: Seq<char>, p: int) -> Option<Seq<SpecContentToken>>
    decreases d.len() - p,
{
    if !(0 <= p < d.len()) {
        Some(Seq::empty())
    } else {
        match text_step(d, p) {
            Some((ts, q)) => if p < q <= d.len() {
                match text_tokenize_from(d, q) {
                    Some(rest) => Some(ts + rest),
                    None => None,
                }
            } else {
                None
            },
            None => None,
        }
    }
}

fn token_from_word_chars(w: &Vec<char>) -> (r: Option<ContentToken>)
    ensures
        match text_keyword(w@) {
            Some(t) => r is Some && r->0@ == t,
            None => r is None,
        },
{
    if w.len() == 2 && w[0] == 'S' && w[1] == 'C' {
        Some(ContentToken::EndCsNoStroke)
    } else if w.len() == 2 && w[0] == 's' && w[1] == 'c' {
        Some(ContentToken::EndCsStroke)
    } else if w.len() == 1 && w[0] == 'f' {
        Some(ContentToken::Fill)
    } else if w.len() == 1 && w[0] == 'i' {
        Some(ContentToken::IKeyword)
    } else if w.len() == 2 && w[0] == 'c' && w[1] == 's' {
        Some(ContentToken::CsStroke)
    } else if w.len() == 2 && w[0] == 'C' && w[1] == 'S' {
        Some(ContentToken::CsNoStroke)
    } else if w.len() == 2 && w[0] == 'c' && w[1] == 'm' {
        Some(ContentToken::CmStroke)
    } else if w.len() == 2 && w[0] == 'B' && w[1] == 'T' {
        Some(ContentToken::BTKeyword)
    } else if w.len() == 2 && w[0] == 'T' && w[1] == 'm' {
        Some(ContentToken::TmKeyword)
    } else if w.len() == 2 && w[0] == 'T' && w[1] == 'f' {
        Some(ContentToken::TfKeyword)
    } else if w.len() == 1 && w[0] == '(' {
        Some(ContentToken::LParens)
    } else if w.len() == 2 && w[0] == 'T' && w[1] == 'j' {
        Some(ContentToken::TjKeyword)
    } else if w.len() == 2 && w[0] == 'E' && w[1] == 'T' {
        Some(ContentToken::ETKeyword)
    } else if w.len() == 1 && w[0] == '[' {
        Some(ContentToken::LBracket)
    } else if w.len() == 1 && w[0] == ']' {
        Some(ContentToken::RBracket)
    } else if w.len() == 2 && w[0] == 'T' && w[1] == 'J' {
        Some(ContentToken::TJKeyword)
    } else if w.len() == 2 && w[0] == 'r' && w[1] == 'e' {
        Some(ContentToken::RectKeyword)
    } else {
        None
    }
}

proof fn lemma_ident_run(d: Seq<char>, p: int)
    requires
        0 <= p,
    ensures
        ident_run_end(d, p) matches Some(q) ==> p <= q < d.len(),
    decreases d.len() - p,
{
    if 0 <= p < d.len() && spec_is_identifier_char(d[p]) {
        lemma_ident_run(d, p + 1);
    }
}

proof fn lemma_number_run(d: Seq<char>, p: int)
    requires
        0 <= p,
    ensures
        number_run_end(d, p) matches Some(q) ==> p <= q < d.len(),
    decreases d.len() - p,
{
    if 0 <= p < d.len() && (d[p] == '.' || spec_char_is_numeric(d[p])) {
        lemma_number_run(d, p + 1);
    }
}

proof fn lemma_text_string_bounds(d: Seq<char>, p: int, depth: nat, acc: Seq<char>)
    requires
        0 <= p,
    ensures
        p <= text_string_body(d, p, depth, acc).1,
        p <= d.len() ==> text_string_body(d, p, depth, acc).1 <= d.len(),
    decreases d.len() - p,
{
    if depth == 0 || !(0 <= p < d.len()) {
    } else if d[p] == '\\' {
        if p + 1 < d.len() {
            lemma_text_string_bounds(d, p + 2, depth, acc.push(d[p]).push(d[p + 1]));
        } else {
            lemma_text_string_bounds(d, p + 1, depth, acc.push(d[p]));
        }
    } else if d[p] == ')' {
        if depth > 1 {
            lemma_text_string_bounds(d, p + 1, (depth - 1) as nat, acc.push(d[p]));
        } else {
            lemma_text_string_bounds(d, p + 1, 0, acc);
        }
    } else if d[p] == '(' {
        lemma_text_string_bounds(d, p + 1, depth + 1, acc.push(d[p]));
    } else {
        lemma_text_string_bounds(d, p + 1, depth, acc.push(d[p]));
    }
}

/// Each step reads at least one character.
proof fn lemma_text_step_advances(d: Seq<char>, p: int)
    requires
        0 <= p < d.len(),
    ensures
        text_step(d, p) matches Some((ts, q)) ==> p < q <= d.len(),
{
    lemma_ident_run(d, p);
    lemma_ident_run(d, p + 1);
    let p1 = if d[p] == '-' {
        p + 1
    } else {
        p
    };
    lemma_number_run(d, p1);
    match ident_run_end(d, p) {
        Some(q) => lemma_text_string_bounds(d, q, 1, Seq::empty()),
        None => {},
    }
    lemma_text_string_bounds(d, p + 1, 1, Seq::empty());
    if !spec_char_is_whitespace(d[p]) && d[p] != '\0' && d[p] != 'q' && d[p] != 'Q' && !(
    spec_char_is_numeric(d[p]) || d[p] == '.' || d[p] == '-') && d[p] != 'W' && d[p] != 'n'
        && d[p] != '/' && spec_is_identifier_char(d[p]) {
        match ident_run_end(d, p) {
            Some(q) => {
                if q == p {
                    assert(!spec_is_identifier_char(d[p]));
                }
            },
            None => {},
        }
    }
}

/// Reads the characters of a content stream.
struct ContentTokenizer {
    data: Vec<char>,
    offset: usize,
}

impl ContentTokenizer {
    fn peek(&self) -> (r: char)
        requires
            self.offset < self.data@.len(),
        ensures
            r == self.data@[self.offset as int],
    {
        self.data[self.offset]
    }

    fn eat_next(&mut self) -> (r: char)
        requires
            old(self).offset < old(self).data@.len(),
        ensures
            r == old(self).data@[old(self).offset as int],
            final(self).offset == old(self).offset + 1,
            final(self).data == old(self).data,
    {
        let n = self.data.len();
        let result = self.data[self.offset];
        assert(self.offset < n);
        self.offset = self.offset + 1;
        result
    }

    fn peek_is(&self, c: char) -> (r: bool)
        requires
            self.offset < self.data@.len(),
        ensures
            r == (self.data@[self.offset as int] == c),
    {
        self.peek() == c
    }

    fn lex_char(&mut self) -> (r: char)
        requires
            old(self).offset < old(self).data@.len(),
        ensures
            r == old(self).data@[old(self).offset as int],
            final(self).offset == old(self).offset + 1,
            final(self).data == old(self).data,
    {
        let n = self.data.len();
        let result = self.peek();
        assert(self.offset < n);
        self.offset = self.offset + 1;
        result
    }

    /// Moves past the run of word characters; `None` where it runs to the end.
    fn skip_ident_run(&mut self) -> (r: bool)
        requires
            old(self).offset <= old(self).data@.len(),
        ensures
            final(self).data == old(self).data,
            r == ident_run_end(old(self).data@, old(self).offset as int) is Some,
            r ==> final(self).offset == ident_run_end(old(self).data@, old(self).offset as int)->0,
    {
        let ghost d = self.data@;
        let ghost p = self.offset as int;
        while self.offset < self.data.len() && is_identifier_char(self.data[self.offset])
            invariant
                self.data == old(self).data,
                self.data@ == d,
                p <= self.offset <= d.len(),
                ident_run_end(d, p) == ident_run_end(d, self.offset as int),
            decreases d.len() - self.offset,
        {
            self.offset = self.offset + 1;
        }
        self.offset < self.data.len()
    }

    /// The run of word characters ahead, as a name.
    fn lex_identifier(&mut self) -> (r: Option<ContentToken>)
        requires
            old(self).offset <= old(self).data@.len(),
        ensures
            final(self).data == old(self).data,
            match ident_run_end(old(self).data@, old(self).offset as int) {
                Some(q) => r is Some && r->0@ == SpecContentToken::Identifier(
                    old(self).data@.subrange(old(self).offset as int, q),
                ) && final(self).offset == q,
                None => r is None,
            },
    {
        let start = self.offset;
        if !self.skip_ident_run() {
            return None;
        }
        proof {
            lemma_ident_run(self.data@, start as int);
        }
        let mut chars: Vec<char> = Vec::new();
        let mut i = start;
        while i < self.offset
            invariant
                start <= i <= self.offset <= self.data@.len(),
                chars@ == self.data@.subrange(start as int, i as int),
            decreases self.offset - i,
        {
            chars.push(self.data[i]);
            assert(chars@ =~= self.data@.subrange(start as int, i + 1));
            i = i + 1;
        }
        Some(ContentToken::Identifier(chars))
    }

    /// The word ahead: one character that cannot stand in a word, or the run
    /// of word characters.
    fn lex_word(&mut self) -> (r: Option<Vec<char>>)
        requires
            old(self).offset < old(self).data@.len(),
        ensures
            final(self).data == old(self).data,
            ({
                let d = old(self).data@;
                let p = old(self).offset as int;
                let w_end = if !spec_is_identifier_char(d[p]) {
                    Some(p + 1)
                } else {
                    ident_run_end(d, p)
                };
                match w_end {
                    Some(q) => r is Some && r->0@ == d.subrange(p, q) && final(self).offset == q,
                    None => r is None,
                }
            }),
    {
        let ghost d = self.data@;
        let ghost p = self.offset as int;
        if !is_identifier_char(self.peek()) {
            let c = self.eat_next();
            let mut w: Vec<char> = Vec::new();
            w.push(c);
            assert(w@ =~= d.subrange(p, p + 1));
            return Some(w);
        }
        match self.lex_identifier() {
            Some(ContentToken::Identifier(chars)) => Some(chars),
            _ => None,
        }
    }

    /// The number ahead.
    fn lex_number(&mut self) -> (r: Option<Vec<u8>>)
        requires
            old(self).offset < old(self).data@.len(),
        ensures
            final(self).data == old(self).data,
            match text_lex_number(old(self).data@, old(self).offset as int) {
                Some((n, q)) => r is Some && r->0@ == n && final(self).offset == q,
                None => r is None,
            },
    {
        let ghost d = self.data@;
        let start = self.offset;
        let n = self.data.len();
        if self.peek_is('-') {
            assert(self.offset < n);
            self.offset = self.offset + 1;
        }
        let ghost p1 = self.offset as int;
        while self.offset < self.data.len() && (self.data[self.offset] == '.' || char_is_numeric(
            self.data[self.offset],
        ))
            invariant
                self.data == old(self).data,
                self.data@ == d,
                p1 <= self.offset <= d.len(),
                number_run_end(d, p1) == number_run_end(d, self.offset as int),
            decreases d.len() - self.offset,
        {
            self.offset = self.offset + 1;
        }
        if self.offset >= self.data.len() {
            return None;
        }
        let mut bytes: Vec<u8> = Vec::new();
        let mut i = start;
        while i < self.offset
            invariant
                start <= i <= self.offset < self.data@.len(),
                self.data == old(self).data,
                self.data@ == d,
                start == old(self).offset,
                number_run_end(d, p1) == Some(self.offset as int),
                p1 == (if d[start as int] == '-' {
                    start + 1
                } else {
                    start as int
                }),
                is_ascii_chars(d.subrange(start as int, i as int)),
                bytes@ == ascii_bytes(d.subrange(start as int, i as int)),
            decreases self.offset - i,
        {
            let u = self.data[i] as u32;
            if u >= 128 {
                assert(d.subrange(start as int, self.offset as int)[i - start] == d[i as int]);
                return None;
            }
            bytes.push(u as u8);
            assert(d.subrange(start as int, i + 1) =~= d.subrange(start as int, i as int).push(
                d[i as int],
            ));
            assert(bytes@ =~= ascii_bytes(d.subrange(start as int, i + 1)));
            i = i + 1;
        }
        if !check_numeral(&bytes) {
            return None;
        }
        Some(bytes)
    }

    /// The characters of a string whose `(` has been read.
    fn lex_string_body(&mut self) -> (r: Vec<char>)
        requires
            1 <= old(self).offset <= old(self).data@.len(),
        ensures
            final(self).data == old(self).data,
            (r@, final(self).offset as int) == text_string_body(
                old(self).data@,
                old(self).offset as int,
                1,
                Seq::empty(),
            ),
    {
        let ghost d = self.data@;
        let ghost q = self.offset as int;
        let mut chars: Vec<char> = Vec::new();
        let mut depth: usize = 1;
        while depth > 0 && self.offset < self.data.len()
            invariant
                self.data == old(self).data,
                self.data@ == d,
                1 <= q <= self.offset <= d.len(),
                depth <= 1 + (self.offset - q),
                text_string_body(d, q, 1, Seq::empty()) == text_string_body(
                    d,
                    self.offset as int,
                    depth as nat,
                    chars@,
                ),
            decreases d.len() - self.offset,
        {
            let mm = self.eat_next();
            if mm == '\\' {
                chars.push(mm);
                if self.offset < self.data.len() {
                    let nx = self.eat_next();
                    chars.push(nx);
                }
            } else if mm == ')' {
                depth = depth - 1;
                if depth > 0 {
                    chars.push(mm);
                }
            } else if mm == '(' {
                depth = depth + 1;
                chars.push(mm);
            } else {
                chars.push(mm);
            }
        }
        chars
    }
}

/// The tokens of a content stream's characters, or `None` where the reader
/// fails on them.
pub fn try_tokenize_stream(str: Vec<char>) -> (r: Option<Vec<ContentToken>>)
    ensures
        match text_tokenize_from(str@, 0) {
            Some(ts) => r is Some && text_tokens_view(r->0@) == ts,
            None => r is None,
        },
{
    let ghost d = str@;
    let mut vv: Vec<ContentToken> = Vec::new();
    let mut tokenizer = ContentTokenizer { data: str, offset: 0 };
    assert(text_tokens_view(vv@) =~= Seq::<SpecContentToken>::empty());
    while tokenizer.offset < tokenizer.data.len()
        invariant
            tokenizer.data@ == d,
            d == str@,
            tokenizer.offset <= d.len(),
            text_tokenize_from(d, 0) == match text_tokenize_from(d, tokenizer.offset as int) {
                Some(rest) => Some(text_tokens_view(vv@) + rest),
                None => None,
            },
        decreases d.len() - tokenizer.offset,
    {
        let ghost p = tokenizer.offset as int;
        proof {
            lemma_text_step_advances(d, p);
        }
        let cc = tokenizer.peek();
        let mut step: Vec<ContentToken> = Vec::new();
        if char_is_whitespace(cc) {
            tokenizer.eat_next();
        } else if cc == '\0' {
            tokenizer.eat_next();
            step.push(ContentToken::Null);
        } else if cc == 'q' {
            tokenizer.eat_next();
            step.push(ContentToken::SaveGraphicsState);
        } else if cc == 'Q' {
            tokenizer.eat_next();
            step.push(ContentToken::RestoreGraphicsState);
        } else if char_is_numeric(cc) || cc == '.' || cc == '-' {
            match tokenizer.lex_number() {
                Some(num) => step.push(ContentToken::Number(num)),
                None => {
                    assert(text_step(d, p) is None);
                    assert(text_tokenize_from(d, p) is None);
                    return None;
                },
            }
        } else if cc == 'W' {
            tokenizer.eat_next();
            if tokenizer.offset >= tokenizer.data.len() {
                return None;
            }
            if tokenizer.peek() == '*' {
                tokenizer.eat_next();
                step.push(ContentToken::WStarKeyword);
            } else {
                step.push(ContentToken::WKeyword);
            }
        } else if cc == 'n' {
            tokenizer.eat_next();
            step.push(ContentToken::NKeyword);
        } else if cc == '/' {
            tokenizer.eat_next();
            match tokenizer.lex_identifier() {
                Some(id) => step.push(id),
                None => {
                    return None;
                },
            }
        } else {
            let word = match tokenizer.lex_word() {
                Some(w) => w,
                None => {
                    assert(text_step(d, p) is None);
                    assert(text_tokenize_from(d, p) is None);
                    return None;
                },
            };
            proof {
                lemma_ident_run(d, p + 1);
                if spec_is_identifier_char(d[p]) {
                    assert(ident_run_end(d, p) == ident_run_end(d, p + 1));
                }
                assert(tokenizer.offset as int > p);
                assert(tokenizer.offset <= d.len());
            }
            match token_from_word_chars(&word) {
                Some(ContentToken::LParens) => {
                    let chars = tokenizer.lex_string_body();
                    step.push(ContentToken::LParens);
                    step.push(ContentToken::Identifier(chars));
                    step.push(ContentToken::RParens);
                },
                Some(tok) => step.push(tok),
                None => {
                    return None;
                },
            }
        }
        proof {
            assert(text_step(d, p) matches Some((ts, q)) && ts == text_tokens_view(step@)
                && q == tokenizer.offset);
            match text_tokenize_from(d, tokenizer.offset as int) {
                Some(rest) => {
                    assert(text_tokens_view(vv@ + step@) =~= text_tokens_view(vv@)
                        + text_tokens_view(step@));
                    assert(text_tokens_view(vv@) + (text_tokens_view(step@) + rest)
                        =~= text_tokens_view(vv@ + step@) + rest);
                },
                None => {},
            }
        }
        vv.append(&mut step);
    }
    assert(text_tokens_view(vv@) + Seq::<SpecContentToken>::empty() =~= text_tokens_view(vv@));
    Some(vv)
}

/// An operand of a text block.
#[derive(Debug, PartialEq)]
pub enum Value {
    Number(Vec<u8>),
    Identifier(Vec<char>),
    Array(Vec<Value>),
}

/// What an operand stands for.
pub enum SpecTextValue {
    Number(Seq<u8>),
    Identifier(Seq<char>),
    Array(Seq<SpecTextValue>),
}

pub open spec fn text_value_view(v: Value) -> SpecTextValue
    decreases v,
{
    match v {
        Value::Number(n) => SpecTextValue::Number(n@),
        Value::Identifier(s) => SpecTextValue::Identifier(s@),
        Value::Array(items) => SpecTextValue::Array(text_values_view(items@)),
    }
}

pub open spec fn text_values_view(s: Seq<Value>) -> Seq<SpecTextValue>
    decreases s,
{
    if s.len() == 0 {
        Seq::empty()
    } else {
        text_values_view(s.drop_last()).push(text_value_view(s[s.len() - 1]))
    }
}

impl View for Value {
    type V = SpecTextValue;

    open spec fn view(&self) -> SpecTextValue {
        text_value_view(*self)
    }
}

proof fn lemma_text_values_push(s: Seq<Value>, v: Value)
    ensures
        text_values_view(s.push(v)) == text_values_view(s).push(text_value_view(v)),
{
    assert(s.push(v).drop_last() =~= s);
}

proof fn lemma_text_values_index(s: Seq<Value>)
    ensures
        text_values_view(s).len() == s.len(),
        forall|i: int| 0 <= i < s.len() ==> #[trigger] text_values_view(s)[i] == text_value_view(s[i]),
    decreases s.len(),
{
    if s.len() > 0 {
        lemma_text_values_index(s.drop_last());
        assert forall|i: int| 0 <= i < s.len() implies #[trigger] text_values_view(s)[i]
            == text_value_view(s[i]) by {
            if i < s.len() - 1 {
                assert(s.drop_last()[i] == s[i]);
            }
        }
    }
}

/// The operands inside parentheses from token `i` on, up to the `)`:
/// names, and the values of nested parentheses.
pub open spec fn parens_items(t: Seq<SpecContentToken>, i: int, stack: Seq<SpecTextValue>) -> Option<
    (Seq<SpecTextValue>, int),
>
    decreases t.len() - i, 0int,
{
    if !(0 <= i < t.len()) {
        None
    } else {
        match t[i] {
            SpecContentToken::RParens => Some((stack, i + 1)),
            SpecContentToken::LParens => match spec_parse_parens(t, i + 1) {
                Some((v, j)) => if i < j <= t.len() {
                    parens_items(t, j, stack.push(v))
                } else {
                    None
                },
                None => None,
            },
            SpecContentToken::Identifier(s) => parens_items(
                t,
                i + 1,
                stack.push(SpecTextValue::Identifier(s)),
            ),
            _ => None,
        }
    }
}

/// The value of parentheses whose `(` comes before token `i`: the one
/// operand inside them.
pub open spec fn spec_parse_parens(t: Seq<SpecContentToken>, i: int) -> Option<
    (SpecTextValue, int),
>
    decreases t.len() - i, 1int,
{
    if !(0 <= i <= t.len()) {
        None
    } else {
        match parens_items(t, i, Seq::empty()) {
            Some((st, j)) => if st.len() == 1 {
                Some((st[0], j))
            } else {
                None
            },
            None => None,
        }
    }
}

/// The items of an array from token `i` on, up to the `]`: numbers and
/// parenthesised values.
pub open spec fn array_items(t: Seq<SpecContentToken>, i: int, arr: Seq<SpecTextValue>) -> Option<
    (Seq<SpecTextValue>, int),
>
    decreases t.len() - i,
{
    if !(0 <= i < t.len()) {
        None
    } else {
        match t[i] {
            SpecContentToken::RBracket => Some((arr, i + 1)),
            SpecContentToken::Number(n) => array_items(t, i + 1, arr.push(SpecTextValue::Number(n))),
            SpecContentToken::LParens => match spec_parse_parens(t, i + 1) {
                Some((v, j)) => if i < j <= t.len() {
                    array_items(t, j, arr.push(v))
                } else {
                    None
                },
                None => None,
            },
            _ => None,
        }
    }
}

/// The text of an operand that shows as text: a name's characters, or a
/// number as it prints.
pub open spec fn text_of_value(v: SpecTextValue) -> Option<Seq<char>> {
    match v {
        SpecTextValue::Identifier(s) => Some(s),
        SpecTextValue::Number(n) => Some(bytes_chars(numeral_display(n))),
        SpecTextValue::Array(_) => None,
    }
}

/// The text matrix a block starts with (the identity, in six numbers).
pub open spec fn init_matrix() -> Seq<Seq<u8>> {
    seq![seq![49u8], seq![48u8], seq![48u8], seq![49u8], seq![48u8], seq![48u8]]
}

/// The line of the text matrix: its entry 7 rounded toward zero, where the
/// matrix has one (and it is a numeral, as every number read from text is).
pub open spec fn matrix_line(m: Seq<Seq<u8>>) -> Option<i32> {
    if m.len() > 7 && is_valid_numeral(m[7]) {
        Some(to_i32(m[7]))
    } else {
        None
    }
}

/// The output after adding `s` to line `y`.
pub open spec fn add_out(o: Map<i32, Seq<char>>, y: i32, s: Seq<char>) -> Map<i32, Seq<char>> {
    o.insert(
        y,
        if o.contains_key(y) {
            o[y] + s
        } else {
            s
        },
    )
}

/// The output after showing the items of a `TJ` array: each name adds its
/// text to the current line; numbers show nothing.
pub open spec fn tj_output(items: Seq<SpecTextValue>, m: Seq<Seq<u8>>, o: Map<i32, Seq<char>>) -> Option<
    Map<i32, Seq<char>>,
>
    decreases items.len(),
{
    if items.len() == 0 {
        Some(o)
    } else {
        match tj_output(items.drop_last(), m, o) {
            Some(o2) => match items[items.len() - 1] {
                SpecTextValue::Number(_) => Some(o2),
                SpecTextValue::Identifier(s) => match matrix_line(m) {
                    Some(y) => Some(add_out(o2, y, s)),
                    None => None,
                },
                SpecTextValue::Array(_) => None,
            },
            None => None,
        }
    }
}

/// The matrix that `Tm` sets from its six operands, the last popped first,
/// in the nine-entry form.
pub open spec fn tm_matrix(st: Seq<SpecTextValue>) -> Seq<Seq<u8>> {
    let n = st.len();
    seq![
        num_value(st[n - 1]),
        num_value(st[n - 2]),
        seq![48u8],
        num_value(st[n - 3]),
        num_value(st[n - 4]),
        seq![48u8],
        num_value(st[n - 5]),
        num_value(st[n - 6]),
        seq![49u8],
    ]
}

/// The numeral of a number operand.
pub open spec fn num_value(v: SpecTextValue) -> Seq<u8> {
    match v {
        SpecTextValue::Number(x) => x,
        _ => Seq::empty(),
    }
}

/// Whether the token is an operator of text: `Tm`, `Tf`, `Tj` or `TJ`.
pub open spec fn is_text_operator(t: SpecContentToken) -> bool {
    t is TmKeyword || t is TfKeyword || t is TjKeyword || t is TJKeyword
}

/// What an operator of text does to the operand stack, the text matrix and
/// the output: `Tm` sets the matrix from six numbers, `Tf` takes a size and
/// a font, `Tj` shows a string and `TJ` an array on the current line.
/// `None` where its operands are missing or of the wrong kind, or where text
/// is shown before the matrix gives a line.
pub open spec fn spec_op(
    tok: SpecContentToken,
    stack: Seq<SpecTextValue>,
    m: Seq<Seq<u8>>,
    o: Map<i32, Seq<char>>,
) -> Option<(Seq<SpecTextValue>, Seq<Seq<u8>>, Map<i32, Seq<char>>)> {
    let n = stack.len();
    match tok {
        SpecContentToken::TmKeyword => {
            if n >= 6 && (forall|k: int| n - 6 <= k < n ==> #[trigger] stack[k] is Number) {
                Some((stack.take(n - 6), tm_matrix(stack), o))
            } else {
                None
            }
        },
        SpecContentToken::TfKeyword => {
            if n >= 2 && stack[n - 1] is Number && text_of_value(stack[n - 2]) is Some {
                Some((stack.take(n - 2), m, o))
            } else {
                None
            }
        },
        SpecContentToken::TjKeyword => {
            if n >= 1 && text_of_value(stack[n - 1]) is Some && matrix_line(m) is Some {
                Some(
                    (
                        stack.take(n - 1),
                        m,
                        add_out(o, matrix_line(m)->0, text_of_value(stack[n - 1])->0),
                    ),
                )
            } else {
                None
            }
        },
        SpecContentToken::TJKeyword => {
            if n >= 1 && stack[n - 1] is Array {
                match tj_output(stack[n - 1]->Array_0, m, o) {
                    Some(o2) => Some((stack.take(n - 1), m, o2)),
                    None => None,
                }
            } else {
                None
            }
        },
        _ => None,
    }
}

/// The texts of the names among the items, one after the other.
pub open spec fn names_text(items: Seq<SpecTextValue>) -> Seq<char>
    decreases items.len(),
{
    if items.len() == 0 {
        Seq::empty()
    } else {
        names_text(items.drop_last()) + match items.last() {
            SpecTextValue::Identifier(s) => s,
            _ => Seq::empty(),
        }
    }
}

/// Whether some item is a name.
pub open spec fn has_name_item(items: Seq<SpecTextValue>) -> bool {
    exists|i: int| 0 <= i < items.len() && #[trigger] items[i] is Identifier
}

proof fn lemma_tj_output(items: Seq<SpecTextValue>, m: Seq<Seq<u8>>, o: Map<i32, Seq<char>>, y: i32)
    requires
        matrix_line(m) == Some(y),
        forall|i: int| 0 <= i < items.len() ==> #[trigger] items[i] is Number || items[i] is Identifier,
    ensures
        tj_output(items, m, o) is Some,
        forall|y2: i32| y2 != y ==> (#[trigger] tj_output(items, m, o)->0.contains_key(y2)
            <==> o.contains_key(y2)) && (o.contains_key(y2) ==> tj_output(items, m, o)->0[y2]
            == o[y2]),
        (o.contains_key(y) || has_name_item(items)) ==> tj_output(items, m, o)->0.contains_key(y)
            && tj_output(items, m, o)->0[y] == (if o.contains_key(y) {
            o[y]
        } else {
            Seq::empty()
        }) + names_text(items),
        !(o.contains_key(y) || has_name_item(items)) ==> !tj_output(items, m, o)->0.contains_key(
            y,
        ),
    decreases items.len(),
{
    if items.len() > 0 {
        let init = items.drop_last();
        assert forall|i: int| 0 <= i < init.len() implies #[trigger] init[i] is Number
            || init[i] is Identifier by {
            assert(init[i] == items[i]);
        }
        lemma_tj_output(init, m, o, y);
        let o2 = tj_output(init, m, o)->0;
        let base = if o.contains_key(y) {
            o[y]
        } else {
            Seq::<char>::empty()
        };
        assert(has_name_item(items) <==> has_name_item(init) || items.last() is Identifier) by {
            if has_name_item(items) {
                let i = choose|i: int| 0 <= i < items.len() && #[trigger] items[i] is Identifier;
                if i < init.len() {
                    assert(init[i] == items[i]);
                }
            }
            if has_name_item(init) {
                let i = choose|i: int| 0 <= i < init.len() && #[trigger] init[i] is Identifier;
                assert(items[i] == init[i]);
            }
        }
        match items.last() {
            SpecTextValue::Identifier(s) => {
                if !(o.contains_key(y) || has_name_item(init)) {
                    assert(names_text(init) =~= Seq::<char>::empty()) by {
                        lemma_names_text_empty(init);
                    }
                    assert(base + names_text(items) =~= s);
                } else {
                    assert(base + names_text(items) =~= (base + names_text(init)) + s);
                }
            },
            _ => {
                assert(names_text(items) =~= names_text(init));
            },
        }
    }
}

proof fn lemma_names_text_empty(items: Seq<SpecTextValue>)
    requires
        !has_name_item(items),
    ensures
        names_text(items) == Seq::<char>::empty(),
    decreases items.len(),
{
    if items.len() > 0 {
        let init = items.drop_last();
        assert(!has_name_item(init)) by {
            if has_name_item(init) {
                let i = choose|i: int| 0 <= i < init.len() && #[trigger] init[i] is Identifier;
                assert(items[i] == init[i]);
            }
        }
        lemma_names_text_empty(init);
        assert(!(items[items.len() - 1] is Identifier));
        assert(names_text(items) =~= Seq::<char>::empty());
    }
}

/// What the operators of text do to the lines read so far.  `Tm` with six
/// numbers sets the line to its first number, rounded toward zero, and
/// leaves the lines as they were.  `Tj` with a name adds its text at the
/// end of the current line, leaving every other line as it was.  `TJ` with
/// an array of names and numbers adds the texts of its names, in order, at
/// the end of the current line; its numbers show nothing.
pub proof fn law_text_lines(stack: Seq<SpecTextValue>, m: Seq<Seq<u8>>, o: Map<i32, Seq<char>>)
    ensures
        ({
            let n = stack.len() as int;
            n >= 6 && (forall|k: int| n - 6 <= k < n ==> #[trigger] stack[k] is Number) ==> {
                &&& spec_op(SpecContentToken::TmKeyword, stack, m, o) is Some
                &&& (spec_op(SpecContentToken::TmKeyword, stack, m, o)->0).0 == stack.take(n - 6)
                &&& (spec_op(SpecContentToken::TmKeyword, stack, m, o)->0).2 == o
                &&& is_valid_numeral(num_value(stack[n - 6])) ==> matrix_line(
                    (spec_op(SpecContentToken::TmKeyword, stack, m, o)->0).1,
                ) == Some(to_i32(num_value(stack[n - 6])))
            }
        }),
        ({
            let n = stack.len() as int;
            n >= 1 && stack[n - 1] is Identifier && matrix_line(m) is Some ==> {
                let y = matrix_line(m)->0;
                let s = stack[n - 1]->Identifier_0;
                let r = spec_op(SpecContentToken::TjKeyword, stack, m, o);
                &&& r is Some
                &&& (r->0).0 == stack.take(n - 1)
                &&& (r->0).1 == m
                &&& (r->0).2.contains_key(y)
                &&& (r->0).2[y] == (if o.contains_key(y) {
                    o[y]
                } else {
                    Seq::empty()
                }) + s
                &&& forall|y2: i32| y2 != y ==> (#[trigger] (r->0).2.contains_key(y2)
                    <==> o.contains_key(y2)) && (o.contains_key(y2) ==> (r->0).2[y2] == o[y2])
            }
        }),
        ({
            let n = stack.len() as int;
            n >= 1 && stack[n - 1] is Array && matrix_line(m) is Some && (forall|i: int|
                0 <= i < (stack[n - 1]->Array_0).len() ==> #[trigger] (stack[n - 1]->Array_0)[i] is Number
                    || (stack[n - 1]->Array_0)[i] is Identifier) ==> {
                let y = matrix_line(m)->0;
                let items = stack[n - 1]->Array_0;
                let r = spec_op(SpecContentToken::TJKeyword, stack, m, o);
                &&& r is Some
                &&& (r->0).0 == stack.take(n - 1)
                &&& (r->0).1 == m
                &&& (o.contains_key(y) || has_name_item(items)) ==> (r->0).2[y] == (if o.contains_key(y) {
                    o[y]
                } else {
                    Seq::empty()
                }) + names_text(items)
                &&& forall|y2: i32| y2 != y ==> (#[trigger] (r->0).2.contains_key(y2)
                    <==> o.contains_key(y2)) && (o.contains_key(y2) ==> (r->0).2[y2] == o[y2])
            }
        }),
{
    let n = stack.len() as int;
    if n >= 1 && stack[n - 1] is Array && matrix_line(m) is Some {
        let items = stack[n - 1]->Array_0;
        if forall|i: int| 0 <= i < items.len() ==> #[trigger] items[i] is Number || items[i] is Identifier {
            lemma_tj_output(items, m, o, matrix_line(m)->0);
        }
    }
    if n >= 1 && stack[n - 1] is Identifier && matrix_line(m) is Some {
        let s = stack[n - 1]->Identifier_0;
        let y = matrix_line(m)->0;
        if !o.contains_key(y) {
            assert(Seq::<char>::empty() + s =~= s);
        }
    }
}

/// The rest of a text block from token `i` on, up to its `ET`, with the
/// operand stack, text matrix and output so far.  Gives the position after
/// `ET` and the output; `None` where the block cannot be read (an operator
/// without its operands, text shown before any `Tm`, a token that is no
/// operand of text, operands left at `ET`, or no `ET`).
pub open spec fn spec_block_from(
    t: Seq<SpecContentToken>,
    i: int,
    stack: Seq<SpecTextValue>,
    m: Seq<Seq<u8>>,
    o: Map<i32, Seq<char>>,
) -> Option<(int, Map<i32, Seq<char>>)>
    decreases t.len() - i,
{
    if !(0 <= i < t.len()) {
        None
    } else if t[i] is ETKeyword {
        if stack.len() == 0 {
            Some((i + 1, o))
        } else {
            None
        }
    } else if is_text_operator(t[i]) {
        match spec_op(t[i], stack, m, o) {
            Some((st2, m2, o2)) => spec_block_from(t, i + 1, st2, m2, o2),
            None => None,
        }
    } else {
        match t[i] {
            SpecContentToken::Identifier(s) => spec_block_from(
                t,
                i + 1,
                stack.push(SpecTextValue::Identifier(s)),
                m,
                o,
            ),
            SpecContentToken::LParens => match spec_parse_parens(t, i + 1) {
                Some((v, j)) => if i < j <= t.len() {
                    spec_block_from(t, j, stack.push(v), m, o)
                } else {
                    None
                },
                None => None,
            },
            SpecContentToken::LBracket => match array_items(t, i + 1, Seq::empty()) {
                Some((items, j)) => if i < j <= t.len() {
                    spec_block_from(t, j, stack.push(SpecTextValue::Array(items)), m, o)
                } else {
                    None
                },
                None => None,
            },
            SpecContentToken::Number(x) => spec_block_from(
                t,
                i + 1,
                stack.push(SpecTextValue::Number(x)),
                m,
                o,
            ),
            _ => None,
        }
    }
}

proof fn lemma_block_bounds(
    t: Seq<SpecContentToken>,
    i: int,
    stack: Seq<SpecTextValue>,
    m: Seq<Seq<u8>>,
    o: Map<i32, Seq<char>>,
)
    requires
        0 <= i,
    ensures
        spec_block_from(t, i, stack, m, o) matches Some((j, _)) ==> i < j <= t.len(),
    decreases t.len() - i,
{
    if 0 <= i < t.len() && !(t[i] is ETKeyword) {
        if is_text_operator(t[i]) {
            match spec_op(t[i], stack, m, o) {
                Some((st2, m2, o2)) => lemma_block_bounds(t, i + 1, st2, m2, o2),
                None => {},
            }
        } else {
            match t[i] {
                SpecContentToken::Identifier(s) => lemma_block_bounds(
                    t,
                    i + 1,
                    stack.push(SpecTextValue::Identifier(s)),
                    m,
                    o,
                ),
                SpecContentToken::LParens => match spec_parse_parens(t, i + 1) {
                    Some((v, j)) => if i < j <= t.len() {
                        lemma_block_bounds(t, j, stack.push(v), m, o);
                    },
                    None => {},
                },
                SpecContentToken::LBracket => match array_items(t, i + 1, Seq::empty()) {
                    Some((items, j)) => if i < j <= t.len() {
                        lemma_block_bounds(t, j, stack.push(SpecTextValue::Array(items)), m, o);
                    },
                    None => {},
                },
                SpecContentToken::Number(x) => lemma_block_bounds(
                    t,
                    i + 1,
                    stack.push(SpecTextValue::Number(x)),
                    m,
                    o,
                ),
                _ => {},
            }
        }
    }
}

/// The output of the text blocks from token `i` on.  Tokens outside blocks
/// are passed over, and so is the token right after each block's `ET`.
pub open spec fn spec_program_from(t: Seq<SpecContentToken>, i: int, o: Map<i32, Seq<char>>) -> Option<
    Map<i32, Seq<char>>,
>
    decreases t.len() - i,
{
    if !(0 <= i < t.len()) {
        Some(o)
    } else if t[i] is BTKeyword {
        match spec_block_from(t, i + 1, Seq::empty(), init_matrix(), o) {
            Some((j, o2)) => if i < j < t.len() {
                spec_program_from(t, j + 1, o2)
            } else if j == t.len() {
                Some(o2)
            } else {
                None
            },
            None => None,
        }
    } else {
        spec_program_from(t, i + 1, o)
    }
}

/// The text of a content stream, by line; `None` where it cannot be read.
pub open spec fn spec_parse_stream(d: Seq<char>) -> Option<Map<i32, Seq<char>>> {
    match text_tokenize_from(d, 0) {
        Some(t) => spec_program_from(t, 0, Map::empty()),
        None => None,
    }
}

/// Lines in order from the highest down, each with its text, that stand for
/// the map `o`.
pub open spec fn lines_match(s: Seq<(i32, Vec<char>)>, o: Map<i32, Seq<char>>) -> bool {
    &&& forall|i: int, j: int| 0 <= i < j < s.len() ==> #[trigger] s[i].0 > #[trigger] s[j].0
    &&& forall|i: int| 0 <= i < s.len() ==> o.contains_key(#[trigger] s[i].0) && o[s[i].0] == s[i].1@
    &&& forall|y: i32| #[trigger] o.contains_key(y) ==> exists|i: int| 0 <= i < s.len() && #[trigger] s[i].0 == y
}

/// A copy of some characters.
fn copy_chars(s: &[char]) -> (r: Vec<char>)
    ensures
        r@ == s@,
{
    let mut out: Vec<char> = Vec::new();
    let mut i: usize = 0;
    while i < s.len()
        invariant
            i <= s@.len(),
            out@ == s@.take(i as int),
        decreases s.len() - i,
    {
        out.push(s[i]);
        assert(out@ =~= s@.take(i + 1));
        i = i + 1;
    }
    assert(s@.take(s@.len() as int) =~= s@);
    out
}

/// Add `s` to line `y` of the lines.
fn add_line(lines: &mut Vec<(i32, Vec<char>)>, Ghost(o): Ghost<Map<i32, Seq<char>>>, y: i32, s: &[char])
    requires
        lines_match(old(lines)@, o),
    ensures
        lines_match(final(lines)@, add_out(o, y, s@)),
{
    let ghost l0 = lines@;
    let mut idx: usize = 0;
    while idx < lines.len() && lines[idx].0 > y
        invariant
            lines@ == l0,
            idx <= l0.len(),
            forall|j: int| 0 <= j < idx ==> #[trigger] l0[j].0 > y,
        decreases l0.len() - idx,
    {
        idx = idx + 1;
    }
    let o2 = Ghost(add_out(o, y, s@));
    if idx < lines.len() && lines[idx].0 == y {
        let mut text = copy_chars(lines[idx].1.as_slice());
        let mut k: usize = 0;
        while k < s.len()
            invariant
                k <= s@.len(),
                text@ == l0[idx as int].1@ + s@.take(k as int),
            decreases s.len() - k,
        {
            text.push(s[k]);
            assert(text@ =~= l0[idx as int].1@ + s@.take(k + 1));
            k = k + 1;
        }
        assert(s@.take(s@.len() as int) =~= s@);
        lines.set(idx, (y, text));
        proof {
            let l1 = lines@;
            assert(o.contains_key(y));
            assert forall|i: int| 0 <= i < l1.len() implies o2@.contains_key(#[trigger] l1[i].0)
                && o2@[l1[i].0] == l1[i].1@ by {
                if i != idx {
                    assert(l1[i] == l0[i]);
                    assert(l0[i].0 != y);
                }
            }
            assert forall|yy: i32| #[trigger] o2@.contains_key(yy) implies exists|i: int|
                0 <= i < l1.len() && #[trigger] l1[i].0 == yy by {
                if yy == y {
                    assert(l1[idx as int].0 == yy);
                } else {
                    let i = choose|i: int| 0 <= i < l0.len() && #[trigger] l0[i].0 == yy;
                    assert(l1[i].0 == yy);
                }
            }
            assert forall|i: int, j: int| 0 <= i < j < l1.len() implies #[trigger] l1[i].0
                > #[trigger] l1[j].0 by {
                assert(l1[i].0 == l0[i].0);
                assert(l1[j].0 == l0[j].0);
            }
        }
    } else {
        proof {
            assert forall|j: int| idx <= j < l0.len() implies #[trigger] l0[j].0 < y by {
                if j > idx {
                    assert(l0[idx as int].0 > l0[j].0);
                }
            }
            if o.contains_key(y) {
                let i = choose|i: int| 0 <= i < l0.len() && #[trigger] l0[i].0 == y;
                if i < idx {
                    assert(l0[i].0 > y);
                } else {
                    assert(l0[i].0 < y);
                }
            }
        }
        let text = copy_chars(s);
        lines.insert(idx, (y, text));
        proof {
            let l1 = lines@;
            assert(l1 == l0.insert(idx as int, (y, text)));
            assert forall|i: int| 0 <= i < l1.len() implies o2@.contains_key(#[trigger] l1[i].0)
                && o2@[l1[i].0] == l1[i].1@ by {
                if i < idx {
                    assert(l1[i] == l0[i]);
                } else if i > idx {
                    assert(l1[i] == l0[i - 1]);
                }
            }
            assert forall|yy: i32| #[trigger] o2@.contains_key(yy) implies exists|i: int|
                0 <= i < l1.len() && #[trigger] l1[i].0 == yy by {
                if yy == y {
                    assert(l1[idx as int].0 == yy);
                } else {
                    let i = choose|i: int| 0 <= i < l0.len() && #[trigger] l0[i].0 == yy;
                    if i < idx {
                        assert(l1[i] == l0[i]);
                    } else {
                        assert(l1[i + 1] == l0[i]);
                    }
                }
            }
            assert forall|i: int, j: int| 0 <= i < j < l1.len() implies #[trigger] l1[i].0
                > #[trigger] l1[j].0 by {
                if i < idx {
                    assert(l1[i] == l0[i]);
                } else if i > idx {
                    assert(l1[i] == l0[i - 1]);
                }
                if j < idx {
                    assert(l1[j] == l0[j]);
                } else if j > idx {
                    assert(l1[j] == l0[j - 1]);
                }
            }
        }
    }
}

proof fn lemma_tj_none(items: Seq<SpecTextValue>, k: int, m: Seq<Seq<u8>>, o: Map<i32, Seq<char>>)
    requires
        0 <= k <= items.len(),
        tj_output(items.take(k), m, o) is None,
    ensures
        tj_output(items, m, o) is None,
    decreases items.len() - k,
{
    if k < items.len() {
        assert(items.take(k + 1).drop_last() =~= items.take(k));
        lemma_tj_none(items, k + 1, m, o);
    } else {
        assert(items.take(k) =~= items);
    }
}

/// A copy of some bytes.
fn copy_u8s(s: &[u8]) -> (r: Vec<u8>)
    ensures
        r@ == s@,
{
    let mut out: Vec<u8> = Vec::new();
    let mut i: usize = 0;
    while i < s.len()
        invariant
            i <= s@.len(),
            out@ == s@.take(i as int),
        decreases s.len() - i,
    {
        out.push(s[i]);
        assert(out@ =~= s@.take(i + 1));
        i = i + 1;
    }
    assert(s@.take(s@.len() as int) =~= s@);
    out
}

/// A numeral of one digit.
fn digit(b: u8) -> (r: Vec<u8>)
    ensures
        r@ == seq![b],
{
    let mut r: Vec<u8> = Vec::new();
    r.push(b);
    assert(r@ =~= seq![b]);
    r
}

/// A copy of a token.
fn clone_token(t: &ContentToken) -> (r: ContentToken)
    ensures
        r@ == t@,
{
    match t {
        ContentToken::SaveGraphicsState => ContentToken::SaveGraphicsState,
        ContentToken::RestoreGraphicsState => ContentToken::RestoreGraphicsState,
        ContentToken::Number(n) => ContentToken::Number(copy_u8s(n.as_slice())),
        ContentToken::RectKeyword => ContentToken::RectKeyword,
        ContentToken::WKeyword => ContentToken::WKeyword,
        ContentToken::WStarKeyword => ContentToken::WStarKeyword,
        ContentToken::NKeyword => ContentToken::NKeyword,
        ContentToken::Identifier(s) => ContentToken::Identifier(copy_chars(s.as_slice())),
        ContentToken::CsStroke => ContentToken::CsStroke,
        ContentToken::CsNoStroke => ContentToken::CsNoStroke,
        ContentToken::EndCsStroke => ContentToken::EndCsStroke,
        ContentToken::EndCsNoStroke => ContentToken::EndCsNoStroke,
        ContentToken::Fill => ContentToken::Fill,
        ContentToken::IKeyword => ContentToken::IKeyword,
        ContentToken::CmStroke => ContentToken::CmStroke,
        ContentToken::BTKeyword => ContentToken::BTKeyword,
        ContentToken::TmKeyword => ContentToken::TmKeyword,
        ContentToken::TfKeyword => ContentToken::TfKeyword,
        ContentToken::LParens => ContentToken::LParens,
        ContentToken::RParens => ContentToken::RParens,
        ContentToken::TjKeyword => ContentToken::TjKeyword,
        ContentToken::TJKeyword => ContentToken::TJKeyword,
        ContentToken::ETKeyword => ContentToken::ETKeyword,
        ContentToken::LBracket => ContentToken::LBracket,
        ContentToken::RBracket => ContentToken::RBracket,
        ContentToken::Null => ContentToken::Null,
    }
}

pub open spec fn matrix_view(s: Seq<Vec<u8>>) -> Seq<Seq<u8>> {
    s.map_values(|v: Vec<u8>| v@)
}

/// The text state of a block: its matrices, font and size.
struct TextState {
    matrix: Vec<Vec<u8>>,
    line_matrix: Vec<Vec<u8>>,
    font: Option<Vec<char>>,
    size: Option<Vec<u8>>,
}

impl TextState {
    fn init_matrix() -> (r: Vec<Vec<u8>>)
        ensures
            matrix_view(r@) == init_matrix(),
    {
        let mut r: Vec<Vec<u8>> = Vec::new();
        r.push(digit(49));
        r.push(digit(48));
        r.push(digit(48));
        r.push(digit(49));
        r.push(digit(48));
        r.push(digit(48));
        assert(matrix_view(r@) =~= init_matrix());
        r
    }

    fn new() -> (r: Self)
        ensures
            matrix_view(r.matrix@) == init_matrix(),
    {
        TextState {
            matrix: Self::init_matrix(),
            line_matrix: Self::init_matrix(),
            font: None,
            size: None,
        }
    }

    fn matrix_to_3d(v: &Vec<Vec<u8>>) -> (r: Vec<Vec<u8>>)
        requires
            v@.len() == 6,
        ensures
            matrix_view(r@) == seq![
                v@[0]@,
                v@[1]@,
                seq![48u8],
                v@[2]@,
                v@[3]@,
                seq![48u8],
                v@[4]@,
                v@[5]@,
                seq![49u8],
            ],
    {
        let mut result: Vec<Vec<u8>> = Vec::new();
        result.push(copy_u8s(v[0].as_slice()));
        result.push(copy_u8s(v[1].as_slice()));
        result.push(digit(48));
        result.push(copy_u8s(v[2].as_slice()));
        result.push(copy_u8s(v[3].as_slice()));
        result.push(digit(48));
        result.push(copy_u8s(v[4].as_slice()));
        result.push(copy_u8s(v[5].as_slice()));
        result.push(digit(49));
        assert(matrix_view(result@) =~= seq![
            v@[0]@,
            v@[1]@,
            seq![48u8],
            v@[2]@,
            v@[3]@,
            seq![48u8],
            v@[4]@,
            v@[5]@,
            seq![49u8],
        ]);
        result
    }

    fn set_matrices(&mut self, v: &Vec<Vec<u8>>)
        requires
            v@.len() == 6,
        ensures
            matrix_view(final(self).matrix@) == seq![
                v@[0]@,
                v@[1]@,
                seq![48u8],
                v@[2]@,
                v@[3]@,
                seq![48u8],
                v@[4]@,
                v@[5]@,
                seq![49u8],
            ],
    {
        let expected_matrix = Self::matrix_to_3d(v);
        self.line_matrix = Self::matrix_to_3d(v);
        self.matrix = expected_matrix;
    }
}

/// The text interpreter: the tokens, where it is, the lines gathered so far
/// and the text state of the current block.
struct Parser {
    tokens: Vec<ContentToken>,
    offset: usize,
    output: Vec<(i32, Vec<char>)>,
    text_state: TextState,
    out: Ghost<Map<i32, Seq<char>>>,
}

fn pop_number(stack: &mut Vec<Value>) -> (r: Option<Vec<u8>>)
    ensures
        ({
            let s = text_values_view(old(stack)@);
            if s.len() > 0 && s[s.len() - 1] is Number {
                r is Some && r->0@ == num_value(s[s.len() - 1]) && text_values_view(final(stack)@)
                    == s.drop_last()
            } else {
                r is None
            }
        }),
{
    proof {
        lemma_text_values_index(stack@);
        if stack@.len() > 0 {
            lemma_text_values_push(stack@.drop_last(), stack@.last());
            assert(stack@.drop_last().push(stack@.last()) =~= stack@);
        }
    }
    match stack.pop() {
        Some(Value::Number(v)) => Some(v),
        _ => None,
    }
}

fn pop_string(stack: &mut Vec<Value>) -> (r: Option<Vec<char>>)
    ensures
        ({
            let s = text_values_view(old(stack)@);
            if s.len() > 0 && text_of_value(s[s.len() - 1]) is Some {
                r is Some && r->0@ == text_of_value(s[s.len() - 1])->0 && text_values_view(
                    final(stack)@,
                ) == s.drop_last()
            } else {
                r is None
            }
        }),
{
    proof {
        lemma_text_values_index(stack@);
        if stack@.len() > 0 {
            lemma_text_values_push(stack@.drop_last(), stack@.last());
            assert(stack@.drop_last().push(stack@.last()) =~= stack@);
        }
    }
    match stack.pop() {
        Some(Value::Identifier(v)) => Some(v),
        Some(Value::Number(v)) => {
            let t = numeral_text(&v);
            let mut out: Vec<char> = Vec::new();
            let mut i: usize = 0;
            while i < t.len()
                invariant
                    i <= t@.len(),
                    out@ == bytes_chars(t@.take(i as int)),
                decreases t.len() - i,
            {
                out.push(t[i] as char);
                assert(out@ =~= bytes_chars(t@.take(i + 1)));
                i = i + 1;
            }
            assert(t@.take(t@.len() as int) =~= t@);
            Some(out)
        },
        _ => None,
    }
}

fn pop_array(stack: &mut Vec<Value>) -> (r: Option<Vec<Value>>)
    ensures
        ({
            let s = text_values_view(old(stack)@);
            if s.len() > 0 && s[s.len() - 1] is Array {
                r is Some && text_values_view(r->0@) == s[s.len() - 1]->Array_0 && text_values_view(
                    final(stack)@,
                ) == s.drop_last()
            } else {
                r is None
            }
        }),
{
    proof {
        lemma_text_values_index(stack@);
        if stack@.len() > 0 {
            lemma_text_values_push(stack@.drop_last(), stack@.last());
            assert(stack@.drop_last().push(stack@.last()) =~= stack@);
        }
    }
    match stack.pop() {
        Some(Value::Array(v)) => Some(v),
        _ => None,
    }
}

impl Parser {
    spec fn tv(&self) -> Seq<SpecContentToken> {
        text_tokens_view(self.tokens@)
    }

    spec fn wf(&self) -> bool {
        &&& lines_match(self.output@, self.out@)
        &&& self.offset <= self.tokens@.len()
    }

    fn next_token(&mut self) -> (r: Option<ContentToken>)
        ensures
            final(self).tokens == old(self).tokens,
            final(self).output == old(self).output,
            final(self).out == old(self).out,
            final(self).text_state == old(self).text_state,
            if old(self).offset < old(self).tokens@.len() {
                r is Some && r->0@ == old(self).tv()[old(self).offset as int] && final(self).offset
                    == old(self).offset + 1
            } else {
                r is None && final(self).offset == old(self).offset
            },
    {
        let n = self.tokens.len();
        if self.offset >= n {
            return None;
        }
        let tok = clone_token(&self.tokens[self.offset]);
        self.offset = self.offset + 1;
        Some(tok)
    }

    fn is_operator(&self, tok: &ContentToken) -> (r: bool)
        ensures
            r == is_text_operator(tok@),
    {
        match tok {
            ContentToken::TmKeyword | ContentToken::TfKeyword | ContentToken::TjKeyword
            | ContentToken::TJKeyword => true,
            _ => false,
        }
    }

    fn y(&self) -> (r: Option<i32>)
        ensures
            r == matrix_line(matrix_view(self.text_state.matrix@)),
    {
        if self.text_state.matrix.len() > 7 && check_numeral(&self.text_state.matrix[7]) {
            Some(numeral_to_i32(&self.text_state.matrix[7]))
        } else {
            None
        }
    }

    fn add_output(&mut self, str: &[char]) -> (r: bool)
        requires
            old(self).wf(),
        ensures
            final(self).wf(),
            final(self).tokens == old(self).tokens,
            final(self).offset == old(self).offset,
            final(self).text_state == old(self).text_state,
            match matrix_line(matrix_view(old(self).text_state.matrix@)) {
                Some(y) => r && final(self).out@ == add_out(old(self).out@, y, str@),
                None => !r && final(self).out == old(self).out && final(self).output == old(self).output,
            },
    {
        match self.y() {
            Some(y) => {
                add_line(&mut self.output, Ghost(self.out@), y, str);
                self.out = Ghost(add_out(self.out@, y, str@));
                true
            },
            None => false,
        }
    }

    fn process_op(&mut self, stack: &mut Vec<Value>, tok: &ContentToken) -> (r: bool)
        requires
            old(self).wf(),
            is_text_operator(tok@),
        ensures
            final(self).wf(),
            final(self).tokens == old(self).tokens,
            final(self).offset == old(self).offset,
            match spec_op(
                tok@,
                text_values_view(old(stack)@),
                matrix_view(old(self).text_state.matrix@),
                old(self).out@,
            ) {
                Some((st2, m2, o2)) => r && text_values_view(final(stack)@) == st2 && matrix_view(
                    final(self).text_state.matrix@,
                ) == m2 && final(self).out@ == o2,
                None => !r,
            },
    {
        let ghost s0 = text_values_view(stack@);
        let ghost n = s0.len();
        proof {
            lemma_text_values_index(stack@);
        }
        match tok {
            ContentToken::TmKeyword => {
                let mut mat: Vec<Vec<u8>> = Vec::new();
                let mut k: usize = 0;
                while k < 6
                    invariant
                        k <= 6,
                        k <= n,
                        n == s0.len(),
                        s0 == text_values_view(old(stack)@),
                        tok@ is TmKeyword,
                        self.wf(),
                        self.tokens == old(self).tokens,
                        self.offset == old(self).offset,
                        text_values_view(stack@) == s0.take(n - k),
                        mat@.len() == k,
                        forall|i: int| 0 <= i < k ==> #[trigger] s0[n - 1 - i] is Number,
                        forall|i: int| 0 <= i < k ==> (#[trigger] mat@[i])@ == num_value(s0[n - 1 - i]),
                    decreases 6 - k,
                {
                    match pop_number(stack) {
                        Some(v) => {
                            assert(s0.take(n - k)[n - k - 1] == s0[n - 1 - k]);
                            assert(s0.take(n - k).drop_last() =~= s0.take(n - k - 1));
                            mat.push(v);
                        },
                        None => {
                            proof {
                                if k < n {
                                    assert(s0.take(n - k)[n - k - 1] == s0[n - 1 - k]);
                                    assert(!(s0[n - 1 - k] is Number));
                                }
                            }
                            return false;
                        },
                    }
                    k = k + 1;
                }
                assert forall|i: int| n - 6 <= i < n implies #[trigger] s0[i] is Number by {
                    assert(s0[n - 1 - (n - 1 - i)] is Number);
                }
                self.text_state.set_matrices(&mat);
                assert(matrix_view(self.text_state.matrix@) =~= tm_matrix(s0));
                true
            },
            ContentToken::TfKeyword => {
                let size = match pop_number(stack) {
                    Some(v) => v,
                    None => {
                        return false;
                    },
                };
                proof {
                    if n >= 2 {
                        assert(s0.drop_last()[n - 2] == s0[n - 2]);
                    }
                }
                let font = match pop_string(stack) {
                    Some(v) => v,
                    None => {
                        return false;
                    },
                };
                assert(s0.drop_last().drop_last() =~= s0.take(n - 2));
                self.text_state.font = Some(font);
                self.text_state.size = Some(size);
                true
            },
            ContentToken::TjKeyword => {
                let str = match pop_string(stack) {
                    Some(v) => v,
                    None => {
                        return false;
                    },
                };
                assert(s0.drop_last() =~= s0.take(n - 1));
                self.add_output(str.as_slice())
            },
            ContentToken::TJKeyword => {
                let arr = match pop_array(stack) {
                    Some(v) => v,
                    None => {
                        return false;
                    },
                };
                assert(s0.drop_last() =~= s0.take(n - 1));
                let ghost items = text_values_view(arr@);
                let ghost m = matrix_view(self.text_state.matrix@);
                let ghost o0 = self.out@;
                proof {
                    lemma_text_values_index(arr@);
                    assert(items.take(0) =~= Seq::<SpecTextValue>::empty());
                }
                let mut i: usize = 0;
                while i < arr.len()
                    invariant
                        i <= arr@.len(),
                        items == text_values_view(arr@),
                        items.len() == arr@.len(),
                        forall|k: int| 0 <= k < arr@.len() ==> #[trigger] items[k] == text_value_view(arr@[k]),
                        self.wf(),
                        self.tokens == old(self).tokens,
                        self.offset == old(self).offset,
                        matrix_view(self.text_state.matrix@) == m,
                        m == matrix_view(old(self).text_state.matrix@),
                        tj_output(items.take(i as int), m, o0) == Some(self.out@),
                        s0 == text_values_view(old(stack)@),
                        n == s0.len(),
                        n >= 1,
                        s0[n - 1] is Array,
                        items == s0[n - 1]->Array_0,
                        o0 == old(self).out@,
                        tok@ is TJKeyword,
                    decreases arr.len() - i,
                {
                    assert(items.take(i + 1).drop_last() =~= items.take(i as int));
                    assert(items.take(i + 1)[i as int] == items[i as int]);
                    match &arr[i] {
                        Value::Number(_) => {},
                        Value::Identifier(s) => {
                            if !self.add_output(s.as_slice()) {
                                proof {
                                    lemma_tj_none(items, i + 1, m, o0);
                                }
                                return false;
                            }
                        },
                        Value::Array(_) => {
                            proof {
                                lemma_tj_none(items, i + 1, m, o0);
                            }
                            return false;
                        },
                    }
                    i = i + 1;
                }
                assert(items.take(items.len() as int) =~= items);
                true
            },
            _ => false,
        }
    }

    fn parse_parens(&mut self) -> (r: Option<Value>)
        requires
            old(self).wf(),
        ensures
            final(self).wf(),
            final(self).tokens == old(self).tokens,
            final(self).output == old(self).output,
            final(self).out == old(self).out,
            final(self).text_state == old(self).text_state,
            match spec_parse_parens(old(self).tv(), old(self).offset as int) {
                Some((v, j)) => r is Some && r->0@ == v && final(self).offset == j && j > old(self).offset,
                None => r is None,
            },
        decreases old(self).tokens@.len() - old(self).offset,
    {
        let ghost t = self.tv();
        let ghost i0 = self.offset as int;
        let mut stack: Vec<Value> = Vec::new();
        assert(text_values_view(stack@) =~= Seq::<SpecTextValue>::empty());
        let mut done = false;
        while !done
            invariant
                self.wf(),
                self.tokens == old(self).tokens,
                self.output == old(self).output,
                self.out == old(self).out,
                self.text_state == old(self).text_state,
                t == self.tv(),
                i0 == old(self).offset,
                i0 <= self.offset <= t.len(),
                done ==> self.offset > i0 && parens_items(t, i0, Seq::empty()) == Some(
                    (text_values_view(stack@), self.offset as int),
                ),
                !done ==> parens_items(t, i0, Seq::empty()) == parens_items(
                    t,
                    self.offset as int,
                    text_values_view(stack@),
                ),
            decreases t.len() - self.offset, if done {
                0int
            } else {
                1int
            },
        {
            let ghost i = self.offset as int;
            let tok = match self.next_token() {
                Some(t) => t,
                None => {
                    return None;
                },
            };
            match tok {
                ContentToken::RParens => {
                    done = true;
                },
                ContentToken::LParens => {
                    let expr = match self.parse_parens() {
                        Some(v) => v,
                        None => {
                            return None;
                        },
                    };
                    proof {
                        lemma_text_values_push(stack@, expr);
                    }
                    stack.push(expr);
                },
                ContentToken::Identifier(s) => {
                    proof {
                        lemma_text_values_push(stack@, Value::Identifier(s));
                    }
                    stack.push(Value::Identifier(s));
                },
                _ => {
                    return None;
                },
            }
        }
        proof {
            lemma_text_values_index(stack@);
        }
        if stack.len() != 1 {
            return None;
        }
        stack.pop()
    }

    fn parse_array(&mut self) -> (r: Option<Value>)
        requires
            old(self).wf(),
        ensures
            final(self).wf(),
            final(self).tokens == old(self).tokens,
            final(self).output == old(self).output,
            final(self).out == old(self).out,
            final(self).text_state == old(self).text_state,
            match array_items(old(self).tv(), old(self).offset as int, Seq::empty()) {
                Some((items, j)) => r is Some && r->0@ == SpecTextValue::Array(items) && final(self).offset == j && j > old(self).offset,
                None => r is None,
            },
    {
        let ghost t = self.tv();
        let ghost i0 = self.offset as int;
        let mut arr: Vec<Value> = Vec::new();
        assert(text_values_view(arr@) =~= Seq::<SpecTextValue>::empty());
        let mut done = false;
        while !done
            invariant
                self.wf(),
                self.tokens == old(self).tokens,
                self.output == old(self).output,
                self.out == old(self).out,
                self.text_state == old(self).text_state,
                t == self.tv(),
                i0 == old(self).offset,
                i0 <= self.offset <= t.len(),
                done ==> self.offset > i0 && array_items(t, i0, Seq::empty()) == Some(
                    (text_values_view(arr@), self.offset as int),
                ),
                !done ==> array_items(t, i0, Seq::empty()) == array_items(
                    t,
                    self.offset as int,
                    text_values_view(arr@),
                ),
            decreases t.len() - self.offset, if done {
                0int
            } else {
                1int
            },
        {
            let tok = match self.next_token() {
                Some(t) => t,
                None => {
                    return None;
                },
            };
            match tok {
                ContentToken::RBracket => {
                    done = true;
                },
                ContentToken::Number(n) => {
                    proof {
                        lemma_text_values_push(arr@, Value::Number(n));
                    }
                    arr.push(Value::Number(n));
                },
                ContentToken::LParens => {
                    let expr = match self.parse_parens() {
                        Some(v) => v,
                        None => {
                            return None;
                        },
                    };
                    proof {
                        lemma_text_values_push(arr@, expr);
                    }
                    arr.push(expr);
                },
                _ => {
                    return None;
                },
            }
        }
        Some(Value::Array(arr))
    }

    fn reset_text_state(&mut self)
        ensures
            matrix_view(final(self).text_state.matrix@) == init_matrix(),
            final(self).tokens == old(self).tokens,
            final(self).offset == old(self).offset,
            final(self).output == old(self).output,
            final(self).out == old(self).out,
    {
        self.text_state = TextState::new();
    }

    fn parse_text_block(&mut self) -> (r: bool)
        requires
            old(self).wf(),
            old(self).offset < old(self).tokens@.len(),
            old(self).tv()[old(self).offset as int] is BTKeyword,
            matrix_view(old(self).text_state.matrix@) == init_matrix(),
        ensures
            final(self).wf(),
            final(self).tokens == old(self).tokens,
            match spec_block_from(
                old(self).tv(),
                old(self).offset + 1,
                Seq::empty(),
                init_matrix(),
                old(self).out@,
            ) {
                Some((j, o2)) => r && final(self).offset == j && final(self).out@ == o2
                    && matrix_view(final(self).text_state.matrix@) == init_matrix(),
                None => !r,
            },
    {
        let ghost t = self.tv();
        let ghost b0 = self.offset + 1;
        let ghost o0 = self.out@;
        let first = self.next_token();
        let mut stack: Vec<Value> = Vec::new();
        assert(text_values_view(stack@) =~= Seq::<SpecTextValue>::empty());
        let mut tok = match self.next_token() {
            Some(t) => t,
            None => {
                return false;
            },
        };
        while !matches!(tok, ContentToken::ETKeyword)
            invariant
                self.wf(),
                self.tokens == old(self).tokens,
                t == self.tv(),
                b0 == old(self).offset + 1,
                o0 == old(self).out@,
                1 <= self.offset <= t.len(),
                tok@ == t[self.offset - 1],
                spec_block_from(t, b0, Seq::empty(), init_matrix(), o0) == spec_block_from(
                    t,
                    self.offset - 1,
                    text_values_view(stack@),
                    matrix_view(self.text_state.matrix@),
                    self.out@,
                ),
            decreases t.len() - self.offset,
        {
            if self.is_operator(&tok) {
                if !self.process_op(&mut stack, &tok) {
                    return false;
                }
            } else {
                match tok {
                    ContentToken::Identifier(s) => {
                        proof {
                            lemma_text_values_push(stack@, Value::Identifier(s));
                        }
                        stack.push(Value::Identifier(s));
                    },
                    ContentToken::LParens => {
                        let v = match self.parse_parens() {
                            Some(v) => v,
                            None => {
                                return false;
                            },
                        };
                        proof {
                            lemma_text_values_push(stack@, v);
                        }
                        stack.push(v);
                    },
                    ContentToken::LBracket => {
                        let v = match self.parse_array() {
                            Some(v) => v,
                            None => {
                                return false;
                            },
                        };
                        proof {
                            lemma_text_values_push(stack@, v);
                        }
                        stack.push(v);
                    },
                    ContentToken::Number(n) => {
                        proof {
                            lemma_text_values_push(stack@, Value::Number(n));
                        }
                        stack.push(Value::Number(n));
                    },
                    _ => {
                        return false;
                    },
                }
            }
            assert(spec_block_from(t, b0, Seq::empty(), init_matrix(), o0) == spec_block_from(
                t,
                self.offset as int,
                text_values_view(stack@),
                matrix_view(self.text_state.matrix@),
                self.out@,
            ));
            tok = match self.next_token() {
                Some(t) => t,
                None => {
                    return false;
                },
            };
        }
        proof {
            lemma_text_values_index(stack@);
        }
        if stack.len() != 0 {
            return false;
        }
        self.reset_text_state();
        true
    }

    fn parse_program(&mut self) -> (r: bool)
        requires
            old(self).wf(),
            matrix_view(old(self).text_state.matrix@) == init_matrix(),
        ensures
            final(self).wf(),
            match spec_program_from(old(self).tv(), old(self).offset as int, old(self).out@) {
                Some(o) => r && final(self).out@ == o,
                None => !r,
            },
    {
        let ghost t = self.tv();
        while self.offset < self.tokens.len()
            invariant
                self.wf(),
                t == self.tv(),
                t == old(self).tv(),
                matrix_view(self.text_state.matrix@) == init_matrix(),
                spec_program_from(t, old(self).offset as int, old(self).out@) == spec_program_from(
                    t,
                    self.offset as int,
                    self.out@,
                ),
            decreases t.len() - self.offset,
        {
            let ghost i = self.offset as int;
            assert(t[i] == self.tokens@[i]@);
            let is_bt = match &self.tokens[self.offset] {
                ContentToken::BTKeyword => true,
                _ => false,
            };
            proof {
                lemma_block_bounds(t, i + 1, Seq::empty(), init_matrix(), self.out@);
            }
            if is_bt {
                if !self.parse_text_block() {
                    return false;
                }
                if self.offset >= self.tokens.len() {
                    return true;
                }
            }
            self.offset = self.offset + 1;
        }
        true
    }
}


/// The text of a content stream's characters, line by line from the
/// highest line down, or `None` where the stream cannot be read.
pub fn try_parse_stream(result: Vec<char>) -> (r: Option<Vec<(i32, Vec<char>)>>)
    ensures
        match spec_parse_stream(result@) {
            Some(o) => r is Some && lines_match(r->0@, o),
            None => r is None,
        },
{
    let tokens = match try_tokenize_stream(result) {
        Some(t) => t,
        None => {
            return None;
        },
    };
    let mut parser = Parser {
        tokens,
        offset: 0,
        output: Vec::new(),
        text_state: TextState::new(),
        out: Ghost(Map::empty()),
    };
    assert(lines_match(parser.output@, parser.out@));
    if !parser.parse_program() {
        return None;
    }
    Some(parser.output)
}

/// The text of a content stream's characters, line by line from the
/// highest line down.
pub fn parse_stream(result: Vec<char>) -> (r: Vec<(i32, Vec<char>)>)
    requires
        spec_parse_stream(result@) is Some,
    ensures
        lines_match(r@, spec_parse_stream(result@)->0),
{
    match try_parse_stream(result) {
        Some(lines) => lines,
        None => vstd::pervasive::unreached(),
    }
}

} // verus!
