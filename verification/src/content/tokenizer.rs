//! The tokenizer for page content streams.
//!
//! A content stream is read into operands (numbers, names, strings, arrays,
//! dictionaries) and operators (keywords).  Numbers are kept as their
//! numeral text.

use vstd::prelude::*;
use crate::chars::{
    is_numeric, is_whitespace, spec_is_numeric, spec_is_whitespace, BACKSLASH, LANGLE, LBRACKET,
    LPAREN, MINUS, RANGLE, RBRACKET, RPAREN, SLASH, STAR,
};
use crate::name_map::{
    entries_insert, entries_view, find_key, lemma_empty_view, lemma_insert_view, spec_insert,
};
use crate::tokenizer::{
    lemma_lex_number_advances, lemma_lex_word_advances, lemma_skip_ws, lemma_word_end, number_end,
    skip_ws, spec_is_number_char, spec_lex_number, spec_lex_word, spec_peek, Tokenizer,
};
use crate::chars::spec_is_identifier_char;
use crate::numeral::is_valid_numeral;

verus! {

#[derive(Debug, PartialEq)]
pub enum Token {
    Number(Vec<u8>),
    Identifier(Vec<u8>),
    StringBytes(Vec<u8>),
    Array(Vec<Token>),
    Dict(Vec<(Vec<u8>, Token)>),
    SaveGraphicsState,
    RestoreGraphicsState,
    Rect,
    W,
    WStar,
    N,
    CsStroke,
    CsNoStroke,
    SetColourStroke,
    SetColourNoStroke,
    Fill,
    FillStar,
    I,
    CmStroke,
    BT,
    Tm,
    Tf,
    Tj,
    TJ,
    ET,
    M,
    L,
    H,
    V,
    Y,
    C,
    BMC,
    BDC,
    EMC,
    GS,
    GNonStroke,
    GStroke,
    RGNonStroke,
    RGStroke,
    WLineWidth,
    LineCap,
    LineJoin,
    Stroke,
    CharSpacing,
    Do,
    Null,
}

/// What a token stands for.
pub enum SpecToken {
    Number(Seq<u8>),
    Identifier(Seq<u8>),
    StringBytes(Seq<u8>),
    Array(Seq<SpecToken>),
    Dict(Map<Seq<u8>, SpecToken>),
    SaveGraphicsState,
    RestoreGraphicsState,
    Rect,
    W,
    WStar,
    N,
    CsStroke,
    CsNoStroke,
    SetColourStroke,
    SetColourNoStroke,
    Fill,
    FillStar,
    I,
    CmStroke,
    BT,
    Tm,
    Tf,
    Tj,
    TJ,
    ET,
    M,
    L,
    H,
    V,
    Y,
    C,
    BMC,
    BDC,
    EMC,
    GS,
    GNonStroke,
    GStroke,
    RGNonStroke,
    RGStroke,
    WLineWidth,
    LineCap,
    LineJoin,
    Stroke,
    CharSpacing,
    Do,
    Null,
}

pub open spec fn token_view(t: Token) -> SpecToken
    decreases t,
{
    match t {
        Token::Number(v) => SpecToken::Number(v@),
        Token::Identifier(v) => SpecToken::Identifier(v@),
        Token::StringBytes(v) => SpecToken::StringBytes(v@),
        Token::Array(v) => SpecToken::Array(tokens_view(v@)),
        Token::Dict(m) => SpecToken::Dict(dict_entries_view(m@)),
        Token::SaveGraphicsState => SpecToken::SaveGraphicsState,
        Token::RestoreGraphicsState => SpecToken::RestoreGraphicsState,
        Token::Rect => SpecToken::Rect,
        Token::W => SpecToken::W,
        Token::WStar => SpecToken::WStar,
        Token::N => SpecToken::N,
        Token::CsStroke => SpecToken::CsStroke,
        Token::CsNoStroke => SpecToken::CsNoStroke,
        Token::SetColourStroke => SpecToken::SetColourStroke,
        Token::SetColourNoStroke => SpecToken::SetColourNoStroke,
        Token::Fill => SpecToken::Fill,
        Token::FillStar => SpecToken::FillStar,
        Token::I => SpecToken::I,
        Token::CmStroke => SpecToken::CmStroke,
        Token::BT => SpecToken::BT,
        Token::Tm => SpecToken::Tm,
        Token::Tf => SpecToken::Tf,
        Token::Tj => SpecToken::Tj,
        Token::TJ => SpecToken::TJ,
        Token::ET => SpecToken::ET,
        Token::M => SpecToken::M,
        Token::L => SpecToken::L,
        Token::H => SpecToken::H,
        Token::V => SpecToken::V,
        Token::Y => SpecToken::Y,
        Token::C => SpecToken::C,
        Token::BMC => SpecToken::BMC,
        Token::BDC => SpecToken::BDC,
        Token::EMC => SpecToken::EMC,
        Token::GS => SpecToken::GS,
        Token::GNonStroke => SpecToken::GNonStroke,
        Token::GStroke => SpecToken::GStroke,
        Token::RGNonStroke => SpecToken::RGNonStroke,
        Token::RGStroke => SpecToken::RGStroke,
        Token::WLineWidth => SpecToken::WLineWidth,
        Token::LineCap => SpecToken::LineCap,
        Token::LineJoin => SpecToken::LineJoin,
        Token::Stroke => SpecToken::Stroke,
        Token::CharSpacing => SpecToken::CharSpacing,
        Token::Do => SpecToken::Do,
        Token::Null => SpecToken::Null,
    }
}

pub open spec fn tokens_view(s: Seq<Token>) -> Seq<SpecToken>
    decreases s,
{
    if s.len() == 0 {
        Seq::empty()
    } else {
        tokens_view(s.drop_last()).push(token_view(s[s.len() - 1]))
    }
}

/// The map that dictionary entries stand for; the first entry of a key counts.
pub open spec fn dict_entries_view(s: Seq<(Vec<u8>, Token)>) -> Map<Seq<u8>, SpecToken>
    decreases s,
{
    if s.len() == 0 {
        Map::empty()
    } else {
        let m = dict_entries_view(s.drop_last());
        let e = s[s.len() - 1];
        if m.contains_key(e.0@) {
            m
        } else {
            m.insert(e.0@, token_view(e.1))
        }
    }
}

impl View for Token {
    type V = SpecToken;

    open spec fn view(&self) -> SpecToken {
        token_view(*self)
    }
}

pub proof fn lemma_tokens_view_push(s: Seq<Token>, t: Token)
    ensures
        tokens_view(s.push(t)) == tokens_view(s).push(token_view(t)),
{
    assert(s.push(t).drop_last() =~= s);
}

pub proof fn lemma_tokens_view_len(s: Seq<Token>)
    ensures
        tokens_view(s).len() == s.len(),
        forall|i: int| 0 <= i < s.len() ==> #[trigger] tokens_view(s)[i] == token_view(s[i]),
    decreases s.len(),
{
    if s.len() > 0 {
        lemma_tokens_view_len(s.drop_last());
        assert forall|i: int| 0 <= i < s.len() implies #[trigger] tokens_view(s)[i] == token_view(
            s[i],
        ) by {
            if i < s.len() - 1 {
                assert(s.drop_last()[i] == s[i]);
            }
        }
    }
}

/// The first-entry fold and the map of the entries agree.
pub proof fn lemma_dict_entries_view(s: Seq<(Vec<u8>, Token)>)
    ensures
        dict_entries_view(s) == entries_view(s, |t: Token| token_view(t)),
    decreases s.len(),
{
    let f = |t: Token| token_view(t);
    if s.len() == 0 {
        lemma_empty_view(s, f);
    } else {
        let init = s.drop_last();
        lemma_dict_entries_view(init);
        crate::name_map::lemma_find_key(init, s.last().0@);
        assert forall|k: Seq<u8>| #[trigger] find_key(s, k) == (if find_key(init, k) >= 0 {
            find_key(init, k)
        } else if s.last().0@ == k {
            s.len() - 1
        } else {
            -1
        }) by {}
        assert forall|i: int| 0 <= i < init.len() implies #[trigger] init[i] == s[i] by {}
        let last = s[s.len() - 1];
        assert forall|k: Seq<u8>| #[trigger] dict_entries_view(s).contains_key(k) == entries_view(
            s,
            f,
        ).contains_key(k) by {
            crate::name_map::lemma_find_key(init, k);
        }
        assert forall|k: Seq<u8>| #[trigger] dict_entries_view(s).contains_key(k) implies dict_entries_view(
            s,
        )[k] == entries_view(s, f)[k] by {
            crate::name_map::lemma_find_key(init, k);
            if find_key(init, k) >= 0 {
                assert(s[find_key(s, k)] == init[find_key(init, k)]);
            }
        }
        assert(dict_entries_view(s) =~= entries_view(s, f));
    }
}

/// The operator a word names, if any.
pub open spec fn spec_content_keyword(w: Seq<u8>) -> Option<SpecToken> {
    if w.len() == 2 && w[0] == 83u8 && w[1] == 67u8 {
        Some(SpecToken::SetColourStroke)
    } else if w.len() == 2 && w[0] == 115u8 && w[1] == 99u8 {
        Some(SpecToken::SetColourNoStroke)
    } else if w.len() == 1 && w[0] == 105u8 {
        Some(SpecToken::I)
    } else if w.len() == 2 && w[0] == 99u8 && w[1] == 115u8 {
        Some(SpecToken::CsNoStroke)
    } else if w.len() == 2 && w[0] == 67u8 && w[1] == 83u8 {
        Some(SpecToken::CsStroke)
    } else if w.len() == 2 && w[0] == 99u8 && w[1] == 109u8 {
        Some(SpecToken::CmStroke)
    } else if w.len() == 2 && w[0] == 66u8 && w[1] == 84u8 {
        Some(SpecToken::BT)
    } else if w.len() == 2 && w[0] == 84u8 && w[1] == 109u8 {
        Some(SpecToken::Tm)
    } else if w.len() == 2 && w[0] == 84u8 && w[1] == 102u8 {
        Some(SpecToken::Tf)
    } else if w.len() == 2 && w[0] == 84u8 && w[1] == 106u8 {
        Some(SpecToken::Tj)
    } else if w.len() == 2 && w[0] == 69u8 && w[1] == 84u8 {
        Some(SpecToken::ET)
    } else if w.len() == 2 && w[0] == 84u8 && w[1] == 74u8 {
        Some(SpecToken::TJ)
    } else if w.len() == 2 && w[0] == 114u8 && w[1] == 101u8 {
        Some(SpecToken::Rect)
    } else if w.len() == 1 && w[0] == 109u8 {
        Some(SpecToken::M)
    } else if w.len() == 1 && w[0] == 108u8 {
        Some(SpecToken::L)
    } else if w.len() == 1 && w[0] == 104u8 {
        Some(SpecToken::H)
    } else if w.len() == 1 && w[0] == 118u8 {
        Some(SpecToken::V)
    } else if w.len() == 1 && w[0] == 99u8 {
        Some(SpecToken::C)
    } else if w.len() == 1 && w[0] == 121u8 {
        Some(SpecToken::Y)
    } else if w.len() == 3 && w[0] == 66u8 && w[1] == 68u8 && w[2] == 67u8 {
        Some(SpecToken::BDC)
    } else if w.len() == 3 && w[0] == 69u8 && w[1] == 77u8 && w[2] == 67u8 {
        Some(SpecToken::EMC)
    } else if w.len() == 3 && w[0] == 66u8 && w[1] == 77u8 && w[2] == 67u8 {
        Some(SpecToken::BMC)
    } else if w.len() == 2 && w[0] == 103u8 && w[1] == 115u8 {
        Some(SpecToken::GS)
    } else if w.len() == 1 && w[0] == 103u8 {
        Some(SpecToken::GNonStroke)
    } else if w.len() == 1 && w[0] == 71u8 {
        Some(SpecToken::GStroke)
    } else if w.len() == 2 && w[0] == 114u8 && w[1] == 103u8 {
        Some(SpecToken::RGNonStroke)
    } else if w.len() == 2 && w[0] == 82u8 && w[1] == 71u8 {
        Some(SpecToken::RGStroke)
    } else if w.len() == 1 && w[0] == 119u8 {
        Some(SpecToken::WLineWidth)
    } else if w.len() == 1 && w[0] == 74u8 {
        Some(SpecToken::LineCap)
    } else if w.len() == 1 && w[0] == 106u8 {
        Some(SpecToken::LineJoin)
    } else if w.len() == 1 && w[0] == 83u8 {
        Some(SpecToken::Stroke)
    } else if w.len() == 2 && w[0] == 84u8 && w[1] == 99u8 {
        Some(SpecToken::CharSpacing)
    } else if w.len() == 2 && w[0] == 68u8 && w[1] == 111u8 {
        Some(SpecToken::Do)
    } else if w.len() == 1 && w[0] == 81u8 {
        Some(SpecToken::RestoreGraphicsState)
    } else if w.len() == 1 && w[0] == 113u8 {
        Some(SpecToken::SaveGraphicsState)
    } else if w.len() == 1 && w[0] == 110u8 {
        Some(SpecToken::N)
    } else {
        None
    }
}

/// The bytes of a string after its `(`, up to the `)` that closes it.
/// Parentheses nest; a backslash keeps the byte after it.
pub open spec fn content_string_body(d: Seq<u8>, p: int, depth: nat, acc: Seq<u8>) -> Option<
    (Seq<u8>, int),
>
    decreases d.len() - p,
{
    if depth == 0 || !(0 <= p < d.len()) {
        Some((acc, p))
    } else if d[p] == BACKSLASH {
        if p + 1 < d.len() {
            content_string_body(d, p + 2, depth, acc.push(d[p]).push(d[p + 1]))
        } else {
            None
        }
    } else if d[p] == RPAREN {
        if depth > 1 {
            content_string_body(d, p + 1, (depth - 1) as nat, acc.push(d[p]))
        } else {
            content_string_body(d, p + 1, 0, acc)
        }
    } else if d[p] == LPAREN {
        content_string_body(d, p + 1, depth + 1, acc.push(d[p]))
    } else {
        content_string_body(d, p + 1, depth, acc.push(d[p]))
    }
}

/// The token that starts after the whitespace at `p`, and where it ends.
pub open spec fn lex_value(d: Seq<u8>, p: int) -> Option<(SpecToken, int)>
    decreases d.len() - p, 0int,
{
    if !(0 <= p <= d.len()) {
        None
    } else {
        let p1 = skip_ws(d, p);
        proof {
            lemma_skip_ws(d, p);
        }
        if p1 >= d.len() {
            None
        } else {
            let c = d[p1];
            if c == 87u8 {
                if spec_peek(d, p1 + 1) == Some(STAR) {
                    Some((SpecToken::WStar, p1 + 2))
                } else {
                    Some((SpecToken::W, p1 + 1))
                }
            } else if c == 102u8 {
                if spec_peek(d, p1 + 1) == Some(STAR) {
                    Some((SpecToken::FillStar, p1 + 2))
                } else {
                    Some((SpecToken::Fill, p1 + 1))
                }
            } else if c == SLASH {
                match spec_lex_word(d, p1 + 1) {
                    Some((w, q)) => Some((SpecToken::Identifier(w), q)),
                    None => None,
                }
            } else if c == LPAREN {
                match content_string_body(d, p1 + 1, 1, Seq::empty()) {
                    Some((s, q)) => Some((SpecToken::StringBytes(s), q)),
                    None => None,
                }
            } else if c == 0 {
                Some((SpecToken::Null, p1 + 1))
            } else if c == LBRACKET {
                lex_array(d, p1 + 1, Seq::empty())
            } else if c == LANGLE && spec_peek(d, p1 + 1) == Some(LANGLE) {
                lex_dict(d, p1 + 2, Map::empty())
            } else if spec_is_numeric(c) || c == MINUS {
                match spec_lex_number(d, p1) {
                    Some((n, q)) => Some((SpecToken::Number(n), q)),
                    None => None,
                }
            } else {
                match spec_lex_word(d, p1) {
                    Some((w, q)) => match spec_content_keyword(w) {
                        Some(t) => Some((t, q)),
                        None => None,
                    },
                    None => None,
                }
            }
        }
    }
}

/// The rest of an array whose items so far are `acc`: items up to `]`; an
/// array inside an array is refused.
pub open spec fn lex_array(d: Seq<u8>, p: int, acc: Seq<SpecToken>) -> Option<(SpecToken, int)>
    decreases d.len() - p, 1int,
{
    if !(0 <= p <= d.len()) {
        None
    } else {
        let p1 = skip_ws(d, p);
        proof {
            lemma_skip_ws(d, p);
        }
        if p1 >= d.len() {
            None
        } else if d[p1] == RBRACKET {
            Some((SpecToken::Array(acc), p1 + 1))
        } else if d[p1] == LBRACKET {
            None
        } else {
            match lex_value(d, p1) {
                Some((t, q)) => if p1 < q <= d.len() {
                    lex_array(d, q, acc.push(t))
                } else {
                    None
                },
                None => None,
            }
        }
    }
}

/// The rest of a dictionary whose entries so far are `acc`: `/key value`
/// pairs up to `>>`.
pub open spec fn lex_dict(d: Seq<u8>, p: int, acc: Map<Seq<u8>, SpecToken>) -> Option<
    (SpecToken, int),
>
    decreases d.len() - p, 1int,
{
    if !(0 <= p <= d.len()) {
        None
    } else {
        let p1 = skip_ws(d, p);
        proof {
            lemma_skip_ws(d, p);
        }
        if p1 >= d.len() {
            None
        } else if d[p1] == RANGLE {
            if spec_peek(d, p1 + 1) == Some(RANGLE) {
                Some((SpecToken::Dict(acc), p1 + 2))
            } else {
                None
            }
        } else if d[p1] != SLASH {
            None
        } else {
            match spec_lex_word(d, p1 + 1) {
                Some((w, q1)) => {
                    proof {
                        lemma_lex_word_advances(d, p1 + 1);
                    }
                    match lex_value(d, q1) {
                        Some((t, q2)) => if p1 < q2 <= d.len() {
                            lex_dict(d, q2, acc.insert(w, t))
                        } else {
                            None
                        },
                        None => None,
                    }
                },
                None => None,
            }
        }
    }
}

/// The tokens of `d` from position `p` on; `None` where the stream cannot be
/// read (an unknown keyword, a malformed number, an unclosed array or
/// dictionary, a nested array, a backslash as the last byte).
pub open spec fn spec_tokenize_from(d: Seq<u8>, p: int) -> Option<Seq<SpecToken>>
    decreases d.len() - p,
{
    if !(0 <= p < d.len()) {
        Some(Seq::empty())
    } else if spec_is_whitespace(d[p]) {
        spec_tokenize_from(d, p + 1)
    } else {
        match lex_value(d, p) {
            Some((t, q)) => if p < q <= d.len() {
                match spec_tokenize_from(d, q) {
                    Some(rest) => Some(seq![t] + rest),
                    None => None,
                }
            } else {
                None
            },
            None => None,
        }
    }
}

/// The tokens of a content stream.
pub open spec fn spec_tokenize_stream(d: Seq<u8>) -> Option<Seq<SpecToken>> {
    spec_tokenize_from(d, 0)
}

pub proof fn lemma_string_body_bounds(d: Seq<u8>, p: int, depth: nat, acc: Seq<u8>)
    requires
        0 <= p <= d.len(),
    ensures
        content_string_body(d, p, depth, acc) matches Some((s, q)) ==> p <= q <= d.len(),
    decreases d.len() - p,
{
    if depth == 0 || !(0 <= p < d.len()) {
    } else if d[p] == BACKSLASH {
        if p + 1 < d.len() {
            lemma_string_body_bounds(d, p + 2, depth, acc.push(d[p]).push(d[p + 1]));
        }
    } else if d[p] == RPAREN {
        if depth > 1 {
            lemma_string_body_bounds(d, p + 1, (depth - 1) as nat, acc.push(d[p]));
        } else {
            lemma_string_body_bounds(d, p + 1, 0, acc);
        }
    } else if d[p] == LPAREN {
        lemma_string_body_bounds(d, p + 1, depth + 1, acc.push(d[p]));
    } else {
        lemma_string_body_bounds(d, p + 1, depth, acc.push(d[p]));
    }
}

/// Every token read is at least one byte long.
pub proof fn lemma_value_advances(d: Seq<u8>, p: int)
    requires
        0 <= p <= d.len(),
    ensures
        lex_value(d, p) matches Some((t, q)) ==> p < q <= d.len(),
    decreases d.len() - p, 0int,
{
    lemma_skip_ws(d, p);
    let p1 = skip_ws(d, p);
    if p1 < d.len() {
        let c = d[p1];
        if c == SLASH {
            lemma_lex_word_advances(d, p1 + 1);
        } else if c == LPAREN {
            lemma_string_body_bounds(d, p1 + 1, 1, Seq::empty());
        } else if c == LBRACKET {
            lemma_array_advances(d, p1 + 1, Seq::empty());
        } else if c == LANGLE && spec_peek(d, p1 + 1) == Some(LANGLE) {
            lemma_dict_advances(d, p1 + 2, Map::empty());
        } else if spec_is_numeric(c) || c == MINUS {
            lemma_lex_number_advances(d, p1);
        } else {
            lemma_lex_word_advances(d, p1);
        }
    }
}

pub proof fn lemma_array_advances(d: Seq<u8>, p: int, acc: Seq<SpecToken>)
    requires
        0 <= p <= d.len(),
    ensures
        lex_array(d, p, acc) matches Some((t, q)) ==> p < q <= d.len(),
    decreases d.len() - p, 1int,
{
    lemma_skip_ws(d, p);
    let p1 = skip_ws(d, p);
    if p1 < d.len() && d[p1] != RBRACKET && d[p1] != LBRACKET {
        lemma_value_advances(d, p1);
        match lex_value(d, p1) {
            Some((t, q)) => {
                if p1 < q <= d.len() {
                    lemma_array_advances(d, q, acc.push(t));
                }
            },
            None => {},
        }
    }
}

pub proof fn lemma_dict_advances(d: Seq<u8>, p: int, acc: Map<Seq<u8>, SpecToken>)
    requires
        0 <= p <= d.len(),
    ensures
        lex_dict(d, p, acc) matches Some((t, q)) ==> p < q <= d.len(),
    decreases d.len() - p, 1int,
{
    lemma_skip_ws(d, p);
    let p1 = skip_ws(d, p);
    if p1 < d.len() && d[p1] != RANGLE && d[p1] == SLASH {
        lemma_lex_word_advances(d, p1 + 1);
        match spec_lex_word(d, p1 + 1) {
            Some((w, q1)) => {
                lemma_value_advances(d, q1);
                match lex_value(d, q1) {
                    Some((t, q2)) => {
                        if p1 < q2 <= d.len() {
                            lemma_dict_advances(d, q2, acc.insert(w, t));
                        }
                    },
                    None => {},
                }
            },
            None => {},
        }
    }
}

struct ContentTokenizer {
    data: Vec<u8>,
    offset: usize,
}

impl Tokenizer<Token> for ContentTokenizer {
    closed spec fn data_view(&self) -> Seq<u8> {
        self.data@
    }

    closed spec fn offset_view(&self) -> int {
        self.offset as int
    }

    closed spec fn spec_token_from_word(word: Seq<u8>) -> Option<SpecToken> {
        spec_content_keyword(word)
    }

    fn token_from_word(&self, w: &Vec<u8>) -> (r: Option<Token>) {
        if w.len() == 2 && w[0] == 83u8 && w[1] == 67u8 {
            Some(Token::SetColourStroke)
        } else if w.len() == 2 && w[0] == 115u8 && w[1] == 99u8 {
            Some(Token::SetColourNoStroke)
        } else if w.len() == 1 && w[0] == 105u8 {
            Some(Token::I)
        } else if w.len() == 2 && w[0] == 99u8 && w[1] == 115u8 {
            Some(Token::CsNoStroke)
        } else if w.len() == 2 && w[0] == 67u8 && w[1] == 83u8 {
            Some(Token::CsStroke)
        } else if w.len() == 2 && w[0] == 99u8 && w[1] == 109u8 {
            Some(Token::CmStroke)
        } else if w.len() == 2 && w[0] == 66u8 && w[1] == 84u8 {
            Some(Token::BT)
        } else if w.len() == 2 && w[0] == 84u8 && w[1] == 109u8 {
            Some(Token::Tm)
        } else if w.len() == 2 && w[0] == 84u8 && w[1] == 102u8 {
            Some(Token::Tf)
        } else if w.len() == 2 && w[0] == 84u8 && w[1] == 106u8 {
            Some(Token::Tj)
        } else if w.len() == 2 && w[0] == 69u8 && w[1] == 84u8 {
            Some(Token::ET)
        } else if w.len() == 2 && w[0] == 84u8 && w[1] == 74u8 {
            Some(Token::TJ)
        } else if w.len() == 2 && w[0] == 114u8 && w[1] == 101u8 {
            Some(Token::Rect)
        } else if w.len() == 1 && w[0] == 109u8 {
            Some(Token::M)
        } else if w.len() == 1 && w[0] == 108u8 {
            Some(Token::L)
        } else if w.len() == 1 && w[0] == 104u8 {
            Some(Token::H)
        } else if w.len() == 1 && w[0] == 118u8 {
            Some(Token::V)
        } else if w.len() == 1 && w[0] == 99u8 {
            Some(Token::C)
        } else if w.len() == 1 && w[0] == 121u8 {
            Some(Token::Y)
        } else if w.len() == 3 && w[0] == 66u8 && w[1] == 68u8 && w[2] == 67u8 {
            Some(Token::BDC)
        } else if w.len() == 3 && w[0] == 69u8 && w[1] == 77u8 && w[2] == 67u8 {
            Some(Token::EMC)
        } else if w.len() == 3 && w[0] == 66u8 && w[1] == 77u8 && w[2] == 67u8 {
            Some(Token::BMC)
        } else if w.len() == 2 && w[0] == 103u8 && w[1] == 115u8 {
            Some(Token::GS)
        } else if w.len() == 1 && w[0] == 103u8 {
            Some(Token::GNonStroke)
        } else if w.len() == 1 && w[0] == 71u8 {
            Some(Token::GStroke)
        } else if w.len() == 2 && w[0] == 114u8 && w[1] == 103u8 {
            Some(Token::RGNonStroke)
        } else if w.len() == 2 && w[0] == 82u8 && w[1] == 71u8 {
            Some(Token::RGStroke)
        } else if w.len() == 1 && w[0] == 119u8 {
            Some(Token::WLineWidth)
        } else if w.len() == 1 && w[0] == 74u8 {
            Some(Token::LineCap)
        } else if w.len() == 1 && w[0] == 106u8 {
            Some(Token::LineJoin)
        } else if w.len() == 1 && w[0] == 83u8 {
            Some(Token::Stroke)
        } else if w.len() == 2 && w[0] == 84u8 && w[1] == 99u8 {
            Some(Token::CharSpacing)
        } else if w.len() == 2 && w[0] == 68u8 && w[1] == 111u8 {
            Some(Token::Do)
        } else if w.len() == 1 && w[0] == 81u8 {
            Some(Token::RestoreGraphicsState)
        } else if w.len() == 1 && w[0] == 113u8 {
            Some(Token::SaveGraphicsState)
        } else if w.len() == 1 && w[0] == 110u8 {
            Some(Token::N)
        } else {
            None
        }
    }

    fn peek_u8(&self) -> (r: u8) {
        self.data[self.offset]
    }

    fn step_ahead(&mut self) {
        proof {
            assert(self.offset < self.data.len());
        }
        self.offset = self.offset + 1;
    }

    fn has_next(&self) -> (r: bool) {
        self.offset < self.data.len()
    }
}

impl ContentTokenizer {
    fn new(data: Vec<u8>) -> (r: Self)
        ensures
            r.data@ == data@,
            r.offset == 0,
    {
        ContentTokenizer { data, offset: 0 }
    }

    /// `W` or `W*`.
    fn lex_w(&mut self) -> (r: Token)
        requires
            old(self).offset < old(self).data@.len(),
        ensures
            final(self).data@ == old(self).data@,
            if spec_peek(old(self).data@, old(self).offset + 1) == Some(STAR) {
                r@ == SpecToken::WStar && final(self).offset == old(self).offset + 2
            } else {
                r@ == SpecToken::W && final(self).offset == old(self).offset + 1
            },
    {
        self.step_ahead();
        if self.eat_char(STAR) {
            Token::WStar
        } else {
            Token::W
        }
    }

    /// `f` or `f*`.
    fn lex_f(&mut self) -> (r: Token)
        requires
            old(self).offset < old(self).data@.len(),
        ensures
            final(self).data@ == old(self).data@,
            if spec_peek(old(self).data@, old(self).offset + 1) == Some(STAR) {
                r@ == SpecToken::FillStar && final(self).offset == old(self).offset + 2
            } else {
                r@ == SpecToken::Fill && final(self).offset == old(self).offset + 1
            },
    {
        self.step_ahead();
        if self.eat_char(STAR) {
            Token::FillStar
        } else {
            Token::Fill
        }
    }

    /// A name: `/` and the word after it.
    fn lex_identifier(&mut self) -> (r: Option<Token>)
        requires
            old(self).offset < old(self).data@.len(),
        ensures
            final(self).data@ == old(self).data@,
            final(self).offset <= final(self).data@.len(),
            match spec_lex_word(old(self).data@, old(self).offset + 1) {
                Some((w, q)) => r is Some && r->0@ == SpecToken::Identifier(w)
                    && final(self).offset == q,
                None => r is None,
            },
    {
        self.step_ahead();
        proof {
            lemma_lex_word_advances(self.data@, self.offset as int);
        }
        match self.lex_word() {
            Some(id) => Some(Token::Identifier(id)),
            None => None,
        }
    }

    /// A string: the bytes between `(` and the `)` that closes it.
    fn lex_string(&mut self) -> (r: Option<Token>)
        requires
            old(self).offset < old(self).data@.len(),
        ensures
            final(self).data@ == old(self).data@,
            final(self).offset <= final(self).data@.len(),
            match content_string_body(old(self).data@, old(self).offset + 1, 1, Seq::empty()) {
                Some((s, q)) => r is Some && r->0@ == SpecToken::StringBytes(s)
                    && final(self).offset == q,
                None => r is None,
            },
    {
        self.step_ahead();
        let ghost d = self.data@;
        let ghost start = self.offset as int;
        let mut bytes: Vec<u8> = Vec::new();
        let mut depth: usize = 1;
        while depth > 0 && self.has_next()
            invariant
                self.data@ == d,
                d == old(self).data@,
                start == old(self).offset + 1,
                start <= self.offset <= d.len(),
                1 <= start,
                depth <= self.offset,
                content_string_body(d, self.offset as int, depth as nat, bytes@)
                    == content_string_body(d, start, 1, Seq::empty()),
            decreases d.len() - self.offset,
        {
            let mm = self.lex_char();
            if mm == BACKSLASH {
                bytes.push(mm);
                if !self.has_next() {
                    return None;
                }
                let nb = self.lex_char();
                bytes.push(nb);
            } else if mm == RPAREN {
                depth = depth - 1;
                if depth > 0 {
                    bytes.push(mm);
                }
            } else if mm == LPAREN {
                depth = depth + 1;
                bytes.push(mm);
            } else {
                bytes.push(mm);
            }
        }
        Some(Token::StringBytes(bytes))
    }

    /// An operator.
    fn lex_keyword(&mut self) -> (r: Option<Token>)
        requires
            old(self).offset <= old(self).data@.len(),
        ensures
            final(self).data@ == old(self).data@,
            final(self).offset <= final(self).data@.len(),
            match spec_lex_word(old(self).data@, old(self).offset as int) {
                Some((w, q)) => match spec_content_keyword(w) {
                    Some(t) => r is Some && r->0@ == t && final(self).offset == q,
                    None => r is None,
                },
                None => r is None,
            },
    {
        proof {
            lemma_lex_word_advances(self.data@, self.offset as int);
        }
        match self.lex_word() {
            Some(word) => self.token_from_word(&word),
            None => None,
        }
    }

    /// A number.
    fn lex_number(&mut self) -> (r: Option<Token>)
        requires
            old(self).offset <= old(self).data@.len(),
        ensures
            final(self).data@ == old(self).data@,
            final(self).offset <= final(self).data@.len(),
            match spec_lex_number(old(self).data@, old(self).offset as int) {
                Some((n, q)) => r is Some && r->0@ == SpecToken::Number(n)
                    && final(self).offset == q,
                None => r is None,
            },
    {
        proof {
            lemma_lex_number_advances(self.data@, self.offset as int);
        }
        match self.parse_next_number() {
            Some(n) => Some(Token::Number(n)),
            None => None,
        }
    }

    /// The token after the whitespace ahead.
    fn lex_next_value(&mut self) -> (r: Option<Token>)
        requires
            old(self).offset <= old(self).data@.len(),
        ensures
            final(self).data@ == old(self).data@,
            final(self).offset <= final(self).data@.len(),
            match lex_value(old(self).data@, old(self).offset as int) {
                Some((t, q)) => r is Some && r->0@ == t && final(self).offset == q,
                None => r is None,
            },
        decreases old(self).data@.len() - old(self).offset, 1int,
    {
        proof {
            lemma_skip_ws(self.data@, self.offset as int);
        }
        self.skip_whitespace();
        if !self.has_next() {
            return None;
        }
        let c = self.peek_u8();
        if c == 87u8 {
            Some(self.lex_w())
        } else if c == 102u8 {
            Some(self.lex_f())
        } else if c == SLASH {
            self.lex_identifier()
        } else if c == LPAREN {
            self.lex_string()
        } else if c == 0 {
            self.step_ahead();
            Some(Token::Null)
        } else if c == LBRACKET {
            self.lex_array()
        } else if c == LANGLE && self.data.len() - self.offset > 1 && self.data[self.offset + 1]
            == LANGLE {
            self.lex_dict()
        } else if is_numeric(c) || c == MINUS {
            self.lex_number()
        } else {
            self.lex_keyword()
        }
    }

    /// An array: items up to `]`.
    fn lex_array(&mut self) -> (r: Option<Token>)
        requires
            old(self).offset < old(self).data@.len(),
        ensures
            final(self).data@ == old(self).data@,
            final(self).offset <= final(self).data@.len(),
            match lex_array(old(self).data@, old(self).offset + 1, Seq::empty()) {
                Some((t, q)) => r is Some && r->0@ == t && final(self).offset == q,
                None => r is None,
            },
        decreases old(self).data@.len() - old(self).offset, 0int,
    {
        let ghost d = self.data@;
        let ghost start = self.offset + 1;
        self.step_ahead();
        let mut arr: Vec<Token> = Vec::new();
        assert(tokens_view(arr@) =~= Seq::<SpecToken>::empty());
        loop
            invariant
                self.data@ == d,
                start <= self.offset <= d.len(),
                start == old(self).offset + 1,
                d == old(self).data@,
                lex_array(d, self.offset as int, tokens_view(arr@)) == lex_array(
                    d,
                    start,
                    Seq::empty(),
                ),
            decreases d.len() - self.offset,
        {
            proof {
                lemma_skip_ws(d, self.offset as int);
            }
            self.skip_whitespace();
            if !self.has_next() {
                return None;
            }
            let c = self.peek_u8();
            if c == RBRACKET {
                self.step_ahead();
                return Some(Token::Array(arr));
            }
            if c == LBRACKET {
                return None;
            }
            proof {
                lemma_value_advances(d, self.offset as int);
            }
            match self.lex_next_value() {
                Some(t) => {
                    proof {
                        lemma_tokens_view_push(arr@, t);
                    }
                    arr.push(t);
                },
                None => {
                    return None;
                },
            }
        }
    }

    /// A dictionary: `/key value` pairs up to `>>`.
    fn lex_dict(&mut self) -> (r: Option<Token>)
        requires
            old(self).offset + 1 < old(self).data@.len(),
        ensures
            final(self).data@ == old(self).data@,
            final(self).offset <= final(self).data@.len(),
            match lex_dict(old(self).data@, old(self).offset + 2, Map::empty()) {
                Some((t, q)) => r is Some && r->0@ == t && final(self).offset == q,
                None => r is None,
            },
        decreases old(self).data@.len() - old(self).offset, 0int,
    {
        let ghost d = self.data@;
        let ghost start = self.offset + 2;
        self.step_ahead();
        self.step_ahead();
        let mut map: Vec<(Vec<u8>, Token)> = Vec::new();
        proof {
            lemma_dict_entries_view(map@);
            lemma_empty_view(map@, |t: Token| token_view(t));
        }
        loop
            invariant
                self.data@ == d,
                start <= self.offset <= d.len(),
                start == old(self).offset + 2,
                d == old(self).data@,
                lex_dict(d, self.offset as int, dict_entries_view(map@)) == lex_dict(
                    d,
                    start,
                    Map::empty(),
                ),
            decreases d.len() - self.offset,
        {
            proof {
                lemma_skip_ws(d, self.offset as int);
            }
            self.skip_whitespace();
            if !self.has_next() {
                return None;
            }
            let c = self.peek_u8();
            if c == RANGLE {
                self.step_ahead();
                if self.eat_char(RANGLE) {
                    return Some(Token::Dict(map));
                } else {
                    return None;
                }
            }
            if c != SLASH {
                return None;
            }
            self.step_ahead();
            proof {
                lemma_lex_word_advances(d, self.offset as int);
            }
            let id = match self.lex_word() {
                Some(w) => w,
                None => {
                    return None;
                },
            };
            proof {
                lemma_value_advances(d, self.offset as int);
            }
            let value = match self.lex_next_value() {
                Some(v) => v,
                None => {
                    return None;
                },
            };
            proof {
                lemma_dict_entries_view(map@);
                lemma_dict_entries_view(spec_insert(map@, id, value));
                lemma_insert_view(map@, id, value, |t: Token| token_view(t));
            }
            entries_insert(&mut map, id, value);
        }
    }

    /// All the tokens of the stream.
    fn run(&mut self) -> (r: Option<Vec<Token>>)
        ensures
            final(self).data@ == old(self).data@,
            match spec_tokenize_stream(old(self).data@) {
                Some(ts) => r is Some && tokens_view(r->0@) == ts,
                None => r is None,
            },
    {
        self.offset = 0;
        let ghost d = self.data@;
        let mut toks: Vec<Token> = Vec::new();
        assert(tokens_view(toks@) =~= Seq::<SpecToken>::empty());
        while self.has_next()
            invariant
                self.data@ == d,
                d == old(self).data@,
                self.offset <= d.len(),
                spec_tokenize_from(d, 0) == match spec_tokenize_from(d, self.offset as int) {
                    Some(rest) => Some(tokens_view(toks@) + rest),
                    None => None,
                },
            decreases d.len() - self.offset,
        {
            if is_whitespace(self.peek_u8()) {
                self.step_ahead();
                continue;
            }
            proof {
                lemma_value_advances(d, self.offset as int);
            }
            let ghost p = self.offset as int;
            match self.lex_next_value() {
                Some(t) => {
                    proof {
                        lemma_tokens_view_push(toks@, t);
                        match spec_tokenize_from(d, self.offset as int) {
                            Some(rest) => {
                                assert(tokens_view(toks@) + (seq![token_view(t)] + rest)
                                    =~= tokens_view(toks@).push(token_view(t)) + rest);
                            },
                            None => {},
                        }
                    }
                    toks.push(t);
                },
                None => {
                    return None;
                },
            }
        }
        assert(tokens_view(toks@) + Seq::<SpecToken>::empty() =~= tokens_view(toks@));
        Some(toks)
    }
}

proof fn lemma_blank_from(d: Seq<u8>, p: int)
    requires
        0 <= p,
        forall|i: int| 0 <= i < d.len() ==> spec_is_whitespace(#[trigger] d[i]),
    ensures
        spec_tokenize_from(d, p) == Some(Seq::<SpecToken>::empty()),
    decreases d.len() - p,
{
    if p < d.len() {
        lemma_blank_from(d, p + 1);
    }
}

/// Whether reading values from `es[0]` on gives `items`, each item ending
/// where the next reading starts.
pub open spec fn items_read_from(d: Seq<u8>, es: Seq<int>, items: Seq<SpecToken>) -> bool {
    &&& es.len() == items.len() + 1
    &&& forall|k: int|
        0 <= k < items.len() ==> lex_value(d, #[trigger] es[k]) == Some((items[k], es[k + 1]))
}

/// Whether, after whitespace from `e`, a `]` ends at `q`.
pub open spec fn closes_at(d: Seq<u8>, e: int, q: int) -> bool {
    skip_ws(d, e) < d.len() && d[skip_ws(d, e)] == RBRACKET && q == skip_ws(d, e) + 1
}

proof fn lemma_lex_value_skips(d: Seq<u8>, p: int)
    requires
        0 <= p <= d.len(),
    ensures
        lex_value(d, p) == lex_value(d, skip_ws(d, p)),
{
    lemma_skip_ws(d, p);
    let p1 = skip_ws(d, p);
    lemma_skip_ws(d, p1);
    assert(skip_ws(d, p1) == p1);
}

#[verifier::opaque]
spec fn value_at(d: Seq<u8>, p: int) -> Option<(SpecToken, int)> {
    lex_value(d, p)
}

#[verifier::opaque]
spec fn array_at(d: Seq<u8>, p: int, acc: Seq<SpecToken>) -> Option<(SpecToken, int)> {
    lex_array(d, p, acc)
}

spec fn items_at(d: Seq<u8>, es: Seq<int>, items: Seq<SpecToken>) -> bool {
    &&& es.len() == items.len() + 1
    &&& forall|k: int|
        0 <= k < items.len() ==> value_at(d, #[trigger] es[k]) == Some((items[k], es[k + 1]))
}

proof fn lemma_lex_array_step(d: Seq<u8>, p: int, acc: Seq<SpecToken>)
    requires
        0 <= p <= d.len(),
    ensures
        skip_ws(d, p) >= d.len() ==> array_at(d, p, acc) is None,
        skip_ws(d, p) < d.len() && d[skip_ws(d, p)] == RBRACKET ==> array_at(d, p, acc) == Some(
            (SpecToken::Array(acc), skip_ws(d, p) + 1),
        ),
        skip_ws(d, p) < d.len() && d[skip_ws(d, p)] != RBRACKET ==> array_at(d, p, acc)
            == match value_at(d, p) {
            Some((t, q)) => if skip_ws(d, p) < q <= d.len() && d[skip_ws(d, p)] != LBRACKET {
                array_at(d, q, acc.push(t))
            } else {
                None
            },
            None => None,
        },
{
    reveal(value_at);
    reveal(array_at);
    lemma_skip_ws(d, p);
    lemma_lex_value_skips(d, p);
}

proof fn lemma_array_items(d: Seq<u8>, p: int, acc: Seq<SpecToken>)
    requires
        0 <= p <= d.len(),
    ensures
        array_at(d, p, acc) matches Some((t, q)) ==> t is Array && acc.len() <= (t->Array_0).len()
            && (t->Array_0).take(acc.len() as int) == acc && exists|es: Seq<int>|
            items_at(d, es, (t->Array_0).skip(acc.len() as int)) && es[0] == p && closes_at(
                d,
                es.last(),
                q,
            ),
    decreases d.len() - p,
{
    lemma_skip_ws(d, p);
    lemma_lex_array_step(d, p, acc);
    let p1 = skip_ws(d, p);
    if p1 >= d.len() {
        return;
    }
    match array_at(d, p, acc) {
        Some((t, q)) => {
            if d[p1] == RBRACKET {
                let es = seq![p];
                assert(acc.take(acc.len() as int) =~= acc);
                assert(acc.skip(acc.len() as int) =~= Seq::<SpecToken>::empty());
                assert(items_at(d, es, (t->Array_0).skip(acc.len() as int)) && es[0] == p
                    && closes_at(d, es.last(), q));
            } else {
                let (t0, q0) = value_at(d, p)->0;
                assert(p <= p1 < q0 <= d.len());
                lemma_array_items(d, q0, acc.push(t0));
                let items = t->Array_0;
                let es2 = choose|es: Seq<int>|
                    items_at(d, es, items.skip((acc.len() + 1) as int)) && es[0] == q0
                        && closes_at(d, es.last(), q);
                let es = seq![p] + es2;
                assert(items.take((acc.len() + 1) as int) == acc.push(t0));
                assert(items.take((acc.len() + 1) as int)[acc.len() as int] == t0);
                assert(items.take(acc.len() as int) =~= acc) by {
                    assert forall|k: int| 0 <= k < acc.len() implies items.take(acc.len() as int)[k]
                        == acc[k] by {
                        assert(items.take((acc.len() + 1) as int)[k] == acc.push(t0)[k]);
                    }
                }
                let rest = items.skip(acc.len() as int);
                assert forall|k: int| 0 <= k < rest.len() implies value_at(d, #[trigger] es[k])
                    == Some((rest[k], es[k + 1])) by {
                    if k == 0 {
                        assert(rest[0] == items[acc.len() as int]);
                        assert(items[acc.len() as int] == items.take((acc.len() + 1) as int)[acc.len() as int]);
                    } else {
                        assert(es[k] == es2[k - 1]);
                        assert(es[k + 1] == es2[k]);
                        assert(rest[k] == items.skip((acc.len() + 1) as int)[k - 1]);
                    }
                }
                assert(es.last() == es2.last());
                assert(items_at(d, es, rest) && es[0] == p && closes_at(d, es.last(), q));
            }
        },
        None => {},
    }
}

proof fn lemma_plain_string_body(d: Seq<u8>, i: int, r: int, acc: Seq<u8>)
    requires
        0 <= i <= r < d.len(),
        d[r] == RPAREN,
        forall|k: int| i <= k < r ==> #[trigger] d[k] != LPAREN && d[k] != RPAREN && d[k] != BACKSLASH,
    ensures
        content_string_body(d, i, 1, acc) == Some((acc + d.subrange(i, r), r + 1)),
    decreases r - i,
{
    if i == r {
        assert(acc + d.subrange(i, r) =~= acc);
        assert(content_string_body(d, r + 1, 0, acc) == Some((acc, r + 1)));
    } else {
        lemma_plain_string_body(d, i + 1, r, acc.push(d[i]));
        assert(acc.push(d[i]) + d.subrange(i + 1, r) =~= acc + d.subrange(i, r));
    }
}

/// What a name, a number and a plain string read as.  A `/` followed by
/// word characters is the name made of the longest run of them.  A value
/// that starts with a digit or `-` is a number made of the bytes it spans,
/// which form a numeral and are followed by neither a digit nor a `.`.  A
/// `(` whose bytes up to the first `)` hold no other parenthesis and no
/// backslash is the string of those bytes.
pub proof fn law_simple_values(d: Seq<u8>, p: int)
    requires
        0 <= p <= d.len(),
        skip_ws(d, p) < d.len(),
    ensures
        ({
            let p1 = skip_ws(d, p);
            d[p1] == SLASH && p1 + 1 < d.len() && spec_is_identifier_char(d[p1 + 1]) ==> match lex_value(
                d,
                p,
            ) {
                Some((SpecToken::Identifier(w), q)) => {
                    &&& p1 + 1 < q <= d.len()
                    &&& w == d.subrange(p1 + 1, q)
                    &&& forall|k: int| p1 + 1 <= k < q ==> spec_is_identifier_char(#[trigger] d[k])
                    &&& q < d.len() ==> !spec_is_identifier_char(d[q])
                },
                _ => false,
            }
        }),
        ({
            let p1 = skip_ws(d, p);
            (spec_is_numeric(d[p1]) || d[p1] == MINUS) ==> (lex_value(d, p) matches Some((t, q))
                ==> p1 < q <= d.len() && t == SpecToken::Number(d.subrange(p1, q)) && is_valid_numeral(
                d.subrange(p1, q),
            ) && (q < d.len() ==> !(d[q] == 46u8 || spec_is_numeric(d[q]))))
        }),
        ({
            let p1 = skip_ws(d, p);
            forall|r: int|
                p1 < r < d.len() && d[p1] == LPAREN && #[trigger] d[r] == RPAREN && (forall|k: int|
                    p1 + 1 <= k < r ==> #[trigger] d[k] != LPAREN && d[k] != RPAREN && d[k]
                        != BACKSLASH) ==> lex_value(d, p) == Some(
                    (SpecToken::StringBytes(d.subrange(p1 + 1, r)), r + 1),
                )
        }),
{
    lemma_skip_ws(d, p);
    let p1 = skip_ws(d, p);
    if d[p1] == SLASH && p1 + 1 < d.len() && spec_is_identifier_char(d[p1 + 1]) {
        lemma_word_end(d, p1 + 1);
    }
    if spec_is_numeric(d[p1]) || d[p1] == MINUS {
        let s0 = if spec_peek(d, p1) == Some(45u8) {
            p1 + 1
        } else {
            p1
        };
        lemma_number_end_props(d, s0);
        lemma_lex_number_advances(d, p1);
    }
    assert forall|r: int|
        p1 < r < d.len() && d[p1] == LPAREN && #[trigger] d[r] == RPAREN && (forall|k: int|
            p1 + 1 <= k < r ==> #[trigger] d[k] != LPAREN && d[k] != RPAREN && d[k] != BACKSLASH)
        implies lex_value(d, p) == Some((SpecToken::StringBytes(d.subrange(p1 + 1, r)), r + 1)) by {
        lemma_plain_string_body(d, p1 + 1, r, Seq::empty());
        assert(Seq::<u8>::empty() + d.subrange(p1 + 1, r) =~= d.subrange(p1 + 1, r));
    }
}

proof fn lemma_number_end_props(d: Seq<u8>, p: int)
    requires
        0 <= p <= d.len(),
    ensures
        number_end(d, p) < d.len() ==> !(d[number_end(d, p)] == 46u8 || spec_is_numeric(
            d[number_end(d, p)],
        )),
    decreases d.len() - p,
{
    if p < d.len() && spec_is_number_char(d[p]) {
        lemma_number_end_props(d, p + 1);
    }
}

/// An array holds exactly the values written between its brackets, in
/// order: reading values one after another from just after `[` gives its
/// items, and a `]` follows the last of them.
pub proof fn law_array_items(d: Seq<u8>, p: int)
    requires
        0 <= p <= d.len(),
        skip_ws(d, p) < d.len(),
        d[skip_ws(d, p)] == LBRACKET,
    ensures
        lex_value(d, p) matches Some((t, q)) ==> t is Array && exists|es: Seq<int>|
            items_read_from(d, es, t->Array_0) && es[0] == skip_ws(d, p) + 1 && closes_at(
                d,
                es.last(),
                q,
            ),
{
    lemma_skip_ws(d, p);
    let p1 = skip_ws(d, p);
    lemma_array_items(d, p1 + 1, Seq::empty());
    assert(lex_value(d, p) == lex_array(d, p1 + 1, Seq::empty()));
    reveal(array_at);
    match lex_value(d, p) {
        Some((t, q)) => {
            assert((t->Array_0).skip(0) =~= t->Array_0);
            let es = choose|es: Seq<int>|
                items_at(d, es, (t->Array_0).skip(0)) && es[0] == p1 + 1 && closes_at(
                    d,
                    es.last(),
                    q,
                );
            reveal(value_at);
            assert(items_read_from(d, es, t->Array_0));
        },
        None => {},
    }
}

/// A stream of whitespace alone holds no tokens.
pub proof fn law_blank_stream_has_no_tokens(d: Seq<u8>)
    requires
        forall|i: int| 0 <= i < d.len() ==> spec_is_whitespace(#[trigger] d[i]),
    ensures
        spec_tokenize_stream(d) == Some(Seq::<SpecToken>::empty()),
{
    lemma_blank_from(d, 0);
}

/// The tokens of a content stream, or `None` where the stream cannot be read.
pub fn try_tokenize_stream(str: Vec<u8>) -> (r: Option<Vec<Token>>)
    ensures
        match spec_tokenize_stream(str@) {
            Some(ts) => r is Some && tokens_view(r->0@) == ts,
            None => r is None,
        },
{
    let mut tokenizer = ContentTokenizer::new(str);
    tokenizer.run()
}

/// The tokens of a content stream that can be read.
pub fn tokenize_stream(str: Vec<u8>) -> (r: Vec<Token>)
    requires
        spec_tokenize_stream(str@) is Some,
    ensures
        tokens_view(r@) == spec_tokenize_stream(str@)->0,
{
    match try_tokenize_stream(str) {
        Some(toks) => toks,
        None => Vec::new(),
    }
}

} // verus!
