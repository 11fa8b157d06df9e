//! The tokenizer for whole PDF files.

use vstd::prelude::*;
use crate::chars::{
    is_numeric, is_whitespace, spec_is_numeric, spec_is_whitespace, BACKSLASH, CARRIAGE_RETURN,
    LANGLE, LPAREN, MINUS, NEWLINE, PERCENT, RPAREN,
};
use crate::content::pretty::{latin1_to_utf8, numeral_display, numeral_text, push_latin1};
use crate::src_loc::SrcLoc;
use crate::tokenizer::{
    lemma_lex_number_advances, lemma_lex_word_advances, lemma_skip_ws, skip_ws, spec_lex_number,
    spec_lex_word, spec_peek, Tokenizer,
};

verus! {

#[derive(Debug, PartialEq, Clone)]
pub enum PdfToken {
    Number(Vec<u8>),
    Identifier(Vec<u8>),
    String(Vec<u8>),
    ByteStream(Vec<u8>),
    // Special characters and keywords
    AngleStart,
    AngleEnd,
    ForwardSlash,
    LeftBracket,
    RightBracket,
    LeftParens,
    RightParens,
    Percent,
    ObjKeyword,
    EndObjKeyword,
    StreamKeyword,
    EndStreamKeyword,
    XRefKeyword,
    StartXRefKeyword,
    TrailerKeyword,
    RefKeyword,
    FKeyword,
    NKeyword,
    EOFKeyword,
    BooleanTrue,
    BooleanFalse,
    Null,
}

/// What a token stands for.
pub enum SpecPdfToken {
    Number(Seq<u8>),
    Identifier(Seq<u8>),
    String(Seq<u8>),
    ByteStream(Seq<u8>),
    AngleStart,
    AngleEnd,
    ForwardSlash,
    LeftBracket,
    RightBracket,
    LeftParens,
    RightParens,
    Percent,
    ObjKeyword,
    EndObjKeyword,
    StreamKeyword,
    EndStreamKeyword,
    XRefKeyword,
    StartXRefKeyword,
    TrailerKeyword,
    RefKeyword,
    FKeyword,
    NKeyword,
    EOFKeyword,
    BooleanTrue,
    BooleanFalse,
    Null,
}

impl View for PdfToken {
    type V = SpecPdfToken;

    open spec fn view(&self) -> SpecPdfToken {
        match self {
            PdfToken::Number(v) => SpecPdfToken::Number(v@),
            PdfToken::Identifier(v) => SpecPdfToken::Identifier(v@),
            PdfToken::String(v) => SpecPdfToken::String(v@),
            PdfToken::ByteStream(v) => SpecPdfToken::ByteStream(v@),
            PdfToken::AngleStart => SpecPdfToken::AngleStart,
            PdfToken::AngleEnd => SpecPdfToken::AngleEnd,
            PdfToken::ForwardSlash => SpecPdfToken::ForwardSlash,
            PdfToken::LeftBracket => SpecPdfToken::LeftBracket,
            PdfToken::RightBracket => SpecPdfToken::RightBracket,
            PdfToken::LeftParens => SpecPdfToken::LeftParens,
            PdfToken::RightParens => SpecPdfToken::RightParens,
            PdfToken::Percent => SpecPdfToken::Percent,
            PdfToken::ObjKeyword => SpecPdfToken::ObjKeyword,
            PdfToken::EndObjKeyword => SpecPdfToken::EndObjKeyword,
            PdfToken::StreamKeyword => SpecPdfToken::StreamKeyword,
            PdfToken::EndStreamKeyword => SpecPdfToken::EndStreamKeyword,
            PdfToken::XRefKeyword => SpecPdfToken::XRefKeyword,
            PdfToken::StartXRefKeyword => SpecPdfToken::StartXRefKeyword,
            PdfToken::TrailerKeyword => SpecPdfToken::TrailerKeyword,
            PdfToken::RefKeyword => SpecPdfToken::RefKeyword,
            PdfToken::FKeyword => SpecPdfToken::FKeyword,
            PdfToken::NKeyword => SpecPdfToken::NKeyword,
            PdfToken::EOFKeyword => SpecPdfToken::EOFKeyword,
            PdfToken::BooleanTrue => SpecPdfToken::BooleanTrue,
            PdfToken::BooleanFalse => SpecPdfToken::BooleanFalse,
            PdfToken::Null => SpecPdfToken::Null,
        }
    }
}

/// A list of located tokens, each location taken as its offset.
pub open spec fn located_view(s: Seq<(SrcLoc, PdfToken)>) -> Seq<(usize, SpecPdfToken)> {
    s.map_values(|e: (SrcLoc, PdfToken)| (e.0@, e.1@))
}

/// The keyword or delimiter a word names, if any.
pub open spec fn spec_pdf_keyword(w: Seq<u8>) -> Option<SpecPdfToken> {
    if w.len() == 4 && w[0] == 120 && w[1] == 114 && w[2] == 101 && w[3] == 102 {
        // "xref"
        Some(SpecPdfToken::XRefKeyword)
    } else if w.len() == 7 && w[0] == 116 && w[1] == 114 && w[2] == 97 && w[3] == 105 && w[4] == 108 && w[5] == 101 && w[6] == 114 {
        // "trailer"
        Some(SpecPdfToken::TrailerKeyword)
    } else if w.len() == 1 && w[0] == 102 {
        // "f"
        Some(SpecPdfToken::FKeyword)
    } else if w.len() == 1 && w[0] == 110 {
        // "n"
        Some(SpecPdfToken::NKeyword)
    } else if w.len() == 6 && w[0] == 101 && w[1] == 110 && w[2] == 100 && w[3] == 111 && w[4] == 98 && w[5] == 106 {
        // "endobj"
        Some(SpecPdfToken::EndObjKeyword)
    } else if w.len() == 1 && w[0] == 82 {
        // "R"
        Some(SpecPdfToken::RefKeyword)
    } else if w.len() == 3 && w[0] == 111 && w[1] == 98 && w[2] == 106 {
        // "obj"
        Some(SpecPdfToken::ObjKeyword)
    } else if w.len() == 9 && w[0] == 115 && w[1] == 116 && w[2] == 97 && w[3] == 114 && w[4] == 116 && w[5] == 120 && w[6] == 114 && w[7] == 101 && w[8] == 102 {
        // "startxref"
        Some(SpecPdfToken::StartXRefKeyword)
    } else if w.len() == 6 && w[0] == 115 && w[1] == 116 && w[2] == 114 && w[3] == 101 && w[4] == 97 && w[5] == 109 {
        // "stream"
        Some(SpecPdfToken::StreamKeyword)
    } else if w.len() == 1 && w[0] == 91 {
        // "["
        Some(SpecPdfToken::LeftBracket)
    } else if w.len() == 1 && w[0] == 93 {
        // "]"
        Some(SpecPdfToken::RightBracket)
    } else if w.len() == 1 && w[0] == 62 {
        // ">"
        Some(SpecPdfToken::AngleEnd)
    } else if w.len() == 1 && w[0] == 47 {
        // "/"
        Some(SpecPdfToken::ForwardSlash)
    } else if w.len() == 4 && w[0] == 116 && w[1] == 114 && w[2] == 117 && w[3] == 101 {
        // "true"
        Some(SpecPdfToken::BooleanTrue)
    } else if w.len() == 5 && w[0] == 102 && w[1] == 97 && w[2] == 108 && w[3] == 115 && w[4] == 101 {
        // "false"
        Some(SpecPdfToken::BooleanFalse)
    } else if w.len() == 4 && w[0] == 110 && w[1] == 117 && w[2] == 108 && w[3] == 108 {
        // "null"
        Some(SpecPdfToken::Null)
    } else {
        None
    }
}

/// The text of a token: a number as it prints, a name or string as its
/// characters, a stream as `<bytes...>`, a keyword or delimiter as its word.
pub open spec fn spec_pdf_token_text(t: SpecPdfToken) -> Seq<u8> {
    match t {
        SpecPdfToken::Number(n) => numeral_display(n),
        SpecPdfToken::Identifier(s) => latin1_to_utf8(s),
        SpecPdfToken::String(s) => latin1_to_utf8(s),
        SpecPdfToken::ByteStream(_) => seq![60u8, 98u8, 121u8, 116u8, 101u8, 115u8, 46u8, 46u8, 46u8, 62u8],
        SpecPdfToken::AngleStart => seq![60u8],
        SpecPdfToken::AngleEnd => seq![62u8],
        SpecPdfToken::ForwardSlash => seq![47u8],
        SpecPdfToken::LeftBracket => seq![91u8],
        SpecPdfToken::RightBracket => seq![93u8],
        SpecPdfToken::LeftParens => seq![40u8],
        SpecPdfToken::RightParens => seq![41u8],
        SpecPdfToken::Percent => seq![37u8],
        SpecPdfToken::ObjKeyword => seq![111u8, 98u8, 106u8],
        SpecPdfToken::EndObjKeyword => seq![101u8, 110u8, 100u8, 111u8, 98u8, 106u8],
        SpecPdfToken::StreamKeyword => seq![115u8, 116u8, 114u8, 101u8, 97u8, 109u8],
        SpecPdfToken::EndStreamKeyword => seq![101u8, 110u8, 100u8, 115u8, 116u8, 114u8, 101u8, 97u8, 109u8],
        SpecPdfToken::XRefKeyword => seq![120u8, 114u8, 101u8, 102u8],
        SpecPdfToken::StartXRefKeyword => seq![115u8, 116u8, 97u8, 114u8, 116u8, 120u8, 114u8, 101u8, 102u8],
        SpecPdfToken::TrailerKeyword => seq![116u8, 114u8, 97u8, 105u8, 108u8, 101u8, 114u8],
        SpecPdfToken::RefKeyword => seq![82u8],
        SpecPdfToken::FKeyword => seq![102u8],
        SpecPdfToken::NKeyword => seq![110u8],
        SpecPdfToken::EOFKeyword => seq![69u8, 79u8, 70u8],
        SpecPdfToken::BooleanTrue => seq![116u8, 114u8, 117u8, 101u8],
        SpecPdfToken::BooleanFalse => seq![102u8, 97u8, 108u8, 115u8, 101u8],
        SpecPdfToken::Null => seq![110u8, 117u8, 108u8, 108u8],
    }
}

/// Whether the bytes at `k` spell `endstream`.
pub open spec fn is_endstream_at(d: Seq<u8>, k: int) -> bool {
    &&& 0 <= k
    &&& k + 9 <= d.len()
    &&& d[k] == 101 && d[k + 1] == 110 && d[k + 2] == 100
    &&& d[k + 3] == 115 && d[k + 4] == 116 && d[k + 5] == 114
    &&& d[k + 6] == 101 && d[k + 7] == 97 && d[k + 8] == 109
}

/// The first position at or after `k` where `endstream` starts, or the end.
pub open spec fn find_endstream(d: Seq<u8>, k: int) -> int
    decreases d.len() - k,
{
    if !(0 <= k < d.len()) {
        d.len() as int
    } else if is_endstream_at(d, k) {
        k
    } else {
        find_endstream(d, k + 1)
    }
}

/// The first position at or after `k` that holds a newline, if any.
pub open spec fn find_newline(d: Seq<u8>, k: int) -> Option<int>
    decreases d.len() - k,
{
    if !(0 <= k < d.len()) {
        None
    } else if d[k] == NEWLINE {
        Some(k)
    } else {
        find_newline(d, k + 1)
    }
}

/// The bytes of a string after its `(`, up to the `)` that closes it (or the
/// end of the input).  Parentheses nest; a backslash keeps the byte after it.
pub open spec fn pdf_string_body(d: Seq<u8>, p: int, depth: nat, acc: Seq<u8>) -> (Seq<u8>, int)
    decreases d.len() - p,
{
    if depth == 0 || !(0 <= p < d.len()) {
        (acc, p)
    } else if d[p] == BACKSLASH {
        if p + 1 < d.len() {
            pdf_string_body(d, p + 2, depth, acc.push(d[p]).push(d[p + 1]))
        } else {
            pdf_string_body(d, p + 1, depth, acc.push(d[p]))
        }
    } else if d[p] == RPAREN {
        if depth > 1 {
            pdf_string_body(d, p + 1, (depth - 1) as nat, acc.push(d[p]))
        } else {
            pdf_string_body(d, p + 1, 0, acc)
        }
    } else if d[p] == LPAREN {
        pdf_string_body(d, p + 1, depth + 1, acc.push(d[p]))
    } else {
        pdf_string_body(d, p + 1, depth, acc.push(d[p]))
    }
}

/// The body of a stream whose keyword ends at `q`: after the end of the
/// line, up to `endstream`, without the line break before it.  Gives the
/// body and the position after `endstream`.
pub open spec fn stream_body(d: Seq<u8>, q: int) -> Option<(Seq<u8>, int)> {
    let q2 = if spec_peek(d, q) == Some(CARRIAGE_RETURN) {
        q + 1
    } else {
        q
    };
    if spec_peek(d, q2) != Some(NEWLINE) {
        None
    } else {
        let start = q2 + 1;
        let k = find_endstream(d, start);
        let e1 = if k > start && d[k - 1] == NEWLINE {
            k - 1
        } else {
            k
        };
        let e2 = if e1 > start && d[e1 - 1] == CARRIAGE_RETURN {
            e1 - 1
        } else {
            e1
        };
        let next = if k + 9 <= d.len() {
            k + 9
        } else {
            d.len() as int
        };
        Some((d.subrange(start, e2), next))
    }
}

/// The tokens read at position `p` (which holds a byte), all located at
/// `p`, and the position after them.
pub open spec fn pdf_step(d: Seq<u8>, p: int) -> Option<(Seq<(usize, SpecPdfToken)>, int)> {
    let loc = p as usize;
    let c = d[p];
    if spec_is_whitespace(c) {
        Some((Seq::empty(), p + 1))
    } else if spec_is_numeric(c) || c == MINUS {
        match spec_lex_number(d, p) {
            Some((n, q)) => Some((seq![(loc, SpecPdfToken::Number(n))], q)),
            None => None,
        }
    } else if c == PERCENT {
        if spec_peek(d, p + 1) == Some(PERCENT) {
            match spec_lex_word(d, p + 2) {
                Some((w, q)) => if w.len() == 3 && w[0] == 69 && w[1] == 79 && w[2] == 70 {
                    // "EOF"
                    Some((seq![(loc, SpecPdfToken::EOFKeyword)], q))
                } else {
                    None
                },
                None => None,
            }
        } else {
            match find_newline(d, p + 1) {
                Some(e) => Some(
                    (
                        seq![
                            (loc, SpecPdfToken::Percent),
                            (loc, SpecPdfToken::String(d.subrange(p + 1, e))),
                        ],
                        e + 1,
                    ),
                ),
                None => None,
            }
        }
    } else if c == LANGLE {
        let q0 = skip_ws(d, p + 1);
        if spec_peek(d, q0) == Some(LANGLE) {
            Some((seq![(loc, SpecPdfToken::AngleStart), (loc, SpecPdfToken::AngleStart)], q0 + 1))
        } else {
            match spec_lex_word(d, q0) {
                Some((w, q)) => Some(
                    (seq![(loc, SpecPdfToken::AngleStart), (loc, SpecPdfToken::Identifier(w))], q),
                ),
                None => None,
            }
        }
    } else if c == LPAREN {
        let (s, q) = pdf_string_body(d, p + 1, 1, Seq::empty());
        Some(
            (
                seq![
                    (loc, SpecPdfToken::LeftParens),
                    (loc, SpecPdfToken::String(s)),
                    (loc, SpecPdfToken::RightParens),
                ],
                q,
            ),
        )
    } else {
        match spec_lex_word(d, p) {
            Some((w, q)) => match spec_pdf_keyword(w) {
                Some(SpecPdfToken::StreamKeyword) => match stream_body(d, q) {
                    Some((body, q2)) => Some(
                        (
                            seq![
                                (loc, SpecPdfToken::StreamKeyword),
                                (loc, SpecPdfToken::ByteStream(body)),
                                (loc, SpecPdfToken::EndStreamKeyword),
                            ],
                            q2,
                        ),
                    ),
                    None => None,
                },
                Some(SpecPdfToken::ForwardSlash) => match spec_lex_word(d, q) {
                    Some((id, q2)) => Some(
                        (
                            seq![
                                (loc, SpecPdfToken::ForwardSlash),
                                (loc, SpecPdfToken::Identifier(id)),
                            ],
                            q2,
                        ),
                    ),
                    None => None,
                },
                Some(t) => Some((seq![(loc, t)], q)),
                None => None,
            },
            None => None,
        }
    }
}

/// The located tokens of `d` from position `p` on; `None` where the file
/// cannot be read (an unknown word, a malformed number, `%%` not followed by
/// `EOF`, a comment without a newline, a stream keyword not followed by a
/// line break, nothing after `/` or `<`).
pub open spec fn spec_tokenize_pdf_from(d: Seq<u8>, p: int) -> Option<Seq<(usize, SpecPdfToken)>>
    decreases d.len() - p,
{
    if !(0 <= p < d.len()) {
        Some(Seq::empty())
    } else {
        match pdf_step(d, p) {
            Some((ts, q)) => if p < q <= d.len() {
                match spec_tokenize_pdf_from(d, q) {
                    Some(rest) => Some(ts + rest),
                    None => None,
                }
            } else {
                None
            },
            None => None,
        }
    }
}

pub open spec fn spec_tokenize_pdf(d: Seq<u8>) -> Option<Seq<(usize, SpecPdfToken)>> {
    spec_tokenize_pdf_from(d, 0)
}

pub proof fn lemma_find_endstream(d: Seq<u8>, k: int)
    requires
        0 <= k <= d.len(),
    ensures
        k <= find_endstream(d, k) <= d.len(),
        find_endstream(d, k) < d.len() ==> is_endstream_at(d, find_endstream(d, k)),
        forall|j: int| k <= j < find_endstream(d, k) ==> !is_endstream_at(d, j),
    decreases d.len() - k,
{
    if k < d.len() && !is_endstream_at(d, k) {
        lemma_find_endstream(d, k + 1);
    }
}

pub proof fn lemma_find_newline(d: Seq<u8>, k: int)
    requires
        0 <= k <= d.len(),
    ensures
        find_newline(d, k) matches Some(e) ==> k <= e < d.len() && d[e] == NEWLINE,
        find_newline(d, k) matches Some(e) ==> forall|j: int| k <= j < e ==> d[j] != NEWLINE,
        find_newline(d, k) is None ==> forall|j: int| k <= j < d.len() ==> d[j] != NEWLINE,
    decreases d.len() - k,
{
    if k < d.len() && d[k] != NEWLINE {
        lemma_find_newline(d, k + 1);
    }
}

pub proof fn lemma_string_body_bounds(d: Seq<u8>, p: int, depth: nat, acc: Seq<u8>)
    requires
        0 <= p <= d.len(),
    ensures
        p <= pdf_string_body(d, p, depth, acc).1 <= d.len(),
    decreases d.len() - p,
{
    if depth == 0 || !(0 <= p < d.len()) {
    } else if d[p] == BACKSLASH {
        if p + 1 < d.len() {
            lemma_string_body_bounds(d, p + 2, depth, acc.push(d[p]).push(d[p + 1]));
        } else {
            lemma_string_body_bounds(d, p + 1, depth, acc.push(d[p]));
        }
    } else if d[p] == RPAREN {
        if depth > 1 {
            lemma_string_body_bounds(d, p + 1, (depth - 1) as nat, acc.push(d[p]));
        } else {
            lemma_string_body_bounds(d, p + 1, 0, acc);
        }
    } else if d[p] == LPAREN {
        lemma_string_body_bounds(d, p + 1, depth + 1, acc.push(d[p]));
    } else {
        lemma_string_body_bounds(d, p + 1, depth, acc.push(d[p]));
    }
}

/// Each step reads at least one byte.
pub proof fn lemma_step_advances(d: Seq<u8>, p: int)
    requires
        0 <= p < d.len(),
    ensures
        pdf_step(d, p) matches Some((ts, q)) ==> p < q <= d.len(),
{
    let c = d[p];
    if spec_is_whitespace(c) {
    } else if spec_is_numeric(c) || c == MINUS {
        lemma_lex_number_advances(d, p);
    } else if c == PERCENT {
        if spec_peek(d, p + 1) == Some(PERCENT) {
            lemma_lex_word_advances(d, p + 2);
        } else {
            lemma_find_newline(d, p + 1);
        }
    } else if c == LANGLE {
        lemma_skip_ws(d, p + 1);
        lemma_lex_word_advances(d, skip_ws(d, p + 1));
    } else if c == LPAREN {
        lemma_string_body_bounds(d, p + 1, 1, Seq::empty());
    } else {
        lemma_lex_word_advances(d, p);
        match spec_lex_word(d, p) {
            Some((w, q)) => {
                lemma_lex_word_advances(d, q);
                let q2 = if spec_peek(d, q) == Some(CARRIAGE_RETURN) {
                    q + 1
                } else {
                    q
                };
                if spec_peek(d, q2) == Some(NEWLINE) {
                    lemma_find_endstream(d, q2 + 1);
                }
            },
            None => {},
        }
    }
}

struct PdfTokenizer {
    data: Vec<u8>,
    offset: usize,
}

impl Tokenizer<PdfToken> for PdfTokenizer {
    closed spec fn data_view(&self) -> Seq<u8> {
        self.data@
    }

    closed spec fn offset_view(&self) -> int {
        self.offset as int
    }

    closed spec fn spec_token_from_word(word: Seq<u8>) -> Option<SpecPdfToken> {
        spec_pdf_keyword(word)
    }

    fn token_from_word(&self, w: &Vec<u8>) -> (r: Option<PdfToken>) {
        if w.len() == 4 && w[0] == 120 && w[1] == 114 && w[2] == 101 && w[3] == 102 {
            Some(PdfToken::XRefKeyword)
        } else if w.len() == 7 && w[0] == 116 && w[1] == 114 && w[2] == 97 && w[3] == 105 && w[4] == 108 && w[5] == 101 && w[6] == 114 {
            Some(PdfToken::TrailerKeyword)
        } else if w.len() == 1 && w[0] == 102 {
            Some(PdfToken::FKeyword)
        } else if w.len() == 1 && w[0] == 110 {
            Some(PdfToken::NKeyword)
        } else if w.len() == 6 && w[0] == 101 && w[1] == 110 && w[2] == 100 && w[3] == 111 && w[4] == 98 && w[5] == 106 {
            Some(PdfToken::EndObjKeyword)
        } else if w.len() == 1 && w[0] == 82 {
            Some(PdfToken::RefKeyword)
        } else if w.len() == 3 && w[0] == 111 && w[1] == 98 && w[2] == 106 {
            Some(PdfToken::ObjKeyword)
        } else if w.len() == 9 && w[0] == 115 && w[1] == 116 && w[2] == 97 && w[3] == 114 && w[4] == 116 && w[5] == 120 && w[6] == 114 && w[7] == 101 && w[8] == 102 {
            Some(PdfToken::StartXRefKeyword)
        } else if w.len() == 6 && w[0] == 115 && w[1] == 116 && w[2] == 114 && w[3] == 101 && w[4] == 97 && w[5] == 109 {
            Some(PdfToken::StreamKeyword)
        } else if w.len() == 1 && w[0] == 91 {
            Some(PdfToken::LeftBracket)
        } else if w.len() == 1 && w[0] == 93 {
            Some(PdfToken::RightBracket)
        } else if w.len() == 1 && w[0] == 62 {
            Some(PdfToken::AngleEnd)
        } else if w.len() == 1 && w[0] == 47 {
            Some(PdfToken::ForwardSlash)
        } else if w.len() == 4 && w[0] == 116 && w[1] == 114 && w[2] == 117 && w[3] == 101 {
            Some(PdfToken::BooleanTrue)
        } else if w.len() == 5 && w[0] == 102 && w[1] == 97 && w[2] == 108 && w[3] == 115 && w[4] == 101 {
            Some(PdfToken::BooleanFalse)
        } else if w.len() == 4 && w[0] == 110 && w[1] == 117 && w[2] == 108 && w[3] == 108 {
            Some(PdfToken::Null)
        } else {
            None
        }
    }

    fn peek_u8(&self) -> (r: u8) {
        self.data[self.offset]
    }

    fn has_next(&self) -> (r: bool) {
        self.offset < self.data.len()
    }

    fn step_ahead(&mut self) {
        proof {
            assert(self.offset < self.data.len());
        }
        self.offset = self.offset + 1;
    }
}

impl PdfTokenizer {
    fn new(data: Vec<u8>) -> (r: PdfTokenizer)
        ensures
            r.data@ == data@,
            r.offset == 0,
    {
        return PdfTokenizer { data, offset: 0 };
    }

    fn src_loc(&self) -> (r: SrcLoc)
        ensures
            r@ == self.offset,
    {
        return SrcLoc::new(self.offset);
    }

    /// The bytes up to the next `final_char`, which is left ahead.
    fn lex_until(&mut self, final_char: u8) -> (r: Option<Vec<u8>>)
        requires
            final_char == NEWLINE,
            old(self).offset <= old(self).data@.len(),
        ensures
            final(self).data@ == old(self).data@,
            final(self).offset <= final(self).data@.len(),
            match find_newline(old(self).data@, old(self).offset as int) {
                Some(e) => r is Some && r->0@ == old(self).data@.subrange(
                    old(self).offset as int,
                    e,
                ) && final(self).offset == e,
                None => r is None,
            },
    {
        let ghost d = self.data@;
        let ghost p = self.offset as int;
        proof {
            lemma_find_newline(d, p);
        }
        let mut chars: Vec<u8> = Vec::new();
        while !self.peek_is(final_char)
            invariant
                self.data@ == d,
                final_char == NEWLINE,
                d == old(self).data@,
                p == old(self).offset,
                p <= self.offset <= d.len(),
                chars@ =~= d.subrange(p, self.offset as int),
                find_newline(d, p) == find_newline(d, self.offset as int),
            decreases d.len() - self.offset,
        {
            if !self.has_next() {
                return None;
            }
            let ghost off = self.offset as int;
            assert(d[off] != NEWLINE);
            assert(find_newline(d, off) == find_newline(d, off + 1));
            let b = self.lex_char();
            chars.push(b);
        }
        Some(chars)
    }

    /// A line break: an optional carriage return, then a newline.
    fn eat_newline(&mut self) -> (r: bool)
        requires
            old(self).offset <= old(self).data@.len(),
        ensures
            final(self).data@ == old(self).data@,
            final(self).offset <= final(self).data@.len(),
            ({
                let q = old(self).offset as int;
                let q2 = if spec_peek(old(self).data@, q) == Some(CARRIAGE_RETURN) {
                    q + 1
                } else {
                    q
                };
                &&& r == (spec_peek(old(self).data@, q2) == Some(NEWLINE))
                &&& r ==> final(self).offset == q2 + 1
            }),
    {
        if self.peek_is(CARRIAGE_RETURN) {
            self.eat_char(CARRIAGE_RETURN);
        }
        self.eat_char(NEWLINE)
    }

    /// Whether `endstream` starts at `k`.
    fn endstream_at(&self, k: usize) -> (r: bool)
        ensures
            r == is_endstream_at(self.data@, k as int),
    {
        if k > self.data.len() || self.data.len() - k < 9 {
            return false;
        }
        let d = &self.data;
        d[k] == 101 && d[k + 1] == 110 && d[k + 2] == 100 && d[k + 3] == 115 && d[k + 4] == 116
            && d[k + 5] == 114 && d[k + 6] == 101 && d[k + 7] == 97 && d[k + 8] == 109
    }

    /// The body of a stream, up to `endstream`, and the `endstream` keyword.
    fn lex_stream_body(&mut self, tokens: &mut Vec<(SrcLoc, PdfToken)>, loc: SrcLoc) -> (r: bool)
        requires
            old(self).offset <= old(self).data@.len(),
        ensures
            final(self).data@ == old(self).data@,
            final(self).offset <= final(self).data@.len(),
            match stream_body(old(self).data@, old(self).offset as int) {
                Some((body, q)) => r && final(self).offset == q && located_view(final(tokens)@)
                    == located_view(old(tokens)@) + seq![
                    (loc@, SpecPdfToken::ByteStream(body)),
                    (loc@, SpecPdfToken::EndStreamKeyword),
                ],
                None => !r,
            },
    {
        let ghost d = self.data@;
        let ghost before = tokens@;
        if !self.eat_newline() {
            return false;
        }
        let start = self.offset;
        proof {
            lemma_find_endstream(d, start as int);
        }
        while self.offset < self.data.len() && !self.endstream_at(self.offset)
            invariant
                self.data@ == d,
                tokens@ == before,
                start <= self.offset <= d.len(),
                find_endstream(d, self.offset as int) == find_endstream(d, start as int),
            decreases d.len() - self.offset,
        {
            self.offset = self.offset + 1;
        }
        let k = self.offset;
        let mut end = k;
        if end > start && self.data[end - 1] == NEWLINE {
            end = end - 1;
        }
        if end > start && self.data[end - 1] == CARRIAGE_RETURN {
            end = end - 1;
        }
        let body = copy_range(&self.data, start, end);
        tokens.push((loc, PdfToken::ByteStream(body)));
        if self.data.len() - k >= 9 {
            self.offset = k + 9;
        } else {
            self.offset = self.data.len();
        }
        tokens.push((loc, PdfToken::EndStreamKeyword));
        proof {
            assert(located_view(tokens@) =~= located_view(before) + seq![
                (loc@, SpecPdfToken::ByteStream(body@)),
                (loc@, SpecPdfToken::EndStreamKeyword),
            ]);
        }
        true
    }

    /// One turn of the reading loop: the tokens at the byte ahead.
    fn step(&mut self, tokens: &mut Vec<(SrcLoc, PdfToken)>) -> (r: bool)
        requires
            old(self).offset < old(self).data@.len(),
        ensures
            final(self).data@ == old(self).data@,
            final(self).offset <= final(self).data@.len(),
            match pdf_step(old(self).data@, old(self).offset as int) {
                Some((ts, q)) => r && final(self).offset == q && located_view(final(tokens)@)
                    == located_view(old(tokens)@) + ts,
                None => !r,
            },
    {
        let ghost d = self.data@;
        let ghost before = tokens@;
        let c = self.peek_u8();
        let loc = self.src_loc();
        if is_whitespace(c) {
            self.lex_char();
            assert(located_view(tokens@) =~= located_view(before) + Seq::empty());
        } else if is_numeric(c) || c == MINUS {
            match self.parse_next_number() {
                Some(num) => {
                    tokens.push((loc, PdfToken::Number(num)));
                    assert(located_view(tokens@) =~= located_view(before) + seq![
                        (loc@, SpecPdfToken::Number(num@)),
                    ]);
                },
                None => {
                    return false;
                },
            }
        } else if c == PERCENT {
            self.lex_char();
            if self.peek_is(PERCENT) {
                self.lex_char();
                let word = match self.lex_word() {
                    Some(w) => w,
                    None => {
                        return false;
                    },
                };
                if !(word.len() == 3 && word[0] == 69 && word[1] == 79 && word[2] == 70) {
                    return false;
                }
                tokens.push((loc, PdfToken::EOFKeyword));
                assert(located_view(tokens@) =~= located_view(before) + seq![
                    (loc@, SpecPdfToken::EOFKeyword),
                ]);
                return true;
            }
            tokens.push((loc, PdfToken::Percent));
            proof {
                lemma_find_newline(d, self.offset as int);
            }
            let str = match self.lex_until(NEWLINE) {
                Some(t) => t,
                None => {
                    return false;
                },
            };
            self.eat_char(NEWLINE);
            tokens.push((loc, PdfToken::String(str)));
            assert(located_view(tokens@) =~= located_view(before) + seq![
                (loc@, SpecPdfToken::Percent),
                (loc@, SpecPdfToken::String(str@)),
            ]);
        } else if c == LANGLE {
            self.lex_char();
            self.skip_whitespace();
            tokens.push((loc, PdfToken::AngleStart));
            if !self.peek_is(LANGLE) {
                let id_word = match self.lex_word() {
                    Some(w) => w,
                    None => {
                        return false;
                    },
                };
                tokens.push((loc, PdfToken::Identifier(id_word)));
                assert(located_view(tokens@) =~= located_view(before) + seq![
                    (loc@, SpecPdfToken::AngleStart),
                    (loc@, SpecPdfToken::Identifier(id_word@)),
                ]);
            } else {
                self.lex_char();
                tokens.push((loc, PdfToken::AngleStart));
                assert(located_view(tokens@) =~= located_view(before) + seq![
                    (loc@, SpecPdfToken::AngleStart),
                    (loc@, SpecPdfToken::AngleStart),
                ]);
            }
        } else if c == LPAREN {
            self.lex_char();
            tokens.push((loc, PdfToken::LeftParens));
            let ghost start = self.offset as int;
            let mut chars: Vec<u8> = Vec::new();
            let mut depth: usize = 1;
            while depth > 0 && self.offset < self.data.len()
                invariant
                    self.data@ == d,
                    1 <= start <= self.offset <= d.len(),
                    depth <= self.offset,
                    located_view(tokens@) == located_view(before) + seq![
                        (loc@, SpecPdfToken::LeftParens),
                    ],
                    pdf_string_body(d, self.offset as int, depth as nat, chars@) == pdf_string_body(
                        d,
                        start,
                        1,
                        Seq::empty(),
                    ),
                decreases d.len() - self.offset,
            {
                let mm = self.lex_char();
                if mm == BACKSLASH {
                    chars.push(mm);
                    if self.offset < self.data.len() {
                        let nb = self.lex_char();
                        chars.push(nb);
                    }
                } else if mm == RPAREN {
                    depth = depth - 1;
                    if depth > 0 {
                        chars.push(mm);
                    }
                } else if mm == LPAREN {
                    depth = depth + 1;
                    chars.push(mm);
                } else {
                    chars.push(mm);
                }
            }
            let ghost mid = tokens@;
            tokens.push((loc, PdfToken::String(chars)));
            tokens.push((loc, PdfToken::RightParens));
            assert(located_view(tokens@) =~= located_view(mid) + seq![
                (loc@, SpecPdfToken::String(chars@)),
                (loc@, SpecPdfToken::RightParens),
            ]);
            assert(located_view(tokens@) =~= located_view(before) + seq![
                (loc@, SpecPdfToken::LeftParens),
                (loc@, SpecPdfToken::String(chars@)),
                (loc@, SpecPdfToken::RightParens),
            ]);
        } else {
            let word = match self.lex_word() {
                Some(w) => w,
                None => {
                    return false;
                },
            };
            let tok = match self.token_from_word(&word) {
                Some(t) => t,
                None => {
                    return false;
                },
            };
            let is_stream = matches!(tok, PdfToken::StreamKeyword);
            let is_slash = matches!(tok, PdfToken::ForwardSlash);
            let ghost tok_v = tok@;
            tokens.push((loc, tok));
            if is_stream {
                let ghost mid = tokens@;
                let ghost q = self.offset as int;
                if !self.lex_stream_body(tokens, loc) {
                    return false;
                }
                let ghost pair = stream_body(d, q)->0;
                let ghost body = pair.0;
                assert(located_view(mid) =~= located_view(before) + seq![
                    (loc@, SpecPdfToken::StreamKeyword),
                ]);
                assert(located_view(tokens@) =~= located_view(before) + seq![
                    (loc@, SpecPdfToken::StreamKeyword),
                    (loc@, SpecPdfToken::ByteStream(body)),
                    (loc@, SpecPdfToken::EndStreamKeyword),
                ]);
            } else if is_slash {
                let id_word = match self.lex_word() {
                    Some(w) => w,
                    None => {
                        return false;
                    },
                };
                tokens.push((loc, PdfToken::Identifier(id_word)));
                assert(located_view(tokens@) =~= located_view(before) + seq![
                    (loc@, SpecPdfToken::ForwardSlash),
                    (loc@, SpecPdfToken::Identifier(id_word@)),
                ]);
            } else {
                assert(located_view(tokens@) =~= located_view(before) + seq![(loc@, tok_v)]);
            }
        }
        true
    }

    fn has_bytes(&self) -> (r: bool)
        ensures
            r == (self.offset < self.data@.len()),
    {
        return self.offset < self.data.len();
    }

    /// Read the whole input into tokens.
    fn run(&mut self) -> (r: Option<Vec<(SrcLoc, PdfToken)>>)
        requires
            old(self).offset == 0,
        ensures
            match spec_tokenize_pdf(old(self).data@) {
                Some(ts) => r is Some && located_view(r->0@) == ts,
                None => r is None,
            },
    {
        let ghost d = self.data@;
        let mut tokens: Vec<(SrcLoc, PdfToken)> = Vec::new();
        assert(located_view(tokens@) =~= Seq::<(usize, SpecPdfToken)>::empty());
        while self.has_bytes()
            invariant
                self.data@ == d,
                d == old(self).data@,
                self.offset <= d.len(),
                spec_tokenize_pdf_from(d, 0) == match spec_tokenize_pdf_from(d, self.offset as int) {
                    Some(rest) => Some(located_view(tokens@) + rest),
                    None => None,
                },
            decreases d.len() - self.offset,
        {
            let ghost p = self.offset as int;
            let ghost before = tokens@;
            proof {
                lemma_step_advances(d, p);
            }
            if !self.step(&mut tokens) {
                return None;
            }
            proof {
                match spec_tokenize_pdf_from(d, self.offset as int) {
                    Some(rest) => {
                        let pair = pdf_step(d, p)->0;
                        let ts = pair.0;
                        assert(located_view(before) + (ts + rest) =~= located_view(tokens@)
                            + rest);
                    },
                    None => {},
                }
            }
        }
        assert(located_view(tokens@) + Seq::<(usize, SpecPdfToken)>::empty() =~= located_view(
            tokens@,
        ));
        Some(tokens)
    }
}

proof fn lemma_step_locations(d: Seq<u8>, p: int)
    requires
        0 <= p < d.len(),
        d.len() <= usize::MAX,
    ensures
        pdf_step(d, p) matches Some((ts, q)) ==> forall|i: int|
            0 <= i < ts.len() ==> #[trigger] ts[i].0 == p,
{
}

proof fn lemma_locations_from(d: Seq<u8>, p: int)
    requires
        0 <= p,
        d.len() <= usize::MAX,
    ensures
        spec_tokenize_pdf_from(d, p) matches Some(ts) ==> (forall|i: int|
            0 <= i < ts.len() ==> p <= #[trigger] ts[i].0 < d.len()) && (forall|i: int, j: int|
            0 <= i <= j < ts.len() ==> #[trigger] ts[i].0 <= #[trigger] ts[j].0),
    decreases d.len() - p,
{
    if p < d.len() {
        lemma_step_advances(d, p);
        lemma_step_locations(d, p);
        match pdf_step(d, p) {
            Some((ts, q)) => {
                lemma_locations_from(d, q);
                match spec_tokenize_pdf_from(d, q) {
                    Some(rest) => {
                        let all = ts + rest;
                        assert forall|i: int| 0 <= i < all.len() implies p <= #[trigger] all[i].0
                            < d.len() by {
                            if i >= ts.len() {
                                assert(all[i] == rest[i - ts.len()]);
                            }
                        }
                        assert forall|i: int, j: int|
                            0 <= i <= j < all.len() implies #[trigger] all[i].0 <= #[trigger] all[j].0 by {
                            if j >= ts.len() {
                                assert(all[j] == rest[j - ts.len()]);
                                if i >= ts.len() {
                                    assert(all[i] == rest[i - ts.len()]);
                                }
                            }
                        }
                    },
                    None => {},
                }
            },
            None => {},
        }
    }
}

/// Every token of a PDF file is located at a byte of the file, and the
/// tokens come in the order of their locations.
pub proof fn law_token_locations(d: Seq<u8>)
    requires
        d.len() <= usize::MAX,
    ensures
        spec_tokenize_pdf(d) matches Some(ts) ==> (forall|i: int|
            0 <= i < ts.len() ==> #[trigger] ts[i].0 < d.len()) && (forall|i: int, j: int|
            0 <= i <= j < ts.len() ==> #[trigger] ts[i].0 <= #[trigger] ts[j].0),
{
    lemma_locations_from(d, 0);
}

impl PdfToken {
    /// The text of the token.
    pub fn text(&self) -> (r: Vec<u8>)
        ensures
            r@ == spec_pdf_token_text(self@),
    {
        let r: Vec<u8> = match self {
            PdfToken::Number(n) => numeral_text(n),
            PdfToken::Identifier(s) => {
                let mut out: Vec<u8> = Vec::new();
                push_latin1(&mut out, s.as_slice());
                out
            },
            PdfToken::String(s) => {
                let mut out: Vec<u8> = Vec::new();
                push_latin1(&mut out, s.as_slice());
                out
            },
            PdfToken::ByteStream(_) => vec![60, 98, 121, 116, 101, 115, 46, 46, 46, 62],
            PdfToken::AngleStart => vec![60],
            PdfToken::AngleEnd => vec![62],
            PdfToken::ForwardSlash => vec![47],
            PdfToken::LeftBracket => vec![91],
            PdfToken::RightBracket => vec![93],
            PdfToken::LeftParens => vec![40],
            PdfToken::RightParens => vec![41],
            PdfToken::Percent => vec![37],
            PdfToken::ObjKeyword => vec![111, 98, 106],
            PdfToken::EndObjKeyword => vec![101, 110, 100, 111, 98, 106],
            PdfToken::StreamKeyword => vec![115, 116, 114, 101, 97, 109],
            PdfToken::EndStreamKeyword => vec![101, 110, 100, 115, 116, 114, 101, 97, 109],
            PdfToken::XRefKeyword => vec![120, 114, 101, 102],
            PdfToken::StartXRefKeyword => vec![115, 116, 97, 114, 116, 120, 114, 101, 102],
            PdfToken::TrailerKeyword => vec![116, 114, 97, 105, 108, 101, 114],
            PdfToken::RefKeyword => vec![82],
            PdfToken::FKeyword => vec![102],
            PdfToken::NKeyword => vec![110],
            PdfToken::EOFKeyword => vec![69, 79, 70],
            PdfToken::BooleanTrue => vec![116, 114, 117, 101],
            PdfToken::BooleanFalse => vec![102, 97, 108, 115, 101],
            PdfToken::Null => vec![110, 117, 108, 108],
        };
        assert(r@ =~= spec_pdf_token_text(self@));
        r
    }
}

/// Printing a keyword or delimiter gives back the word it was read from.
pub proof fn law_pdf_keyword_round_trip(w: Seq<u8>)
    requires
        spec_pdf_keyword(w) is Some,
    ensures
        spec_pdf_token_text(spec_pdf_keyword(w)->0) == w,
{
    assert(spec_pdf_token_text(spec_pdf_keyword(w)->0) =~= w);
}

/// A copy of `data[start..end]`.
pub fn copy_range(data: &Vec<u8>, start: usize, end: usize) -> (r: Vec<u8>)
    requires
        start <= end <= data@.len(),
    ensures
        r@ == data@.subrange(start as int, end as int),
{
    let mut out: Vec<u8> = Vec::new();
    let mut i = start;
    while i < end
        invariant
            start <= i <= end <= data@.len(),
            out@ =~= data@.subrange(start as int, i as int),
        decreases end - i,
    {
        out.push(data[i]);
        i = i + 1;
    }
    out
}

/// The located tokens of a PDF file, or `None` where it cannot be read.
pub fn try_tokenize_pdf(data: &Vec<u8>) -> (r: Option<Vec<(SrcLoc, PdfToken)>>)
    ensures
        match spec_tokenize_pdf(data@) {
            Some(ts) => r is Some && located_view(r->0@) == ts,
            None => r is None,
        },
{
    let mut tokenizer = PdfTokenizer::new(data.clone());
    tokenizer.run()
}

/// The located tokens of a PDF file that can be read.
pub fn tokenize_pdf(data: &Vec<u8>) -> (r: Vec<(SrcLoc, PdfToken)>)
    requires
        spec_tokenize_pdf(data@) is Some,
    ensures
        located_view(r@) == spec_tokenize_pdf(data@)->0,
{
    match try_tokenize_pdf(data) {
        Some(t) => t,
        None => Vec::new(),
    }
}

} // verus!
