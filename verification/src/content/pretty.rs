//! The text form of content-stream tokens, and a printer that lays a content
//! stream out with each text or marked-content block indented.
//!
//! Text is produced as UTF-8 bytes.  Names and strings hold one byte per
//! character, so each byte is written as the character of that number.

use vstd::prelude::*;
use crate::content::tokenizer::{spec_content_keyword, token_view, SpecToken, Token};
use crate::numeral::{
    digits_value, first_dot, has_minus, is_numeral_body, is_valid_numeral, lemma_first_dot,
    lemma_first_dot_bounds, numeral_body, numeral_int, numeral_magnitude,
};
use crate::chars::spec_is_ascii_digit;

verus! {

/// The number of `0` digits at the start of `s`.
pub open spec fn leading_zeros(s: Seq<u8>) -> nat
    decreases s.len(),
{
    if s.len() > 0 && s[0] == 48 {
        1 + leading_zeros(s.drop_first())
    } else {
        0
    }
}

/// The number of `0` digits at the end of `s`.
pub open spec fn trailing_zeros(s: Seq<u8>) -> nat
    decreases s.len(),
{
    if s.len() > 0 && s[s.len() - 1] == 48 {
        1 + trailing_zeros(s.drop_last())
    } else {
        0
    }
}

/// How a number prints: its sign, its integer digits without leading zeros
/// (`0` where none are left) and, where its fraction has digits before its
/// trailing zeros, a `.` and those digits.
pub open spec fn numeral_display(n: Seq<u8>) -> Seq<u8> {
    let body = numeral_body(n);
    let d = first_dot(body);
    let int_digits = body.take(d);
    let ip = int_digits.skip(leading_zeros(int_digits) as int);
    let frac = if d < body.len() {
        body.skip(d + 1)
    } else {
        Seq::empty()
    };
    let fp = frac.take(frac.len() - trailing_zeros(frac));
    let sign = if has_minus(n) {
        seq![45u8]
    } else {
        Seq::<u8>::empty()
    };
    sign + (if ip.len() == 0 {
        seq![48u8]
    } else {
        ip
    }) + (if fp.len() == 0 {
        Seq::<u8>::empty()
    } else {
        seq![46u8] + fp
    })
}

/// The UTF-8 bytes of the character whose number is `b`.
pub open spec fn latin1_utf8(b: u8) -> Seq<u8> {
    if b < 128 {
        seq![b]
    } else {
        seq![(192 + b / 64) as u8, (128 + b % 64) as u8]
    }
}

/// The UTF-8 bytes of the characters whose numbers are the bytes of `s`.
pub open spec fn latin1_to_utf8(s: Seq<u8>) -> Seq<u8>
    decreases s.len(),
{
    if s.len() == 0 {
        Seq::empty()
    } else {
        latin1_to_utf8(s.drop_last()) + latin1_utf8(s[s.len() - 1])
    }
}

/// The text of an operator: the word the content stream writes for it.
/// `f*` and the null byte print as `unknown`.
pub open spec fn spec_keyword_text(t: SpecToken) -> Seq<u8> {
    match t {
        SpecToken::SetColourStroke => seq![83u8, 67u8],
        SpecToken::SetColourNoStroke => seq![115u8, 99u8],
        SpecToken::Fill => seq![102u8],
        SpecToken::I => seq![105u8],
        SpecToken::CsNoStroke => seq![99u8, 115u8],
        SpecToken::CsStroke => seq![67u8, 83u8],
        SpecToken::CmStroke => seq![99u8, 109u8],
        SpecToken::Tm => seq![84u8, 109u8],
        SpecToken::Tf => seq![84u8, 102u8],
        SpecToken::Tj => seq![84u8, 106u8],
        SpecToken::TJ => seq![84u8, 74u8],
        SpecToken::Rect => seq![114u8, 101u8],
        SpecToken::M => seq![109u8],
        SpecToken::L => seq![108u8],
        SpecToken::H => seq![104u8],
        SpecToken::V => seq![118u8],
        SpecToken::C => seq![99u8],
        SpecToken::Y => seq![121u8],
        SpecToken::BDC => seq![66u8, 68u8, 67u8],
        SpecToken::EMC => seq![69u8, 77u8, 67u8],
        SpecToken::BMC => seq![66u8, 77u8, 67u8],
        SpecToken::BT => seq![66u8, 84u8],
        SpecToken::ET => seq![69u8, 84u8],
        SpecToken::GS => seq![103u8, 115u8],
        SpecToken::GNonStroke => seq![103u8],
        SpecToken::GStroke => seq![71u8],
        SpecToken::RGNonStroke => seq![114u8, 103u8],
        SpecToken::RGStroke => seq![82u8, 71u8],
        SpecToken::WLineWidth => seq![119u8],
        SpecToken::LineCap => seq![74u8],
        SpecToken::LineJoin => seq![106u8],
        SpecToken::Stroke => seq![83u8],
        SpecToken::CharSpacing => seq![84u8, 99u8],
        SpecToken::Do => seq![68u8, 111u8],
        SpecToken::RestoreGraphicsState => seq![81u8],
        SpecToken::SaveGraphicsState => seq![113u8],
        SpecToken::N => seq![110u8],
        SpecToken::W => seq![87u8],
        SpecToken::WStar => seq![87u8, 42u8],
        _ => seq![117u8, 110u8, 107u8, 110u8, 111u8, 119u8, 110u8],
    }
}

/// The text of a token: a number as it prints, a name after `/`, a string
/// as `("...")`, an array as the texts of its items one after the other, a
/// dictionary as `{`, each key, ` => ` and the text of its value, then `}`.
pub open spec fn spec_to_txt(t: Token) -> Seq<u8>
    decreases t,
{
    match t {
        Token::Number(n) => numeral_display(n@),
        Token::Identifier(s) => seq![47u8] + latin1_to_utf8(s@),
        Token::Array(v) => tokens_txt(v@),
        Token::Dict(e) => seq![123u8] + entries_txt(e@) + seq![125u8],
        Token::StringBytes(b) => seq![40u8, 34u8] + latin1_to_utf8(b@) + seq![34u8, 41u8],
        _ => spec_keyword_text(token_view(t)),
    }
}

/// The texts of the tokens, one after the other.
pub open spec fn tokens_txt(s: Seq<Token>) -> Seq<u8>
    decreases s,
{
    if s.len() == 0 {
        Seq::empty()
    } else {
        tokens_txt(s.drop_last()) + spec_to_txt(s[s.len() - 1])
    }
}

/// The texts of dictionary entries: key, ` => `, value, one after the other.
pub open spec fn entries_txt(s: Seq<(Vec<u8>, Token)>) -> Seq<u8>
    decreases s,
{
    if s.len() == 0 {
        Seq::empty()
    } else {
        entries_txt(s.drop_last()) + latin1_to_utf8(s[s.len() - 1].0@) + seq![
            32u8,
            61u8,
            62u8,
            32u8,
        ] + spec_to_txt(s[s.len() - 1].1)
    }
}

proof fn lemma_leading_zeros(s: Seq<u8>, k: int)
    requires
        0 <= k <= s.len(),
        forall|j: int| 0 <= j < k ==> s[j] == 48,
        k == s.len() || s[k] != 48,
    ensures
        leading_zeros(s) == k,
    decreases s.len(),
{
    if k > 0 {
        assert forall|j: int| 0 <= j < k - 1 implies s.drop_first()[j] == 48 by {
            assert(s.drop_first()[j] == s[j + 1]);
        }
        lemma_leading_zeros(s.drop_first(), k - 1);
    }
}

proof fn lemma_trailing_zeros(s: Seq<u8>, k: int)
    requires
        0 <= k <= s.len(),
        forall|j: int| s.len() - k <= j < s.len() ==> s[j] == 48,
        k == s.len() || s[s.len() - k - 1] != 48,
    ensures
        trailing_zeros(s) == k,
    decreases s.len(),
{
    if k > 0 {
        let t = s.drop_last();
        assert forall|j: int| t.len() - (k - 1) <= j < t.len() implies t[j] == 48 by {
            assert(t[j] == s[j]);
        }
        if k - 1 < t.len() {
            assert(t[t.len() - (k - 1) - 1] == s[s.len() - k - 1]);
        }
        lemma_trailing_zeros(t, k - 1);
    }
}

/// Append `src[from..to]` to `dst`.
pub(crate) fn push_range(dst: &mut Vec<u8>, src: &[u8], from: usize, to: usize)
    requires
        from <= to <= src@.len(),
    ensures
        final(dst)@ == old(dst)@ + src@.subrange(from as int, to as int),
{
    let mut i: usize = from;
    while i < to
        invariant
            from <= i <= to,
            to <= src@.len(),
            dst@ == old(dst)@ + src@.subrange(from as int, i as int),
        decreases to - i,
    {
        dst.push(src[i]);
        assert(src@.subrange(from as int, i + 1) =~= src@.subrange(from as int, i as int).push(
            src@[i as int],
        ));
        i = i + 1;
    }
}

/// Append the UTF-8 bytes of the characters numbered by `s`.
pub(crate) fn push_latin1(dst: &mut Vec<u8>, s: &[u8])
    ensures
        final(dst)@ == old(dst)@ + latin1_to_utf8(s@),
{
    let mut i: usize = 0;
    while i < s.len()
        invariant
            i <= s@.len(),
            dst@ == old(dst)@ + latin1_to_utf8(s@.take(i as int)),
        decreases s.len() - i,
    {
        let b = s[i];
        assert(s@.take(i + 1).drop_last() =~= s@.take(i as int));
        if b < 128 {
            dst.push(b);
        } else {
            dst.push(192 + b / 64);
            dst.push(128 + b % 64);
        }
        assert(dst@ =~= old(dst)@ + latin1_to_utf8(s@.take(i + 1)));
        i = i + 1;
    }
    assert(s@.take(s@.len() as int) =~= s@);
}

/// Where the first `.` at or after `start` is, or the length.
fn dot_index(n: &Vec<u8>, start: usize) -> (d: usize)
    requires
        start <= n@.len(),
    ensures
        start <= d <= n@.len(),
        first_dot(n@.skip(start as int)) == d - start,
{
    let ghost body = n@.skip(start as int);
    let mut d: usize = start;
    while d < n.len() && n[d] != 46
        invariant
            start <= d <= n@.len(),
            forall|j: int| start <= j < d ==> n@[j] != 46,
        decreases n.len() - d,
    {
        d = d + 1;
    }
    proof {
        assert forall|j: int| 0 <= j < d - start implies body[j] != 46 by {
            assert(body[j] == n@[j + start]);
        }
        if d < n.len() {
            assert(body[d - start] == n@[d as int]);
        }
        lemma_first_dot(body, d - start);
    }
    d
}

/// Where the digits from `start` to `d` stop being `0`.
fn zeros_end(n: &Vec<u8>, start: usize, d: usize) -> (a: usize)
    requires
        start <= d <= n@.len(),
    ensures
        start <= a <= d,
        leading_zeros(n@.subrange(start as int, d as int)) == a - start,
{
    let ghost digits = n@.subrange(start as int, d as int);
    let mut a: usize = start;
    while a < d && n[a] == 48
        invariant
            start <= a <= d,
            d <= n@.len(),
            forall|j: int| start <= j < a ==> n@[j] == 48,
        decreases d - a,
    {
        a = a + 1;
    }
    proof {
        assert forall|j: int| 0 <= j < a - start implies digits[j] == 48 by {
            assert(digits[j] == n@[j + start]);
        }
        if a < d {
            assert(digits[a - start] == n@[a as int]);
        }
        lemma_leading_zeros(digits, a - start);
    }
    a
}

/// Where the digits after `d` end once their trailing `0`s are dropped.
fn zeros_start(n: &Vec<u8>, d: usize) -> (e: usize)
    requires
        d < n@.len(),
    ensures
        d + 1 <= e <= n@.len(),
        trailing_zeros(n@.skip(d + 1)) == n@.len() - e,
{
    let ghost frac = n@.skip(d + 1);
    let mut e: usize = n.len();
    while e > d + 1 && n[e - 1] == 48
        invariant
            d + 1 <= e <= n@.len(),
            forall|j: int| e <= j < n@.len() ==> n@[j] == 48,
        decreases e,
    {
        e = e - 1;
    }
    proof {
        let k = n@.len() - e;
        assert forall|j: int| frac.len() - k <= j < frac.len() implies frac[j] == 48 by {
            assert(frac[j] == n@[j + d + 1]);
        }
        if k < frac.len() {
            assert(frac[frac.len() - k - 1] == n@[e - 1]);
        }
        lemma_trailing_zeros(frac, k);
    }
    e
}

/// How a numeral prints as a number.
#[verifier::rlimit(30)]
pub fn numeral_text(n: &Vec<u8>) -> (r: Vec<u8>)
    ensures
        r@ == numeral_display(n@),
{
    let start: usize = if n.len() > 0 && n[0] == 45 {
        1
    } else {
        0
    };
    let ghost body = numeral_body(n@);
    assert(body =~= n@.skip(start as int));
    let d = dot_index(n, start);
    let a = zeros_end(n, start, d);
    assert(body.take(d - start) =~= n@.subrange(start as int, d as int));
    let e = if d < n.len() {
        zeros_start(n, d)
    } else {
        n.len()
    };
    let mut out: Vec<u8> = Vec::new();
    if start == 1 {
        out.push(45);
    }
    if a == d {
        out.push(48);
    } else {
        push_range(&mut out, n.as_slice(), a, d);
    }
    if d < n.len() && e > d + 1 {
        out.push(46);
        push_range(&mut out, n.as_slice(), d + 1, e);
    }
    proof {
        let int_digits = body.take(d - start);
        assert(int_digits.skip(leading_zeros(int_digits) as int) =~= n@.subrange(
            a as int,
            d as int,
        ));
        if d < n.len() {
            let frac = body.skip(d - start + 1);
            assert(frac =~= n@.skip(d + 1));
            assert(frac.take(frac.len() - trailing_zeros(frac)) =~= n@.subrange(d + 1, e as int));
        }
        assert(out@ =~= numeral_display(n@));
    }
    out
}

/// The text of an operator.
pub fn keyword_text(t: &Token) -> (r: Vec<u8>)
    ensures
        r@ == spec_keyword_text(t@),
{
    let r: Vec<u8> = match t {
        Token::SetColourStroke => vec![83, 67],
        Token::SetColourNoStroke => vec![115, 99],
        Token::Fill => vec![102],
        Token::I => vec![105],
        Token::CsNoStroke => vec![99, 115],
        Token::CsStroke => vec![67, 83],
        Token::CmStroke => vec![99, 109],
        Token::Tm => vec![84, 109],
        Token::Tf => vec![84, 102],
        Token::Tj => vec![84, 106],
        Token::TJ => vec![84, 74],
        Token::Rect => vec![114, 101],
        Token::M => vec![109],
        Token::L => vec![108],
        Token::H => vec![104],
        Token::V => vec![118],
        Token::C => vec![99],
        Token::Y => vec![121],
        Token::BDC => vec![66, 68, 67],
        Token::EMC => vec![69, 77, 67],
        Token::BMC => vec![66, 77, 67],
        Token::BT => vec![66, 84],
        Token::ET => vec![69, 84],
        Token::GS => vec![103, 115],
        Token::GNonStroke => vec![103],
        Token::GStroke => vec![71],
        Token::RGNonStroke => vec![114, 103],
        Token::RGStroke => vec![82, 71],
        Token::WLineWidth => vec![119],
        Token::LineCap => vec![74],
        Token::LineJoin => vec![106],
        Token::Stroke => vec![83],
        Token::CharSpacing => vec![84, 99],
        Token::Do => vec![68, 111],
        Token::RestoreGraphicsState => vec![81],
        Token::SaveGraphicsState => vec![113],
        Token::N => vec![110],
        Token::W => vec![87],
        Token::WStar => vec![87, 42],
        _ => vec![117, 110, 107, 110, 111, 119, 110],
    };
    assert(r@ =~= spec_keyword_text(t@));
    r
}

/// The text of a token.
pub fn to_txt(tok: &Token) -> (r: Vec<u8>)
    ensures
        r@ == spec_to_txt(*tok),
    decreases tok,
{
    match tok {
        Token::Number(n) => numeral_text(n),
        Token::Identifier(s) => {
            let mut out: Vec<u8> = Vec::new();
            out.push(47);
            push_latin1(&mut out, s.as_slice());
            assert(out@ =~= spec_to_txt(*tok));
            out
        },
        Token::StringBytes(b) => {
            let mut out: Vec<u8> = Vec::new();
            out.push(40);
            out.push(34);
            push_latin1(&mut out, b.as_slice());
            out.push(34);
            out.push(41);
            assert(out@ =~= spec_to_txt(*tok));
            out
        },
        Token::Array(vv) => {
            let mut out: Vec<u8> = Vec::new();
            let mut i: usize = 0;
            while i < vv.len()
                invariant
                    i <= vv@.len(),
                    *tok == Token::Array(*vv),
                    out@ == tokens_txt(vv@.take(i as int)),
                decreases vv.len() - i,
            {
                proof {
                    assert(decreases_to!(*tok => (*tok)->Array_0));
                    assert(decreases_to!(*vv => vv@));
                    assert(decreases_to!(vv@ => vv@[i as int]));
                }
                let piece = to_txt(&vv[i]);
                push_range(&mut out, piece.as_slice(), 0, piece.len());
                assert(piece@.subrange(0, piece@.len() as int) =~= piece@);
                assert(vv@.take(i + 1).drop_last() =~= vv@.take(i as int));
                i = i + 1;
            }
            assert(vv@.take(vv@.len() as int) =~= vv@);
            out
        },
        Token::Dict(entries) => {
            let mut out: Vec<u8> = Vec::new();
            out.push(123);
            let mut i: usize = 0;
            while i < entries.len()
                invariant
                    i <= entries@.len(),
                    *tok == Token::Dict(*entries),
                    out@ == seq![123u8] + entries_txt(entries@.take(i as int)),
                decreases entries.len() - i,
            {
                push_latin1(&mut out, entries[i].0.as_slice());
                out.push(32);
                out.push(61);
                out.push(62);
                out.push(32);
                proof {
                    assert(decreases_to!(*tok => (*tok)->Dict_0));
                    assert(decreases_to!(*entries => entries@));
                    assert(decreases_to!(entries@ => entries@[i as int]));
                    assert(decreases_to!(entries@[i as int] => entries@[i as int].1));
                }
                let piece = to_txt(&entries[i].1);
                push_range(&mut out, piece.as_slice(), 0, piece.len());
                assert(piece@.subrange(0, piece@.len() as int) =~= piece@);
                assert(entries@.take(i + 1).drop_last() =~= entries@.take(i as int));
                assert(out@ =~= seq![123u8] + entries_txt(entries@.take(i + 1)));
                i = i + 1;
            }
            assert(entries@.take(entries@.len() as int) =~= entries@);
            out.push(125);
            assert(out@ =~= spec_to_txt(*tok));
            out
        },
        _ => keyword_text(tok),
    }
}

/// A newline, then `indent` spaces.
pub open spec fn spec_newline(indent: nat) -> Seq<u8> {
    seq![10u8] + Seq::new(indent, |i: int| 32u8)
}

/// `<CONTENTS>`
pub open spec fn open_tag() -> Seq<u8> {
    seq![60u8, 67u8, 79u8, 78u8, 84u8, 69u8, 78u8, 84u8, 83u8, 62u8]
}

/// `</CONTENTS>`
pub open spec fn close_tag() -> Seq<u8> {
    seq![60u8, 47u8, 67u8, 79u8, 78u8, 84u8, 69u8, 78u8, 84u8, 83u8, 62u8]
}

/// Whether the operator begins a text or marked-content block.
pub open spec fn opens_block(t: SpecToken) -> bool {
    t is BT || t is BDC || t is BMC
}

/// Whether the operator ends a text or marked-content block.
pub open spec fn closes_block(t: SpecToken) -> bool {
    t is ET || t is EMC
}

/// What the printer writes from token `i` on at indentation `indent`,
/// through the closing tag: a block's opening operator on a line of its own
/// with what follows indented four more spaces, its closing operator on a
/// line of its own four spaces less, any other token followed by a space.
/// `None` where the indentation would drop below zero or pass `u32::MAX`.
pub open spec fn spec_print_from(toks: Seq<Token>, i: int, indent: nat) -> Option<Seq<u8>>
    decreases toks.len() - i,
{
    if i < 0 || i >= toks.len() {
        if indent < 4 {
            None
        } else {
            Some(
                spec_newline((indent - 4) as nat) + close_tag() + spec_newline((indent - 4) as nat),
            )
        }
    } else {
        let t = toks[i];
        if opens_block(token_view(t)) {
            if indent + 4 > u32::MAX {
                None
            } else {
                match spec_print_from(toks, i + 1, indent + 4) {
                    Some(rest) => Some(
                        spec_newline(indent) + spec_to_txt(t) + spec_newline(indent + 4) + rest,
                    ),
                    None => None,
                }
            }
        } else if closes_block(token_view(t)) {
            if indent < 4 {
                None
            } else {
                match spec_print_from(toks, i + 1, (indent - 4) as nat) {
                    Some(rest) => Some(
                        spec_newline((indent - 4) as nat) + spec_to_txt(t) + spec_newline(
                            (indent - 4) as nat,
                        ) + rest,
                    ),
                    None => None,
                }
            }
        } else {
            match spec_print_from(toks, i + 1, indent) {
                Some(rest) => Some(spec_to_txt(t) + seq![32u8] + rest),
                None => None,
            }
        }
    }
}

/// What a printer at `offset` and `indent` writes: the opening tag, then
/// the tokens one level in, then the closing tag.
pub open spec fn spec_write_all(toks: Seq<Token>, offset: int, indent: nat) -> Option<Seq<u8>> {
    if indent + 4 > u32::MAX {
        None
    } else {
        match spec_print_from(toks, offset, indent + 4) {
            Some(rest) => Some(open_tag() + spec_newline(indent + 4) + rest),
            None => None,
        }
    }
}

/// The printed form of a content stream; `None` where its blocks close more
/// often than they open.
pub open spec fn spec_pretty_print(toks: Seq<Token>) -> Option<Seq<u8>> {
    spec_write_all(toks, 0, 0)
}

/// Lays out the tokens of a content stream.
pub struct PrettyPrinter<'a> {
    indent: u32,
    offset: usize,
    tokens: &'a Vec<Token>,
}

impl<'a> PrettyPrinter<'a> {
    fn write(&mut self, io: &mut Vec<u8>, str: &[u8])
        ensures
            final(io)@ == old(io)@ + str@,
            *final(self) == *old(self),
    {
        self.write_raw(io, str);
    }

    fn w_newline(&mut self, io: &mut Vec<u8>)
        ensures
            final(io)@ == old(io)@ + spec_newline(old(self).indent as nat),
            *final(self) == *old(self),
    {
        let nl: [u8; 1] = [10];
        self.write_raw(io, nl.as_slice());
        self.w_indent(io);
        assert(io@ =~= old(io)@ + spec_newline(old(self).indent as nat));
    }

    fn w_indent(&mut self, io: &mut Vec<u8>)
        ensures
            final(io)@ == old(io)@ + Seq::new(old(self).indent as nat, |i: int| 32u8),
            *final(self) == *old(self),
    {
        let mut k: u32 = 0;
        while k < self.indent
            invariant
                k <= self.indent,
                *self == *old(self),
                io@ == old(io)@ + Seq::new(k as nat, |i: int| 32u8),
            decreases self.indent - k,
        {
            let sp: [u8; 1] = [32];
            self.write_raw(io, sp.as_slice());
            assert(io@ =~= old(io)@ + Seq::new((k + 1) as nat, |i: int| 32u8));
            k = k + 1;
        }
    }

    fn write_raw(&mut self, io: &mut Vec<u8>, str: &[u8])
        ensures
            final(io)@ == old(io)@ + str@,
            *final(self) == *old(self),
    {
        push_range(io, str, 0, str.len());
        assert(str@.subrange(0, str@.len() as int) =~= str@);
    }

    /// Writes the printed form of the tokens.
    pub fn pretty_print(io: &mut Vec<u8>, toks: &Vec<Token>)
        requires
            spec_pretty_print(toks@) is Some,
        ensures
            final(io)@ == old(io)@ + spec_pretty_print(toks@)->0,
    {
        let mut printer = PrettyPrinter { indent: 0, offset: 0, tokens: toks };
        printer.write_all(io);
    }

    fn next_token(&mut self) -> (r: &'a Token)
        requires
            old(self).offset < old(self).tokens@.len(),
        ensures
            *r == old(self).tokens@[old(self).offset as int],
            final(self).offset == old(self).offset + 1,
            final(self).indent == old(self).indent,
            final(self).tokens == old(self).tokens,
    {
        let toks: &'a Vec<Token> = self.tokens;
        let off = self.offset;
        let n = toks.len();
        assert(off < n);
        let tok = &toks[off];
        self.offset = off + 1;
        tok
    }

    fn has_next(&self) -> (r: bool)
        ensures
            r == (self.offset < self.tokens@.len()),
    {
        self.offset < self.tokens.len()
    }

    fn indent_in(&mut self)
        requires
            old(self).indent + 4 <= u32::MAX,
        ensures
            final(self).indent == old(self).indent + 4,
            final(self).offset == old(self).offset,
            final(self).tokens == old(self).tokens,
    {
        self.indent = self.indent + 4;
    }

    fn indent_out(&mut self)
        requires
            old(self).indent >= 4,
        ensures
            final(self).indent == old(self).indent - 4,
            final(self).offset == old(self).offset,
            final(self).tokens == old(self).tokens,
    {
        self.indent = self.indent - 4;
    }

    #[verifier::rlimit(30)]
    fn write_all(&mut self, io: &mut Vec<u8>)
        requires
            old(self).offset <= old(self).tokens@.len(),
            spec_write_all(old(self).tokens@, old(self).offset as int, old(self).indent as nat) is Some,
        ensures
            final(io)@ == old(io)@ + spec_write_all(
                old(self).tokens@,
                old(self).offset as int,
                old(self).indent as nat,
            )->0,
    {
        let ghost toks = self.tokens@;
        let ghost total = spec_write_all(toks, self.offset as int, self.indent as nat)->0;
        let open: [u8; 10] = [60, 67, 79, 78, 84, 69, 78, 84, 83, 62];
        assert(open@ =~= open_tag());
        self.write(io, open.as_slice());
        self.indent_in();
        self.w_newline(io);
        assert(old(io)@ + total =~= io@ + spec_print_from(toks, self.offset as int, self.indent as nat)->0);
        while self.has_next()
            invariant
                self.tokens@ == toks,
                self.offset <= toks.len(),
                spec_print_from(toks, self.offset as int, self.indent as nat) is Some,
                old(io)@ + total == io@ + spec_print_from(toks, self.offset as int, self.indent as nat)->0,
            decreases toks.len() - self.offset,
        {
            let ghost io0 = io@;
            let ghost i = self.offset as int;
            let ghost ind = self.indent as nat;
            let tok = self.next_token();
            let ghost rest = spec_print_from(toks, i + 1, (if opens_block(token_view(*tok)) {
                ind + 4
            } else if closes_block(token_view(*tok)) {
                (ind - 4) as nat
            } else {
                ind
            }))->0;
            match tok {
                Token::BT | Token::BDC | Token::BMC => {
                    let str = to_txt(tok);
                    self.w_newline(io);
                    self.write(io, str.as_slice());
                    self.indent_in();
                    self.w_newline(io);
                },
                Token::ET | Token::EMC => {
                    let str = to_txt(tok);
                    self.indent_out();
                    self.w_newline(io);
                    self.write(io, str.as_slice());
                    self.w_newline(io);
                },
                tt => {
                    let txt = to_txt(tt);
                    self.write(io, txt.as_slice());
                    let sp: [u8; 1] = [32];
                    self.write(io, sp.as_slice());
                },
            }
            assert(io@ + rest =~= io0 + spec_print_from(toks, i, ind)->0);
        }
        self.indent_out();
        self.w_newline(io);
        let close: [u8; 11] = [60, 47, 67, 79, 78, 84, 69, 78, 84, 83, 62];
        assert(close@ =~= close_tag());
        self.write(io, close.as_slice());
        self.w_newline(io);
        assert(io@ =~= old(io)@ + total);
    }
}

/// Whether the printer gets through the tokens: no block closes at the
/// outermost level, and the nesting stays within `u32` indentation.
pub fn can_pretty_print(toks: &Vec<Token>) -> (r: bool)
    ensures
        r == spec_pretty_print(toks@) is Some,
{
    let mut indent: u32 = 4;
    let mut i: usize = 0;
    while i < toks.len()
        invariant
            i <= toks@.len(),
            indent >= 4 || i > 0,
            spec_pretty_print(toks@) is Some == spec_print_from(toks@, i as int, indent as nat) is Some,
        decreases toks.len() - i,
    {
        match &toks[i] {
            Token::BT | Token::BDC | Token::BMC => {
                if indent > u32::MAX - 4 {
                    return false;
                }
                indent = indent + 4;
            },
            Token::ET | Token::EMC => {
                if indent < 4 {
                    return false;
                }
                indent = indent - 4;
            },
            _ => {},
        }
        i = i + 1;
    }
    indent >= 4
}

/// The printed form of a content stream, or `None` where its blocks close
/// more often than they open.
pub fn try_pretty_print(toks: &Vec<Token>) -> (r: Option<Vec<u8>>)
    ensures
        match r {
            Some(out) => spec_pretty_print(toks@) == Some(out@),
            None => spec_pretty_print(toks@) is None,
        },
{
    if !can_pretty_print(toks) {
        return None;
    }
    let mut out: Vec<u8> = Vec::new();
    PrettyPrinter::pretty_print(&mut out, toks);
    assert(out@ =~= spec_pretty_print(toks@)->0);
    Some(out)
}

/// How many blocks are open after the first `i` tokens: openers count one
/// up, closers one down.
pub open spec fn block_depth(toks: Seq<Token>, i: int) -> int
    decreases i,
{
    if i <= 0 || i > toks.len() {
        0
    } else {
        block_depth(toks, i - 1) + if opens_block(token_view(toks[i - 1])) {
            1int
        } else if closes_block(token_view(toks[i - 1])) {
            -1int
        } else {
            0int
        }
    }
}

/// Whether `r` ends with `suf`.
pub open spec fn ends_with(r: Seq<u8>, suf: Seq<u8>) -> bool {
    r.len() >= suf.len() && r.subrange(r.len() - suf.len(), r.len() as int) == suf
}

/// Whether `r` starts with `pre`.
pub open spec fn starts_with(r: Seq<u8>, pre: Seq<u8>) -> bool {
    r.len() >= pre.len() && r.subrange(0, pre.len() as int) == pre
}

proof fn lemma_ends_with_append(p: Seq<u8>, rest: Seq<u8>, suf: Seq<u8>)
    requires
        ends_with(rest, suf),
    ensures
        ends_with(p + rest, suf),
{
    let r = p + rest;
    assert(r.subrange(r.len() - suf.len(), r.len() as int) =~= rest.subrange(
        rest.len() - suf.len(),
        rest.len() as int,
    ));
}

proof fn lemma_block_depth_bound(toks: Seq<Token>, i: int)
    requires
        0 <= i <= toks.len(),
    ensures
        -i <= block_depth(toks, i) <= i,
    decreases i,
{
    if i > 0 {
        lemma_block_depth_bound(toks, i - 1);
    }
}

proof fn lemma_print_from_depth(toks: Seq<Token>, i: int, d: int)
    requires
        0 <= i <= toks.len(),
        d == block_depth(toks, i),
        d >= -1,
        4 * toks.len() + 8 <= u32::MAX,
    ensures
        spec_print_from(toks, i, (4 * (d + 1)) as nat) is Some <==> (forall|j: int|
            i <= j <= toks.len() ==> #[trigger] block_depth(toks, j) >= -1) && block_depth(
            toks,
            toks.len() as int,
        ) >= 0,
        spec_print_from(toks, i, (4 * (d + 1)) as nat) is Some ==> ends_with(
            spec_print_from(toks, i, (4 * (d + 1)) as nat)->0,
            close_tag() + spec_newline((4 * block_depth(toks, toks.len() as int)) as nat),
        ),
    decreases toks.len() - i,
{
    lemma_block_depth_bound(toks, i);
    let n = toks.len() as int;
    let indent = (4 * (d + 1)) as nat;
    if i == n {
        if d >= 0 {
            let r = spec_newline((indent - 4) as nat) + close_tag() + spec_newline(
                (indent - 4) as nat,
            );
            assert(r == spec_newline((indent - 4) as nat) + (close_tag() + spec_newline(
                (indent - 4) as nat,
            )));
            let suf = close_tag() + spec_newline((indent - 4) as nat);
            assert(r.subrange(r.len() - suf.len(), r.len() as int) =~= suf);
        }
    } else {
        let t = toks[i];
        assert(block_depth(toks, i + 1) == d + if opens_block(token_view(t)) {
            1int
        } else if closes_block(token_view(t)) {
            -1int
        } else {
            0int
        });
        let d2 = block_depth(toks, i + 1);
        if closes_block(token_view(t)) && d == -1 {
            assert(spec_print_from(toks, i, indent) is None);
            assert(!(block_depth(toks, i + 1) >= -1));
        } else {
            lemma_print_from_depth(toks, i + 1, d2);
            assert((4 * (d2 + 1)) as nat == if opens_block(token_view(t)) {
                indent + 4
            } else if closes_block(token_view(t)) {
                (indent - 4) as nat
            } else {
                indent
            });
            assert((forall|j: int| i <= j <= n ==> #[trigger] block_depth(toks, j) >= -1) <==> (
            forall|j: int| i + 1 <= j <= n ==> #[trigger] block_depth(toks, j) >= -1)) by {
                if forall|j: int| i + 1 <= j <= n ==> #[trigger] block_depth(toks, j) >= -1 {
                    assert forall|j: int| i <= j <= n implies #[trigger] block_depth(toks, j)
                        >= -1 by {
                        if j == i {
                        } else {
                            assert(block_depth(toks, j) >= -1);
                        }
                    }
                }
            }
            match spec_print_from(toks, i + 1, (4 * (d2 + 1)) as nat) {
                Some(rest) => {
                    let suf = close_tag() + spec_newline((4 * block_depth(toks, n)) as nat);
                    if opens_block(token_view(t)) {
                        lemma_ends_with_append(
                            spec_newline(indent) + spec_to_txt(t) + spec_newline(indent + 4),
                            rest,
                            suf,
                        );
                    } else if closes_block(token_view(t)) {
                        lemma_ends_with_append(
                            spec_newline((indent - 4) as nat) + spec_to_txt(t) + spec_newline(
                                (indent - 4) as nat,
                            ),
                            rest,
                            suf,
                        );
                    } else {
                        lemma_ends_with_append(spec_to_txt(t) + seq![32u8], rest, suf);
                    }
                },
                None => {},
            }
        }
    }
}

/// A content stream can be printed exactly when no block closes while the
/// printer is at its outermost indentation (the depth never drops below
/// minus one) and the blocks left open at the end are not fewer than none.
/// So a stream whose closers never outnumber its openers, counted over any
/// prefix, always prints.  The print starts with `<CONTENTS>` and a line
/// indented four spaces, and ends with `</CONTENTS>` and a newline followed
/// by four spaces per block left open: when openers and closers balance,
/// `</CONTENTS>` and a bare newline.  The length bound keeps the indentation within `u32`.
pub proof fn law_print_shape(toks: Seq<Token>)
    requires
        4 * toks.len() + 8 <= u32::MAX,
    ensures
        spec_pretty_print(toks) is Some <==> (forall|j: int|
            0 <= j <= toks.len() ==> #[trigger] block_depth(toks, j) >= -1) && block_depth(
            toks,
            toks.len() as int,
        ) >= 0,
        (forall|j: int| 0 <= j <= toks.len() ==> #[trigger] block_depth(toks, j) >= 0)
            ==> spec_pretty_print(toks) is Some,
        spec_pretty_print(toks) is Some ==> starts_with(
            spec_pretty_print(toks)->0,
            open_tag() + spec_newline(4),
        ),
        spec_pretty_print(toks) is Some ==> ends_with(
            spec_pretty_print(toks)->0,
            close_tag() + spec_newline((4 * block_depth(toks, toks.len() as int)) as nat),
        ),
        (forall|j: int| 0 <= j <= toks.len() ==> #[trigger] block_depth(toks, j) >= 0)
            && block_depth(toks, toks.len() as int) == 0 ==> spec_pretty_print(toks) is Some
            && ends_with(spec_pretty_print(toks)->0, close_tag() + seq![10u8]),
{
    assert(spec_newline(0) =~= seq![10u8]);
    assert(block_depth(toks, 0) == 0);
    lemma_print_from_depth(toks, 0, 0);
    if forall|j: int| 0 <= j <= toks.len() ==> #[trigger] block_depth(toks, j) >= 0 {
        assert(block_depth(toks, toks.len() as int) >= 0);
    }
    match spec_print_from(toks, 0, 4) {
        Some(rest) => {
            let pre = open_tag() + spec_newline(4);
            let r = pre + rest;
            assert(r.subrange(0, pre.len() as int) =~= pre);
            lemma_ends_with_append(
                pre,
                rest,
                close_tag() + spec_newline((4 * block_depth(toks, toks.len() as int)) as nat),
            );
        },
        None => {},
    }
}

/// Printing an operator gives back the word it was read from: for every
/// word that the content tokenizer reads as an operator, the text of that
/// operator is the word itself.
pub proof fn law_keyword_round_trip(w: Seq<u8>)
    requires
        spec_content_keyword(w) is Some,
    ensures
        spec_keyword_text(spec_content_keyword(w)->0) == w,
{
    assert(spec_keyword_text(spec_content_keyword(w)->0) =~= w);
}

proof fn lemma_first_dot_props(s: Seq<u8>)
    ensures
        0 <= first_dot(s) <= s.len(),
        forall|j: int| 0 <= j < first_dot(s) ==> s[j] != 46,
        first_dot(s) < s.len() ==> s[first_dot(s)] == 46,
    decreases s.len(),
{
    lemma_first_dot_bounds(s);
    if s.len() > 0 && s[0] != 46 {
        lemma_first_dot_props(s.drop_first());
        assert forall|j: int| 0 <= j < first_dot(s) implies s[j] != 46 by {
            if j > 0 {
                assert(s[j] == s.drop_first()[j - 1]);
            }
        }
    }
}

proof fn lemma_leading_zeros_props(s: Seq<u8>)
    ensures
        leading_zeros(s) <= s.len(),
        forall|j: int| 0 <= j < leading_zeros(s) ==> s[j] == 48,
        leading_zeros(s) < s.len() ==> s[leading_zeros(s) as int] != 48,
    decreases s.len(),
{
    if s.len() > 0 && s[0] == 48 {
        lemma_leading_zeros_props(s.drop_first());
        assert forall|j: int| 0 <= j < leading_zeros(s) implies s[j] == 48 by {
            if j > 0 {
                assert(s[j] == s.drop_first()[j - 1]);
            }
        }
    }
}

proof fn lemma_trailing_zeros_bound(s: Seq<u8>)
    ensures
        trailing_zeros(s) <= s.len(),
    decreases s.len(),
{
    if s.len() > 0 && s[s.len() - 1] == 48 {
        lemma_trailing_zeros_bound(s.drop_last());
    }
}

/// Leading `0` digits add nothing to the value of a run of digits.
proof fn lemma_digits_leading_zeros(s: Seq<u8>, z: int)
    requires
        0 <= z <= s.len(),
        forall|j: int| 0 <= j < z ==> s[j] == 48,
    ensures
        digits_value(s) == digits_value(s.skip(z)),
    decreases s.len(),
{
    if s.len() == 0 {
        assert(s.skip(z) =~= s);
    } else if s.len() == z {
        lemma_digits_leading_zeros(s.drop_last(), z - 1);
        assert(s.drop_last().skip(z - 1).len() == 0);
        assert(s.skip(z).len() == 0);
    } else {
        lemma_digits_leading_zeros(s.drop_last(), z);
        assert(s.skip(z).drop_last() =~= s.drop_last().skip(z));
        assert(s.skip(z)[s.skip(z).len() - 1] == s[s.len() - 1]);
    }
}

/// Printing a number keeps it a numeral, with its sign and its integer
/// part: the text `to_txt` gives a number reads back as a number with the
/// same value rounded toward zero.
pub proof fn law_number_text_keeps_value(n: Seq<u8>)
    requires
        is_valid_numeral(n),
    ensures
        is_valid_numeral(numeral_display(n)),
        has_minus(numeral_display(n)) == has_minus(n),
        numeral_int(numeral_display(n)) == numeral_int(n),
{
    let body = numeral_body(n);
    let d = first_dot(body);
    lemma_first_dot_props(body);
    let ip = body.take(d);
    let z = leading_zeros(ip);
    lemma_leading_zeros_props(ip);
    let ip1 = ip.skip(z as int);
    let ip2 = if ip1.len() == 0 {
        seq![48u8]
    } else {
        ip1
    };
    let frac = if d < body.len() {
        body.skip(d + 1)
    } else {
        Seq::empty()
    };
    lemma_trailing_zeros_bound(frac);
    let fp = frac.take(frac.len() - trailing_zeros(frac));
    let tail = if fp.len() == 0 {
        Seq::<u8>::empty()
    } else {
        seq![46u8] + fp
    };
    let sign = if has_minus(n) {
        seq![45u8]
    } else {
        Seq::<u8>::empty()
    };
    let disp = numeral_display(n);
    assert(disp == sign + ip2 + tail);
    let b2 = ip2 + tail;
    // every byte of the body is a digit or the dot, and the dot is at `d`
    assert forall|j: int| 0 <= j < ip2.len() implies spec_is_ascii_digit(#[trigger] ip2[j]) by {
        if ip1.len() > 0 {
            assert(ip2[j] == body[j + z]);
            assert(body[j + z] != 46);
        }
    }
    assert forall|j: int| 0 <= j < fp.len() implies spec_is_ascii_digit(#[trigger] fp[j]) by {
        assert(fp[j] == body[j + d + 1]);
        assert(body[d] == 46);
        assert(body[j + d + 1] != 46);
    }
    assert(numeral_body(disp) =~= b2);
    assert forall|j: int| 0 <= j < b2.len() implies spec_is_ascii_digit(#[trigger] b2[j])
        || b2[j] == 46 by {
        if j < ip2.len() {
            assert(b2[j] == ip2[j]);
        } else if j > ip2.len() {
            assert(b2[j] == fp[j - ip2.len() - 1]);
        }
    }
    assert forall|i: int, j: int| 0 <= i < j < b2.len() && #[trigger] b2[i] == 46 implies #[trigger] b2[j]
        != 46 by {
        if i < ip2.len() {
            assert(b2[i] == ip2[i]);
        }
        assert(i == ip2.len());
        assert(b2[j] == fp[j - ip2.len() - 1]);
    }
    assert(b2[0] == ip2[0]);
    assert(spec_is_ascii_digit(b2[0]));
    assert(is_numeral_body(b2));
    // the integer part is the same number
    assert forall|j: int| 0 <= j < ip2.len() implies b2[j] != 46 by {
        assert(b2[j] == ip2[j]);
    }
    if ip2.len() < b2.len() {
        assert(b2[ip2.len() as int] == 46);
    }
    lemma_first_dot(b2, ip2.len() as int);
    assert(b2.take(ip2.len() as int) =~= ip2);
    lemma_digits_leading_zeros(ip, z as int);
    if ip1.len() == 0 {
        assert(ip1 =~= Seq::<u8>::empty());
        assert(digits_value(ip2) == digits_value(ip2.drop_last()) * 10 + 0);
        assert(ip2.drop_last() =~= Seq::<u8>::empty());
    }
    assert(numeral_magnitude(disp) == numeral_magnitude(n));
}

} // verus!
