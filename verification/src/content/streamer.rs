//! The operator machine of a page's content stream.
//!
//! Operands are gathered on a stack; each operator takes its operands and
//! gives an operation for the drawing side to carry out.  This module
//! decides which operators can run: that their operands are there and of
//! the right kind, that text and marked-content blocks close in order, that
//! a saved graphics state exists to restore, that a fill colour has as many
//! components as its colour space, and that shown text has a font with a
//! width for each character.  Numbers are handed over as their numerals; the
//! drawing side does the arithmetic.

use vstd::prelude::*;
use crate::content::graphics::ClippingRule;
use crate::content::tokenizer::Token;
use crate::fonts::{has_width, FontLib, SpecFont};
use crate::pdf::ast::{copy_bytes, ColourSpaceLib, PageCtx};

verus! {

/// Whether a token can stand on the operand stack: a number, a name, a
/// string, or an array or dictionary of such.
pub open spec fn spec_is_operand(t: Token) -> bool
    decreases t,
{
    match t {
        Token::Number(_) => true,
        Token::Identifier(_) => true,
        Token::StringBytes(_) => true,
        Token::Array(v) => operands_all(v@),
        Token::Dict(e) => operand_entries_all(e@),
        _ => false,
    }
}

pub open spec fn operands_all(s: Seq<Token>) -> bool
    decreases s,
{
    if s.len() == 0 {
        true
    } else {
        operands_all(s.drop_last()) && spec_is_operand(s[s.len() - 1])
    }
}

pub open spec fn operand_entries_all(s: Seq<(Vec<u8>, Token)>) -> bool
    decreases s,
{
    if s.len() == 0 {
        true
    } else {
        operand_entries_all(s.drop_last()) && spec_is_operand(s[s.len() - 1].1)
    }
}

/// Whether the token is a value (as opposed to an operator).
pub open spec fn is_value(t: Token) -> bool {
    t is Number || t is Identifier || t is StringBytes || t is Array || t is Dict
}

/// The numeral of a number token.
pub open spec fn num_text(t: Token) -> Seq<u8> {
    match t {
        Token::Number(n) => n@,
        _ => Seq::empty(),
    }
}

/// The bytes of a name or string token.
pub open spec fn bytes_text(t: Token) -> Seq<u8> {
    match t {
        Token::Identifier(s) => s@,
        Token::StringBytes(s) => s@,
        _ => Seq::empty(),
    }
}

/// The numerals of the top `k` operands, deepest first, where they are all
/// numbers.
pub open spec fn top_numbers(s: Seq<Token>, k: int) -> Option<Seq<Seq<u8>>> {
    if 0 <= k <= s.len() && (forall|j: int| s.len() - k <= j < s.len() ==> #[trigger] s[j] is Number) {
        Some(Seq::new(k as nat, |j: int| num_text(s[s.len() - k + j])))
    } else {
        None
    }
}

/// An item of a `TJ` array: a shift of the text position, or text.
#[derive(Debug, PartialEq)]
pub enum TjItem {
    Adjust(Vec<u8>),
    Text(Vec<u8>),
}

pub enum SpecTjItem {
    Adjust(Seq<u8>),
    Text(Seq<u8>),
}

impl View for TjItem {
    type V = SpecTjItem;

    open spec fn view(&self) -> SpecTjItem {
        match self {
            TjItem::Adjust(n) => SpecTjItem::Adjust(n@),
            TjItem::Text(b) => SpecTjItem::Text(b@),
        }
    }
}

/// What an operator asks of the drawing side.  Numbers are numerals, in the
/// order the stream writes them.
#[derive(Debug, PartialEq)]
pub enum Operation {
    Noop,
    SetTextMatrix(Vec<Vec<u8>>),
    SetFont { font: Vec<u8>, size: Vec<u8> },
    ShowText(Vec<u8>),
    ShowArray(Vec<TjItem>),
    EndText,
    Save,
    Restore,
    Rect(Vec<Vec<u8>>),
    Clip(ClippingRule),
    EndPath,
    SetFillColour(Vec<Vec<u8>>),
    Concat(Vec<Vec<u8>>),
    MoveTo(Vec<Vec<u8>>),
    LineTo(Vec<Vec<u8>>),
    ClosePath,
    Fill,
    FillGray(Vec<Vec<u8>>),
    StrokeGray(Vec<Vec<u8>>),
}

pub enum SpecOperation {
    Noop,
    SetTextMatrix(Seq<Seq<u8>>),
    SetFont { font: Seq<u8>, size: Seq<u8> },
    ShowText(Seq<u8>),
    ShowArray(Seq<SpecTjItem>),
    EndText,
    Save,
    Restore,
    Rect(Seq<Seq<u8>>),
    Clip(ClippingRule),
    EndPath,
    SetFillColour(Seq<Seq<u8>>),
    Concat(Seq<Seq<u8>>),
    MoveTo(Seq<Seq<u8>>),
    LineTo(Seq<Seq<u8>>),
    ClosePath,
    Fill,
    FillGray(Seq<Seq<u8>>),
    StrokeGray(Seq<Seq<u8>>),
}

pub open spec fn tj_items_view(s: Seq<TjItem>) -> Seq<SpecTjItem> {
    s.map_values(|i: TjItem| i@)
}

pub open spec fn ops_view(s: Seq<Operation>) -> Seq<SpecOperation> {
    s.map_values(|o: Operation| o@)
}

pub open spec fn numerals_view(v: Seq<Vec<u8>>) -> Seq<Seq<u8>> {
    v.map_values(|n: Vec<u8>| n@)
}

impl View for Operation {
    type V = SpecOperation;

    open spec fn view(&self) -> SpecOperation {
        match self {
            Operation::Noop => SpecOperation::Noop,
            Operation::SetTextMatrix(v) => SpecOperation::SetTextMatrix(numerals_view(v@)),
            Operation::SetFont { font, size } => SpecOperation::SetFont {
                font: font@,
                size: size@,
            },
            Operation::ShowText(b) => SpecOperation::ShowText(b@),
            Operation::ShowArray(items) => SpecOperation::ShowArray(tj_items_view(items@)),
            Operation::EndText => SpecOperation::EndText,
            Operation::Save => SpecOperation::Save,
            Operation::Restore => SpecOperation::Restore,
            Operation::Rect(v) => SpecOperation::Rect(numerals_view(v@)),
            Operation::Clip(r) => SpecOperation::Clip(*r),
            Operation::EndPath => SpecOperation::EndPath,
            Operation::SetFillColour(v) => SpecOperation::SetFillColour(numerals_view(v@)),
            Operation::Concat(v) => SpecOperation::Concat(numerals_view(v@)),
            Operation::MoveTo(v) => SpecOperation::MoveTo(numerals_view(v@)),
            Operation::LineTo(v) => SpecOperation::LineTo(numerals_view(v@)),
            Operation::ClosePath => SpecOperation::ClosePath,
            Operation::Fill => SpecOperation::Fill,
            Operation::FillGray(v) => SpecOperation::FillGray(numerals_view(v@)),
            Operation::StrokeGray(v) => SpecOperation::StrokeGray(numerals_view(v@)),
        }
    }
}

/// How many numbers an operator that takes numbers alone takes, or -1.
pub open spec fn number_arity(t: Token) -> int {
    match t {
        Token::Tm => 6,
        Token::CmStroke => 6,
        Token::Rect => 4,
        Token::M => 2,
        Token::L => 2,
        Token::I => 1,
        Token::V => 4,
        Token::Y => 4,
        Token::GNonStroke => 1,
        Token::GStroke => 1,
        Token::RGNonStroke => 3,
        Token::RGStroke => 3,
        _ => -1,
    }
}

/// The operation of an operator that takes numbers alone.
pub open spec fn number_op(t: Token, nums: Seq<Seq<u8>>) -> SpecOperation {
    match t {
        Token::Tm => SpecOperation::SetTextMatrix(nums),
        Token::CmStroke => SpecOperation::Concat(nums),
        Token::Rect => SpecOperation::Rect(nums),
        Token::M => SpecOperation::MoveTo(nums),
        Token::L => SpecOperation::LineTo(nums),
        Token::GNonStroke => SpecOperation::FillGray(nums),
        Token::GStroke => SpecOperation::StrokeGray(nums),
        _ => SpecOperation::Noop,
    }
}

/// A block the machine is in.
pub enum SpecScope {
    /// Marked content, with its tag and, for `BDC`, its property list.
    MarkedContent { tag: Seq<u8>, dict: Option<Seq<(Vec<u8>, Token)>> },
    Text,
    TopLevel,
}

/// The state of the machine: the operands, the open blocks (innermost
/// last), the saved fill colour spaces (of the saved graphics states), the
/// fill colour space and the font.
pub struct SpecStreamState {
    pub stack: Seq<Token>,
    pub scopes: Seq<SpecScope>,
    pub saved: Seq<Option<Seq<u8>>>,
    pub cs_fill: Option<Seq<u8>>,
    pub font: Option<Seq<u8>>,
}

/// Whether text can be shown in the font: every character has a width in it
/// (which needs the font to be set and to be one of the page's fonts).
pub open spec fn show_ok(font: Option<Seq<u8>>, fonts: Map<Seq<u8>, SpecFont>, bytes: Seq<u8>) -> bool {
    bytes.len() == 0 || (font is Some && fonts.contains_key(font->0) && forall|j: int|
        0 <= j < bytes.len() ==> has_width(fonts[font->0], #[trigger] bytes[j]))
}

/// Whether the items of a `TJ` array can be shown: numbers, and strings that
/// the font can show.
pub open spec fn tj_items_ok(items: Seq<Token>, font: Option<Seq<u8>>, fonts: Map<Seq<u8>, SpecFont>) -> bool {
    forall|i: int|
        0 <= i < items.len() ==> (#[trigger] items[i] is Number || (items[i] is StringBytes
            && show_ok(font, fonts, bytes_text(items[i]))))
}

/// The items of a `TJ` array as shifts and texts.
pub open spec fn tj_view(items: Seq<Token>) -> Seq<SpecTjItem> {
    items.map_values(
        |t: Token|
            match t {
                Token::Number(n) => SpecTjItem::Adjust(n@),
                Token::StringBytes(b) => SpecTjItem::Text(b@),
                _ => SpecTjItem::Adjust(Seq::empty()),
            },
    )
}

pub open spec fn with_stack(s: SpecStreamState, stack: Seq<Token>) -> SpecStreamState {
    SpecStreamState { stack, scopes: s.scopes, saved: s.saved, cs_fill: s.cs_fill, font: s.font }
}

/// One step of the machine on token `tok`, with the page's colour spaces and
/// fonts.  `None` where the operator cannot run.
pub open spec fn spec_advance(
    s: SpecStreamState,
    tok: Token,
    cs: Map<Seq<u8>, u8>,
    fonts: Map<Seq<u8>, SpecFont>,
) -> Option<(SpecStreamState, SpecOperation)> {
    let st = s.stack;
    let n = st.len();
    if is_value(tok) {
        if spec_is_operand(tok) {
            Some((with_stack(s, st.push(tok)), SpecOperation::Noop))
        } else {
            None
        }
    } else if number_arity(tok) >= 0 {
        match top_numbers(st, number_arity(tok)) {
            Some(nums) => Some(
                (with_stack(s, st.take(n - number_arity(tok))), number_op(tok, nums)),
            ),
            None => None,
        }
    } else {
        match tok {
            Token::Tf => {
                if n >= 2 && st[n - 1] is Number && st[n - 2] is Identifier {
                    Some(
                        (
                            SpecStreamState {
                                stack: st.take(n - 2),
                                scopes: s.scopes,
                                saved: s.saved,
                                cs_fill: s.cs_fill,
                                font: Some(bytes_text(st[n - 2])),
                            },
                            SpecOperation::SetFont {
                                font: bytes_text(st[n - 2]),
                                size: num_text(st[n - 1]),
                            },
                        ),
                    )
                } else {
                    None
                }
            },
            Token::Tj => {
                if n >= 1 && st[n - 1] is StringBytes && show_ok(
                    s.font,
                    fonts,
                    bytes_text(st[n - 1]),
                ) {
                    Some(
                        (
                            with_stack(s, st.take(n - 1)),
                            SpecOperation::ShowText(bytes_text(st[n - 1])),
                        ),
                    )
                } else {
                    None
                }
            },
            Token::TJ => {
                if n >= 1 && st[n - 1] is Array && tj_items_ok(
                    (st[n - 1]->Array_0)@,
                    s.font,
                    fonts,
                ) {
                    Some(
                        (
                            with_stack(s, st.take(n - 1)),
                            SpecOperation::ShowArray(tj_view((st[n - 1]->Array_0)@)),
                        ),
                    )
                } else {
                    None
                }
            },
            Token::GS => {
                if n >= 1 && st[n - 1] is Identifier {
                    Some((with_stack(s, st.take(n - 1)), SpecOperation::Noop))
                } else {
                    None
                }
            },
            Token::BT => Some(
                (
                    SpecStreamState {
                        stack: st,
                        scopes: s.scopes.push(SpecScope::Text),
                        saved: s.saved,
                        cs_fill: s.cs_fill,
                        font: s.font,
                    },
                    SpecOperation::Noop,
                ),
            ),
            Token::ET => {
                if s.scopes.len() > 0 && s.scopes[s.scopes.len() - 1] is Text {
                    Some(
                        (
                            SpecStreamState {
                                stack: st,
                                scopes: s.scopes.drop_last(),
                                saved: s.saved,
                                cs_fill: s.cs_fill,
                                font: None,
                            },
                            SpecOperation::EndText,
                        ),
                    )
                } else {
                    None
                }
            },
            Token::SaveGraphicsState => Some(
                (
                    SpecStreamState {
                        stack: st,
                        scopes: s.scopes,
                        saved: s.saved.push(s.cs_fill),
                        cs_fill: s.cs_fill,
                        font: s.font,
                    },
                    SpecOperation::Save,
                ),
            ),
            Token::RestoreGraphicsState => {
                if s.saved.len() > 0 {
                    Some(
                        (
                            SpecStreamState {
                                stack: st,
                                scopes: s.scopes,
                                saved: s.saved.drop_last(),
                                cs_fill: s.saved[s.saved.len() - 1],
                                font: s.font,
                            },
                            SpecOperation::Restore,
                        ),
                    )
                } else {
                    None
                }
            },
            Token::W => Some((s, SpecOperation::Clip(ClippingRule::Winding))),
            // `W*` clips as `W` does, with the non-zero winding rule: the
            // drawing side has no even-odd clip.
            Token::WStar => Some((s, SpecOperation::Clip(ClippingRule::Winding))),
            Token::N => Some((s, SpecOperation::EndPath)),
            Token::H => Some((s, SpecOperation::ClosePath)),
            Token::Fill => Some((s, SpecOperation::Fill)),
            Token::CsNoStroke => {
                if n >= 1 && st[n - 1] is Identifier {
                    Some(
                        (
                            SpecStreamState {
                                stack: st.take(n - 1),
                                scopes: s.scopes,
                                saved: s.saved,
                                cs_fill: Some(bytes_text(st[n - 1])),
                                font: s.font,
                            },
                            SpecOperation::Noop,
                        ),
                    )
                } else {
                    None
                }
            },
            Token::SetColourNoStroke => {
                if s.cs_fill is Some && cs.contains_key(s.cs_fill->0) {
                    let k = cs[s.cs_fill->0] as int;
                    match top_numbers(st, k) {
                        Some(nums) => Some(
                            (with_stack(s, st.take(n - k)), SpecOperation::SetFillColour(nums)),
                        ),
                        None => None,
                    }
                } else {
                    None
                }
            },
            Token::BDC => {
                if n >= 2 && st[n - 1] is Dict && st[n - 2] is Identifier {
                    Some(
                        (
                            SpecStreamState {
                                stack: st.take(n - 2),
                                scopes: s.scopes.push(
                                    SpecScope::MarkedContent {
                                        tag: bytes_text(st[n - 2]),
                                        dict: Some((st[n - 1]->Dict_0)@),
                                    },
                                ),
                                saved: s.saved,
                                cs_fill: s.cs_fill,
                                font: s.font,
                            },
                            SpecOperation::Noop,
                        ),
                    )
                } else {
                    None
                }
            },
            Token::BMC => {
                if n >= 1 && st[n - 1] is Identifier {
                    Some(
                        (
                            SpecStreamState {
                                stack: st.take(n - 1),
                                scopes: s.scopes.push(
                                    SpecScope::MarkedContent { tag: bytes_text(st[n - 1]), dict: None },
                                ),
                                saved: s.saved,
                                cs_fill: s.cs_fill,
                                font: s.font,
                            },
                            SpecOperation::Noop,
                        ),
                    )
                } else {
                    None
                }
            },
            Token::EMC => {
                if s.scopes.len() > 0 && s.scopes[s.scopes.len() - 1] is MarkedContent {
                    Some(
                        (
                            SpecStreamState {
                                stack: st,
                                scopes: s.scopes.drop_last(),
                                saved: s.saved,
                                cs_fill: s.cs_fill,
                                font: s.font,
                            },
                            SpecOperation::Noop,
                        ),
                    )
                } else {
                    None
                }
            },
            _ => None,
        }
    }
}

/// Whether a step from `old` on `tok` that ended in `new` and gave `r` is
/// the step the machine takes.
pub open spec fn step_result(
    old: SpecStreamState,
    tok: Token,
    cs: Map<Seq<u8>, u8>,
    fonts: Map<Seq<u8>, SpecFont>,
    new: SpecStreamState,
    r: Option<Operation>,
) -> bool {
    match spec_advance(old, tok, cs, fonts) {
        Some((s2, op)) => r is Some && r->0@ == op && new == s2,
        None => r is None,
    }
}

/// The state the machine starts in: no operands, at the top level, nothing
/// saved, no colour space, no font.
pub open spec fn initial_state() -> SpecStreamState {
    SpecStreamState {
        stack: Seq::empty(),
        scopes: seq![SpecScope::TopLevel],
        saved: Seq::empty(),
        cs_fill: None,
        font: None,
    }
}

/// The operations of the tokens from `i` on; `None` where an operator
/// cannot run.
pub open spec fn spec_run(
    t: Seq<Token>,
    i: int,
    s: SpecStreamState,
    cs: Map<Seq<u8>, u8>,
    fonts: Map<Seq<u8>, SpecFont>,
) -> Option<Seq<SpecOperation>>
    decreases t.len() - i,
{
    if !(0 <= i < t.len()) {
        Some(Seq::empty())
    } else {
        match spec_advance(s, t[i], cs, fonts) {
            Some((s2, op)) => match spec_run(t, i + 1, s2, cs, fonts) {
                Some(rest) => Some(seq![op] + rest),
                None => None,
            },
            None => None,
        }
    }
}

/// The state after saving the graphics state.
pub open spec fn saved_state(s: SpecStreamState) -> SpecStreamState {
    SpecStreamState {
        stack: s.stack,
        scopes: s.scopes,
        saved: s.saved.push(s.cs_fill),
        cs_fill: s.cs_fill,
        font: s.font,
    }
}

/// The state inside a text block just opened.
pub open spec fn text_opened(s: SpecStreamState) -> SpecStreamState {
    SpecStreamState {
        stack: s.stack,
        scopes: s.scopes.push(SpecScope::Text),
        saved: s.saved,
        cs_fill: s.cs_fill,
        font: s.font,
    }
}

/// The state without a font.
pub open spec fn without_font(s: SpecStreamState) -> SpecStreamState {
    SpecStreamState {
        stack: s.stack,
        scopes: s.scopes,
        saved: s.saved,
        cs_fill: s.cs_fill,
        font: None,
    }
}

/// Restoring right after saving gives back the state the machine was in:
/// `q` then `Q` always run, and leave the operands, blocks, saved states,
/// colour space and font as they were.
pub proof fn law_save_restore(s: SpecStreamState, cs: Map<Seq<u8>, u8>, fonts: Map<Seq<u8>, SpecFont>)
    ensures
        spec_advance(s, Token::SaveGraphicsState, cs, fonts) == Some(
            (saved_state(s), SpecOperation::Save),
        ),
        spec_advance(saved_state(s), Token::RestoreGraphicsState, cs, fonts) == Some(
            (s, SpecOperation::Restore),
        ),
{
    assert(saved_state(s).saved.drop_last() =~= s.saved);
}

/// A text block that closes right after it opens leaves the machine as it
/// was, but with no font: `BT` then `ET` always run.
pub proof fn law_empty_text_block(s: SpecStreamState, cs: Map<Seq<u8>, u8>, fonts: Map<Seq<u8>, SpecFont>)
    ensures
        spec_advance(s, Token::BT, cs, fonts) == Some((text_opened(s), SpecOperation::Noop)),
        spec_advance(text_opened(s), Token::ET, cs, fonts) == Some(
            (without_font(s), SpecOperation::EndText),
        ),
{
    assert(text_opened(s).scopes.drop_last() =~= s.scopes);
}

/// How many more graphics states the tokens from `i` up to `j` save than
/// they restore.
pub open spec fn q_depth(t: Seq<Token>, i: int, j: int) -> int
    decreases j - i,
{
    if i >= j || !(0 <= i < t.len()) {
        0
    } else {
        (if t[i] is SaveGraphicsState {
            1int
        } else if t[i] is RestoreGraphicsState {
            -1int
        } else {
            0int
        }) + q_depth(t, i + 1, j)
    }
}

/// Running from `a` to `c` is running from `a` to `b` and then on to `c`.
proof fn lemma_state_after_split(
    t: Seq<Token>,
    a: int,
    b: int,
    c: int,
    s: SpecStreamState,
    cs: Map<Seq<u8>, u8>,
    fonts: Map<Seq<u8>, SpecFont>,
)
    requires
        0 <= a <= b <= c <= t.len(),
    ensures
        spec_state_after(t, a, c, s, cs, fonts) == match spec_state_after(t, a, b, s, cs, fonts) {
            Some(x) => spec_state_after(t, b, c, x, cs, fonts),
            None => None,
        },
    decreases b - a,
{
    if a < b {
        match spec_advance(s, t[a], cs, fonts) {
            Some((s2, _)) => lemma_state_after_split(t, a + 1, b, c, s2, cs, fonts),
            None => {},
        }
    }
}

/// Over a run that never restores more states than the `len - keep` it
/// starts with above the bottom `keep`, the bottom `keep` saved states stay
/// as they were and the count of saved states moves by the run's depth.
proof fn lemma_saved_over_run(
    t: Seq<Token>,
    i: int,
    j: int,
    s: SpecStreamState,
    keep: int,
    cs: Map<Seq<u8>, u8>,
    fonts: Map<Seq<u8>, SpecFont>,
)
    requires
        0 <= i <= j <= t.len(),
        0 <= keep <= s.saved.len(),
        forall|m: int| i <= m <= j ==> s.saved.len() - keep + #[trigger] q_depth(t, i, m) >= 0,
    ensures
        spec_state_after(t, i, j, s, cs, fonts) matches Some(s2) ==> s2.saved.len() == s.saved.len()
            + q_depth(t, i, j) && s2.saved.take(keep) == s.saved.take(keep),
    decreases j - i,
{
    if i < j {
        let d: int = if t[i] is SaveGraphicsState {
            1int
        } else if t[i] is RestoreGraphicsState {
            -1int
        } else {
            0int
        };
        assert forall|m: int| i + 1 <= m <= j implies #[trigger] q_depth(t, i, m) == d + q_depth(
            t,
            i + 1,
            m,
        ) by {}
        match spec_advance(s, t[i], cs, fonts) {
            Some((s1, _)) => {
                if t[i] is SaveGraphicsState {
                    assert(s1.saved == s.saved.push(s.cs_fill));
                    assert(s1.saved.take(keep) =~= s.saved.take(keep));
                } else if t[i] is RestoreGraphicsState {
                    assert(s.saved.len() - keep + q_depth(t, i, i + 1) >= 0);
                    assert(s1.saved == s.saved.drop_last());
                    assert(s1.saved.take(keep) =~= s.saved.take(keep));
                } else {
                    assert(s1.saved == s.saved);
                }
                assert forall|m: int| i + 1 <= m <= j implies s1.saved.len() - keep
                    + #[trigger] q_depth(t, i + 1, m) >= 0 by {
                    assert(s.saved.len() - keep + q_depth(t, i, m) >= 0);
                }
                lemma_saved_over_run(t, i + 1, j, s1, keep, cs, fonts);
            },
            None => {},
        }
    }
}

/// Restoring gives back the fill colour space and the saved states that
/// held where the matching save ran: for `q` at `i` and `Q` at `i + k + 1`
/// with the `k` tokens between them never restoring more than they save and
/// saving as many as they restore, whatever those tokens do to the colour
/// space in between.
pub proof fn law_save_restore_block(
    t: Seq<Token>,
    i: int,
    k: int,
    s: SpecStreamState,
    cs: Map<Seq<u8>, u8>,
    fonts: Map<Seq<u8>, SpecFont>,
)
    requires
        0 <= i,
        0 <= k,
        i + k + 1 < t.len(),
        t[i] is SaveGraphicsState,
        t[i + k + 1] is RestoreGraphicsState,
        forall|m: int| i + 1 <= m <= i + k + 1 ==> #[trigger] q_depth(t, i + 1, m) >= 0,
        q_depth(t, i + 1, i + k + 1) == 0,
    ensures
        spec_state_after(t, i, i + k + 2, s, cs, fonts) matches Some(s2) ==> s2.cs_fill == s.cs_fill
            && s2.saved == s.saved,
{
    let s1 = saved_state(s);
    assert(spec_advance(s, t[i], cs, fonts) == Some((s1, SpecOperation::Save)));
    lemma_state_after_split(t, i + 1, i + k + 1, i + k + 2, s1, cs, fonts);
    lemma_saved_over_run(t, i + 1, i + k + 1, s1, s1.saved.len() as int, cs, fonts);
    match spec_state_after(t, i + 1, i + k + 1, s1, cs, fonts) {
        Some(s2) => {
            assert(s2.saved =~= s1.saved) by {
                assert(s2.saved.take(s1.saved.len() as int) =~= s2.saved);
                assert(s1.saved.take(s1.saved.len() as int) =~= s1.saved);
            }
            assert(s1.saved.drop_last() =~= s.saved);
            match spec_advance(s2, t[i + k + 1], cs, fonts) {
                Some((s3, _)) => {
                    assert(s3.cs_fill == s.cs_fill);
                    assert(s3.saved == s.saved);
                    assert(spec_state_after(t, i + k + 2, i + k + 2, s3, cs, fonts) == Some(s3));
                },
                None => {},
            }
        },
        None => {},
    }
}

/// Whether the top `k` operands are all numbers.
pub open spec fn top_are_numbers(st: Seq<Token>, k: int) -> bool {
    st.len() >= k && forall|j: int| st.len() - k <= j < st.len() ==> #[trigger] st[j] is Number
}

/// The operators that take numbers alone take the numbers on top of the
/// operands, in the order they were written, and give what they are for:
/// `Tm` the text matrix and `cm` a concatenation with the current matrix
/// (each from six numbers), `re` a rectangle (four), `m` a move and `l` a
/// line (two), `g` and `G` a fill and a stroke gray (one).  Nothing else of
/// the state changes.
pub proof fn law_number_operators(s: SpecStreamState, cs: Map<Seq<u8>, u8>, fonts: Map<Seq<u8>, SpecFont>)
    ensures
        ({
            let st = s.stack;
            let n = st.len() as int;
            let rest = SpecStreamState { stack: st.take(n - 6), ..s };
            top_are_numbers(st, 6) ==> {
                let six = seq![
                    num_text(st[n - 6]),
                    num_text(st[n - 5]),
                    num_text(st[n - 4]),
                    num_text(st[n - 3]),
                    num_text(st[n - 2]),
                    num_text(st[n - 1]),
                ];
                &&& spec_advance(s, Token::Tm, cs, fonts) == Some(
                    (rest, SpecOperation::SetTextMatrix(six)),
                )
                &&& spec_advance(s, Token::CmStroke, cs, fonts) == Some(
                    (rest, SpecOperation::Concat(six)),
                )
            }
        }),
        ({
            let st = s.stack;
            let n = st.len() as int;
            top_are_numbers(st, 4) ==> spec_advance(s, Token::Rect, cs, fonts) == Some(
                (
                    SpecStreamState { stack: st.take(n - 4), ..s },
                    SpecOperation::Rect(
                        seq![
                            num_text(st[n - 4]),
                            num_text(st[n - 3]),
                            num_text(st[n - 2]),
                            num_text(st[n - 1]),
                        ],
                    ),
                ),
            )
        }),
        ({
            let st = s.stack;
            let n = st.len() as int;
            let rest = SpecStreamState { stack: st.take(n - 2), ..s };
            let two = seq![num_text(st[n - 2]), num_text(st[n - 1])];
            top_are_numbers(st, 2) ==> spec_advance(s, Token::M, cs, fonts) == Some(
                (rest, SpecOperation::MoveTo(two)),
            ) && spec_advance(s, Token::L, cs, fonts) == Some((rest, SpecOperation::LineTo(two)))
        }),
        ({
            let st = s.stack;
            let n = st.len() as int;
            let rest = SpecStreamState { stack: st.take(n - 1), ..s };
            let one = seq![num_text(st[n - 1])];
            top_are_numbers(st, 1) ==> spec_advance(s, Token::GNonStroke, cs, fonts) == Some(
                (rest, SpecOperation::FillGray(one)),
            ) && spec_advance(s, Token::GStroke, cs, fonts) == Some(
                (rest, SpecOperation::StrokeGray(one)),
            )
        }),
{
    let st = s.stack;
    let n = st.len() as int;
    if top_are_numbers(st, 6) {
        assert(top_numbers(st, 6) == Some(
            seq![
                num_text(st[n - 6]),
                num_text(st[n - 5]),
                num_text(st[n - 4]),
                num_text(st[n - 3]),
                num_text(st[n - 2]),
                num_text(st[n - 1]),
            ],
        )) by {
            assert(top_numbers(st, 6)->0 =~= seq![
                num_text(st[n - 6]),
                num_text(st[n - 5]),
                num_text(st[n - 4]),
                num_text(st[n - 3]),
                num_text(st[n - 2]),
                num_text(st[n - 1]),
            ]);
        }
    }
    if top_are_numbers(st, 4) {
        assert(top_numbers(st, 4)->0 =~= seq![
            num_text(st[n - 4]),
            num_text(st[n - 3]),
            num_text(st[n - 2]),
            num_text(st[n - 1]),
        ]);
    }
    if top_are_numbers(st, 2) {
        assert(top_numbers(st, 2)->0 =~= seq![num_text(st[n - 2]), num_text(st[n - 1])]);
    }
    if top_are_numbers(st, 1) {
        assert(top_numbers(st, 1)->0 =~= seq![num_text(st[n - 1])]);
    }
}

/// `Tf` with a name and a size on top of the operands makes that name the
/// current font and hands over the name and the size; text written after
/// it then shows in that font wherever the font gives a width for each of
/// its characters.
pub proof fn law_set_font_then_show(
    s: SpecStreamState,
    text: Vec<u8>,
    cs: Map<Seq<u8>, u8>,
    fonts: Map<Seq<u8>, SpecFont>,
)
    requires
        s.stack.len() >= 2,
        s.stack[s.stack.len() - 1] is Number,
        s.stack[s.stack.len() - 2] is Identifier,
    ensures
        ({
            let st = s.stack;
            let n = st.len() as int;
            let name = (st[n - 2]->Identifier_0)@;
            let after = SpecStreamState { stack: st.take(n - 2), font: Some(name), ..s };
            &&& spec_advance(s, Token::Tf, cs, fonts) == Some(
                (after, SpecOperation::SetFont { font: name, size: (st[n - 1]->Number_0)@ }),
            )
            &&& (fonts.contains_key(name) && forall|j: int|
                0 <= j < text@.len() ==> has_width(fonts[name], #[trigger] text@[j])) ==> {
                let pushed = SpecStreamState {
                    stack: after.stack.push(Token::StringBytes(text)),
                    ..after
                };
                &&& spec_advance(after, Token::StringBytes(text), cs, fonts) == Some(
                    (pushed, SpecOperation::Noop),
                )
                &&& spec_advance(pushed, Token::Tj, cs, fonts) == Some(
                    (after, SpecOperation::ShowText(text@)),
                )
            }
        }),
{
    let st = s.stack;
    let n = st.len() as int;
    let name = (st[n - 2]->Identifier_0)@;
    let after = SpecStreamState { stack: st.take(n - 2), font: Some(name), ..s };
    let pushed = SpecStreamState { stack: after.stack.push(Token::StringBytes(text)), ..after };
    assert(pushed.stack.take(pushed.stack.len() - 1) =~= after.stack);
}

/// `cs` with a name on top of the operands makes that name the colour
/// space of fill colours; `sc` then takes as many numbers as that colour
/// space has components, in the order they were written, as the fill
/// colour.  Neither changes anything else.
pub proof fn law_fill_colour_steps(
    s: SpecStreamState,
    cs: Map<Seq<u8>, u8>,
    fonts: Map<Seq<u8>, SpecFont>,
)
    ensures
        ({
            let st = s.stack;
            let n = st.len() as int;
            n >= 1 && st[n - 1] is Identifier ==> spec_advance(s, Token::CsNoStroke, cs, fonts)
                == Some(
                (
                    SpecStreamState {
                        stack: st.take(n - 1),
                        cs_fill: Some((st[n - 1]->Identifier_0)@),
                        ..s
                    },
                    SpecOperation::Noop,
                ),
            )
        }),
        ({
            let st = s.stack;
            let n = st.len() as int;
            s.cs_fill is Some && cs.contains_key(s.cs_fill->0) && top_are_numbers(
                st,
                cs[s.cs_fill->0] as int,
            ) ==> {
                let k = cs[s.cs_fill->0] as int;
                match spec_advance(s, Token::SetColourNoStroke, cs, fonts) {
                    Some((s2, SpecOperation::SetFillColour(c))) => {
                        &&& s2 == SpecStreamState { stack: st.take(n - k), ..s }
                        &&& c.len() == k
                        &&& forall|j: int| 0 <= j < k ==> #[trigger] c[j] == num_text(st[n - k + j])
                    },
                    _ => false,
                }
            }
        }),
        !(s.cs_fill is Some && cs.contains_key(s.cs_fill->0)) ==> spec_advance(
            s,
            Token::SetColourNoStroke,
            cs,
            fonts,
        ) is None,
{
}

/// `TJ` with an array on top of the operands shows its items in order:
/// each number as a shift of the text position by that number, each
/// string as text; it runs where every item is a number or a string the
/// current font has widths for.
pub proof fn law_show_array(s: SpecStreamState, cs: Map<Seq<u8>, u8>, fonts: Map<Seq<u8>, SpecFont>)
    requires
        s.stack.len() >= 1,
        s.stack.last() is Array,
    ensures
        ({
            let items = (s.stack.last()->Array_0)@;
            (forall|i: int|
                0 <= i < items.len() ==> (#[trigger] items[i] is Number || (items[i] is StringBytes
                    && show_ok(s.font, fonts, (items[i]->StringBytes_0)@)))) ==> match spec_advance(
                s,
                Token::TJ,
                cs,
                fonts,
            ) {
                Some((s2, SpecOperation::ShowArray(shown))) => {
                    &&& s2 == SpecStreamState { stack: s.stack.drop_last(), ..s }
                    &&& shown.len() == items.len()
                    &&& forall|i: int|
                        0 <= i < items.len() ==> (items[i] is Number ==> #[trigger] shown[i]
                            == SpecTjItem::Adjust((items[i]->Number_0)@)) && (items[i] is StringBytes
                            ==> shown[i] == SpecTjItem::Text((items[i]->StringBytes_0)@))
                },
                _ => false,
            }
        }),
{
    let items = (s.stack.last()->Array_0)@;
    assert(s.stack.take(s.stack.len() - 1) =~= s.stack.drop_last());
    if forall|i: int|
        0 <= i < items.len() ==> (#[trigger] items[i] is Number || (items[i] is StringBytes
            && show_ok(s.font, fonts, (items[i]->StringBytes_0)@))) {
        assert(tj_items_ok(items, s.font, fonts)) by {
            assert forall|i: int| 0 <= i < items.len() implies (#[trigger] items[i] is Number || (
            items[i] is StringBytes && show_ok(s.font, fonts, bytes_text(items[i])))) by {
                if items[i] is StringBytes {
                    assert(bytes_text(items[i]) == (items[i]->StringBytes_0)@);
                }
            }
        }
    }
}

/// The steps the machine refuses where a drawing program could not go on:
/// `Q` with no saved state, `ET` outside a text block, `EMC` outside
/// marked content, and `re` without four numbers on top of the operands.
pub proof fn law_refused_steps(s: SpecStreamState, cs: Map<Seq<u8>, u8>, fonts: Map<Seq<u8>, SpecFont>)
    ensures
        s.saved.len() == 0 ==> spec_advance(s, Token::RestoreGraphicsState, cs, fonts) is None,
        !(s.scopes.len() > 0 && s.scopes.last() is Text) ==> spec_advance(s, Token::ET, cs, fonts)
            is None,
        !(s.scopes.len() > 0 && s.scopes.last() is MarkedContent) ==> spec_advance(
            s,
            Token::EMC,
            cs,
            fonts,
        ) is None,
        (s.stack.len() < 4 || exists|j: int|
            s.stack.len() - 4 <= j < s.stack.len() && !(#[trigger] s.stack[j] is Number))
            ==> spec_advance(s, Token::Rect, cs, fonts) is None,
{
}

/// Whether the open blocks are well nested: the top level at the bottom,
/// and only text and marked-content blocks above it.
pub open spec fn scopes_ok(sc: Seq<SpecScope>) -> bool {
    &&& sc.len() >= 1
    &&& sc[0] is TopLevel
    &&& forall|i: int| 1 <= i < sc.len() ==> !(#[trigger] sc[i] is TopLevel)
}

/// The state after the tokens from `i` up to `j` have run from state `s`;
/// `None` where an operator among them cannot run.
pub open spec fn spec_state_after(
    t: Seq<Token>,
    i: int,
    j: int,
    s: SpecStreamState,
    cs: Map<Seq<u8>, u8>,
    fonts: Map<Seq<u8>, SpecFont>,
) -> Option<SpecStreamState>
    decreases j - i,
{
    if i >= j || !(0 <= i < t.len()) {
        Some(s)
    } else {
        match spec_advance(s, t[i], cs, fonts) {
            Some((s2, _)) => spec_state_after(t, i + 1, j, s2, cs, fonts),
            None => None,
        }
    }
}

/// A step keeps the blocks well nested: only `BT`, `BMC` and `BDC` open a
/// block, and `ET` and `EMC` close only a block of their own kind, so the
/// top level is never closed.
pub proof fn law_step_keeps_top_level(
    s: SpecStreamState,
    tok: Token,
    cs: Map<Seq<u8>, u8>,
    fonts: Map<Seq<u8>, SpecFont>,
)
    requires
        scopes_ok(s.scopes),
    ensures
        match spec_advance(s, tok, cs, fonts) {
            Some((s2, _)) => scopes_ok(s2.scopes),
            None => true,
        },
{
    let sc = s.scopes;
    match spec_advance(s, tok, cs, fonts) {
        Some((s2, _)) => {
            if s2.scopes.len() > sc.len() {
                assert(s2.scopes == sc.push(s2.scopes.last()));
                assert(!(s2.scopes.last() is TopLevel));
                assert forall|i: int| 1 <= i < s2.scopes.len() implies !(
                #[trigger] s2.scopes[i] is TopLevel) by {
                    if i < sc.len() {
                        assert(s2.scopes[i] == sc[i]);
                    }
                }
            } else if s2.scopes.len() < sc.len() {
                assert(s2.scopes == sc.drop_last());
                assert(!(sc[sc.len() - 1] is TopLevel));
                assert(sc.len() >= 2);
                assert forall|i: int| 1 <= i < s2.scopes.len() implies !(
                #[trigger] s2.scopes[i] is TopLevel) by {
                    assert(s2.scopes[i] == sc[i]);
                }
            } else {
                assert(s2.scopes == sc);
            }
        },
        None => {},
    }
}

/// Over any run of steps from the start of a stream, the top level stays at
/// the bottom of the open blocks and is never closed.
pub proof fn law_run_keeps_top_level(
    t: Seq<Token>,
    k: int,
    cs: Map<Seq<u8>, u8>,
    fonts: Map<Seq<u8>, SpecFont>,
)
    ensures
        match spec_state_after(t, 0, k, initial_state(), cs, fonts) {
            Some(s) => scopes_ok(s.scopes),
            None => true,
        },
{
    assert(scopes_ok(initial_state().scopes));
    lemma_state_after_keeps_top_level(t, 0, k, initial_state(), cs, fonts);
}

proof fn lemma_state_after_keeps_top_level(
    t: Seq<Token>,
    i: int,
    j: int,
    s: SpecStreamState,
    cs: Map<Seq<u8>, u8>,
    fonts: Map<Seq<u8>, SpecFont>,
)
    requires
        scopes_ok(s.scopes),
    ensures
        match spec_state_after(t, i, j, s, cs, fonts) {
            Some(s2) => scopes_ok(s2.scopes),
            None => true,
        },
    decreases j - i,
{
    if i >= j || !(0 <= i < t.len()) {
    } else {
        law_step_keeps_top_level(s, t[i], cs, fonts);
        match spec_advance(s, t[i], cs, fonts) {
            Some((s2, _)) => lemma_state_after_keeps_top_level(t, i + 1, j, s2, cs, fonts),
            None => {},
        }
    }
}

/// Whether a token can stand on the operand stack.
pub fn is_operand(t: &Token) -> (r: bool)
    ensures
        r == spec_is_operand(*t),
    decreases t,
{
    match t {
        Token::Number(_) => true,
        Token::Identifier(_) => true,
        Token::StringBytes(_) => true,
        Token::Array(v) => {
            let mut i: usize = 0;
            while i < v.len()
                invariant
                    i <= v@.len(),
                    *t == Token::Array(*v),
                    operands_all(v@.take(i as int)),
                decreases v.len() - i,
            {
                assert(v@.take(i + 1).drop_last() =~= v@.take(i as int));
                proof {
                    assert(decreases_to!(*t => (*t)->Array_0));
                    assert(decreases_to!(*v => v@));
                    assert(decreases_to!(v@ => v@[i as int]));
                }
                if !is_operand(&v[i]) {
                    proof {
                        lemma_operands_prefix(v@, i + 1);
                    }
                    return false;
                }
                i = i + 1;
            }
            assert(v@.take(v@.len() as int) =~= v@);
            true
        },
        Token::Dict(e) => {
            let mut i: usize = 0;
            while i < e.len()
                invariant
                    i <= e@.len(),
                    *t == Token::Dict(*e),
                    operand_entries_all(e@.take(i as int)),
                decreases e.len() - i,
            {
                assert(e@.take(i + 1).drop_last() =~= e@.take(i as int));
                proof {
                    assert(decreases_to!(*t => (*t)->Dict_0));
                    assert(decreases_to!(*e => e@));
                    assert(decreases_to!(e@ => e@[i as int]));
                    assert(decreases_to!(e@[i as int] => e@[i as int].1));
                }
                if !is_operand(&e[i].1) {
                    proof {
                        lemma_entries_prefix(e@, i + 1);
                    }
                    return false;
                }
                i = i + 1;
            }
            assert(e@.take(e@.len() as int) =~= e@);
            true
        },
        _ => false,
    }
}

proof fn lemma_operands_prefix(s: Seq<Token>, k: int)
    requires
        0 <= k <= s.len(),
        !operands_all(s.take(k)),
    ensures
        !operands_all(s),
    decreases s.len() - k,
{
    if k < s.len() {
        assert(s.take(k + 1).drop_last() =~= s.take(k));
        lemma_operands_prefix(s, k + 1);
    } else {
        assert(s.take(k) =~= s);
    }
}

proof fn lemma_entries_prefix(s: Seq<(Vec<u8>, Token)>, k: int)
    requires
        0 <= k <= s.len(),
        !operand_entries_all(s.take(k)),
    ensures
        !operand_entries_all(s),
    decreases s.len() - k,
{
    if k < s.len() {
        assert(s.take(k + 1).drop_last() =~= s.take(k));
        lemma_entries_prefix(s, k + 1);
    } else {
        assert(s.take(k) =~= s);
    }
}

/// Whether text can be shown in the font named `font`.
fn can_show(font: &Option<Vec<u8>>, font_lib: &FontLib, bytes: &Vec<u8>) -> (r: bool)
    ensures
        r == show_ok(opt_bytes(*font), font_lib@, bytes@),
{
    if bytes.len() == 0 {
        return true;
    }
    let id = match font {
        Some(id) => id,
        None => {
            return false;
        },
    };
    let f = match font_lib.try_get_font(id.as_slice()) {
        Some(f) => f,
        None => {
            return false;
        },
    };
    let mut j: usize = 0;
    while j < bytes.len()
        invariant
            j <= bytes@.len(),
            bytes@.len() > 0,
            opt_bytes(*font) == Some(id@),
            font_lib@.contains_key(id@),
            f@ == font_lib@[id@],
            forall|i: int| 0 <= i < j ==> has_width(f@, #[trigger] bytes@[i]),
        decreases bytes.len() - j,
    {
        if f.try_get_width(bytes[j]).is_none() {
            return false;
        }
        j = j + 1;
    }
    true
}

pub open spec fn opt_bytes(o: Option<Vec<u8>>) -> Option<Seq<u8>> {
    match o {
        Some(v) => Some(v@),
        None => None,
    }
}

/// A block the machine is in.
#[derive(Debug)]
pub enum Scope<'a> {
    MarkedContent { tag: &'a Vec<u8>, dict: Option<&'a Vec<(Vec<u8>, Token)>> },
    Text,
    TopLevel,
}

pub open spec fn scope_view(s: Scope) -> SpecScope {
    match s {
        Scope::MarkedContent { tag, dict } => SpecScope::MarkedContent {
            tag: tag@,
            dict: match dict {
                Some(d) => Some(d@),
                None => None,
            },
        },
        Scope::Text => SpecScope::Text,
        Scope::TopLevel => SpecScope::TopLevel,
    }
}

/// The operator machine over the tokens of a content stream.
pub struct ContentStreamer<'a> {
    tokens: &'a Vec<Token>,
    stack: Vec<&'a Token>,
    offset: usize,
    text_font: Option<Vec<u8>>,
    fill_space: Option<Vec<u8>>,
    graphics_state_stack: Vec<Option<Vec<u8>>>,
    scopes: Vec<Scope<'a>>,
}

impl<'a> ContentStreamer<'a> {
    /// The state the machine is in.
    pub closed spec fn state(&self) -> SpecStreamState {
        SpecStreamState {
            stack: self.stack@.map_values(|t: &Token| *t),
            scopes: self.scopes@.map_values(|s: Scope| scope_view(s)),
            saved: self.graphics_state_stack@.map_values(|o: Option<Vec<u8>>| opt_bytes(o)),
            cs_fill: opt_bytes(self.fill_space),
            font: opt_bytes(self.text_font),
        }
    }

    /// The tokens the machine runs over.
    pub closed spec fn spec_tokens(&self) -> Seq<Token> {
        self.tokens@
    }

    /// How many tokens the machine has run.
    pub closed spec fn spec_offset(&self) -> int {
        self.offset as int
    }

    /// A machine at the start of the tokens.
    pub fn new(tokens: &'a Vec<Token>) -> (r: Self)
        ensures
            r.state() == initial_state(),
            r.spec_tokens() == tokens@,
            r.spec_offset() == 0,
    {
        let mut scopes: Vec<Scope<'a>> = Vec::new();
        scopes.push(Scope::TopLevel);
        let r = ContentStreamer {
            tokens,
            stack: Vec::new(),
            offset: 0,
            text_font: None,
            fill_space: None,
            graphics_state_stack: Vec::new(),
            scopes,
        };
        assert(r.state().stack =~= initial_state().stack);
        assert(r.state().scopes =~= initial_state().scopes);
        assert(r.state().saved =~= initial_state().saved);
        r
    }

    /// The colour space fill colours are given in, if one is set.
    pub fn fill_colour_space(&self) -> (r: Option<&Vec<u8>>)
        ensures
            match r {
                Some(v) => self.state().cs_fill == Some(v@),
                None => self.state().cs_fill is None,
            },
    {
        match &self.fill_space {
            Some(v) => Some(v),
            None => None,
        }
    }

    /// The innermost open block, if any is open.
    pub fn current_scope(&self) -> (r: Option<&Scope<'a>>)
        ensures
            match r {
                Some(b) => self.state().scopes.len() > 0 && scope_view(*b)
                    == self.state().scopes.last(),
                None => self.state().scopes.len() == 0,
            },
    {
        let n = self.scopes.len();
        if n == 0 {
            None
        } else {
            Some(&self.scopes[n - 1])
        }
    }

    /// How many graphics states are saved.
    pub fn saved_count(&self) -> (r: usize)
        ensures
            r == self.state().saved.len(),
    {
        self.graphics_state_stack.len()
    }

    /// Whether tokens are left.
    pub fn has_next(&self) -> (r: bool)
        ensures
            r == (self.spec_offset() < self.spec_tokens().len()),
    {
        self.offset < self.tokens.len()
    }

    /// Runs the next token, or refuses it: `None` where its operator cannot
    /// run (`Q` with nothing saved, `ET` outside a text block, `EMC` outside
    /// marked content, an operator without the operands it takes, text with
    /// no font or no width for a character, an unknown operator).  The
    /// machine has then moved past the token and its state is unchanged.
    pub fn try_advance(&mut self, ctx: &PageCtx) -> (r: Option<Operation>)
        requires
            old(self).spec_offset() < old(self).spec_tokens().len(),
        ensures
            final(self).spec_tokens() == old(self).spec_tokens(),
            final(self).spec_offset() == old(self).spec_offset() + 1,
            step_result(
                old(self).state(),
                old(self).spec_tokens()[old(self).spec_offset()],
                ctx.cs_lib@,
                ctx.font_lib@,
                final(self).state(),
                r,
            ),
    {
        let toks: &'a Vec<Token> = self.tokens;
        let n = toks.len();
        let tok: &'a Token = &toks[self.offset];
        assert(self.offset < n);
        self.offset = self.offset + 1;
        self.step(tok, ctx)
    }

    /// Runs the next token, whose operator must be able to run.
    pub fn advance(&mut self, ctx: &PageCtx) -> (r: Operation)
        requires
            old(self).spec_offset() < old(self).spec_tokens().len(),
            spec_advance(
                old(self).state(),
                old(self).spec_tokens()[old(self).spec_offset()],
                ctx.cs_lib@,
                ctx.font_lib@,
            ) is Some,
        ensures
            final(self).spec_tokens() == old(self).spec_tokens(),
            final(self).spec_offset() == old(self).spec_offset() + 1,
            step_result(
                old(self).state(),
                old(self).spec_tokens()[old(self).spec_offset()],
                ctx.cs_lib@,
                ctx.font_lib@,
                final(self).state(),
                Some(r),
            ),
    {
        match self.try_advance(ctx) {
            Some(op) => op,
            None => vstd::pervasive::unreached(),
        }
    }

    fn step(&mut self, tok: &'a Token, ctx: &PageCtx) -> (r: Option<Operation>)
        ensures
            final(self).tokens == old(self).tokens,
            final(self).offset == old(self).offset,
            step_result(old(self).state(), *tok, ctx.cs_lib@, ctx.font_lib@, final(self).state(), r),
    {
        if is_value_token(tok) {
            if is_operand(tok) {
                self.stack.push(tok);
                assert(self.state().stack =~= old(self).state().stack.push(*tok));
                return Some(Operation::Noop);
            } else {
                return None;
            }
        }
        match arity_of(tok) {
            Some(k) => {
                return match self.pop_numbers(k) {
                    Some(nums) => Some(number_operation(tok, nums)),
                    None => None,
                };
            },
            None => {},
        }
        match tok {
            Token::Tf => self.op_tf(ctx),
            Token::Tj => self.op_show(ctx),
            Token::TJ => self.op_show_array(ctx),
            Token::GS => self.op_gs(ctx),
            Token::BT => {
                self.scopes.push(Scope::Text);
                assert(self.state().scopes =~= old(self).state().scopes.push(SpecScope::Text));
                Some(Operation::Noop)
            },
            Token::ET => self.op_et(ctx),
            Token::SaveGraphicsState => {
                let c = match &self.fill_space {
                    Some(v) => Some(copy_bytes(v)),
                    None => None,
                };
                self.graphics_state_stack.push(c);
                assert(self.state().saved =~= old(self).state().saved.push(old(self).state().cs_fill));
                Some(Operation::Save)
            },
            Token::RestoreGraphicsState => self.op_restore(ctx),
            Token::W => Some(Operation::Clip(ClippingRule::Winding)),
            Token::WStar => Some(Operation::Clip(ClippingRule::Winding)),
            Token::N => Some(Operation::EndPath),
            Token::H => Some(Operation::ClosePath),
            Token::Fill => Some(Operation::Fill),
            Token::CsNoStroke => self.op_cs(ctx),
            Token::SetColourNoStroke => self.op_sc(ctx),
            Token::BDC => self.op_bdc(ctx),
            Token::BMC => self.op_bmc(ctx),
            Token::EMC => self.op_emc(ctx),
            _ => None,
        }
    }

    fn op_tf(&mut self, ctx: &PageCtx) -> (r: Option<Operation>)
        ensures
            final(self).tokens == old(self).tokens,
            final(self).offset == old(self).offset,
            step_result(old(self).state(), Token::Tf, ctx.cs_lib@, ctx.font_lib@, final(self).state(), r),
    {
        let n = self.stack.len();
        if n < 2 {
            return None;
        }
        let ghost st = self.state().stack;
        assert(st[n - 1] == *self.stack@[n - 1]);
        assert(st[n - 2] == *self.stack@[n - 2]);
        match (self.stack[n - 1], self.stack[n - 2]) {
            (Token::Number(size), Token::Identifier(font)) => {
                let size_c = copy_bytes(size);
                let font_c = copy_bytes(font);
                let font_state = copy_bytes(font);
                self.stack.pop();
                self.stack.pop();
                assert(self.stack@ =~= old(self).stack@.take(n - 2));
                assert(self.state().stack =~= st.take(n - 2));
                self.text_font = Some(font_state);
                Some(Operation::SetFont { font: font_c, size: size_c })
            },
            _ => None,
        }
    }
    fn op_show(&mut self, ctx: &PageCtx) -> (r: Option<Operation>)
        ensures
            final(self).tokens == old(self).tokens,
            final(self).offset == old(self).offset,
            step_result(old(self).state(), Token::Tj, ctx.cs_lib@, ctx.font_lib@, final(self).state(), r),
    {
        let n = self.stack.len();
        if n < 1 {
            return None;
        }
        let ghost st = self.state().stack;
        assert(st[n - 1] == *self.stack@[n - 1]);
        match self.stack[n - 1] {
            Token::StringBytes(b) => {
                if !can_show(&self.text_font, &ctx.font_lib, b) {
                    return None;
                }
                let bytes = copy_bytes(b);
                self.stack.pop();
                assert(self.state().stack =~= st.take(n - 1));
                Some(Operation::ShowText(bytes))
            },
            _ => None,
        }
    }

    fn op_show_array(&mut self, ctx: &PageCtx) -> (r: Option<Operation>)
        ensures
            final(self).tokens == old(self).tokens,
            final(self).offset == old(self).offset,
            step_result(old(self).state(), Token::TJ, ctx.cs_lib@, ctx.font_lib@, final(self).state(), r),
    {
        let n = self.stack.len();
        if n < 1 {
            return None;
        }
        let ghost st = self.state().stack;
        assert(st[n - 1] == *self.stack@[n - 1]);
        match self.stack[n - 1] {
            Token::Array(items) => {
                let v = match tj_operation(items, &self.text_font, &ctx.font_lib) {
                    Some(v) => v,
                    None => {
                        return None;
                    },
                };
                self.stack.pop();
                assert(self.state().stack =~= st.take(n - 1));
                Some(Operation::ShowArray(v))
            },
            _ => None,
        }
    }

    fn op_gs(&mut self, ctx: &PageCtx) -> (r: Option<Operation>)
        ensures
            final(self).tokens == old(self).tokens,
            final(self).offset == old(self).offset,
            step_result(old(self).state(), Token::GS, ctx.cs_lib@, ctx.font_lib@, final(self).state(), r),
    {
        let n = self.stack.len();
        if n < 1 {
            return None;
        }
        let ghost st = self.state().stack;
        assert(st[n - 1] == *self.stack@[n - 1]);
        match self.stack[n - 1] {
            Token::Identifier(_) => {
                self.stack.pop();
                assert(self.state().stack =~= st.take(n - 1));
                Some(Operation::Noop)
            },
            _ => None,
        }
    }

    fn op_cs(&mut self, ctx: &PageCtx) -> (r: Option<Operation>)
        ensures
            final(self).tokens == old(self).tokens,
            final(self).offset == old(self).offset,
            step_result(
                old(self).state(),
                Token::CsNoStroke,
                ctx.cs_lib@,
                ctx.font_lib@,
                final(self).state(),
                r,
            ),
    {
        let n = self.stack.len();
        if n < 1 {
            return None;
        }
        let ghost st = self.state().stack;
        assert(st[n - 1] == *self.stack@[n - 1]);
        match self.stack[n - 1] {
            Token::Identifier(name) => {
                let c = copy_bytes(name);
                self.stack.pop();
                assert(self.state().stack =~= st.take(n - 1));
                self.fill_space = Some(c);
                Some(Operation::Noop)
            },
            _ => None,
        }
    }

    fn op_sc(&mut self, ctx: &PageCtx) -> (r: Option<Operation>)
        ensures
            final(self).tokens == old(self).tokens,
            final(self).offset == old(self).offset,
            step_result(
                old(self).state(),
                Token::SetColourNoStroke,
                ctx.cs_lib@,
                ctx.font_lib@,
                final(self).state(),
                r,
            ),
    {
        let k = match &self.fill_space {
            Some(c) => match ctx.cs_lib.try_num_components(c.as_slice()) {
                Some(k) => k,
                None => {
                    return None;
                },
            },
            None => {
                return None;
            },
        };
        match self.pop_numbers(k as usize) {
            Some(nums) => Some(Operation::SetFillColour(nums)),
            None => None,
        }
    }

    fn op_et(&mut self, ctx: &PageCtx) -> (r: Option<Operation>)
        ensures
            final(self).tokens == old(self).tokens,
            final(self).offset == old(self).offset,
            step_result(old(self).state(), Token::ET, ctx.cs_lib@, ctx.font_lib@, final(self).state(), r),
    {
        let n = self.scopes.len();
        if n < 1 {
            return None;
        }
        match self.scopes[n - 1] {
            Scope::Text => {},
            _ => {
                return None;
            },
        }
        self.scopes.pop();
        assert(self.state().scopes =~= old(self).state().scopes.drop_last());
        self.text_font = None;
        Some(Operation::EndText)
    }

    fn op_restore(&mut self, ctx: &PageCtx) -> (r: Option<Operation>)
        ensures
            final(self).tokens == old(self).tokens,
            final(self).offset == old(self).offset,
            step_result(
                old(self).state(),
                Token::RestoreGraphicsState,
                ctx.cs_lib@,
                ctx.font_lib@,
                final(self).state(),
                r,
            ),
    {
        match self.graphics_state_stack.pop() {
            Some(c) => {
                assert(self.state().saved =~= old(self).state().saved.drop_last());
                self.fill_space = c;
                Some(Operation::Restore)
            },
            None => None,
        }
    }

    fn op_bdc(&mut self, ctx: &PageCtx) -> (r: Option<Operation>)
        ensures
            final(self).tokens == old(self).tokens,
            final(self).offset == old(self).offset,
            step_result(old(self).state(), Token::BDC, ctx.cs_lib@, ctx.font_lib@, final(self).state(), r),
    {
        let n = self.stack.len();
        if n < 2 {
            return None;
        }
        let ghost st = self.state().stack;
        assert(st[n - 1] == *self.stack@[n - 1]);
        assert(st[n - 2] == *self.stack@[n - 2]);
        match (self.stack[n - 1], self.stack[n - 2]) {
            (Token::Dict(dict), Token::Identifier(tag)) => {
                self.stack.pop();
                self.stack.pop();
                assert(self.stack@ =~= old(self).stack@.take(n - 2));
                assert(self.state().stack =~= st.take(n - 2));
                self.scopes.push(Scope::MarkedContent { tag, dict: Some(dict) });
                assert(self.state().scopes =~= old(self).state().scopes.push(
                    SpecScope::MarkedContent { tag: tag@, dict: Some(dict@) },
                ));
                Some(Operation::Noop)
            },
            _ => None,
        }
    }

    fn op_bmc(&mut self, ctx: &PageCtx) -> (r: Option<Operation>)
        ensures
            final(self).tokens == old(self).tokens,
            final(self).offset == old(self).offset,
            step_result(old(self).state(), Token::BMC, ctx.cs_lib@, ctx.font_lib@, final(self).state(), r),
    {
        let n = self.stack.len();
        if n < 1 {
            return None;
        }
        let ghost st = self.state().stack;
        assert(st[n - 1] == *self.stack@[n - 1]);
        match self.stack[n - 1] {
            Token::Identifier(tag) => {
                self.stack.pop();
                assert(self.state().stack =~= st.take(n - 1));
                self.scopes.push(Scope::MarkedContent { tag, dict: None });
                assert(self.state().scopes =~= old(self).state().scopes.push(
                    SpecScope::MarkedContent { tag: tag@, dict: None },
                ));
                Some(Operation::Noop)
            },
            _ => None,
        }
    }

    fn op_emc(&mut self, ctx: &PageCtx) -> (r: Option<Operation>)
        ensures
            final(self).tokens == old(self).tokens,
            final(self).offset == old(self).offset,
            step_result(old(self).state(), Token::EMC, ctx.cs_lib@, ctx.font_lib@, final(self).state(), r),
    {
        let n = self.scopes.len();
        if n < 1 {
            return None;
        }
        match self.scopes[n - 1] {
            Scope::MarkedContent { .. } => {},
            _ => {
                return None;
            },
        }
        self.scopes.pop();
        assert(self.state().scopes =~= old(self).state().scopes.drop_last());
        Some(Operation::Noop)
    }

    /// The operations of all the tokens, or `None` where an operator
    /// cannot run.
    pub fn try_process_stream(ctx: &PageCtx, tokens: &'a Vec<Token>) -> (r: Option<Vec<Operation>>)
        ensures
            match spec_run(tokens@, 0, initial_state(), ctx.cs_lib@, ctx.font_lib@) {
                Some(ops) => r is Some && ops_view(r->0@) == ops,
                None => r is None,
            },
    {
        let mut streamer = ContentStreamer::new(tokens);
        let mut out: Vec<Operation> = Vec::new();
        assert(ops_view(out@) =~= Seq::<SpecOperation>::empty());
        while streamer.has_next()
            invariant
                streamer.spec_tokens() == tokens@,
                0 <= streamer.spec_offset() <= tokens@.len(),
                spec_run(tokens@, 0, initial_state(), ctx.cs_lib@, ctx.font_lib@) == match spec_run(
                    tokens@,
                    streamer.spec_offset(),
                    streamer.state(),
                    ctx.cs_lib@,
                    ctx.font_lib@,
                ) {
                    Some(rest) => Some(ops_view(out@) + rest),
                    None => None,
                },
            decreases tokens@.len() - streamer.spec_offset(),
        {
            let ghost i = streamer.spec_offset();
            let ghost s0 = streamer.state();
            match streamer.try_advance(ctx) {
                Some(op) => {
                    proof {
                        match spec_run(tokens@, i + 1, streamer.state(), ctx.cs_lib@, ctx.font_lib@) {
                            Some(rest) => {
                                assert(ops_view(out@.push(op)) =~= ops_view(out@).push(op@));
                                assert(ops_view(out@) + (seq![op@] + rest) =~= ops_view(
                                    out@.push(op),
                                ) + rest);
                            },
                            None => {},
                        }
                    }
                    out.push(op);
                },
                None => {
                    return None;
                },
            }
        }
        assert(ops_view(out@) + Seq::<SpecOperation>::empty() =~= ops_view(out@));
        Some(out)
    }

    /// Pops the top operand.
    fn pop_token(&mut self) -> (r: Option<&'a Token>)
        ensures
            final(self).tokens == old(self).tokens,
            final(self).offset == old(self).offset,
            if old(self).state().stack.len() > 0 {
                r is Some && *r->0 == old(self).state().stack.last() && final(self).state()
                    == with_stack(old(self).state(), old(self).state().stack.drop_last())
            } else {
                r is None && final(self).state() == old(self).state()
            },
    {
        let r = self.stack.pop();
        proof {
            if old(self).stack@.len() > 0 {
                assert(self.stack@.map_values(|t: &Token| *t) =~= old(self).stack@.map_values(
                    |t: &Token| *t,
                ).drop_last());
            }
        }
        r
    }

    /// Pops the top `k` operands where they are numbers, giving their
    /// numerals deepest first.
    fn pop_numbers(&mut self, k: usize) -> (r: Option<Vec<Vec<u8>>>)
        ensures
            final(self).tokens == old(self).tokens,
            final(self).offset == old(self).offset,
            match top_numbers(old(self).state().stack, k as int) {
                Some(nums) => r is Some && numerals_view(r->0@) == nums && final(self).state()
                    == with_stack(
                    old(self).state(),
                    old(self).state().stack.take(old(self).state().stack.len() - k),
                ),
                None => r is None,
            },
    {
        let ghost st = self.state().stack;
        let n = self.stack.len();
        if k > n {
            return None;
        }
        let mut nums: Vec<Vec<u8>> = Vec::new();
        let mut j: usize = n - k;
        while j < n
            invariant
                n - k <= j <= n,
                n == self.stack@.len(),
                self.stack == old(self).stack,
                st == self.stack@.map_values(|t: &Token| *t),
                st.len() == n,
                nums@.len() == j - (n - k),
                forall|i: int| n - k <= i < j ==> (#[trigger] st[i]) is Number,
                numerals_view(nums@) == Seq::new(
                    (j - (n - k)) as nat,
                    |i: int| num_text(st[n - k + i]),
                ),
            decreases n - j,
        {
            assert(st[j as int] == *self.stack@[j as int]);
            let ghost old_nums = nums@;
            match self.stack[j] {
                Token::Number(x) => {
                    let c = copy_bytes(x);
                    nums.push(c);
                    assert(num_text(st[j as int]) == x@);
                    assert forall|i: int| 0 <= i < j + 1 - (n - k) implies #[trigger] numerals_view(
                        nums@,
                    )[i] == num_text(st[n - k + i]) by {
                        if i < j - (n - k) {
                            assert(nums@[i] == old_nums[i]);
                            assert(numerals_view(old_nums)[i] == num_text(st[n - k + i]));
                        } else {
                            assert(nums@[i] == c);
                        }
                    }
                    assert(numerals_view(nums@) =~= Seq::new(
                        (j + 1 - (n - k)) as nat,
                        |i: int| num_text(st[n - k + i]),
                    ));
                },
                _ => {
                    assert(!(st[j as int] is Number));
                    return None;
                },
            }
            j = j + 1;
        }
        let mut c: usize = 0;
        while c < k
            invariant
                c <= k <= n,
                n == old(self).stack@.len(),
                self.stack@ == old(self).stack@.take(n - c),
                self.tokens == old(self).tokens,
                self.offset == old(self).offset,
                self.scopes == old(self).scopes,
                self.graphics_state_stack == old(self).graphics_state_stack,
                self.fill_space == old(self).fill_space,
                self.text_font == old(self).text_font,
            decreases k - c,
        {
            self.stack.pop();
            assert(self.stack@ =~= old(self).stack@.take(n - c - 1));
            c = c + 1;
        }
        assert(self.state().stack =~= st.take(n - k));
        Some(nums)
    }
}

/// How many numbers an operator that takes numbers alone takes.
fn arity_of(t: &Token) -> (r: Option<usize>)
    ensures
        match r {
            Some(k) => number_arity(*t) == k,
            None => number_arity(*t) < 0,
        },
{
    match t {
        Token::Tm => Some(6),
        Token::CmStroke => Some(6),
        Token::Rect => Some(4),
        Token::M => Some(2),
        Token::L => Some(2),
        Token::I => Some(1),
        Token::V => Some(4),
        Token::Y => Some(4),
        Token::GNonStroke => Some(1),
        Token::GStroke => Some(1),
        Token::RGNonStroke => Some(3),
        Token::RGStroke => Some(3),
        _ => None,
    }
}

/// The operation of an operator that takes numbers alone.
fn number_operation(t: &Token, nums: Vec<Vec<u8>>) -> (r: Operation)
    ensures
        r@ == number_op(*t, numerals_view(nums@)),
{
    match t {
        Token::Tm => Operation::SetTextMatrix(nums),
        Token::CmStroke => Operation::Concat(nums),
        Token::Rect => Operation::Rect(nums),
        Token::M => Operation::MoveTo(nums),
        Token::L => Operation::LineTo(nums),
        Token::GNonStroke => Operation::FillGray(nums),
        Token::GStroke => Operation::StrokeGray(nums),
        _ => Operation::Noop,
    }
}

/// Whether the token is a value.
fn is_value_token(t: &Token) -> (r: bool)
    ensures
        r == is_value(*t),
{
    match t {
        Token::Number(_) | Token::Identifier(_) | Token::StringBytes(_) | Token::Array(_)
        | Token::Dict(_) => true,
        _ => false,
    }
}

/// The items of a `TJ` array as shifts and texts, where they can be shown.
fn tj_operation(items: &Vec<Token>, font: &Option<Vec<u8>>, font_lib: &FontLib) -> (r: Option<Vec<TjItem>>)
    ensures
        match r {
            Some(v) => tj_items_ok(items@, opt_bytes(*font), font_lib@) && tj_items_view(v@) == tj_view(items@),
            None => !tj_items_ok(items@, opt_bytes(*font), font_lib@),
        },
{
    let mut out: Vec<TjItem> = Vec::new();
    let mut i: usize = 0;
    while i < items.len()
        invariant
            i <= items@.len(),
            out@.len() == i,
            forall|k: int|
                0 <= k < i ==> (#[trigger] items@[k] is Number || (items@[k] is StringBytes
                    && show_ok(opt_bytes(*font), font_lib@, bytes_text(items@[k])))),
            tj_items_view(out@) == tj_view(items@.take(i as int)),
        decreases items.len() - i,
    {
        let ghost old_out = out@;
        let item = match &items[i] {
            Token::Number(n) => TjItem::Adjust(copy_bytes(n)),
            Token::StringBytes(b) => {
                if !can_show(font, font_lib, b) {
                    return None;
                }
                TjItem::Text(copy_bytes(b))
            },
            _ => {
                return None;
            },
        };
        out.push(item);
        proof {
            let v = tj_view(items@.take(i + 1));
            assert(v.len() == i + 1);
            assert(v[i as int] == item@);
            assert forall|k: int| 0 <= k < i implies #[trigger] v[k] == tj_view(
                items@.take(i as int),
            )[k] by {
                assert(items@.take(i + 1)[k] == items@.take(i as int)[k]);
            }
            assert forall|k: int| 0 <= k < i implies #[trigger] tj_items_view(out@)[k]
                == tj_items_view(old_out)[k] by {
                assert(out@[k] == old_out[k]);
            }
        }
        assert(tj_items_view(out@) =~= tj_view(items@.take(i + 1)));
        i = i + 1;
    }
    assert(items@.take(items@.len() as int) =~= items@);
    Some(out)
}

} // verus!
