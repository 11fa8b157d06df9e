pub mod ast;
pub mod display;
pub mod parser;
pub mod tokenizer;

use vstd::prelude::*;
use crate::pdf::ast::{blocks_view, Pdf, SpecBlock};
use crate::pdf::parser::{is_num, num_of, numerals_valid, spec_parse_tokens, try_parse_tokens};
use crate::pdf::tokenizer::{
    lemma_step_advances, pdf_step, spec_pdf_keyword, spec_tokenize_pdf, spec_tokenize_pdf_from,
    try_tokenize_pdf, SpecPdfToken,
};
use crate::numeral::is_valid_numeral;
use crate::tokenizer::spec_lex_word;

verus! {

/// The blocks of a PDF file; `None` where it cannot be read.
pub open spec fn spec_parse_pdf(d: Seq<u8>) -> Option<Seq<SpecBlock>> {
    match spec_tokenize_pdf(d) {
        Some(ts) => spec_parse_tokens(ts),
        None => None,
    }
}

proof fn lemma_numerals_concat(a: Seq<(usize, SpecPdfToken)>, b: Seq<(usize, SpecPdfToken)>)
    requires
        numerals_valid(a),
        numerals_valid(b),
    ensures
        numerals_valid(a + b),
{
    assert forall|i: int| 0 <= i < (a + b).len() && is_num((#[trigger] (a + b)[i]).1) implies is_valid_numeral(
        num_of((a + b)[i].1),
    ) by {
        if i < a.len() {
            assert((a + b)[i] == a[i]);
        } else {
            assert((a + b)[i] == b[i - a.len()]);
        }
    }
}

proof fn lemma_step_numerals(d: Seq<u8>, p: int)
    requires
        0 <= p < d.len(),
    ensures
        pdf_step(d, p) matches Some((ts, q)) ==> numerals_valid(ts),
{
    match pdf_step(d, p) {
        Some((ts, q)) => {
            match spec_lex_word(d, p) {
                Some((w, q1)) => {
                    assert(spec_pdf_keyword(w) matches Some(t) ==> !is_num(t));
                },
                None => {},
            }
            assert forall|i: int| 0 <= i < ts.len() && is_num((#[trigger] ts[i]).1) implies is_valid_numeral(
                num_of(ts[i].1),
            ) by {}
        },
        None => {},
    }
}

/// The tokenizer only makes number tokens out of numerals.
pub proof fn lemma_tokenize_numerals(d: Seq<u8>, p: int)
    requires
        0 <= p,
    ensures
        spec_tokenize_pdf_from(d, p) matches Some(ts) ==> numerals_valid(ts),
    decreases d.len() - p,
{
    if p < d.len() {
        lemma_step_numerals(d, p);
        lemma_step_advances(d, p);
        match pdf_step(d, p) {
            Some((ts, q)) => {
                lemma_tokenize_numerals(d, q);
                match spec_tokenize_pdf_from(d, q) {
                    Some(rest) => lemma_numerals_concat(ts, rest),
                    None => {},
                }
            },
            None => {},
        }
    } else {
        assert(numerals_valid(Seq::<(usize, SpecPdfToken)>::empty()));
    }
}

/// The syntax tree of a PDF file, or `None` where the file cannot be read.
pub fn try_parse_pdf(bytes: &Vec<u8>) -> (r: Option<Pdf>)
    ensures
        match spec_parse_pdf(bytes@) {
            Some(bs) => r is Some && blocks_view(r->0.blocks@) == bs,
            None => r is None,
        },
{
    let tokens = match try_tokenize_pdf(bytes) {
        Some(t) => t,
        None => {
            return None;
        },
    };
    proof {
        lemma_tokenize_numerals(bytes@, 0);
    }
    try_parse_tokens(&tokens)
}

/// The syntax tree of a PDF file that can be read.
pub fn parse_pdf(bytes: &Vec<u8>) -> (r: Pdf)
    requires
        spec_parse_pdf(bytes@) is Some,
    ensures
        blocks_view(r.blocks@) == spec_parse_pdf(bytes@)->0,
{
    match try_parse_pdf(bytes) {
        Some(p) => p,
        None => Pdf { blocks: Vec::new() },
    }
}

} // verus!
