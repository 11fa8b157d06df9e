//! The text forms of values, blocks and whole files, as a parsed file is
//! shown: numbers as they print, names in quotes, references as
//! `obj<id,gxn>`, dictionaries one entry per line, and each block with the
//! offset it was read at.

use vstd::prelude::*;
use crate::content::pretty::{latin1_to_utf8, numeral_display, numeral_text, push_latin1, push_range};
use crate::pdf::ast::{locs_view, Block, Pdf, Value};

verus! {

/// The decimal digits of `n`.
pub open spec fn nat_decimal(n: nat) -> Seq<u8>
    decreases n,
{
    if n < 10 {
        seq![(48 + n) as u8]
    } else {
        nat_decimal(n / 10).push((48 + n % 10) as u8)
    }
}

/// The decimal text of `i`, with a `-` where it is negative.
pub open spec fn int_decimal(i: int) -> Seq<u8> {
    if i < 0 {
        seq![45u8] + nat_decimal((-i) as nat)
    } else {
        nat_decimal(i as nat)
    }
}

/// ` bytes -- metadata: `
pub open spec fn lit_bytes_meta() -> Seq<u8> {
    seq![32u8, 98u8, 121u8, 116u8, 101u8, 115u8, 32u8, 45u8, 45u8, 32u8, 109u8, 101u8, 116u8, 97u8, 100u8, 97u8, 116u8, 97u8, 58u8, 32u8]
}

/// `obj<`
pub open spec fn lit_obj_open() -> Seq<u8> {
    seq![111u8, 98u8, 106u8, 60u8]
}

/// `{\n`
pub open spec fn lit_dict_open() -> Seq<u8> {
    seq![123u8, 10u8]
}

/// `\t}`
pub open spec fn lit_dict_close() -> Seq<u8> {
    seq![9u8, 125u8]
}

/// `\t\t`
pub open spec fn lit_entry_indent() -> Seq<u8> {
    seq![9u8, 9u8]
}

/// ` => `
pub open spec fn lit_arrow() -> Seq<u8> {
    seq![32u8, 61u8, 62u8, 32u8]
}

/// `,\n`
pub open spec fn lit_entry_end() -> Seq<u8> {
    seq![44u8, 10u8]
}

/// `true`
pub open spec fn lit_true() -> Seq<u8> {
    seq![116u8, 114u8, 117u8, 101u8]
}

/// `false`
pub open spec fn lit_false() -> Seq<u8> {
    seq![102u8, 97u8, 108u8, 115u8, 101u8]
}

/// `NULL`
pub open spec fn lit_null() -> Seq<u8> {
    seq![78u8, 85u8, 76u8, 76u8]
}

/// `loc.`
pub open spec fn lit_loc() -> Seq<u8> {
    seq![108u8, 111u8, 99u8, 46u8]
}

/// `: obj<`
pub open spec fn lit_colon_obj() -> Seq<u8> {
    seq![58u8, 32u8, 111u8, 98u8, 106u8, 60u8]
}

/// `>\n\t`
pub open spec fn lit_body_sep() -> Seq<u8> {
    seq![62u8, 10u8, 9u8]
}

/// `: xref\n`
pub open spec fn lit_colon_xref() -> Seq<u8> {
    seq![58u8, 32u8, 120u8, 114u8, 101u8, 102u8, 10u8]
}

/// `\tobj<`
pub open spec fn lit_xref_obj() -> Seq<u8> {
    seq![9u8, 111u8, 98u8, 106u8, 60u8]
}

/// `,0> => loc.`
pub open spec fn lit_xref_mid() -> Seq<u8> {
    seq![44u8, 48u8, 62u8, 32u8, 61u8, 62u8, 32u8, 108u8, 111u8, 99u8, 46u8]
}

/// `Trailer dictionary: {\n`
pub open spec fn lit_trailer_open() -> Seq<u8> {
    seq![84u8, 114u8, 97u8, 105u8, 108u8, 101u8, 114u8, 32u8, 100u8, 105u8, 99u8, 116u8, 105u8, 111u8, 110u8, 97u8, 114u8, 121u8, 58u8, 32u8, 123u8, 10u8]
}

/// `%%EOF`
pub open spec fn lit_eof() -> Seq<u8> {
    seq![37u8, 37u8, 69u8, 79u8, 70u8]
}

/// The text of a value.
pub open spec fn spec_value_text(v: Value) -> Seq<u8>
    decreases v,
{
    match v {
        Value::ByteStream(meta, bytes) => nat_decimal(bytes@.len()) + lit_bytes_meta()
            + spec_value_text(*meta),
        Value::Number(n) => numeral_display(n@),
        Value::Reference { id, gxn } => lit_obj_open() + int_decimal(id as int) + seq![44u8]
            + int_decimal(gxn as int) + seq![62u8],
        Value::Dict(d) => lit_dict_open() + dict_entries_text(d@) + lit_dict_close(),
        Value::Vector(vs) => seq![91u8] + items_text(vs@) + seq![93u8],
        Value::Identifier(id) => seq![34u8] + latin1_to_utf8(id@) + seq![34u8],
        Value::Boolean(b) => if b {
            lit_true()
        } else {
            lit_false()
        },
        Value::Null => lit_null(),
    }
}

/// The entries of a dictionary, one per line: two tabs, the key, ` => `,
/// the value and a comma.
pub open spec fn dict_entries_text(s: Seq<(Vec<u8>, Value)>) -> Seq<u8>
    decreases s,
{
    if s.len() == 0 {
        Seq::empty()
    } else {
        dict_entries_text(s.drop_last()) + lit_entry_indent() + latin1_to_utf8(s.last().0@)
            + lit_arrow() + spec_value_text(s.last().1) + lit_entry_end()
    }
}

/// The items of an array, each followed by a comma.
pub open spec fn items_text(s: Seq<Value>) -> Seq<u8>
    decreases s,
{
    if s.len() == 0 {
        Seq::empty()
    } else {
        items_text(s.drop_last()) + spec_value_text(s.last()) + seq![44u8]
    }
}

/// The lines of a cross-reference table: object `i` at its offset.
pub open spec fn xref_lines(s: Seq<usize>) -> Seq<u8>
    decreases s.len(),
{
    if s.len() == 0 {
        Seq::empty()
    } else {
        xref_lines(s.drop_last()) + lit_xref_obj() + nat_decimal((s.len() - 1) as nat)
            + lit_xref_mid() + nat_decimal(s.last() as nat) + seq![10u8]
    }
}

/// The entries of a trailer dictionary, one per line: a tab, the key,
/// ` => ` and the value.
pub open spec fn trailer_entries_text(s: Seq<(Vec<u8>, Value)>) -> Seq<u8>
    decreases s.len(),
{
    if s.len() == 0 {
        Seq::empty()
    } else {
        trailer_entries_text(s.drop_last()) + seq![9u8] + latin1_to_utf8(s.last().0@)
            + lit_arrow() + spec_value_text(s.last().1) + seq![10u8]
    }
}

/// The text of a block.
pub open spec fn spec_block_text(b: Block) -> Seq<u8> {
    match b {
        Block::Object { id, gxn, body, loc } => lit_loc() + nat_decimal(loc@ as nat)
            + lit_colon_obj() + int_decimal(id as int) + seq![44u8] + int_decimal(gxn as int)
            + lit_body_sep() + spec_value_text(body),
        Block::XRefTable(offs, loc) => lit_loc() + nat_decimal(loc@ as nat) + lit_colon_xref()
            + xref_lines(locs_view(offs@)),
        Block::Trailer(d) => lit_trailer_open() + trailer_entries_text(d@) + seq![125u8],
    }
}

/// The texts of blocks, each on its own line.
pub open spec fn blocks_text(s: Seq<Block>) -> Seq<u8>
    decreases s.len(),
{
    if s.len() == 0 {
        Seq::empty()
    } else {
        blocks_text(s.drop_last()) + spec_block_text(s.last()) + seq![10u8]
    }
}

/// The text of a file: its blocks, each on its own line, then `%%EOF`.
pub open spec fn spec_pdf_text(p: Pdf) -> Seq<u8> {
    blocks_text(p.blocks@) + lit_eof()
}

fn push_lit_bytes_meta(dst: &mut Vec<u8>)
    ensures
        final(dst)@ == old(dst)@ + lit_bytes_meta(),
{
    let a: [u8; 20] = [32, 98, 121, 116, 101, 115, 32, 45, 45, 32, 109, 101, 116, 97, 100, 97, 116, 97, 58, 32];
    assert(a@ =~= lit_bytes_meta());
    push_range(dst, a.as_slice(), 0, 20);
    assert(a@.subrange(0, 20) =~= a@);
}

fn push_lit_obj_open(dst: &mut Vec<u8>)
    ensures
        final(dst)@ == old(dst)@ + lit_obj_open(),
{
    let a: [u8; 4] = [111, 98, 106, 60];
    assert(a@ =~= lit_obj_open());
    push_range(dst, a.as_slice(), 0, 4);
    assert(a@.subrange(0, 4) =~= a@);
}

fn push_lit_dict_open(dst: &mut Vec<u8>)
    ensures
        final(dst)@ == old(dst)@ + lit_dict_open(),
{
    let a: [u8; 2] = [123, 10];
    assert(a@ =~= lit_dict_open());
    push_range(dst, a.as_slice(), 0, 2);
    assert(a@.subrange(0, 2) =~= a@);
}

fn push_lit_dict_close(dst: &mut Vec<u8>)
    ensures
        final(dst)@ == old(dst)@ + lit_dict_close(),
{
    let a: [u8; 2] = [9, 125];
    assert(a@ =~= lit_dict_close());
    push_range(dst, a.as_slice(), 0, 2);
    assert(a@.subrange(0, 2) =~= a@);
}

fn push_lit_entry_indent(dst: &mut Vec<u8>)
    ensures
        final(dst)@ == old(dst)@ + lit_entry_indent(),
{
    let a: [u8; 2] = [9, 9];
    assert(a@ =~= lit_entry_indent());
    push_range(dst, a.as_slice(), 0, 2);
    assert(a@.subrange(0, 2) =~= a@);
}

fn push_lit_arrow(dst: &mut Vec<u8>)
    ensures
        final(dst)@ == old(dst)@ + lit_arrow(),
{
    let a: [u8; 4] = [32, 61, 62, 32];
    assert(a@ =~= lit_arrow());
    push_range(dst, a.as_slice(), 0, 4);
    assert(a@.subrange(0, 4) =~= a@);
}

fn push_lit_entry_end(dst: &mut Vec<u8>)
    ensures
        final(dst)@ == old(dst)@ + lit_entry_end(),
{
    let a: [u8; 2] = [44, 10];
    assert(a@ =~= lit_entry_end());
    push_range(dst, a.as_slice(), 0, 2);
    assert(a@.subrange(0, 2) =~= a@);
}

fn push_lit_true(dst: &mut Vec<u8>)
    ensures
        final(dst)@ == old(dst)@ + lit_true(),
{
    let a: [u8; 4] = [116, 114, 117, 101];
    assert(a@ =~= lit_true());
    push_range(dst, a.as_slice(), 0, 4);
    assert(a@.subrange(0, 4) =~= a@);
}

fn push_lit_false(dst: &mut Vec<u8>)
    ensures
        final(dst)@ == old(dst)@ + lit_false(),
{
    let a: [u8; 5] = [102, 97, 108, 115, 101];
    assert(a@ =~= lit_false());
    push_range(dst, a.as_slice(), 0, 5);
    assert(a@.subrange(0, 5) =~= a@);
}

fn push_lit_null(dst: &mut Vec<u8>)
    ensures
        final(dst)@ == old(dst)@ + lit_null(),
{
    let a: [u8; 4] = [78, 85, 76, 76];
    assert(a@ =~= lit_null());
    push_range(dst, a.as_slice(), 0, 4);
    assert(a@.subrange(0, 4) =~= a@);
}

fn push_lit_loc(dst: &mut Vec<u8>)
    ensures
        final(dst)@ == old(dst)@ + lit_loc(),
{
    let a: [u8; 4] = [108, 111, 99, 46];
    assert(a@ =~= lit_loc());
    push_range(dst, a.as_slice(), 0, 4);
    assert(a@.subrange(0, 4) =~= a@);
}

fn push_lit_colon_obj(dst: &mut Vec<u8>)
    ensures
        final(dst)@ == old(dst)@ + lit_colon_obj(),
{
    let a: [u8; 6] = [58, 32, 111, 98, 106, 60];
    assert(a@ =~= lit_colon_obj());
    push_range(dst, a.as_slice(), 0, 6);
    assert(a@.subrange(0, 6) =~= a@);
}

fn push_lit_body_sep(dst: &mut Vec<u8>)
    ensures
        final(dst)@ == old(dst)@ + lit_body_sep(),
{
    let a: [u8; 3] = [62, 10, 9];
    assert(a@ =~= lit_body_sep());
    push_range(dst, a.as_slice(), 0, 3);
    assert(a@.subrange(0, 3) =~= a@);
}

fn push_lit_colon_xref(dst: &mut Vec<u8>)
    ensures
        final(dst)@ == old(dst)@ + lit_colon_xref(),
{
    let a: [u8; 7] = [58, 32, 120, 114, 101, 102, 10];
    assert(a@ =~= lit_colon_xref());
    push_range(dst, a.as_slice(), 0, 7);
    assert(a@.subrange(0, 7) =~= a@);
}

fn push_lit_xref_obj(dst: &mut Vec<u8>)
    ensures
        final(dst)@ == old(dst)@ + lit_xref_obj(),
{
    let a: [u8; 5] = [9, 111, 98, 106, 60];
    assert(a@ =~= lit_xref_obj());
    push_range(dst, a.as_slice(), 0, 5);
    assert(a@.subrange(0, 5) =~= a@);
}

fn push_lit_xref_mid(dst: &mut Vec<u8>)
    ensures
        final(dst)@ == old(dst)@ + lit_xref_mid(),
{
    let a: [u8; 11] = [44, 48, 62, 32, 61, 62, 32, 108, 111, 99, 46];
    assert(a@ =~= lit_xref_mid());
    push_range(dst, a.as_slice(), 0, 11);
    assert(a@.subrange(0, 11) =~= a@);
}

fn push_lit_trailer_open(dst: &mut Vec<u8>)
    ensures
        final(dst)@ == old(dst)@ + lit_trailer_open(),
{
    let a: [u8; 22] = [84, 114, 97, 105, 108, 101, 114, 32, 100, 105, 99, 116, 105, 111, 110, 97, 114, 121, 58, 32, 123, 10];
    assert(a@ =~= lit_trailer_open());
    push_range(dst, a.as_slice(), 0, 22);
    assert(a@.subrange(0, 22) =~= a@);
}

fn push_lit_eof(dst: &mut Vec<u8>)
    ensures
        final(dst)@ == old(dst)@ + lit_eof(),
{
    let a: [u8; 5] = [37, 37, 69, 79, 70];
    assert(a@ =~= lit_eof());
    push_range(dst, a.as_slice(), 0, 5);
    assert(a@.subrange(0, 5) =~= a@);
}

fn push_decimal(dst: &mut Vec<u8>, n: u64)
    ensures
        final(dst)@ == old(dst)@ + nat_decimal(n as nat),
    decreases n,
{
    if n >= 10 {
        push_decimal(dst, n / 10);
    }
    let d: u8 = (n % 10) as u8;
    dst.push(48 + d);
    assert(dst@ =~= old(dst)@ + nat_decimal(n as nat));
}

fn push_int(dst: &mut Vec<u8>, i: i32)
    ensures
        final(dst)@ == old(dst)@ + int_decimal(i as int),
{
    if i < 0 {
        dst.push(45);
        let m: i64 = -(i as i64);
        push_decimal(dst, m as u64);
        assert(dst@ =~= old(dst)@ + int_decimal(i as int));
    } else {
        push_decimal(dst, i as u64);
    }
}

fn push_all(dst: &mut Vec<u8>, src: &Vec<u8>)
    ensures
        final(dst)@ == old(dst)@ + src@,
{
    push_range(dst, src.as_slice(), 0, src.len());
    assert(src@.subrange(0, src@.len() as int) =~= src@);
}

impl Value {
    /// The text of the value.
    pub fn text(&self) -> (r: Vec<u8>)
        ensures
            r@ == spec_value_text(*self),
        decreases self,
    {
        let mut out: Vec<u8> = Vec::new();
        match self {
            Value::ByteStream(meta, bytes) => {
                push_decimal(&mut out, bytes.len() as u64);
                push_lit_bytes_meta(&mut out);
                let m = meta.text();
                push_all(&mut out, &m);
            },
            Value::Number(n) => {
                let t = numeral_text(n);
                push_all(&mut out, &t);
            },
            Value::Reference { id, gxn } => {
                push_lit_obj_open(&mut out);
                push_int(&mut out, *id);
                out.push(44);
                push_int(&mut out, *gxn);
                out.push(62);
            },
            Value::Dict(d) => {
                push_lit_dict_open(&mut out);
                let mut i: usize = 0;
                while i < d.len()
                    invariant
                        i <= d@.len(),
                        *self == Value::Dict(*d),
                        out@ == lit_dict_open() + dict_entries_text(d@.take(i as int)),
                    decreases d.len() - i,
                {
                    proof {
                        assert(decreases_to!(*self => (*self)->Dict_0));
                        assert(decreases_to!(*d => d@));
                        assert(decreases_to!(d@ => d@[i as int]));
                        assert(decreases_to!(d@[i as int] => d@[i as int].1));
                    }
                    push_lit_entry_indent(&mut out);
                    push_latin1(&mut out, d[i].0.as_slice());
                    push_lit_arrow(&mut out);
                    let t = d[i].1.text();
                    push_all(&mut out, &t);
                    push_lit_entry_end(&mut out);
                    assert(d@.take(i + 1).drop_last() =~= d@.take(i as int));
                    assert(out@ =~= lit_dict_open() + dict_entries_text(d@.take(i + 1)));
                    i = i + 1;
                }
                assert(d@.take(d@.len() as int) =~= d@);
                push_lit_dict_close(&mut out);
            },
            Value::Vector(vs) => {
                out.push(91);
                let mut i: usize = 0;
                while i < vs.len()
                    invariant
                        i <= vs@.len(),
                        *self == Value::Vector(*vs),
                        out@ == seq![91u8] + items_text(vs@.take(i as int)),
                    decreases vs.len() - i,
                {
                    proof {
                        assert(decreases_to!(*self => (*self)->Vector_0));
                        assert(decreases_to!(*vs => vs@));
                        assert(decreases_to!(vs@ => vs@[i as int]));
                    }
                    let t = vs[i].text();
                    push_all(&mut out, &t);
                    out.push(44);
                    assert(vs@.take(i + 1).drop_last() =~= vs@.take(i as int));
                    assert(out@ =~= seq![91u8] + items_text(vs@.take(i + 1)));
                    i = i + 1;
                }
                assert(vs@.take(vs@.len() as int) =~= vs@);
                out.push(93);
            },
            Value::Identifier(id) => {
                out.push(34);
                push_latin1(&mut out, id.as_slice());
                out.push(34);
            },
            Value::Boolean(b) => {
                if *b {
                    push_lit_true(&mut out);
                } else {
                    push_lit_false(&mut out);
                }
            },
            Value::Null => {
                push_lit_null(&mut out);
            },
        }
        assert(out@ =~= spec_value_text(*self));
        out
    }
}

impl Block {
    /// The text of the block.
    pub fn text(&self) -> (r: Vec<u8>)
        ensures
            r@ == spec_block_text(*self),
    {
        let mut out: Vec<u8> = Vec::new();
        match self {
            Block::Object { id, gxn, body, loc } => {
                push_lit_loc(&mut out);
                push_decimal(&mut out, loc.pos() as u64);
                push_lit_colon_obj(&mut out);
                push_int(&mut out, *id);
                out.push(44);
                push_int(&mut out, *gxn);
                push_lit_body_sep(&mut out);
                let t = body.text();
                push_all(&mut out, &t);
            },
            Block::XRefTable(offs, loc) => {
                push_lit_loc(&mut out);
                push_decimal(&mut out, loc.pos() as u64);
                push_lit_colon_xref(&mut out);
                let ghost pre = out@;
                let mut i: usize = 0;
                while i < offs.len()
                    invariant
                        i <= offs@.len(),
                        out@ == pre + xref_lines(locs_view(offs@).take(i as int)),
                    decreases offs.len() - i,
                {
                    push_lit_xref_obj(&mut out);
                    push_decimal(&mut out, i as u64);
                    push_lit_xref_mid(&mut out);
                    push_decimal(&mut out, offs[i].pos() as u64);
                    out.push(10);
                    assert(locs_view(offs@).take(i + 1).drop_last() =~= locs_view(offs@).take(
                        i as int,
                    ));
                    assert(out@ =~= pre + xref_lines(locs_view(offs@).take(i + 1)));
                    i = i + 1;
                }
                assert(locs_view(offs@).take(offs@.len() as int) =~= locs_view(offs@));
            },
            Block::Trailer(d) => {
                push_lit_trailer_open(&mut out);
                let mut i: usize = 0;
                while i < d.len()
                    invariant
                        i <= d@.len(),
                        out@ == lit_trailer_open() + trailer_entries_text(d@.take(i as int)),
                    decreases d.len() - i,
                {
                    out.push(9);
                    push_latin1(&mut out, d[i].0.as_slice());
                    push_lit_arrow(&mut out);
                    let t = d[i].1.text();
                    push_all(&mut out, &t);
                    out.push(10);
                    assert(d@.take(i + 1).drop_last() =~= d@.take(i as int));
                    assert(out@ =~= lit_trailer_open() + trailer_entries_text(d@.take(i + 1)));
                    i = i + 1;
                }
                assert(d@.take(d@.len() as int) =~= d@);
                out.push(125);
            },
        }
        assert(out@ =~= spec_block_text(*self));
        out
    }
}

impl Pdf {
    /// The text of the file.
    pub fn text(&self) -> (r: Vec<u8>)
        ensures
            r@ == spec_pdf_text(*self),
    {
        let mut out: Vec<u8> = Vec::new();
        let mut i: usize = 0;
        while i < self.blocks.len()
            invariant
                i <= self.blocks@.len(),
                out@ == blocks_text(self.blocks@.take(i as int)),
            decreases self.blocks.len() - i,
        {
            let t = self.blocks[i].text();
            push_all(&mut out, &t);
            out.push(10);
            assert(self.blocks@.take(i + 1).drop_last() =~= self.blocks@.take(i as int));
            assert(out@ =~= blocks_text(self.blocks@.take(i + 1)));
            i = i + 1;
        }
        assert(self.blocks@.take(self.blocks@.len() as int) =~= self.blocks@);
        push_lit_eof(&mut out);
        out
    }
}

} // verus!
