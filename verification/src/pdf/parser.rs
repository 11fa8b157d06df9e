//! The parser from PDF tokens to the syntax tree.

use vstd::prelude::*;
use crate::name_map::{entries_insert, lemma_empty_view, lemma_insert_view, spec_insert};
use crate::numeral::{clamp, is_valid_numeral, numeral_int, numeral_to_i32, numeral_to_usize};
use crate::pdf::ast::{
    lemma_value_dict_view, lemma_values_view_push, value_dict_view, value_view, values_view,
    Block, Pdf, SpecBlock, SpecValue, Value, blocks_view, locs_view,
};
use crate::pdf::tokenizer::{copy_range, located_view, PdfToken, SpecPdfToken};
use crate::src_loc::SrcLoc;

verus! {

/// Tokens as the parser sees them: offsets and what the tokens stand for.
pub type SpecTokens = Seq<(usize, SpecPdfToken)>;

/// The numeral's value rounded toward zero as an `i32`, out-of-range values
/// taken to the nearest bound.
pub open spec fn to_i32(n: Seq<u8>) -> i32 {
    clamp(numeral_int(n), i32::MIN as int, i32::MAX as int) as i32
}

/// The numeral's value rounded toward zero as a `usize`, negative values
/// taken to 0 and values that are too large to `usize::MAX`.
pub open spec fn to_usize(n: Seq<u8>) -> usize {
    clamp(numeral_int(n), 0, usize::MAX as int) as usize
}

/// Every number token holds a numeral.
pub open spec fn numerals_valid(t: SpecTokens) -> bool {
    forall|i: int|
        0 <= i < t.len() && is_num((#[trigger] t[i]).1) ==> is_valid_numeral(num_of(t[i].1))
}

pub open spec fn is_num(k: SpecPdfToken) -> bool {
    k matches SpecPdfToken::Number(_)
}

pub open spec fn num_of(k: SpecPdfToken) -> Seq<u8> {
    match k {
        SpecPdfToken::Number(n) => n,
        _ => Seq::empty(),
    }
}

pub open spec fn ident_of(k: SpecPdfToken) -> Seq<u8> {
    match k {
        SpecPdfToken::Identifier(s) => s,
        _ => Seq::empty(),
    }
}

/// The bytes of the run of byte-stream tokens from `i` on, up to the
/// `endstream` keyword.
pub open spec fn p_stream_chunks(t: SpecTokens, i: int, acc: Seq<u8>) -> Option<(Seq<u8>, int)>
    decreases t.len() - i,
{
    if !(0 <= i < t.len()) {
        None
    } else {
        match t[i].1 {
            SpecPdfToken::ByteStream(b) => p_stream_chunks(t, i + 1, acc + b),
            SpecPdfToken::EndStreamKeyword => Some((acc, i + 1)),
            _ => None,
        }
    }
}

/// A stream's bytes: `stream`, at least one byte-stream token, `endstream`.
pub open spec fn p_bytestream(t: SpecTokens, i: int) -> Option<(Seq<u8>, int)> {
    if 0 <= i && i + 1 < t.len() && t[i].1 is StreamKeyword && t[i + 1].1 is ByteStream {
        p_stream_chunks(t, i + 1, Seq::empty())
    } else {
        None
    }
}

/// The value at `i`, and the position after it.
pub open spec fn p_value(t: SpecTokens, i: int) -> Option<(SpecValue, int)>
    decreases t.len() - i, 1int,
{
    if !(0 <= i < t.len()) {
        None
    } else {
        let k = t[i].1;
        if k is AngleStart && i + 1 >= t.len() {
            None
        } else if k is AngleStart && t[i + 1].1 is AngleStart {
            match p_dict(t, i + 2, Map::empty()) {
                Some((m, j)) => if !(j < t.len()) {
                    None
                } else if t[j].1 is StreamKeyword {
                    match p_bytestream(t, j) {
                        Some((bytes, j2)) => Some(
                            (SpecValue::ByteStream(Box::new(SpecValue::Dict(m)), bytes), j2),
                        ),
                        None => None,
                    }
                } else {
                    Some((SpecValue::Dict(m), j))
                },
                None => None,
            }
        } else if k is AngleStart {
            if i + 2 < t.len() && t[i + 1].1 is Identifier {
                Some((SpecValue::Identifier(ident_of(t[i + 1].1)), i + 3))
            } else {
                None
            }
        } else if k is LeftBracket {
            p_vector(t, i + 1, Seq::empty())
        } else if is_num(k) {
            if i + 1 >= t.len() {
                None
            } else if is_num(t[i + 1].1) {
                if i + 2 < t.len() && t[i + 2].1 is RefKeyword {
                    Some(
                        (
                            SpecValue::Reference {
                                id: to_i32(num_of(k)),
                                gxn: to_i32(num_of(t[i + 1].1)),
                            },
                            i + 3,
                        ),
                    )
                } else {
                    None
                }
            } else {
                Some((SpecValue::Number(num_of(k)), i + 1))
            }
        } else if k is LeftParens {
            if i + 2 < t.len() && t[i + 1].1 is String && t[i + 2].1 is RightParens {
                match t[i + 1].1 {
                    SpecPdfToken::String(s) => Some((SpecValue::Identifier(s), i + 3)),
                    _ => None,
                }
            } else {
                None
            }
        } else if k is ForwardSlash {
            if i + 1 < t.len() && t[i + 1].1 is Identifier {
                Some((SpecValue::Identifier(ident_of(t[i + 1].1)), i + 2))
            } else {
                None
            }
        } else if k is BooleanTrue {
            Some((SpecValue::Boolean(true), i + 1))
        } else if k is BooleanFalse {
            Some((SpecValue::Boolean(false), i + 1))
        } else if k is Null {
            Some((SpecValue::Null, i + 1))
        } else {
            None
        }
    }
}

/// The rest of an array whose items so far are `acc`, up to `]`.  Two
/// numbers followed by `R` make a reference; other numbers stand alone.
pub open spec fn p_vector(t: SpecTokens, i: int, acc: Seq<SpecValue>) -> Option<(SpecValue, int)>
    decreases t.len() - i, 2int,
{
    if !(0 <= i < t.len()) {
        None
    } else {
        let k = t[i].1;
        if k is RightBracket {
            Some((SpecValue::Vector(acc), i + 1))
        } else if k is ForwardSlash {
            if i + 1 < t.len() && t[i + 1].1 is Identifier {
                p_vector(t, i + 2, acc.push(SpecValue::Identifier(ident_of(t[i + 1].1))))
            } else {
                None
            }
        } else if is_num(k) {
            if i + 1 >= t.len() {
                None
            } else if !is_num(t[i + 1].1) {
                p_vector(t, i + 1, acc.push(SpecValue::Number(num_of(k))))
            } else if i + 2 >= t.len() {
                None
            } else if !(t[i + 2].1 is RefKeyword) {
                p_vector(
                    t,
                    i + 2,
                    acc.push(SpecValue::Number(num_of(k))).push(
                        SpecValue::Number(num_of(t[i + 1].1)),
                    ),
                )
            } else {
                p_vector(
                    t,
                    i + 3,
                    acc.push(
                        SpecValue::Reference {
                            id: to_i32(num_of(k)),
                            gxn: to_i32(num_of(t[i + 1].1)),
                        },
                    ),
                )
            }
        } else {
            match p_value(t, i) {
                Some((v, j)) => if i < j <= t.len() {
                    p_vector(t, j, acc.push(v))
                } else {
                    None
                },
                None => None,
            }
        }
    }
}

/// The rest of a dictionary whose entries so far are `acc`: `/key value`
/// pairs up to `>>`.
pub open spec fn p_dict(t: SpecTokens, i: int, acc: Map<Seq<u8>, SpecValue>) -> Option<
    (Map<Seq<u8>, SpecValue>, int),
>
    decreases t.len() - i, 0int,
{
    if !(0 <= i < t.len()) {
        None
    } else if t[i].1 is AngleEnd {
        if i + 1 < t.len() && t[i + 1].1 is AngleEnd {
            Some((acc, i + 2))
        } else {
            None
        }
    } else if !(t[i].1 is ForwardSlash) {
        None
    } else if !(i + 1 < t.len() && t[i + 1].1 is Identifier) {
        None
    } else {
        match p_value(t, i + 2) {
            Some((v, j)) => if i < j <= t.len() {
                p_dict(t, j, acc.insert(ident_of(t[i + 1].1), v))
            } else {
                None
            },
            None => None,
        }
    }
}

/// A dictionary at `i`: `<<`, then its entries.
pub open spec fn p_dict_at(t: SpecTokens, i: int) -> Option<(Map<Seq<u8>, SpecValue>, int)> {
    if 0 <= i && i + 1 < t.len() && t[i].1 is AngleStart && t[i + 1].1 is AngleStart {
        p_dict(t, i + 2, Map::empty())
    } else {
        None
    }
}

/// An object at `i` (which holds a number): `id gxn obj value endobj`.
pub open spec fn p_object(t: SpecTokens, i: int) -> Option<(SpecBlock, int)> {
    if 0 <= i && i + 2 < t.len() && is_num(t[i].1) && is_num(t[i + 1].1)
        && t[i + 2].1 is ObjKeyword {
        match p_value(t, i + 3) {
            Some((v, j)) => if 0 <= j < t.len() && t[j].1 is EndObjKeyword {
                Some(
                    (
                        SpecBlock::Object {
                            id: to_i32(num_of(t[i].1)),
                            gxn: to_i32(num_of(t[i + 1].1)),
                            body: v,
                            loc: t[i].0,
                        },
                        j + 1,
                    ),
                )
            } else {
                None
            },
            None => None,
        }
    } else {
        None
    }
}

/// `n` cross-reference entries from `i` on (`offset generation f|n`), each
/// offset added to `xref`.
pub open spec fn p_xref_entries(t: SpecTokens, i: int, n: nat, xref: Seq<usize>) -> Option<
    (Seq<usize>, int),
>
    decreases n,
{
    if n == 0 {
        Some((xref, i))
    } else if 0 <= i && i + 2 < t.len() && is_num(t[i].1) && is_num(t[i + 1].1) && (
    t[i + 2].1 is FKeyword || t[i + 2].1 is NKeyword) {
        p_xref_entries(t, i + 3, (n - 1) as nat, xref.push(to_usize(num_of(t[i].1))))
    } else {
        None
    }
}

/// Cross-reference sections from `i` on, up to the `trailer` keyword: each
/// a first id, a count, and that many entries.
pub open spec fn p_xref_sections(t: SpecTokens, i: int, xref: Seq<usize>) -> Option<
    (Seq<usize>, int),
>
    decreases t.len() - i,
{
    if !(0 <= i < t.len()) {
        None
    } else if t[i].1 is TrailerKeyword {
        Some((xref, i))
    } else if i + 1 < t.len() && is_num(t[i].1) && is_num(t[i + 1].1) {
        match p_xref_entries(t, i + 2, to_usize(num_of(t[i + 1].1)) as nat, xref) {
            Some((x2, j)) => if i < j <= t.len() {
                p_xref_sections(t, j, x2)
            } else {
                None
            },
            None => None,
        }
    } else {
        None
    }
}

/// The blocks of a file from token `i` on, given the blocks, cross-reference
/// offsets and `startxref` numeral read so far.  The cross-reference table
/// comes last, located at the last `startxref` (0 when there is none).
pub open spec fn p_run(
    t: SpecTokens,
    i: int,
    blocks: Seq<SpecBlock>,
    xref: Seq<usize>,
    sx: Option<Seq<u8>>,
) -> Option<Seq<SpecBlock>>
    decreases t.len() - i,
{
    if !(0 <= i < t.len()) {
        Some(
            blocks.push(
                SpecBlock::XRefTable(
                    xref,
                    match sx {
                        Some(n) => to_usize(n),
                        None => 0,
                    },
                ),
            ),
        )
    } else {
        let k = t[i].1;
        if k is Percent {
            if i + 1 < t.len() && t[i + 1].1 is String {
                p_run(t, i + 2, blocks, xref, sx)
            } else {
                None
            }
        } else if is_num(k) {
            match p_object(t, i) {
                Some((b, j)) => if i < j <= t.len() {
                    p_run(t, j, blocks.push(b), xref, sx)
                } else {
                    None
                },
                None => None,
            }
        } else if k is XRefKeyword {
            match p_xref_sections(t, i + 1, xref) {
                Some((x2, j)) => if i < j <= t.len() {
                    p_run(t, j, blocks, x2, sx)
                } else {
                    None
                },
                None => None,
            }
        } else if k is TrailerKeyword {
            match p_dict_at(t, i + 1) {
                Some((m, j)) => if i < j && j + 2 < t.len() && t[j].1 is StartXRefKeyword && is_num(
                    t[j + 1].1,
                ) && t[j + 2].1 is EOFKeyword {
                    p_run(t, j + 3, blocks.push(SpecBlock::Trailer(m)), xref, Some(num_of(t[j + 1].1)))
                } else {
                    None
                },
                None => None,
            }
        } else {
            None
        }
    }
}

/// The blocks of a file; `None` where the tokens do not make a file.
pub open spec fn spec_parse_tokens(t: SpecTokens) -> Option<Seq<SpecBlock>> {
    p_run(t, 0, Seq::empty(), Seq::empty(), None)
}


/// The values that stand in one or a few tokens: `true` is the boolean
/// true and `false` the boolean false, `null` is null, `/` and a name is
/// that name, a number not followed by another is that number, and two
/// numbers followed by `R` are a reference to the object they number; each
/// ends right after its last token.
pub proof fn law_value_atoms(t: SpecTokens, i: int)
    requires
        0 <= i < t.len(),
    ensures
        t[i].1 is BooleanTrue ==> p_value(t, i) == Some((SpecValue::Boolean(true), i + 1)),
        t[i].1 is BooleanFalse ==> p_value(t, i) == Some((SpecValue::Boolean(false), i + 1)),
        t[i].1 is Null ==> p_value(t, i) == Some((SpecValue::Null, i + 1)),
        t[i].1 is ForwardSlash && i + 1 < t.len() && t[i + 1].1 is Identifier ==> p_value(t, i)
            == Some((SpecValue::Identifier(ident_of(t[i + 1].1)), i + 2)),
        is_num(t[i].1) && i + 1 < t.len() && !is_num(t[i + 1].1) ==> p_value(t, i) == Some(
            (SpecValue::Number(num_of(t[i].1)), i + 1),
        ),
        is_num(t[i].1) && i + 2 < t.len() && is_num(t[i + 1].1) && t[i + 2].1 is RefKeyword
            ==> p_value(t, i) == Some(
            (
                SpecValue::Reference {
                    id: to_i32(num_of(t[i].1)),
                    gxn: to_i32(num_of(t[i + 1].1)),
                },
                i + 3,
            ),
        ),
{
}

/// An object is `id gxn obj value endobj`: its block carries the first two
/// numbers as its id and generation, the value read after `obj` as its
/// body, and the location of its first token; it ends after `endobj`.
pub proof fn law_object_block(t: SpecTokens, i: int)
    ensures
        p_object(t, i) matches Some((b, j)) ==> {
            &&& 0 <= i && i + 2 < t.len()
            &&& is_num(t[i].1) && is_num(t[i + 1].1) && t[i + 2].1 is ObjKeyword
            &&& p_value(t, i + 3) is Some
            &&& b == SpecBlock::Object {
                id: to_i32(num_of(t[i].1)),
                gxn: to_i32(num_of(t[i + 1].1)),
                body: (p_value(t, i + 3)->0).0,
                loc: t[i].0,
            }
            &&& t[(p_value(t, i + 3)->0).1].1 is EndObjKeyword
            &&& j == (p_value(t, i + 3)->0).1 + 1
        },
{
}

/// Whether the entries `/keys[k] vals[k]` are read one after another from
/// `es[0]`, each value ending where the next entry starts.
pub open spec fn dict_entries_read(
    t: SpecTokens,
    es: Seq<int>,
    keys: Seq<Seq<u8>>,
    vals: Seq<SpecValue>,
) -> bool {
    &&& es.len() == keys.len() + 1
    &&& vals.len() == keys.len()
    &&& forall|k: int|
        0 <= k < keys.len() ==> {
            &&& 0 <= #[trigger] es[k]
            &&& es[k] + 1 < t.len()
            &&& t[es[k]].1 is ForwardSlash
            &&& t[es[k] + 1].1 is Identifier
            &&& ident_of(t[es[k] + 1].1) == keys[k]
            &&& p_value(t, es[k] + 2) == Some((vals[k], es[k + 1]))
        }
}

#[verifier::opaque]
spec fn value_read(t: SpecTokens, i: int) -> Option<(SpecValue, int)> {
    p_value(t, i)
}

#[verifier::opaque]
spec fn dict_read(t: SpecTokens, i: int, acc: Map<Seq<u8>, SpecValue>) -> Option<
    (Map<Seq<u8>, SpecValue>, int),
> {
    p_dict(t, i, acc)
}

spec fn entries_at(t: SpecTokens, es: Seq<int>, keys: Seq<Seq<u8>>, vals: Seq<SpecValue>) -> bool {
    &&& es.len() == keys.len() + 1
    &&& vals.len() == keys.len()
    &&& forall|k: int|
        0 <= k < keys.len() ==> {
            &&& 0 <= #[trigger] es[k]
            &&& es[k] + 1 < t.len()
            &&& t[es[k]].1 is ForwardSlash
            &&& t[es[k] + 1].1 is Identifier
            &&& ident_of(t[es[k] + 1].1) == keys[k]
            &&& value_read(t, es[k] + 2) == Some((vals[k], es[k + 1]))
        }
}

/// The map after inserting the entries in order.
spec fn insert_all(acc: Map<Seq<u8>, SpecValue>, keys: Seq<Seq<u8>>, vals: Seq<SpecValue>) -> Map<
    Seq<u8>,
    SpecValue,
>
    decreases keys.len(),
{
    if keys.len() == 0 || vals.len() == 0 {
        acc
    } else {
        insert_all(acc.insert(keys[0], vals[0]), keys.drop_first(), vals.drop_first())
    }
}

proof fn lemma_dict_read_step(t: SpecTokens, i: int, acc: Map<Seq<u8>, SpecValue>)
    ensures
        !(0 <= i < t.len()) ==> dict_read(t, i, acc) is None,
        0 <= i < t.len() && t[i].1 is AngleEnd ==> dict_read(t, i, acc) == if i + 1 < t.len()
            && t[i + 1].1 is AngleEnd {
            Some((acc, i + 2))
        } else {
            None
        },
        0 <= i < t.len() && !(t[i].1 is AngleEnd) && !(t[i].1 is ForwardSlash && i + 1 < t.len()
            && t[i + 1].1 is Identifier) ==> dict_read(t, i, acc) is None,
        0 <= i && i + 1 < t.len() && t[i].1 is ForwardSlash && t[i + 1].1 is Identifier ==> dict_read(
            t,
            i,
            acc,
        ) == match value_read(t, i + 2) {
            Some((v, j)) => if i < j <= t.len() {
                dict_read(t, j, acc.insert(ident_of(t[i + 1].1), v))
            } else {
                None
            },
            None => None,
        },
{
    reveal(dict_read);
    reveal(value_read);
}

proof fn lemma_dict_entries(t: SpecTokens, i: int, acc: Map<Seq<u8>, SpecValue>)
    ensures
        dict_read(t, i, acc) matches Some((m, j)) ==> exists|
            es: Seq<int>,
            keys: Seq<Seq<u8>>,
            vals: Seq<SpecValue>,
        |
            #![trigger entries_at(t, es, keys, vals)]
            entries_at(t, es, keys, vals) && es[0] == i && 0 <= es.last() && es.last() + 1 < t.len()
                && t[es.last()].1 is AngleEnd && t[es.last() + 1].1 is AngleEnd && j == es.last() + 2
                && m == insert_all(acc, keys, vals),
    decreases t.len() - i,
{
    lemma_dict_read_step(t, i, acc);
    match dict_read(t, i, acc) {
        Some((m, j)) => {
            if t[i].1 is AngleEnd {
                let es = seq![i];
                let keys = Seq::<Seq<u8>>::empty();
                let vals = Seq::<SpecValue>::empty();
                assert(entries_at(t, es, keys, vals));
            } else {
                let key = ident_of(t[i + 1].1);
                let (v, j0) = value_read(t, i + 2)->0;
                lemma_dict_entries(t, j0, acc.insert(key, v));
                let (es2, keys2, vals2) = choose|
                    es: Seq<int>,
                    keys: Seq<Seq<u8>>,
                    vals: Seq<SpecValue>,
                |
                    #![trigger entries_at(t, es, keys, vals)]
                    entries_at(t, es, keys, vals) && es[0] == j0 && 0 <= es.last() && es.last() + 1
                        < t.len() && t[es.last()].1 is AngleEnd && t[es.last() + 1].1 is AngleEnd
                        && j == es.last() + 2 && m == insert_all(acc.insert(key, v), keys, vals);
                let es = seq![i] + es2;
                let keys = seq![key] + keys2;
                let vals = seq![v] + vals2;
                assert(keys.drop_first() =~= keys2);
                assert(vals.drop_first() =~= vals2);
                assert forall|k: int| 0 <= k < keys.len() implies {
                    &&& 0 <= #[trigger] es[k]
                    &&& es[k] + 1 < t.len()
                    &&& t[es[k]].1 is ForwardSlash
                    &&& t[es[k] + 1].1 is Identifier
                    &&& ident_of(t[es[k] + 1].1) == keys[k]
                    &&& value_read(t, es[k] + 2) == Some((vals[k], es[k + 1]))
                } by {
                    if k > 0 {
                        assert(es[k] == es2[k - 1]);
                        assert(es[k + 1] == es2[k]);
                        assert(keys[k] == keys2[k - 1]);
                        assert(vals[k] == vals2[k - 1]);
                    }
                }
                assert(es.last() == es2.last());
                assert(entries_at(t, es, keys, vals));
                assert(m == insert_all(acc, keys, vals));
            }
        },
        None => {},
    }
}

proof fn lemma_insert_all_last_wins(acc: Map<Seq<u8>, SpecValue>, keys: Seq<Seq<u8>>, vals: Seq<SpecValue>)
    requires
        keys.len() == vals.len(),
    ensures
        forall|key: Seq<u8>|
            #[trigger] insert_all(acc, keys, vals).contains_key(key) <==> (acc.contains_key(key)
                || keys.contains(key)),
        forall|k: int|
            0 <= k < keys.len() && (forall|k2: int| k < k2 < keys.len() ==> keys[k2] != keys[k])
                ==> #[trigger] insert_all(acc, keys, vals)[keys[k]] == vals[k],
    decreases keys.len(),
{
    if keys.len() > 0 {
        let acc2 = acc.insert(keys[0], vals[0]);
        let ks = keys.drop_first();
        let vs = vals.drop_first();
        lemma_insert_all_last_wins(acc2, ks, vs);
        let r = insert_all(acc, keys, vals);
        assert(r == insert_all(acc2, ks, vs));
        assert forall|key: Seq<u8>| #[trigger] r.contains_key(key) <==> (acc.contains_key(key)
            || keys.contains(key)) by {
            if keys.contains(key) {
                let k = choose|k: int| 0 <= k < keys.len() && keys[k] == key;
                if k > 0 {
                    assert(ks[k - 1] == key);
                }
            }
            if ks.contains(key) {
                let k = choose|k: int| 0 <= k < ks.len() && ks[k] == key;
                assert(keys[k + 1] == key);
            }
        }
        assert forall|k: int|
            0 <= k < keys.len() && (forall|k2: int| k < k2 < keys.len() ==> keys[k2] != keys[k])
            implies #[trigger] r[keys[k]] == vals[k] by {
            if k > 0 {
                assert(keys[k] == ks[k - 1]);
                assert(vals[k] == vs[k - 1]);
                assert forall|k2: int| k - 1 < k2 < ks.len() implies #[trigger] ks[k2] != ks[k - 1] by {
                    assert(ks[k2] == keys[k2 + 1]);
                }
            } else {
                assert(!ks.contains(keys[0])) by {
                    if ks.contains(keys[0]) {
                        let k2 = choose|k2: int| 0 <= k2 < ks.len() && ks[k2] == keys[0];
                        assert(keys[k2 + 1] == keys[0]);
                    }
                }
                lemma_insert_all_keeps(acc2, ks, vs, keys[0]);
            }
        }
    }
}

proof fn lemma_insert_all_keeps(acc: Map<Seq<u8>, SpecValue>, keys: Seq<Seq<u8>>, vals: Seq<SpecValue>, key: Seq<u8>)
    requires
        keys.len() == vals.len(),
        !keys.contains(key),
        acc.contains_key(key),
    ensures
        insert_all(acc, keys, vals).contains_key(key),
        insert_all(acc, keys, vals)[key] == acc[key],
    decreases keys.len(),
{
    if keys.len() > 0 {
        let ks = keys.drop_first();
        assert(!ks.contains(key)) by {
            if ks.contains(key) {
                let k = choose|k: int| 0 <= k < ks.len() && ks[k] == key;
                assert(keys[k + 1] == key);
            }
        }
        assert(keys[0] != key);
        lemma_insert_all_keeps(acc.insert(keys[0], vals[0]), ks, vals.drop_first(), key);
    }
}

/// A dictionary holds exactly the `/key value` entries written between its
/// `<<` and `>>`, read one after another: its names are the keys written,
/// and each holds the value written last under it.
pub proof fn law_dict_entries(t: SpecTokens, i: int)
    ensures
        p_dict_at(t, i) matches Some((m, j)) ==> exists|
            es: Seq<int>,
            keys: Seq<Seq<u8>>,
            vals: Seq<SpecValue>,
        |
            #![trigger dict_entries_read(t, es, keys, vals)]
            {
                &&& dict_entries_read(t, es, keys, vals)
                &&& es[0] == i + 2
                &&& 0 <= es.last() && es.last() + 1 < t.len()
                &&& t[es.last()].1 is AngleEnd && t[es.last() + 1].1 is AngleEnd
                &&& j == es.last() + 2
                &&& forall|key: Seq<u8>| #[trigger] m.contains_key(key) <==> keys.contains(key)
                &&& forall|k: int|
                    0 <= k < keys.len() && (forall|k2: int| k < k2 < keys.len() ==> keys[k2] != keys[k])
                        ==> #[trigger] m[keys[k]] == vals[k]
            },
{
    match p_dict_at(t, i) {
        Some((m, j)) => {
            reveal(dict_read);
            lemma_dict_entries(t, i + 2, Map::empty());
            let (es, keys, vals) = choose|
                es: Seq<int>,
                keys: Seq<Seq<u8>>,
                vals: Seq<SpecValue>,
            |
                #![trigger entries_at(t, es, keys, vals)]
                entries_at(t, es, keys, vals) && es[0] == i + 2 && 0 <= es.last() && es.last() + 1
                    < t.len() && t[es.last()].1 is AngleEnd && t[es.last() + 1].1 is AngleEnd && j
                    == es.last() + 2 && m == insert_all(Map::empty(), keys, vals);
            lemma_insert_all_last_wins(Map::empty(), keys, vals);
            reveal(value_read);
            assert(dict_entries_read(t, es, keys, vals));
        },
        None => {},
    }
}

/// Whether no block before the last is a cross-reference table and the
/// last one is.
pub open spec fn xref_last_only(bs: Seq<SpecBlock>) -> bool {
    &&& bs.len() >= 1
    &&& bs.last() is XRefTable
    &&& forall|j: int| 0 <= j < bs.len() - 1 ==> !(#[trigger] bs[j] is XRefTable)
}

proof fn lemma_run_shape(
    t: SpecTokens,
    i: int,
    blocks: Seq<SpecBlock>,
    xref: Seq<usize>,
    sx: Option<Seq<u8>>,
)
    requires
        forall|j: int| 0 <= j < blocks.len() ==> !(#[trigger] blocks[j] is XRefTable),
    ensures
        p_run(t, i, blocks, xref, sx) matches Some(bs) ==> xref_last_only(bs),
    decreases t.len() - i,
{
    if !(0 <= i < t.len()) {
        let bs = p_run(t, i, blocks, xref, sx)->0;
        assert forall|j: int| 0 <= j < bs.len() - 1 implies !(#[trigger] bs[j] is XRefTable) by {
            assert(bs[j] == blocks[j]);
        }
    } else {
        let k = t[i].1;
        if k is Percent {
            if i + 1 < t.len() && t[i + 1].1 is String {
                lemma_run_shape(t, i + 2, blocks, xref, sx);
            }
        } else if is_num(k) {
            match p_object(t, i) {
                Some((b, j)) => if i < j <= t.len() {
                    let b2 = blocks.push(b);
                    assert forall|q: int| 0 <= q < b2.len() implies !(#[trigger] b2[q] is XRefTable) by {
                        if q < blocks.len() {
                            assert(b2[q] == blocks[q]);
                        }
                    }
                    lemma_run_shape(t, j, b2, xref, sx);
                },
                None => {},
            }
        } else if k is XRefKeyword {
            match p_xref_sections(t, i + 1, xref) {
                Some((x2, j)) => if i < j <= t.len() {
                    lemma_run_shape(t, j, blocks, x2, sx);
                },
                None => {},
            }
        } else if k is TrailerKeyword {
            match p_dict_at(t, i + 1) {
                Some((m, j)) => if i < j && j + 2 < t.len() && t[j].1 is StartXRefKeyword
                    && is_num(t[j + 1].1) && t[j + 2].1 is EOFKeyword {
                    let b2 = blocks.push(SpecBlock::Trailer(m));
                    assert forall|q: int| 0 <= q < b2.len() implies !(#[trigger] b2[q] is XRefTable) by {
                        if q < blocks.len() {
                            assert(b2[q] == blocks[q]);
                        }
                    }
                    lemma_run_shape(t, j + 3, b2, xref, Some(num_of(t[j + 1].1)));
                },
                None => {},
            }
        }
    }
}

/// A parsed file always ends with its cross-reference table, and has no
/// other: every block before the last is an object or a trailer.
pub proof fn law_parse_shape(t: SpecTokens)
    ensures
        spec_parse_tokens(t) matches Some(bs) ==> xref_last_only(bs),
{
    lemma_run_shape(t, 0, Seq::empty(), Seq::empty(), None);
}

pub proof fn lemma_stream_chunks(t: SpecTokens, i: int, acc: Seq<u8>)
    requires
        0 <= i,
    ensures
        p_stream_chunks(t, i, acc) matches Some((b, j)) ==> i < j <= t.len(),
    decreases t.len() - i,
{
    if 0 <= i < t.len() {
        match t[i].1 {
            SpecPdfToken::ByteStream(b) => lemma_stream_chunks(t, i + 1, acc + b),
            _ => {},
        }
    }
}

/// Every value is at least one token long.
pub proof fn lemma_value_advances(t: SpecTokens, i: int)
    requires
        0 <= i,
    ensures
        p_value(t, i) matches Some((v, j)) ==> i < j <= t.len(),
    decreases t.len() - i, 1int,
{
    if 0 <= i < t.len() {
        let k = t[i].1;
        if k is AngleStart && i + 1 < t.len() && t[i + 1].1 is AngleStart {
            lemma_dict_advances(t, i + 2, Map::empty());
            match p_dict(t, i + 2, Map::empty()) {
                Some((m, j)) => {
                    if j < t.len() && t[j].1 is StreamKeyword {
                        lemma_stream_chunks(t, j + 1, Seq::empty());
                    }
                },
                None => {},
            }
        } else if k is LeftBracket {
            lemma_vector_advances(t, i + 1, Seq::empty());
        }
    }
}

pub proof fn lemma_vector_advances(t: SpecTokens, i: int, acc: Seq<SpecValue>)
    requires
        0 <= i,
    ensures
        p_vector(t, i, acc) matches Some((v, j)) ==> i < j <= t.len(),
    decreases t.len() - i, 2int,
{
    if 0 <= i < t.len() {
        let k = t[i].1;
        if k is RightBracket {
        } else if k is ForwardSlash {
            if i + 1 < t.len() && t[i + 1].1 is Identifier {
                lemma_vector_advances(
                    t,
                    i + 2,
                    acc.push(SpecValue::Identifier(ident_of(t[i + 1].1))),
                );
            }
        } else if is_num(k) {
            if i + 1 >= t.len() {
            } else if !is_num(t[i + 1].1) {
                lemma_vector_advances(t, i + 1, acc.push(SpecValue::Number(num_of(k))));
            } else if i + 2 >= t.len() {
            } else if !(t[i + 2].1 is RefKeyword) {
                lemma_vector_advances(
                    t,
                    i + 2,
                    acc.push(SpecValue::Number(num_of(k))).push(
                        SpecValue::Number(num_of(t[i + 1].1)),
                    ),
                );
            } else {
                lemma_vector_advances(
                    t,
                    i + 3,
                    acc.push(
                        SpecValue::Reference {
                            id: to_i32(num_of(k)),
                            gxn: to_i32(num_of(t[i + 1].1)),
                        },
                    ),
                );
            }
        } else {
            lemma_value_advances(t, i);
            match p_value(t, i) {
                Some((v, j)) => {
                    if i < j <= t.len() {
                        lemma_vector_advances(t, j, acc.push(v));
                    }
                },
                None => {},
            }
        }
    }
}

pub proof fn lemma_dict_advances(t: SpecTokens, i: int, acc: Map<Seq<u8>, SpecValue>)
    requires
        0 <= i,
    ensures
        p_dict(t, i, acc) matches Some((m, j)) ==> i < j <= t.len(),
    decreases t.len() - i, 0int,
{
    if 0 <= i < t.len() && !(t[i].1 is AngleEnd) && t[i].1 is ForwardSlash && i + 1 < t.len()
        && t[i + 1].1 is Identifier {
        lemma_value_advances(t, i + 2);
        match p_value(t, i + 2) {
            Some((v, j)) => {
                if i < j <= t.len() {
                    lemma_dict_advances(t, j, acc.insert(ident_of(t[i + 1].1), v));
                }
            },
            None => {},
        }
    }
}

pub proof fn lemma_xref_entries(t: SpecTokens, i: int, n: nat, xref: Seq<usize>)
    requires
        0 <= i <= t.len(),
    ensures
        p_xref_entries(t, i, n, xref) matches Some((x, j)) ==> i <= j <= t.len(),
    decreases n,
{
    if n > 0 && i + 2 < t.len() && is_num(t[i].1) && is_num(t[i + 1].1) && (t[i + 2].1 is FKeyword
        || t[i + 2].1 is NKeyword) {
        lemma_xref_entries(t, i + 3, (n - 1) as nat, xref.push(to_usize(num_of(t[i].1))));
    }
}

pub proof fn lemma_xref_sections(t: SpecTokens, i: int, xref: Seq<usize>)
    requires
        0 <= i,
    ensures
        p_xref_sections(t, i, xref) matches Some((x, j)) ==> i <= j < t.len() && t[j].1 is TrailerKeyword,
    decreases t.len() - i,
{
    if 0 <= i < t.len() && !(t[i].1 is TrailerKeyword) && i + 1 < t.len() && is_num(t[i].1)
        && is_num(t[i + 1].1) {
        lemma_xref_entries(t, i + 2, to_usize(num_of(t[i + 1].1)) as nat, xref);
        match p_xref_entries(t, i + 2, to_usize(num_of(t[i + 1].1)) as nat, xref) {
            Some((x2, j)) => {
                if i < j <= t.len() {
                    lemma_xref_sections(t, j, x2);
                }
            },
            None => {},
        }
    }
}

pub proof fn lemma_tv(s: Seq<(SrcLoc, PdfToken)>)
    ensures
        located_view(s).len() == s.len(),
        forall|k: int| 0 <= k < s.len() ==> #[trigger] located_view(s)[k] == (s[k].0@, s[k].1@),
{
}

struct Parser<'a> {
    tokens: &'a Vec<(SrcLoc, PdfToken)>,
    offset: usize,
}

/// A copy of a byte string.
fn copy_bytes(v: &Vec<u8>) -> (r: Vec<u8>)
    ensures
        r@ == v@,
{
    let r = copy_range(v, 0, v.len());
    assert(v@.subrange(0, v@.len() as int) =~= v@);
    r
}

/// Append `src` to `dst`.
fn append_bytes(dst: &mut Vec<u8>, src: &Vec<u8>)
    ensures
        final(dst)@ == old(dst)@ + src@,
{
    let mut i: usize = 0;
    while i < src.len()
        invariant
            i <= src.len(),
            dst@ =~= old(dst)@ + src@.subrange(0, i as int),
        decreases src.len() - i,
    {
        dst.push(src[i]);
        i = i + 1;
    }
    assert(src@.subrange(0, src@.len() as int) =~= src@);
}

impl<'a> Parser<'a> {
    spec fn tv(&self) -> SpecTokens {
        located_view(self.tokens@)
    }

    /// The bytes of the stream at the token ahead.
    fn eat_bytestream(&mut self) -> (r: Option<Vec<u8>>)
        requires
            old(self).offset <= old(self).tokens@.len(),
        ensures
            final(self).tokens == old(self).tokens,
            final(self).offset <= final(self).tokens@.len(),
            match p_bytestream(old(self).tv(), old(self).offset as int) {
                Some((b, j)) => r is Some && r->0@ == b && final(self).offset == j,
                None => r is None,
            },
    {
        let toks = self.tokens;
        let ghost t = self.tv();
        proof {
            lemma_tv(toks@);
        }
        let i = self.offset;
        if !(i < toks.len() && toks.len() - i > 1) {
            return None;
        }
        match &toks[i].1 {
            PdfToken::StreamKeyword => {},
            _ => {
                return None;
            },
        }
        match &toks[i + 1].1 {
            PdfToken::ByteStream(_) => {},
            _ => {
                return None;
            },
        }
        self.offset = i + 1;
        let mut bytes: Vec<u8> = Vec::new();
        loop
            invariant
                self.tokens == toks,
                toks == old(self).tokens,
                t == located_view(toks@),
                i + 1 <= self.offset <= toks@.len(),
                i == old(self).offset,
                p_stream_chunks(t, self.offset as int, bytes@) == p_stream_chunks(
                    t,
                    i + 1,
                    Seq::empty(),
                ),
                p_bytestream(t, i as int) == p_stream_chunks(t, i + 1, Seq::empty()),
            decreases toks@.len() - self.offset,
        {
            proof {
                lemma_tv(toks@);
            }
            let j = self.offset;
            if j >= toks.len() {
                return None;
            }
            match &toks[j].1 {
                PdfToken::ByteStream(b) => {
                    append_bytes(&mut bytes, b);
                    self.offset = j + 1;
                },
                PdfToken::EndStreamKeyword => {
                    self.offset = j + 1;
                    return Some(bytes);
                },
                _ => {
                    return None;
                },
            }
        }
    }

    /// A dictionary: `<<`, `/key value` pairs, `>>`.
    fn eat_dictionary(&mut self) -> (r: Option<Vec<(Vec<u8>, Value)>>)
        requires
            old(self).offset <= old(self).tokens@.len(),
            numerals_valid(old(self).tv()),
        ensures
            final(self).tokens == old(self).tokens,
            final(self).offset <= final(self).tokens@.len(),
            match p_dict_at(old(self).tv(), old(self).offset as int) {
                Some((m, j)) => r is Some && value_dict_view(r->0@) == m && final(self).offset == j,
                None => r is None,
            },
        decreases old(self).tokens@.len() - old(self).offset, 0int,
    {
        let toks = self.tokens;
        let ghost t = self.tv();
        proof {
            lemma_tv(toks@);
        }
        let i = self.offset;
        if !(i < toks.len() && toks.len() - i > 1) {
            return None;
        }
        match (&toks[i].1, &toks[i + 1].1) {
            (PdfToken::AngleStart, PdfToken::AngleStart) => {},
            _ => {
                return None;
            },
        }
        self.offset = i + 2;
        let mut result: Vec<(Vec<u8>, Value)> = Vec::new();
        proof {
            lemma_value_dict_view(result@);
            lemma_empty_view(result@, |v: Value| value_view(v));
        }
        loop
            invariant
                self.tokens == toks,
                toks == old(self).tokens,
                t == located_view(toks@),
                numerals_valid(t),
                i + 2 <= self.offset <= toks@.len(),
                i == old(self).offset,
                p_dict(t, self.offset as int, value_dict_view(result@)) == p_dict(
                    t,
                    i + 2,
                    Map::empty(),
                ),
                p_dict_at(t, i as int) == p_dict(t, i + 2, Map::empty()),
            decreases toks@.len() - self.offset,
        {
            proof {
                lemma_tv(toks@);
            }
            let j = self.offset;
            if j >= toks.len() {
                return None;
            }
            match &toks[j].1 {
                PdfToken::AngleEnd => {
                    if toks.len() - j > 1 {
                        match &toks[j + 1].1 {
                            PdfToken::AngleEnd => {
                                self.offset = j + 2;
                                return Some(result);
                            },
                            _ => {
                                return None;
                            },
                        }
                    } else {
                        return None;
                    }
                },
                PdfToken::ForwardSlash => {},
                _ => {
                    return None;
                },
            }
            if !(toks.len() - j > 1) {
                return None;
            }
            let key = match &toks[j + 1].1 {
                PdfToken::Identifier(id) => copy_bytes(id),
                _ => {
                    return None;
                },
            };
            self.offset = j + 2;
            proof {
                lemma_value_advances(t, j + 2);
            }
            let val = match self.eat_value() {
                Some(v) => v,
                None => {
                    return None;
                },
            };
            proof {
                lemma_value_dict_view(result@);
                lemma_value_dict_view(spec_insert(result@, key, val));
                lemma_insert_view(result@, key, val, |v: Value| value_view(v));
            }
            entries_insert(&mut result, key, val);
        }
    }

    /// An array: items up to `]`.
    fn eat_vector(&mut self) -> (r: Option<Value>)
        requires
            old(self).offset < old(self).tokens@.len(),
            numerals_valid(old(self).tv()),
        ensures
            final(self).tokens == old(self).tokens,
            final(self).offset <= final(self).tokens@.len(),
            match p_vector(old(self).tv(), old(self).offset + 1, Seq::empty()) {
                Some((v, j)) => r is Some && r->0@ == v && final(self).offset == j,
                None => r is None,
            },
        decreases old(self).tokens@.len() - old(self).offset, 0int,
    {
        let toks = self.tokens;
        let ghost t = self.tv();
        proof {
            lemma_tv(toks@);
        }
        let ghost start = self.offset + 1;
        assert(self.offset < toks.len());
        self.offset = self.offset + 1;
        let mut items: Vec<Value> = Vec::new();
        assert(values_view(items@) =~= Seq::<SpecValue>::empty());
        loop
            invariant
                self.tokens == toks,
                toks == old(self).tokens,
                t == located_view(toks@),
                numerals_valid(t),
                start == old(self).offset + 1,
                start <= self.offset <= toks@.len(),
                p_vector(t, self.offset as int, values_view(items@)) == p_vector(
                    t,
                    start,
                    Seq::empty(),
                ),
            decreases toks@.len() - self.offset,
        {
            proof {
                lemma_tv(toks@);
            }
            let i = self.offset;
            if i >= toks.len() {
                return None;
            }
            let ghost acc = values_view(items@);
            match &toks[i].1 {
                PdfToken::RightBracket => {
                    self.offset = i + 1;
                    return Some(Value::Vector(items));
                },
                PdfToken::ForwardSlash => {
                    if !(toks.len() - i > 1) {
                        return None;
                    }
                    match &toks[i + 1].1 {
                        PdfToken::Identifier(id) => {
                            let v = Value::Identifier(copy_bytes(id));
                            proof {
                                lemma_values_view_push(items@, v);
                            }
                            items.push(v);
                            self.offset = i + 2;
                        },
                        _ => {
                            return None;
                        },
                    }
                },
                PdfToken::Number(n1) => {
                    if !(toks.len() - i > 1) {
                        return None;
                    }
                    match &toks[i + 1].1 {
                        PdfToken::Number(n2) => {
                            if !(toks.len() - i > 2) {
                                return None;
                            }
                            match &toks[i + 2].1 {
                                PdfToken::RefKeyword => {
                                    assert(is_num(t[i as int].1));
                                    assert(is_num(t[i + 1].1));
                                    let v = Value::Reference {
                                        id: numeral_to_i32(n1),
                                        gxn: numeral_to_i32(n2),
                                    };
                                    proof {
                                        lemma_values_view_push(items@, v);
                                    }
                                    items.push(v);
                                    self.offset = i + 3;
                                },
                                _ => {
                                    let v1 = Value::Number(copy_bytes(n1));
                                    let v2 = Value::Number(copy_bytes(n2));
                                    proof {
                                        lemma_values_view_push(items@, v1);
                                        lemma_values_view_push(items@.push(v1), v2);
                                    }
                                    items.push(v1);
                                    items.push(v2);
                                    self.offset = i + 2;
                                },
                            }
                        },
                        _ => {
                            let v1 = Value::Number(copy_bytes(n1));
                            proof {
                                lemma_values_view_push(items@, v1);
                            }
                            items.push(v1);
                            self.offset = i + 1;
                        },
                    }
                },
                _ => {
                    proof {
                        lemma_value_advances(t, i as int);
                    }
                    match self.eat_value() {
                        Some(v) => {
                            proof {
                                lemma_values_view_push(items@, v);
                            }
                            items.push(v);
                        },
                        None => {
                            return None;
                        },
                    }
                },
            }
        }
    }

    /// The value at the token ahead.
    fn eat_value(&mut self) -> (r: Option<Value>)
        requires
            old(self).offset <= old(self).tokens@.len(),
            numerals_valid(old(self).tv()),
        ensures
            final(self).tokens == old(self).tokens,
            final(self).offset <= final(self).tokens@.len(),
            match p_value(old(self).tv(), old(self).offset as int) {
                Some((v, j)) => r is Some && r->0@ == v && final(self).offset == j,
                None => r is None,
            },
        decreases old(self).tokens@.len() - old(self).offset, 1int,
    {
        let toks = self.tokens;
        let ghost t = self.tv();
        proof {
            lemma_tv(toks@);
        }
        let i = self.offset;
        let n = toks.len();
        if i >= n {
            return None;
        }
        match &toks[i].1 {
            PdfToken::AngleStart => {
                if !(n - i > 1) {
                    return None;
                }
                match &toks[i + 1].1 {
                    PdfToken::AngleStart => {
                        proof {
                            lemma_dict_advances(t, i + 2, Map::empty());
                        }
                        let dict = match self.eat_dictionary() {
                            Some(d) => d,
                            None => {
                                return None;
                            },
                        };
                        let j = self.offset;
                        if j >= n {
                            return None;
                        }
                        match &toks[j].1 {
                            PdfToken::StreamKeyword => {
                                let bytes = match self.eat_bytestream() {
                                    Some(b) => b,
                                    None => {
                                        return None;
                                    },
                                };
                                let ghost m = value_dict_view(dict@);
                                let meta = Value::Dict(dict);
                                assert(value_view(meta) == SpecValue::Dict(m));
                                Some(Value::ByteStream(Box::new(meta), bytes))
                            },
                            _ => Some(Value::Dict(dict)),
                        }
                    },
                    PdfToken::Identifier(id) => {
                        if !(n - i > 2) {
                            return None;
                        }
                        let v = Value::Identifier(copy_bytes(id));
                        self.offset = i + 3;
                        Some(v)
                    },
                    _ => None,
                }
            },
            PdfToken::LeftBracket => self.eat_vector(),
            PdfToken::Number(n1) => {
                if !(n - i > 1) {
                    return None;
                }
                match &toks[i + 1].1 {
                    PdfToken::Number(n2) => {
                        if !(n - i > 2) {
                            return None;
                        }
                        match &toks[i + 2].1 {
                            PdfToken::RefKeyword => {
                                assert(is_num(t[i as int].1));
                                assert(is_num(t[i + 1].1));
                                self.offset = i + 3;
                                Some(
                                    Value::Reference {
                                        id: numeral_to_i32(n1),
                                        gxn: numeral_to_i32(n2),
                                    },
                                )
                            },
                            _ => None,
                        }
                    },
                    _ => {
                        self.offset = i + 1;
                        Some(Value::Number(copy_bytes(n1)))
                    },
                }
            },
            PdfToken::LeftParens => {
                if !(n - i > 2) {
                    return None;
                }
                match (&toks[i + 1].1, &toks[i + 2].1) {
                    (PdfToken::String(s), PdfToken::RightParens) => {
                        self.offset = i + 3;
                        Some(Value::Identifier(copy_bytes(s)))
                    },
                    _ => None,
                }
            },
            PdfToken::ForwardSlash => {
                if !(n - i > 1) {
                    return None;
                }
                match &toks[i + 1].1 {
                    PdfToken::Identifier(id) => {
                        self.offset = i + 2;
                        Some(Value::Identifier(copy_bytes(id)))
                    },
                    _ => None,
                }
            },
            PdfToken::BooleanTrue => {
                self.offset = i + 1;
                Some(Value::Boolean(true))
            },
            PdfToken::BooleanFalse => {
                self.offset = i + 1;
                Some(Value::Boolean(false))
            },
            PdfToken::Null => {
                self.offset = i + 1;
                Some(Value::Null)
            },
            _ => None,
        }
    }
}


pub open spec fn opt_bytes_view(o: Option<Vec<u8>>) -> Option<Seq<u8>> {
    match o {
        Some(v) => Some(v@),
        None => None,
    }
}

impl<'a> Parser<'a> {
    /// An object: `id gxn obj value endobj`.
    fn eat_object(&mut self) -> (r: Option<Block>)
        requires
            old(self).offset <= old(self).tokens@.len(),
            numerals_valid(old(self).tv()),
        ensures
            final(self).tokens == old(self).tokens,
            final(self).offset <= final(self).tokens@.len(),
            match p_object(old(self).tv(), old(self).offset as int) {
                Some((b, j)) => r is Some && r->0@ == b && final(self).offset == j,
                None => r is None,
            },
    {
        let toks = self.tokens;
        let ghost t = self.tv();
        proof {
            lemma_tv(toks@);
        }
        let i = self.offset;
        let n = toks.len();
        if !(i < n && n - i > 2) {
            return None;
        }
        let loc = toks[i].0;
        let (id, gxn) = match (&toks[i].1, &toks[i + 1].1, &toks[i + 2].1) {
            (PdfToken::Number(n1), PdfToken::Number(n2), PdfToken::ObjKeyword) => {
                assert(is_num(t[i as int].1));
                assert(is_num(t[i + 1].1));
                (numeral_to_i32(n1), numeral_to_i32(n2))
            },
            _ => {
                return None;
            },
        };
        self.offset = i + 3;
        let value = match self.eat_value() {
            Some(v) => v,
            None => {
                return None;
            },
        };
        let j = self.offset;
        if j >= n {
            return None;
        }
        match &toks[j].1 {
            PdfToken::EndObjKeyword => {
                self.offset = j + 1;
                Some(Block::Object { id, gxn, body: value, loc })
            },
            _ => None,
        }
    }

    /// Cross-reference sections, up to the `trailer` keyword.
    fn eat_xref(&mut self, xref: &mut Vec<SrcLoc>) -> (r: bool)
        requires
            old(self).offset <= old(self).tokens@.len(),
            numerals_valid(old(self).tv()),
        ensures
            final(self).tokens == old(self).tokens,
            final(self).offset <= final(self).tokens@.len(),
            match p_xref_sections(old(self).tv(), old(self).offset as int, locs_view(old(xref)@)) {
                Some((x, j)) => r && locs_view(final(xref)@) == x && final(self).offset == j,
                None => !r,
            },
    {
        let toks = self.tokens;
        let ghost t = self.tv();
        let ghost start = self.offset as int;
        let ghost x0 = locs_view(xref@);
        loop
            invariant
                self.tokens == toks,
                toks == old(self).tokens,
                t == located_view(toks@),
                numerals_valid(t),
                start == old(self).offset,
                x0 == locs_view(old(xref)@),
                start <= self.offset <= toks@.len(),
                p_xref_sections(t, self.offset as int, locs_view(xref@)) == p_xref_sections(
                    t,
                    start,
                    x0,
                ),
            decreases toks@.len() - self.offset,
        {
            proof {
                lemma_tv(toks@);
            }
            let i = self.offset;
            let n = toks.len();
            if i >= n {
                return false;
            }
            match &toks[i].1 {
                PdfToken::TrailerKeyword => {
                    return true;
                },
                _ => {},
            }
            if !(n - i > 1) {
                return false;
            }
            let count = match (&toks[i].1, &toks[i + 1].1) {
                (PdfToken::Number(_), PdfToken::Number(c)) => {
                    assert(is_num(t[i as int].1));
                    assert(is_num(t[i + 1].1));
                    numeral_to_usize(c)
                },
                _ => {
                    return false;
                },
            };
            self.offset = i + 2;
            let ghost xs = locs_view(xref@);
            proof {
                lemma_xref_entries(t, i + 2, count as nat, xs);
            }
            let mut k: usize = 0;
            while k < count
                invariant
                    self.tokens == toks,
                    toks == old(self).tokens,
                    t == located_view(toks@),
                    numerals_valid(t),
                    start == old(self).offset,
                    x0 == locs_view(old(xref)@),
                    n == toks@.len(),
                    start <= i < n,
                    is_num(t[i as int].1),
                    is_num(t[i + 1].1),
                    !(t[i as int].1 is TrailerKeyword),
                    count == to_usize(num_of(t[i + 1].1)),
                    p_xref_sections(t, i as int, xs) == p_xref_sections(t, start, x0),
                    i + 2 <= self.offset <= toks@.len(),
                    k <= count,
                    p_xref_entries(t, self.offset as int, (count - k) as nat, locs_view(xref@))
                        == p_xref_entries(t, i + 2, count as nat, xs),
                decreases count - k,
            {
                proof {
                    lemma_tv(toks@);
                }
                let j = self.offset;
                if !(j < n && n - j > 2) {
                    return false;
                }
                match (&toks[j].1, &toks[j + 1].1, &toks[j + 2].1) {
                    (PdfToken::Number(o), PdfToken::Number(_), PdfToken::FKeyword)
                    | (PdfToken::Number(o), PdfToken::Number(_), PdfToken::NKeyword) => {
                        assert(is_num(t[j as int].1));
                        let loc = SrcLoc::new(numeral_to_usize(o));
                        proof {
                            assert(locs_view(xref@.push(loc)) =~= locs_view(xref@).push(loc@));
                        }
                        xref.push(loc);
                        self.offset = j + 3;
                    },
                    _ => {
                        return false;
                    },
                }
                k = k + 1;
            }
        }
    }

    /// All the blocks of the file, and the cross-reference table last.
    fn run_parser(&mut self) -> (r: Option<Pdf>)
        requires
            old(self).offset == 0,
            numerals_valid(old(self).tv()),
        ensures
            match spec_parse_tokens(old(self).tv()) {
                Some(bs) => r is Some && blocks_view(r->0.blocks@) == bs,
                None => r is None,
            },
    {
        let toks = self.tokens;
        let ghost t = self.tv();
        let mut blocks: Vec<Block> = Vec::new();
        let mut xref: Vec<SrcLoc> = Vec::new();
        let mut start_xref: Option<Vec<u8>> = None;
        assert(blocks_view(blocks@) =~= Seq::<SpecBlock>::empty());
        assert(locs_view(xref@) =~= Seq::<usize>::empty());
        while self.offset < toks.len()
            invariant
                self.tokens == toks,
                toks == old(self).tokens,
                t == located_view(toks@),
                numerals_valid(t),
                self.offset <= toks@.len(),
                opt_bytes_view(start_xref) matches Some(n) ==> is_valid_numeral(n),
                p_run(t, 0, Seq::empty(), Seq::empty(), None) == p_run(
                    t,
                    self.offset as int,
                    blocks_view(blocks@),
                    locs_view(xref@),
                    opt_bytes_view(start_xref),
                ),
            decreases toks@.len() - self.offset,
        {
            proof {
                lemma_tv(toks@);
            }
            let i = self.offset;
            let n = toks.len();
            match &toks[i].1 {
                PdfToken::Percent => {
                    if !(n - i > 1) {
                        return None;
                    }
                    match &toks[i + 1].1 {
                        PdfToken::String(_) => {
                            self.offset = i + 2;
                        },
                        _ => {
                            return None;
                        },
                    }
                },
                PdfToken::Number(_) => {
                    proof {
                        lemma_value_advances(t, i + 3);
                    }
                    let obj = match self.eat_object() {
                        Some(o) => o,
                        None => {
                            return None;
                        },
                    };
                    proof {
                        assert(blocks_view(blocks@.push(obj)) =~= blocks_view(blocks@).push(obj@));
                    }
                    blocks.push(obj);
                },
                PdfToken::XRefKeyword => {
                    self.offset = i + 1;
                    proof {
                        lemma_xref_sections(t, i + 1, locs_view(xref@));
                    }
                    if !self.eat_xref(&mut xref) {
                        return None;
                    }
                },
                PdfToken::TrailerKeyword => {
                    self.offset = i + 1;
                    proof {
                        lemma_dict_advances(t, i + 3, Map::empty());
                    }
                    let dict = match self.eat_dictionary() {
                        Some(d) => d,
                        None => {
                            return None;
                        },
                    };
                    let j = self.offset;
                    if !(j < n && n - j > 2) {
                        return None;
                    }
                    let sx = match (&toks[j].1, &toks[j + 1].1, &toks[j + 2].1) {
                        (
                            PdfToken::StartXRefKeyword,
                            PdfToken::Number(sx),
                            PdfToken::EOFKeyword,
                        ) => {
                            assert(is_num(t[j + 1].1));
                            copy_bytes(sx)
                        },
                        _ => {
                            return None;
                        },
                    };
                    let b = Block::Trailer(dict);
                    proof {
                        assert(blocks_view(blocks@.push(b)) =~= blocks_view(blocks@).push(b@));
                    }
                    blocks.push(b);
                    start_xref = Some(sx);
                    self.offset = j + 3;
                },
                _ => {
                    return None;
                },
            }
        }
        let sx_pos = match &start_xref {
            Some(num) => numeral_to_usize(num),
            None => 0,
        };
        let last = Block::XRefTable(xref, SrcLoc::new(sx_pos));
        proof {
            assert(blocks_view(blocks@.push(last)) =~= blocks_view(blocks@).push(last@));
        }
        blocks.push(last);
        Some(Pdf { blocks })
    }
}

/// The syntax tree of a file's tokens, or `None` where the tokens do not make
/// a file.
pub fn try_parse_tokens(tokens: &Vec<(SrcLoc, PdfToken)>) -> (r: Option<Pdf>)
    requires
        numerals_valid(located_view(tokens@)),
    ensures
        match spec_parse_tokens(located_view(tokens@)) {
            Some(bs) => r is Some && blocks_view(r->0.blocks@) == bs,
            None => r is None,
        },
{
    let mut parser = Parser { tokens, offset: 0 };
    parser.run_parser()
}

/// The syntax tree of tokens that make a file.
pub fn parse_tokens(tokens: &Vec<(SrcLoc, PdfToken)>) -> (r: Pdf)
    requires
        numerals_valid(located_view(tokens@)),
        spec_parse_tokens(located_view(tokens@)) is Some,
    ensures
        blocks_view(r.blocks@) == spec_parse_tokens(located_view(tokens@))->0,
{
    match try_parse_tokens(tokens) {
        Some(p) => p,
        None => Pdf { blocks: Vec::new() },
    }
}

} // verus!
