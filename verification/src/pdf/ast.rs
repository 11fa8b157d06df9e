//! The syntax tree of a PDF file, and what the viewer reads out of it.

use vstd::prelude::*;
use crate::name_map::{
    bytes_eq, entries_find, entries_get, entries_view, find_key, first_before, lemma_empty_view,
    lemma_find_key, lemma_first_before_all, lemma_first_before_step, lemma_view_finite,
};
use crate::names::{
    name_color_space, name_device_gray, name_device_rgb, name_encoding, name_filter,
    name_first_char, name_flate_decode, name_font, name_font_descriptor, name_font_file2,
    name_font_name, name_height, name_icc_based, name_image, name_media_box, name_n,
    name_resources, name_s_mask, name_subtype, name_true_type, name_type, name_width,
    name_widths, name_x_object, spec_name_color_space, spec_name_media_box, spec_name_resources,
    spec_name_x_object,
    spec_name_device_gray, spec_name_device_rgb, spec_name_encoding, spec_name_filter,
    spec_name_first_char, spec_name_flate_decode, spec_name_font, spec_name_font_descriptor,
    spec_name_font_file2, spec_name_font_name, spec_name_height, spec_name_icc_based,
    spec_name_image, spec_name_n, spec_name_s_mask, spec_name_subtype, spec_name_true_type,
    spec_name_type, spec_name_width, spec_name_widths,
};
use crate::fonts::{spec_font_parses, Font, FontLib, SpecFont, TtfProgram};
use crate::name_map::{lemma_insert_view, NameMap};
use crate::numeral::{check_numeral, check_zero_numeral, clamp, is_valid_numeral, is_zero_numeral, numeral_int, numeral_to_u32, numeral_to_u8};
use crate::pdf::tokenizer::copy_range;
pub use crate::src_loc::SrcLoc;

verus! {

/// A value of the file.  Numbers are kept as their numeral text; names,
/// strings and dictionary keys as their bytes.
#[derive(Debug, PartialEq)]
pub enum Value {
    ByteStream(Box<Value>, Vec<u8>),
    Number(Vec<u8>),
    Reference { id: i32, gxn: i32 },
    Dict(Vec<(Vec<u8>, Value)>),
    Vector(Vec<Value>),
    Identifier(Vec<u8>),
    Boolean(bool),
    Null,
}

/// What a value stands for.
pub enum SpecValue {
    ByteStream(Box<SpecValue>, Seq<u8>),
    Number(Seq<u8>),
    Reference { id: i32, gxn: i32 },
    Dict(Map<Seq<u8>, SpecValue>),
    Vector(Seq<SpecValue>),
    Identifier(Seq<u8>),
    Boolean(bool),
    Null,
}

pub open spec fn value_view(v: Value) -> SpecValue
    decreases v,
{
    match v {
        Value::ByteStream(meta, bytes) => SpecValue::ByteStream(
            Box::new(value_view(*meta)),
            bytes@,
        ),
        Value::Number(n) => SpecValue::Number(n@),
        Value::Reference { id, gxn } => SpecValue::Reference { id, gxn },
        Value::Dict(entries) => SpecValue::Dict(value_dict_view(entries@)),
        Value::Vector(items) => SpecValue::Vector(values_view(items@)),
        Value::Identifier(s) => SpecValue::Identifier(s@),
        Value::Boolean(b) => SpecValue::Boolean(b),
        Value::Null => SpecValue::Null,
    }
}

pub open spec fn values_view(s: Seq<Value>) -> Seq<SpecValue>
    decreases s,
{
    if s.len() == 0 {
        Seq::empty()
    } else {
        values_view(s.drop_last()).push(value_view(s[s.len() - 1]))
    }
}

/// The map that dictionary entries stand for; the first entry of a key counts.
pub open spec fn value_dict_view(s: Seq<(Vec<u8>, Value)>) -> Map<Seq<u8>, SpecValue>
    decreases s,
{
    if s.len() == 0 {
        Map::empty()
    } else {
        let m = value_dict_view(s.drop_last());
        let e = s[s.len() - 1];
        if m.contains_key(e.0@) {
            m
        } else {
            m.insert(e.0@, value_view(e.1))
        }
    }
}

impl View for Value {
    type V = SpecValue;

    open spec fn view(&self) -> SpecValue {
        value_view(*self)
    }
}

pub proof fn lemma_values_view_push(s: Seq<Value>, v: Value)
    ensures
        values_view(s.push(v)) == values_view(s).push(value_view(v)),
{
    assert(s.push(v).drop_last() =~= s);
}

pub proof fn lemma_values_view_index(s: Seq<Value>)
    ensures
        values_view(s).len() == s.len(),
        forall|i: int| 0 <= i < s.len() ==> #[trigger] values_view(s)[i] == value_view(s[i]),
    decreases s.len(),
{
    if s.len() > 0 {
        lemma_values_view_index(s.drop_last());
        assert forall|i: int| 0 <= i < s.len() implies #[trigger] values_view(s)[i] == value_view(
            s[i],
        ) by {
            if i < s.len() - 1 {
                assert(s.drop_last()[i] == s[i]);
            }
        }
    }
}

/// The first-entry fold and the map of the entries agree.
pub proof fn lemma_value_dict_view(s: Seq<(Vec<u8>, Value)>)
    ensures
        value_dict_view(s) == entries_view(s, |v: Value| value_view(v)),
    decreases s.len(),
{
    let f = |v: Value| value_view(v);
    if s.len() == 0 {
        lemma_empty_view(s, f);
    } else {
        let init = s.drop_last();
        lemma_value_dict_view(init);
        lemma_find_key(init, s.last().0@);
        assert forall|k: Seq<u8>| #[trigger] find_key(s, k) == (if find_key(init, k) >= 0 {
            find_key(init, k)
        } else if s.last().0@ == k {
            s.len() - 1
        } else {
            -1
        }) by {}
        assert forall|i: int| 0 <= i < init.len() implies #[trigger] init[i] == s[i] by {}
        assert forall|k: Seq<u8>| #[trigger] value_dict_view(s).contains_key(k) == entries_view(
            s,
            f,
        ).contains_key(k) by {
            lemma_find_key(init, k);
        }
        assert forall|k: Seq<u8>| #[trigger] value_dict_view(s).contains_key(k) implies value_dict_view(
            s,
        )[k] == entries_view(s, f)[k] by {
            lemma_find_key(init, k);
            if find_key(init, k) >= 0 {
                assert(s[find_key(s, k)] == init[find_key(init, k)]);
            }
        }
        assert(value_dict_view(s) =~= entries_view(s, f));
    }
}

/// A top-level part of the file.
#[derive(Debug)]
pub enum Block {
    Object { id: i32, gxn: i32, body: Value, loc: SrcLoc },
    XRefTable(Vec<SrcLoc>, SrcLoc),
    Trailer(Vec<(Vec<u8>, Value)>),
}

/// What a block stands for; locations are taken as their offsets.
pub enum SpecBlock {
    Object { id: i32, gxn: i32, body: SpecValue, loc: usize },
    XRefTable(Seq<usize>, usize),
    Trailer(Map<Seq<u8>, SpecValue>),
}

pub open spec fn locs_view(s: Seq<SrcLoc>) -> Seq<usize> {
    s.map_values(|l: SrcLoc| l@)
}

impl View for Block {
    type V = SpecBlock;

    open spec fn view(&self) -> SpecBlock {
        match self {
            Block::Object { id, gxn, body, loc } => SpecBlock::Object {
                id: *id,
                gxn: *gxn,
                body: body@,
                loc: loc@,
            },
            Block::XRefTable(offsets, loc) => SpecBlock::XRefTable(locs_view(offsets@), loc@),
            Block::Trailer(entries) => SpecBlock::Trailer(value_dict_view(entries@)),
        }
    }
}

pub open spec fn blocks_view(s: Seq<Block>) -> Seq<SpecBlock> {
    s.map_values(|b: Block| b@)
}

#[derive(Debug)]
pub struct Pdf {
    pub blocks: Vec<Block>,
}


/// The entries of a dictionary value (empty for other values).
pub open spec fn dict_of(v: SpecValue) -> Map<Seq<u8>, SpecValue> {
    match v {
        SpecValue::Dict(m) => m,
        _ => Map::empty(),
    }
}

/// The items of an array value.
pub open spec fn vec_of(v: SpecValue) -> Seq<SpecValue> {
    match v {
        SpecValue::Vector(items) => items,
        _ => Seq::empty(),
    }
}

/// The bytes of a name or string value.
pub open spec fn ident_of(v: SpecValue) -> Seq<u8> {
    match v {
        SpecValue::Identifier(s) => s,
        _ => Seq::empty(),
    }
}

/// The numeral of a number value.
pub open spec fn num_of(v: SpecValue) -> Seq<u8> {
    match v {
        SpecValue::Number(n) => n,
        _ => Seq::empty(),
    }
}

/// The raw bytes of a stream value.
pub open spec fn bytes_of(v: SpecValue) -> Seq<u8> {
    match v {
        SpecValue::ByteStream(_, b) => b,
        _ => Seq::empty(),
    }
}

/// Whether the value is a stream whose metadata is a dictionary.
pub open spec fn is_stream(v: SpecValue) -> bool {
    match v {
        SpecValue::ByteStream(meta, _) => *meta is Dict,
        _ => false,
    }
}

/// The metadata dictionary of a stream value.
pub open spec fn meta_of(v: SpecValue) -> Map<Seq<u8>, SpecValue> {
    match v {
        SpecValue::ByteStream(meta, _) => dict_of(*meta),
        _ => Map::empty(),
    }
}

/// The body of the first object numbered `id`, `gxn`.
pub open spec fn object_in(bs: Seq<SpecBlock>, id: i32, gxn: i32) -> Option<SpecValue>
    decreases bs.len(),
{
    if bs.len() == 0 {
        None
    } else {
        match bs[0] {
            SpecBlock::Object { id: i, gxn: g, body, loc: _ } => if i == id && g == gxn {
                Some(body)
            } else {
                object_in(bs.drop_first(), id, gxn)
            },
            _ => object_in(bs.drop_first(), id, gxn),
        }
    }
}

/// Whether the block is the object numbered `id`, `gxn`.
pub open spec fn is_object_numbered(b: SpecBlock, id: i32, gxn: i32) -> bool {
    b matches SpecBlock::Object { id: i, gxn: g, .. } && i == id && g == gxn
}

/// Looking up an object finds the body of the first block that is the
/// object with that number, and finds nothing exactly where no block is.
pub proof fn law_object_lookup(bs: Seq<SpecBlock>, id: i32, gxn: i32)
    ensures
        object_in(bs, id, gxn) is None <==> (forall|i: int|
            0 <= i < bs.len() ==> !is_object_numbered(#[trigger] bs[i], id, gxn)),
        forall|i: int|
            0 <= i < bs.len() && is_object_numbered(#[trigger] bs[i], id, gxn) && (forall|j: int|
                0 <= j < i ==> !is_object_numbered(#[trigger] bs[j], id, gxn)) ==> object_in(
                bs,
                id,
                gxn,
            ) == Some(bs[i]->body),
    decreases bs.len(),
{
    if bs.len() > 0 {
        let rest = bs.drop_first();
        law_object_lookup(rest, id, gxn);
        assert forall|i: int| 0 <= i < rest.len() implies #[trigger] rest[i] == bs[i + 1] by {}
        if !is_object_numbered(bs[0], id, gxn) {
            assert((forall|i: int| 0 <= i < bs.len() ==> !is_object_numbered(#[trigger] bs[i], id, gxn))
                <==> (forall|i: int| 0 <= i < rest.len() ==> !is_object_numbered(#[trigger] rest[i], id, gxn))) by {
                if forall|i: int| 0 <= i < rest.len() ==> !is_object_numbered(#[trigger] rest[i], id, gxn) {
                    assert forall|i: int| 0 <= i < bs.len() implies !is_object_numbered(#[trigger] bs[i], id, gxn) by {
                        if i > 0 {
                            assert(bs[i] == rest[i - 1]);
                        }
                    }
                }
                if forall|i: int| 0 <= i < bs.len() ==> !is_object_numbered(#[trigger] bs[i], id, gxn) {
                    assert forall|i: int| 0 <= i < rest.len() implies !is_object_numbered(#[trigger] rest[i], id, gxn) by {
                        assert(rest[i] == bs[i + 1]);
                    }
                }
            }
            assert forall|i: int|
                0 <= i < bs.len() && is_object_numbered(#[trigger] bs[i], id, gxn) && (forall|j: int|
                    0 <= j < i ==> !is_object_numbered(#[trigger] bs[j], id, gxn)) implies object_in(
                    bs,
                    id,
                    gxn,
                ) == Some(bs[i]->body) by {
                assert(i > 0);
                assert(rest[i - 1] == bs[i]);
                assert forall|j: int| 0 <= j < i - 1 implies !is_object_numbered(#[trigger] rest[j], id, gxn) by {
                    assert(rest[j] == bs[j + 1]);
                }
            }
        } else {
            assert(!(forall|i: int| 0 <= i < bs.len() ==> !is_object_numbered(#[trigger] bs[i], id, gxn)));
            assert forall|i: int|
                0 <= i < bs.len() && is_object_numbered(#[trigger] bs[i], id, gxn) && (forall|j: int|
                    0 <= j < i ==> !is_object_numbered(#[trigger] bs[j], id, gxn)) implies object_in(
                    bs,
                    id,
                    gxn,
                ) == Some(bs[i]->body) by {
                if i > 0 {
                    assert(!is_object_numbered(bs[0], id, gxn));
                }
            }
        }
    }
}

/// The dictionary of the first trailer.
pub open spec fn trailer_in(bs: Seq<SpecBlock>) -> Option<Map<Seq<u8>, SpecValue>>
    decreases bs.len(),
{
    if bs.len() == 0 {
        None
    } else {
        match bs[0] {
            SpecBlock::Trailer(m) => Some(m),
            _ => trailer_in(bs.drop_first()),
        }
    }
}

impl Pdf {
    /// The body of the object that a reference points to.
    pub open spec fn spec_object(&self, r: SpecValue) -> Option<SpecValue> {
        match r {
            SpecValue::Reference { id, gxn } => object_in(blocks_view(self.blocks@), id, gxn),
            _ => None,
        }
    }

    /// The first trailer dictionary.
    pub open spec fn spec_trailer(&self) -> Option<Map<Seq<u8>, SpecValue>> {
        trailer_in(blocks_view(self.blocks@))
    }

    /// The first trailer dictionary, if there is one.
    pub fn try_get_trailer_dict(&self) -> (r: Option<&Vec<(Vec<u8>, Value)>>)
        ensures
            match r {
                Some(d) => self.spec_trailer() == Some(value_dict_view(d@)),
                None => self.spec_trailer() is None,
            },
    {
        let ghost bv = blocks_view(self.blocks@);
        let mut i: usize = 0;
        assert(bv.skip(0) =~= bv);
        while i < self.blocks.len()
            invariant
                bv == blocks_view(self.blocks@),
                i <= self.blocks@.len(),
                trailer_in(bv) == trailer_in(bv.skip(i as int)),
            decreases self.blocks.len() - i,
        {
            assert(bv.skip(i as int)[0] == self.blocks@[i as int]@);
            assert(bv.skip(i as int).drop_first() =~= bv.skip(i + 1));
            match &self.blocks[i] {
                Block::Trailer(dict) => {
                    return Some(dict);
                },
                _ => {},
            }
            i = i + 1;
        }
        None
    }

    /// The first trailer dictionary.
    pub fn get_trailer_dict(&self) -> (r: &Vec<(Vec<u8>, Value)>)
        requires
            self.spec_trailer() is Some,
        ensures
            self.spec_trailer() == Some(value_dict_view(r@)),
    {
        match self.try_get_trailer_dict() {
            Some(d) => d,
            None => vstd::pervasive::unreached(),
        }
    }
}


/// What the zlib decoder gives for the bytes: the decompressed bytes, or
/// `None` where they are no valid zlib stream.
pub uninterp spec fn spec_zlib_decode(data: Seq<u8>) -> Option<Seq<u8>>;

/// Decompresses zlib data with `flate2::read::ZlibDecoder`, reading to the
/// end.  Trusted: the result is `spec_zlib_decode` of the input, `None` where
/// the decoder reports an error.
#[verifier::external_body]
fn zlib_decode(data: &[u8]) -> (r: Option<Vec<u8>>)
    ensures
        match r {
            Some(v) => spec_zlib_decode(data@) == Some(v@),
            None => spec_zlib_decode(data@) is None,
        },
{
    let mut z = flate2::read::ZlibDecoder::new(data);
    let mut w = Vec::new();
    match std::io::Read::read_to_end(&mut z, &mut w) {
        Ok(_) => Some(w),
        Err(_) => None,
    }
}

/// Whether a stream value says it is compressed with `FlateDecode`.
pub open spec fn is_flate_stream(v: SpecValue) -> bool {
    &&& is_stream(v)
    &&& meta_of(v).contains_key(spec_name_filter())
    &&& meta_of(v)[spec_name_filter()] is Identifier
    &&& ident_of(meta_of(v)[spec_name_filter()]) == spec_name_flate_decode()
}

/// The decoded bytes of a stream value, where it can be decoded.
pub open spec fn spec_decode(v: SpecValue) -> Option<Seq<u8>> {
    if is_flate_stream(v) {
        spec_zlib_decode(bytes_of(v))
    } else {
        None
    }
}

/// A copy of a byte string.
pub fn copy_bytes(v: &Vec<u8>) -> (r: Vec<u8>)
    ensures
        r@ == v@,
{
    let r = copy_range(v, 0, v.len());
    assert(v@.subrange(0, v@.len() as int) =~= v@);
    r
}

impl Value {
    pub fn is_obj_ref(v: &Value) -> (r: bool)
        ensures
            r == (v@ is Reference),
    {
        return match v {
            Value::Reference { .. } => true,
            _ => false,
        };
    }

    pub fn from_dict(dict: Vec<(Vec<u8>, Value)>) -> (r: Value)
        ensures
            r@ == SpecValue::Dict(value_dict_view(dict@)),
    {
        return Value::Dict(dict);
    }

    /// Whether the value is a reference to object `t_id`, generation `t_gxn`.
    pub fn obj_matches(obj: &Value, t_id: i32, t_gxn: i32) -> (r: bool)
        ensures
            r == (obj@ == SpecValue::Reference { id: t_id, gxn: t_gxn }),
    {
        match obj {
            Value::Reference { id, gxn } => {
                if *id == t_id && *gxn == t_gxn {
                    return true;
                }
            },
            _ => {},
        }
        return false;
    }

    /// The value under `key` in a dictionary, if any.
    pub fn try_get(&self, key: &[u8]) -> (r: Option<&Value>)
        requires
            self@ is Dict,
        ensures
            match r {
                Some(v) => dict_of(self@).contains_key(key@) && v@ == dict_of(self@)[key@],
                None => !dict_of(self@).contains_key(key@),
            },
    {
        match self {
            Value::Dict(map) => {
                proof {
                    lemma_value_dict_view(map@);
                    lemma_find_key(map@, key@);
                }
                entries_get(map, key)
            },
            _ => None,
        }
    }

    /// The value under `key` in a dictionary that has one.
    pub fn get(&self, key: &[u8]) -> (r: &Value)
        requires
            self@ is Dict,
            dict_of(self@).contains_key(key@),
        ensures
            r@ == dict_of(self@)[key@],
    {
        match self.try_get(key) {
            Some(v) => v,
            None => vstd::pervasive::unreached(),
        }
    }

    /// The items of an array.
    pub fn get_vec(&self) -> (r: &Vec<Value>)
        requires
            self@ is Vector,
        ensures
            values_view(r@) == vec_of(self@),
    {
        match self {
            Value::Vector(vec) => vec,
            _ => vstd::pervasive::unreached(),
        }
    }

    /// The raw bytes of a stream.
    pub fn bytes(&self) -> (r: &Vec<u8>)
        requires
            self@ is ByteStream,
        ensures
            r@ == bytes_of(self@),
    {
        match self {
            Value::ByteStream(_, bytes) => bytes,
            _ => vstd::pervasive::unreached(),
        }
    }

    /// The entries of a dictionary.
    pub fn get_dict(&self) -> (r: &Vec<(Vec<u8>, Value)>)
        requires
            self@ is Dict,
        ensures
            value_dict_view(r@) == dict_of(self@),
    {
        match self {
            Value::Dict(map) => map,
            _ => vstd::pervasive::unreached(),
        }
    }

    /// The bytes of a name or string.
    pub fn get_string(&self) -> (r: Vec<u8>)
        requires
            self@ is Identifier,
        ensures
            r@ == ident_of(self@),
    {
        match self {
            Value::Identifier(str) => copy_bytes(str),
            _ => vstd::pervasive::unreached(),
        }
    }

    /// The metadata dictionary of a stream.
    pub fn metadata(&self) -> (r: &Vec<(Vec<u8>, Value)>)
        requires
            is_stream(self@),
        ensures
            value_dict_view(r@) == meta_of(self@),
    {
        match self {
            Value::ByteStream(metadata, _) => metadata.get_dict(),
            _ => vstd::pervasive::unreached(),
        }
    }

    /// The object this reference points to, in `pdf`.
    pub fn deref<'a>(&self, pdf: &'a Pdf) -> (r: &'a Value)
        requires
            pdf.spec_object(self@) is Some,
        ensures
            pdf.spec_object(self@) == Some(r@),
    {
        return pdf.get_object(&self);
    }

    /// The decoded bytes of a `FlateDecode` stream, or `None` where the value
    /// is no such stream or its bytes do not decode.
    pub fn try_decode(&self) -> (r: Option<Vec<u8>>)
        ensures
            match r {
                Some(b) => spec_decode(self@) == Some(b@),
                None => spec_decode(self@) is None,
            },
    {
        match self {
            Value::ByteStream(metadata, bytes) => {
                match &**metadata {
                    Value::Dict(_) => {},
                    _ => {
                        return None;
                    },
                }
                let filter_key = name_filter();
                let filter = match metadata.try_get(filter_key.as_slice()) {
                    Some(f) => f,
                    None => {
                        return None;
                    },
                };
                match filter {
                    Value::Identifier(name) => {
                        let flate = name_flate_decode();
                        if !bytes_eq(name.as_slice(), flate.as_slice()) {
                            return None;
                        }
                    },
                    _ => {
                        return None;
                    },
                }
                zlib_decode(bytes.as_slice())
            },
            _ => None,
        }
    }

    /// The decoded bytes of a `FlateDecode` stream.
    pub fn decode(&self) -> (r: Vec<u8>)
        requires
            spec_decode(self@) is Some,
        ensures
            spec_decode(self@) == Some(r@),
    {
        match self.try_decode() {
            Some(b) => b,
            None => vstd::pervasive::unreached(),
        }
    }
}

impl Pdf {
    /// The body of the object that a reference points to, if there is one.
    pub fn try_get_object(&self, obj: &Value) -> (r: Option<&Value>)
        requires
            obj@ is Reference,
        ensures
            match r {
                Some(v) => self.spec_object(obj@) == Some(v@),
                None => self.spec_object(obj@) is None,
            },
    {
        let ghost bv = blocks_view(self.blocks@);
        let ghost id = obj@->id;
        let ghost gxn = obj@->gxn;
        let mut i: usize = 0;
        assert(bv.skip(0) =~= bv);
        while i < self.blocks.len()
            invariant
                bv == blocks_view(self.blocks@),
                obj@ == (SpecValue::Reference { id, gxn }),
                i <= self.blocks@.len(),
                object_in(bv, id, gxn) == object_in(bv.skip(i as int), id, gxn),
            decreases self.blocks.len() - i,
        {
            assert(bv.skip(i as int)[0] == self.blocks@[i as int]@);
            assert(bv.skip(i as int).drop_first() =~= bv.skip(i + 1));
            match &self.blocks[i] {
                Block::Object { id: bid, gxn: bgxn, body, loc: _ } => {
                    if Value::obj_matches(obj, *bid, *bgxn) {
                        return Some(body);
                    }
                },
                _ => {},
            }
            i = i + 1;
        }
        None
    }

    /// The body of the object that a reference points to.
    pub fn get_object(&self, obj: &Value) -> (r: &Value)
        requires
            self.spec_object(obj@) is Some,
        ensures
            self.spec_object(obj@) == Some(r@),
    {
        match self.try_get_object(obj) {
            Some(v) => v,
            None => vstd::pervasive::unreached(),
        }
    }
}


/// An image: its size, its decoded samples, its colour space, and the image
/// that masks it.
#[derive(Debug)]
pub struct XObject {
    pub width: u32,
    pub height: u32,
    pub bytes: Vec<u8>,
    pub cs: Vec<u8>,
    pub mask: Option<Box<XObject>>,
}

pub struct SpecXObject {
    pub width: u32,
    pub height: u32,
    pub bytes: Seq<u8>,
    pub cs: Seq<u8>,
    pub mask: Option<Box<SpecXObject>>,
}

pub open spec fn xobject_view(x: XObject) -> SpecXObject
    decreases x,
{
    SpecXObject {
        width: x.width,
        height: x.height,
        bytes: x.bytes@,
        cs: x.cs@,
        mask: match x.mask {
            Some(m) => Some(Box::new(xobject_view(*m))),
            None => None,
        },
    }
}

impl View for XObject {
    type V = SpecXObject;

    open spec fn view(&self) -> SpecXObject {
        xobject_view(*self)
    }
}

/// The images of a page, by name.
#[derive(Debug)]
pub struct XObjectLib {
    pub id_to_obj: NameMap<XObject>,
}

impl View for XObjectLib {
    type V = Map<Seq<u8>, SpecXObject>;

    open spec fn view(&self) -> Map<Seq<u8>, SpecXObject> {
        entries_view(self.id_to_obj.entries@, |x: XObject| x@)
    }
}

impl XObjectLib {
    pub fn new() -> (r: Self)
        ensures
            r@ == Map::<Seq<u8>, SpecXObject>::empty(),
    {
        let r = XObjectLib { id_to_obj: NameMap::new() };
        proof {
            lemma_empty_view(r.id_to_obj.entries@, |x: XObject| x@);
        }
        return r;
    }

    /// Put an image under a name, replacing the one that was there: the
    /// library grows by one exactly where the name is new.
    pub fn insert(&mut self, id: Vec<u8>, xobj: XObject)
        ensures
            final(self)@ == old(self)@.insert(id@, xobj@),
            final(self)@.dom().finite(),
            final(self)@.dom().len() == old(self)@.dom().len() + if old(self)@.contains_key(id@) {
                0nat
            } else {
                1nat
            },
    {
        proof {
            lemma_insert_view(self.id_to_obj.entries@, id, xobj, |x: XObject| x@);
            lemma_view_finite(self.id_to_obj.entries@, |x: XObject| x@);
        }
        self.id_to_obj.insert(id, xobj);
    }
}

/// A colour space: how many numbers make one colour in it.
#[derive(Debug, Clone, Copy)]
pub struct ColourSpace {
    pub num_components: u8,
}

/// The colour spaces of a page, by name.
#[derive(Debug, Clone)]
pub struct ColourSpaceLib {
    pub id_to_cs: NameMap<ColourSpace>,
}

impl View for ColourSpaceLib {
    type V = Map<Seq<u8>, u8>;

    open spec fn view(&self) -> Map<Seq<u8>, u8> {
        entries_view(self.id_to_cs.entries@, |c: ColourSpace| c.num_components)
    }
}

/// The device colour spaces every page has: gray (one number) and RGB (three).
pub open spec fn device_colour_spaces() -> Map<Seq<u8>, u8> {
    Map::empty().insert(spec_name_device_gray(), 1u8).insert(spec_name_device_rgb(), 3u8)
}

impl ColourSpaceLib {
    /// A library with no colour spaces.
    pub fn empty() -> (r: Self)
        ensures
            r@ == Map::<Seq<u8>, u8>::empty(),
    {
        let r = ColourSpaceLib { id_to_cs: NameMap::new() };
        proof {
            lemma_empty_view(r.id_to_cs.entries@, |c: ColourSpace| c.num_components);
        }
        r
    }

    /// A library with the device colour spaces.
    pub fn new() -> (r: Self)
        ensures
            r@ == device_colour_spaces(),
    {
        let mut r = Self::empty();
        r.add_cs(name_device_gray(), ColourSpace { num_components: 1 });
        r.add_cs(name_device_rgb(), ColourSpace { num_components: 3 });
        return r;
    }

    /// Put a colour space under a name, replacing the one that was there:
    /// the library grows by one exactly where the name is new.
    pub fn add_cs(&mut self, id: Vec<u8>, cs: ColourSpace)
        ensures
            final(self)@ == old(self)@.insert(id@, cs.num_components),
            final(self)@.dom().finite(),
            final(self)@.dom().len() == old(self)@.dom().len() + if old(self)@.contains_key(id@) {
                0nat
            } else {
                1nat
            },
    {
        proof {
            lemma_insert_view(self.id_to_cs.entries@, id, cs, |c: ColourSpace| c.num_components);
            lemma_view_finite(self.id_to_cs.entries@, |c: ColourSpace| c.num_components);
        }
        self.id_to_cs.insert(id, cs);
    }

    /// The number of components of a colour space of the library, if it
    /// has that colour space.
    pub fn try_num_components(&self, cs: &[u8]) -> (r: Option<u8>)
        ensures
            match r {
                Some(n) => self@.contains_key(cs@) && n == self@[cs@],
                None => !self@.contains_key(cs@),
            },
    {
        proof {
            lemma_find_key(self.id_to_cs.entries@, cs@);
        }
        match self.id_to_cs.get(cs) {
            Some(c) => Some(c.num_components),
            None => None,
        }
    }

    /// The number of components of a colour space of the library.
    pub fn num_components(&self, cs: &[u8]) -> (r: u8)
        requires
            self@.contains_key(cs@),
        ensures
            r == self@[cs@],
    {
        proof {
            lemma_find_key(self.id_to_cs.entries@, cs@);
        }
        match self.id_to_cs.get(cs) {
            Some(c) => c.num_components,
            None => vstd::pervasive::unreached(),
        }
    }
}

/// The numeral's value rounded toward zero as a `u32` (saturating).
pub open spec fn to_u32(n: Seq<u8>) -> u32 {
    clamp(numeral_int(n), 0, u32::MAX as int) as u32
}

/// The numeral's value rounded toward zero as a `u8` (saturating).
pub open spec fn to_u8(n: Seq<u8>) -> u8 {
    clamp(numeral_int(n), 0, u8::MAX as int) as u8
}

/// A number value that holds a numeral.
pub open spec fn is_number(v: SpecValue) -> bool {
    v is Number && is_valid_numeral(num_of(v))
}

/// Whether `m[key]` is a number.
pub open spec fn has_number(m: Map<Seq<u8>, SpecValue>, key: Seq<u8>) -> bool {
    m.contains_key(key) && is_number(m[key])
}

/// Whether `m[key]` is a name.
pub open spec fn has_name(m: Map<Seq<u8>, SpecValue>, key: Seq<u8>) -> bool {
    m.contains_key(key) && m[key] is Identifier
}

/// The image a stream value describes: its `/Width`, `/Height` and
/// `/ColorSpace`, a `/Subtype` of `Image`, a `FlateDecode` filter and samples
/// that decode.
pub open spec fn spec_to_xobj(v: SpecValue) -> Option<SpecXObject> {
    let m = meta_of(v);
    if is_stream(v) && has_number(m, spec_name_width()) && has_number(m, spec_name_height())
        && has_name(m, spec_name_color_space()) && has_name(m, spec_name_subtype()) && ident_of(
        m[spec_name_subtype()],
    ) == spec_name_image() && spec_decode(v) is Some {
        Some(
            SpecXObject {
                width: to_u32(num_of(m[spec_name_width()])),
                height: to_u32(num_of(m[spec_name_height()])),
                bytes: spec_decode(v)->0,
                cs: ident_of(m[spec_name_color_space()]),
                mask: None,
            },
        )
    } else {
        None
    }
}

/// The number under `key` of a dictionary, if there is one.
fn dict_numeral<'a>(v: &'a Value, key: &[u8]) -> (r: Option<&'a Vec<u8>>)
    requires
        v@ is Dict,
    ensures
        match r {
            Some(n) => has_number(dict_of(v@), key@) && dict_of(v@)[key@] == SpecValue::Number(n@),
            None => !has_number(dict_of(v@), key@),
        },
{
    match v.try_get(key) {
        Some(Value::Number(n)) => {
            if check_numeral(n) {
                Some(n)
            } else {
                None
            }
        },
        _ => None,
    }
}

/// The name under `key` of a dictionary, if there is one.
fn dict_name<'a>(v: &'a Value, key: &[u8]) -> (r: Option<&'a Vec<u8>>)
    requires
        v@ is Dict,
    ensures
        match r {
            Some(n) => has_name(dict_of(v@), key@) && ident_of(dict_of(v@)[key@]) == n@,
            None => !has_name(dict_of(v@), key@),
        },
{
    match v.try_get(key) {
        Some(Value::Identifier(n)) => Some(n),
        _ => None,
    }
}

impl Value {
    /// The image a stream value describes, or `None` where it describes none.
    pub fn try_to_xobj(&self) -> (r: Option<XObject>)
        ensures
            match r {
                Some(x) => spec_to_xobj(self@) == Some(x@),
                None => spec_to_xobj(self@) is None,
            },
    {
        let meta = match self {
            Value::ByteStream(metadata, _) => {
                match &**metadata {
                    Value::Dict(_) => {},
                    _ => {
                        assert(!(value_view(**metadata) is Dict));
                        return None;
                    },
                }
                &**metadata
            },
            _ => {
                return None;
            },
        };
        let width = match dict_numeral(meta, name_width().as_slice()) {
            Some(n) => numeral_to_u32(n),
            None => {
                return None;
            },
        };
        let height = match dict_numeral(meta, name_height().as_slice()) {
            Some(n) => numeral_to_u32(n),
            None => {
                return None;
            },
        };
        let cs = match dict_name(meta, name_color_space().as_slice()) {
            Some(n) => copy_bytes(n),
            None => {
                return None;
            },
        };
        match dict_name(meta, name_subtype().as_slice()) {
            Some(n) => {
                if !bytes_eq(n.as_slice(), name_image().as_slice()) {
                    return None;
                }
            },
            None => {
                return None;
            },
        }
        let bytes = match self.try_decode() {
            Some(b) => b,
            None => {
                return None;
            },
        };
        let r = XObject { width, height, bytes, cs, mask: None };
        Some(r)
    }

    /// The image a stream value describes.
    pub fn to_xobj(&self) -> (r: XObject)
        requires
            spec_to_xobj(self@) is Some,
        ensures
            spec_to_xobj(self@) == Some(r@),
    {
        match self.try_to_xobj() {
            Some(x) => x,
            None => vstd::pervasive::unreached(),
        }
    }
}

/// Whether every number in the value holds a numeral.
pub open spec fn numerals_ok(v: SpecValue) -> bool
    decreases v,
{
    match v {
        SpecValue::Number(n) => is_valid_numeral(n),
        SpecValue::ByteStream(meta, _) => numerals_ok(*meta),
        SpecValue::Dict(m) => forall|k: Seq<u8>| #[trigger] m.contains_key(k) ==> numerals_ok(m[k]),
        SpecValue::Vector(items) => forall|i: int|
            0 <= i < items.len() ==> numerals_ok(#[trigger] items[i]),
        _ => true,
    }
}


/// The metadata dictionary of a stream, where the value is a stream whose
/// metadata is a dictionary.
fn stream_meta(v: &Value) -> (r: Option<&Value>)
    ensures
        match r {
            Some(m) => is_stream(v@) && m@ is Dict && dict_of(m@) == meta_of(v@),
            None => !is_stream(v@),
        },
{
    match v {
        Value::ByteStream(metadata, _) => {
            match &**metadata {
                Value::Dict(_) => Some(&**metadata),
                _ => {
                    assert(!(value_view(**metadata) is Dict));
                    None
                },
            }
        },
        _ => None,
    }
}

impl Pdf {
    /// The number of components of the colour space that a resource entry
    /// refers to: an array `[/ICCBased stream]` whose stream has an `/N` of
    /// 1, 3 or 4.  `None` where the entry is no such thing.
    pub open spec fn spec_cs_components(&self, v: SpecValue) -> Option<u8> {
        match self.spec_object(v) {
            Some(SpecValue::Vector(items)) => {
                if items.len() == 2 && items[0] is Identifier && ident_of(items[0])
                    == spec_name_icc_based() {
                    match self.spec_object(items[1]) {
                        Some(stream) => {
                            if is_stream(stream) && has_number(meta_of(stream), spec_name_n()) {
                                let n = to_u8(num_of(meta_of(stream)[spec_name_n()]));
                                if n == 1 || n == 3 || n == 4 {
                                    Some(n)
                                } else {
                                    None
                                }
                            } else {
                                None
                            }
                        },
                        None => None,
                    }
                } else {
                    None
                }
            },
            _ => None,
        }
    }

    /// The colour spaces of a `/ColorSpace` resource dictionary, added to the
    /// device colour spaces; `None` where the value is no dictionary or one
    /// of its entries is no colour space.
    pub open spec fn spec_process_colour_spaces(&self, cs: SpecValue) -> Option<Map<Seq<u8>, u8>> {
        match cs {
            SpecValue::Dict(m) => {
                if forall|k: Seq<u8>| #[trigger]
                    m.contains_key(k) ==> self.spec_cs_components(m[k]) is Some {
                    Some(
                        device_colour_spaces().union_prefer_right(
                            Map::new(
                                |k: Seq<u8>| m.contains_key(k),
                                |k: Seq<u8>| self.spec_cs_components(m[k])->0,
                            ),
                        ),
                    )
                } else {
                    None
                }
            },
            _ => None,
        }
    }

    fn try_cs_components(&self, val: &Value) -> (r: Option<u8>)
        ensures
            r == self.spec_cs_components(val@),
    {
        if !Value::is_obj_ref(val) {
            return None;
        }
        let obj = match self.try_get_object(val) {
            Some(o) => o,
            None => {
                return None;
            },
        };
        let vv = match obj {
            Value::Vector(vv) => vv,
            _ => {
                return None;
            },
        };
        proof {
            lemma_values_view_index(vv@);
        }
        if vv.len() != 2 {
            return None;
        }
        match &vv[0] {
            Value::Identifier(name) => {
                if !bytes_eq(name.as_slice(), name_icc_based().as_slice()) {
                    return None;
                }
            },
            _ => {
                return None;
            },
        }
        if !Value::is_obj_ref(&vv[1]) {
            return None;
        }
        let stream = match self.try_get_object(&vv[1]) {
            Some(o) => o,
            None => {
                return None;
            },
        };
        let meta = match stream_meta(stream) {
            Some(m) => m,
            None => {
                return None;
            },
        };
        let n = match dict_numeral(meta, name_n().as_slice()) {
            Some(n) => numeral_to_u8(n),
            None => {
                return None;
            },
        };
        if n == 1 || n == 3 || n == 4 {
            Some(n)
        } else {
            None
        }
    }

    /// The colour spaces of a `/ColorSpace` resource dictionary, added to the
    /// device colour spaces, or `None` where one of them cannot be read.
    pub fn try_process_colour_spaces(&self, cs: &Value) -> (r: Option<ColourSpaceLib>)
        ensures
            match r {
                Some(lib) => self.spec_process_colour_spaces(cs@) == Some(lib@),
                None => self.spec_process_colour_spaces(cs@) is None,
            },
    {
        let entries = match cs {
            Value::Dict(e) => e,
            _ => {
                return None;
            },
        };
        let ghost m = value_dict_view(entries@);
        proof {
            lemma_value_dict_view(entries@);
        }
        let mut lib = ColourSpaceLib::new();
        let mut i: usize = 0;
        assert(device_colour_spaces().union_prefer_right(
            Map::new(
                |k: Seq<u8>| first_before(entries@, 0, k),
                |k: Seq<u8>| self.spec_cs_components(m[k])->0,
            ),
        ) =~= device_colour_spaces());
        while i < entries.len()
            invariant
                i <= entries@.len(),
                m == value_dict_view(entries@),
                m == entries_view(entries@, |v: Value| value_view(v)),
                cs@ == SpecValue::Dict(m),
                lib@ == device_colour_spaces().union_prefer_right(
                    Map::new(
                        |k: Seq<u8>| first_before(entries@, i as int, k),
                        |k: Seq<u8>| self.spec_cs_components(m[k])->0,
                    ),
                ),
                forall|k: Seq<u8>| #[trigger]
                    first_before(entries@, i as int, k) ==> self.spec_cs_components(m[k]) is Some,
            decreases entries.len() - i,
        {
            proof {
                lemma_first_before_step(entries@, i as int);
            }
            let key = &entries[i].0;
            let first = match entries_find(entries, key.as_slice()) {
                Some(j) => j == i,
                None => false,
            };
            if first {
                assert(m.contains_key(key@));
                assert(m[key@] == entries@[i as int].1@);
                match self.try_cs_components(&entries[i].1) {
                    Some(n) => {
                        let ghost old_lib = lib@;
                        lib.add_cs(copy_bytes(key), ColourSpace { num_components: n });
                        assert(lib@ =~= device_colour_spaces().union_prefer_right(
                            Map::new(
                                |k: Seq<u8>| first_before(entries@, i + 1, k),
                                |k: Seq<u8>| self.spec_cs_components(m[k])->0,
                            ),
                        ));
                    },
                    None => {
                        assert(!(self.spec_cs_components(m[key@]) is Some));
                        return None;
                    },
                }
            } else {
                assert(Map::new(
                    |k: Seq<u8>| first_before(entries@, i as int, k),
                    |k: Seq<u8>| self.spec_cs_components(m[k])->0,
                ) =~= Map::new(
                    |k: Seq<u8>| first_before(entries@, i + 1, k),
                    |k: Seq<u8>| self.spec_cs_components(m[k])->0,
                ));
            }
            i = i + 1;
        }
        proof {
            lemma_first_before_all(entries@);
            assert(Map::new(
                |k: Seq<u8>| first_before(entries@, entries@.len() as int, k),
                |k: Seq<u8>| self.spec_cs_components(m[k])->0,
            ) =~= Map::new(
                |k: Seq<u8>| m.contains_key(k),
                |k: Seq<u8>| self.spec_cs_components(m[k])->0,
            ));
            assert forall|k: Seq<u8>| #[trigger]
                m.contains_key(k) implies self.spec_cs_components(m[k]) is Some by {
                assert(first_before(entries@, entries@.len() as int, k));
            }
        }
        Some(lib)
    }

    /// The colour spaces of a `/ColorSpace` resource dictionary, added to the
    /// device colour spaces.
    pub fn process_colour_spaces(&self, cs: &Value) -> (r: ColourSpaceLib)
        requires
            self.spec_process_colour_spaces(cs@) is Some,
        ensures
            self.spec_process_colour_spaces(cs@) == Some(r@),
    {
        match self.try_process_colour_spaces(cs) {
            Some(lib) => lib,
            None => vstd::pervasive::unreached(),
        }
    }
}

impl Pdf {
    /// The image that a resource entry refers to: an RGB image whose
    /// `/SMask` refers to a gray image, which becomes its mask.  `None` where
    /// the entry is no such thing.
    pub open spec fn spec_xobj_entry(&self, v: SpecValue) -> Option<SpecXObject> {
        match self.spec_object(v) {
            Some(obj) => match spec_to_xobj(obj) {
                Some(x) => {
                    if x.cs == spec_name_device_rgb() && meta_of(obj).contains_key(
                        spec_name_s_mask(),
                    ) {
                        match self.spec_object(meta_of(obj)[spec_name_s_mask()]) {
                            Some(mobj) => match spec_to_xobj(mobj) {
                                Some(mask) => {
                                    if mask.cs == spec_name_device_gray() {
                                        Some(
                                            SpecXObject {
                                                width: x.width,
                                                height: x.height,
                                                bytes: x.bytes,
                                                cs: x.cs,
                                                mask: Some(Box::new(mask)),
                                            },
                                        )
                                    } else {
                                        None
                                    }
                                },
                                None => None,
                            },
                            None => None,
                        }
                    } else {
                        None
                    }
                },
                None => None,
            },
            None => None,
        }
    }

    /// The images of an `/XObject` resource dictionary; `None` where the
    /// value is no dictionary or one of its entries is no masked image.
    pub open spec fn spec_process_xobjs(&self, xobjs: SpecValue) -> Option<
        Map<Seq<u8>, SpecXObject>,
    > {
        match xobjs {
            SpecValue::Dict(m) => {
                if forall|k: Seq<u8>| #[trigger]
                    m.contains_key(k) ==> self.spec_xobj_entry(m[k]) is Some {
                    Some(
                        Map::new(
                            |k: Seq<u8>| m.contains_key(k),
                            |k: Seq<u8>| self.spec_xobj_entry(m[k])->0,
                        ),
                    )
                } else {
                    None
                }
            },
            _ => None,
        }
    }

    fn try_xobj_entry(&self, vref: &Value) -> (r: Option<XObject>)
        ensures
            match r {
                Some(x) => self.spec_xobj_entry(vref@) == Some(x@),
                None => self.spec_xobj_entry(vref@) is None,
            },
    {
        if !Value::is_obj_ref(vref) {
            return None;
        }
        let v = match self.try_get_object(vref) {
            Some(o) => o,
            None => {
                return None;
            },
        };
        let mut xobj = match v.try_to_xobj() {
            Some(x) => x,
            None => {
                return None;
            },
        };
        if !bytes_eq(xobj.cs.as_slice(), name_device_rgb().as_slice()) {
            return None;
        }
        let meta = match stream_meta(v) {
            Some(m) => m,
            None => {
                return None;
            },
        };
        let smask_ref = match meta.try_get(name_s_mask().as_slice()) {
            Some(r) => r,
            None => {
                return None;
            },
        };
        if !Value::is_obj_ref(smask_ref) {
            return None;
        }
        let smask_obj = match self.try_get_object(smask_ref) {
            Some(o) => o,
            None => {
                return None;
            },
        };
        let smask = match smask_obj.try_to_xobj() {
            Some(x) => x,
            None => {
                return None;
            },
        };
        if !bytes_eq(smask.cs.as_slice(), name_device_gray().as_slice()) {
            return None;
        }
        xobj.mask = Some(Box::new(smask));
        Some(xobj)
    }

    /// The images of an `/XObject` resource dictionary, or `None` where one
    /// of them cannot be read.
    pub fn try_process_xobjs(&self, xobjs: &Value) -> (r: Option<XObjectLib>)
        ensures
            match r {
                Some(lib) => self.spec_process_xobjs(xobjs@) == Some(lib@),
                None => self.spec_process_xobjs(xobjs@) is None,
            },
    {
        let entries = match xobjs {
            Value::Dict(e) => e,
            _ => {
                return None;
            },
        };
        let ghost m = value_dict_view(entries@);
        proof {
            lemma_value_dict_view(entries@);
        }
        let mut lib = XObjectLib::new();
        let mut i: usize = 0;
        assert(Map::new(
            |k: Seq<u8>| first_before(entries@, 0, k),
            |k: Seq<u8>| self.spec_xobj_entry(m[k])->0,
        ) =~= Map::<Seq<u8>, SpecXObject>::empty());
        while i < entries.len()
            invariant
                i <= entries@.len(),
                m == value_dict_view(entries@),
                m == entries_view(entries@, |v: Value| value_view(v)),
                xobjs@ == SpecValue::Dict(m),
                lib@ == Map::new(
                    |k: Seq<u8>| first_before(entries@, i as int, k),
                    |k: Seq<u8>| self.spec_xobj_entry(m[k])->0,
                ),
                forall|k: Seq<u8>| #[trigger]
                    first_before(entries@, i as int, k) ==> self.spec_xobj_entry(m[k]) is Some,
            decreases entries.len() - i,
        {
            proof {
                lemma_first_before_step(entries@, i as int);
            }
            let key = &entries[i].0;
            let first = match entries_find(entries, key.as_slice()) {
                Some(j) => j == i,
                None => false,
            };
            if first {
                assert(m.contains_key(key@));
                assert(m[key@] == entries@[i as int].1@);
                match self.try_xobj_entry(&entries[i].1) {
                    Some(x) => {
                        lib.insert(copy_bytes(key), x);
                        assert(lib@ =~= Map::new(
                            |k: Seq<u8>| first_before(entries@, i + 1, k),
                            |k: Seq<u8>| self.spec_xobj_entry(m[k])->0,
                        ));
                    },
                    None => {
                        assert(!(self.spec_xobj_entry(m[key@]) is Some));
                        return None;
                    },
                }
            } else {
                assert(Map::new(
                    |k: Seq<u8>| first_before(entries@, i as int, k),
                    |k: Seq<u8>| self.spec_xobj_entry(m[k])->0,
                ) =~= Map::new(
                    |k: Seq<u8>| first_before(entries@, i + 1, k),
                    |k: Seq<u8>| self.spec_xobj_entry(m[k])->0,
                ));
            }
            i = i + 1;
        }
        proof {
            lemma_first_before_all(entries@);
            assert(Map::new(
                |k: Seq<u8>| first_before(entries@, entries@.len() as int, k),
                |k: Seq<u8>| self.spec_xobj_entry(m[k])->0,
            ) =~= Map::new(
                |k: Seq<u8>| m.contains_key(k),
                |k: Seq<u8>| self.spec_xobj_entry(m[k])->0,
            ));
            assert forall|k: Seq<u8>| #[trigger]
                m.contains_key(k) implies self.spec_xobj_entry(m[k]) is Some by {
                assert(first_before(entries@, entries@.len() as int, k));
            }
        }
        Some(lib)
    }

    /// The images of an `/XObject` resource dictionary.
    pub fn process_xobjs(&self, xobjs: &Value) -> (r: XObjectLib)
        requires
            self.spec_process_xobjs(xobjs@) is Some,
        ensures
            self.spec_process_xobjs(xobjs@) == Some(r@),
    {
        match self.try_process_xobjs(xobjs) {
            Some(lib) => lib,
            None => vstd::pervasive::unreached(),
        }
    }
}

/// The numbers of an array value, each rounded toward zero to a `u32`
/// (saturating); `None` where the value is no array of numbers.
pub open spec fn spec_to_vec_u32(v: SpecValue) -> Option<Seq<u32>> {
    match v {
        SpecValue::Vector(items) => {
            if forall|i: int| 0 <= i < items.len() ==> #[trigger] is_number(items[i]) {
                Some(Seq::new(items.len(), |i: int| to_u32(num_of(items[i]))))
            } else {
                None
            }
        },
        _ => None,
    }
}

impl Value {
    /// The numbers of an array, each rounded toward zero to a `u32`, or
    /// `None` where the value is no array of numbers.
    pub fn try_to_vec_u32(&self) -> (r: Option<Vec<u32>>)
        ensures
            match r {
                Some(w) => spec_to_vec_u32(self@) == Some(w@),
                None => spec_to_vec_u32(self@) is None,
            },
    {
        let arr = match self {
            Value::Vector(arr) => arr,
            _ => {
                return None;
            },
        };
        proof {
            lemma_values_view_index(arr@);
        }
        let ghost items = values_view(arr@);
        let mut out: Vec<u32> = Vec::new();
        let mut i: usize = 0;
        while i < arr.len()
            invariant
                i <= arr@.len(),
                items == values_view(arr@),
                items.len() == arr@.len(),
                self@ == SpecValue::Vector(items),
                forall|j: int| 0 <= j < arr@.len() ==> #[trigger] items[j] == value_view(arr@[j]),
                out@.len() == i,
                forall|j: int| 0 <= j < i ==> #[trigger] is_number(items[j]),
                forall|j: int| 0 <= j < i ==> out@[j] == to_u32(num_of(#[trigger] items[j])),
            decreases arr.len() - i,
        {
            match &arr[i] {
                Value::Number(n) => {
                    if !check_numeral(n) {
                        assert(!is_number(items[i as int]));
                        return None;
                    }
                    out.push(numeral_to_u32(n));
                },
                _ => {
                    assert(!is_number(items[i as int]));
                    return None;
                },
            }
            i = i + 1;
        }
        assert(out@ =~= Seq::new(items.len(), |j: int| to_u32(num_of(items[j]))));
        Some(out)
    }
}

impl Pdf {
    /// What a reference points to; any other value stands for itself.
    pub open spec fn spec_deref_or_self(&self, v: SpecValue) -> Option<SpecValue> {
        if v is Reference {
            self.spec_object(v)
        } else {
            Some(v)
        }
    }

    /// The font that a `/Font` resource entry refers to, named `id`: a
    /// TrueType font dictionary with its widths, first character and
    /// encoding, whose descriptor holds its name and a `FlateDecode` font
    /// program that `fontdue` reads.  `None` where the entry is no such
    /// thing.
    pub open spec fn spec_font_entry(&self, id: Seq<u8>, v: SpecValue) -> Option<SpecFont> {
        match self.spec_object(v) {
            Some(info) => {
                let d = dict_of(info);
                if info is Dict && has_name(d, spec_name_type()) && ident_of(d[spec_name_type()])
                    == spec_name_font() && d.contains_key(spec_name_font_descriptor())
                    && d.contains_key(spec_name_widths()) && (d.contains_key(spec_name_encoding())
                    ==> d[spec_name_encoding()] is Identifier) && has_name(d, spec_name_subtype())
                    && ident_of(d[spec_name_subtype()]) == spec_name_true_type() && has_number(
                    d,
                    spec_name_first_char(),
                ) {
                    match (
                        self.spec_object(d[spec_name_font_descriptor()]),
                        self.spec_deref_or_self(d[spec_name_widths()]),
                    ) {
                        (Some(desc), Some(wv)) => {
                            let dd = dict_of(desc);
                            if desc is Dict && dd.contains_key(spec_name_font_file2()) && has_name(
                                dd,
                                spec_name_font_name(),
                            ) && spec_to_vec_u32(wv) is Some {
                                match self.spec_object(dd[spec_name_font_file2()]) {
                                    Some(ff) => match spec_decode(ff) {
                                        Some(bytes) => {
                                            if spec_font_parses(bytes) {
                                                Some(
                                                    SpecFont {
                                                        id,
                                                        name: ident_of(dd[spec_name_font_name()]),
                                                        widths: spec_to_vec_u32(wv)->0,
                                                        first_char: to_u32(
                                                            num_of(d[spec_name_first_char()]),
                                                        ),
                                                        font_bytes: bytes,
                                                        encoding: if d.contains_key(
                                                            spec_name_encoding(),
                                                        ) {
                                                            Some(ident_of(d[spec_name_encoding()]))
                                                        } else {
                                                            None
                                                        },
                                                    },
                                                )
                                            } else {
                                                None
                                            }
                                        },
                                        None => None,
                                    },
                                    None => None,
                                }
                            } else {
                                None
                            }
                        },
                        _ => None,
                    }
                } else {
                    None
                }
            },
            None => None,
        }
    }

    /// The fonts of a `/Font` resource dictionary; `None` where the value is
    /// no dictionary or one of its entries is no font.
    pub open spec fn spec_process_fonts(&self, fonts: SpecValue) -> Option<Map<Seq<u8>, SpecFont>> {
        match fonts {
            SpecValue::Dict(m) => {
                if forall|k: Seq<u8>| #[trigger]
                    m.contains_key(k) ==> self.spec_font_entry(k, m[k]) is Some {
                    Some(
                        Map::new(
                            |k: Seq<u8>| m.contains_key(k),
                            |k: Seq<u8>| self.spec_font_entry(k, m[k])->0,
                        ),
                    )
                } else {
                    None
                }
            },
            _ => None,
        }
    }

    fn try_font_entry(&self, id: &Vec<u8>, obj: &Value) -> (r: Option<Font>)
        ensures
            match r {
                Some(f) => self.spec_font_entry(id@, obj@) == Some(f@),
                None => self.spec_font_entry(id@, obj@) is None,
            },
    {
        if !Value::is_obj_ref(obj) {
            return None;
        }
        let info = match self.try_get_object(obj) {
            Some(o) => o,
            None => {
                return None;
            },
        };
        match info {
            Value::Dict(_) => {},
            _ => {
                return None;
            },
        }
        match dict_name(info, name_type().as_slice()) {
            Some(n) => {
                if !bytes_eq(n.as_slice(), name_font().as_slice()) {
                    return None;
                }
            },
            None => {
                return None;
            },
        }
        let desc_ref = match info.try_get(name_font_descriptor().as_slice()) {
            Some(v) => v,
            None => {
                return None;
            },
        };
        let widths_ref = match info.try_get(name_widths().as_slice()) {
            Some(v) => v,
            None => {
                return None;
            },
        };
        let encoding = match info.try_get(name_encoding().as_slice()) {
            Some(Value::Identifier(e)) => Some(copy_bytes(e)),
            Some(_) => {
                return None;
            },
            None => None,
        };
        match dict_name(info, name_subtype().as_slice()) {
            Some(n) => {
                if !bytes_eq(n.as_slice(), name_true_type().as_slice()) {
                    return None;
                }
            },
            None => {
                return None;
            },
        }
        let first_char = match dict_numeral(info, name_first_char().as_slice()) {
            Some(n) => numeral_to_u32(n),
            None => {
                return None;
            },
        };
        if !Value::is_obj_ref(desc_ref) {
            return None;
        }
        let desc = match self.try_get_object(desc_ref) {
            Some(o) => o,
            None => {
                return None;
            },
        };
        let widths = if Value::is_obj_ref(widths_ref) {
            match self.try_get_object(widths_ref) {
                Some(o) => o,
                None => {
                    return None;
                },
            }
        } else {
            widths_ref
        };
        match desc {
            Value::Dict(_) => {},
            _ => {
                return None;
            },
        }
        let ff_ref = match desc.try_get(name_font_file2().as_slice()) {
            Some(v) => v,
            None => {
                return None;
            },
        };
        let inner_name = match dict_name(desc, name_font_name().as_slice()) {
            Some(n) => copy_bytes(n),
            None => {
                return None;
            },
        };
        let widths_vec = match widths.try_to_vec_u32() {
            Some(w) => w,
            None => {
                return None;
            },
        };
        if !Value::is_obj_ref(ff_ref) {
            return None;
        }
        let font_file = match self.try_get_object(ff_ref) {
            Some(o) => o,
            None => {
                return None;
            },
        };
        let bb = match font_file.try_decode() {
            Some(b) => b,
            None => {
                return None;
            },
        };
        let ttf = match TtfProgram::parse(bb) {
            Some(f) => f,
            None => {
                return None;
            },
        };
        Some(
            Font {
                id: copy_bytes(id),
                name: inner_name,
                widths: widths_vec,
                first_char,
                ttf,
                encoding,
            },
        )
    }

    /// The fonts of a `/Font` resource dictionary, or `None` where one of
    /// them cannot be read.
    pub fn try_process_fonts(&self, fonts: &Value) -> (r: Option<FontLib>)
        ensures
            match r {
                Some(lib) => self.spec_process_fonts(fonts@) == Some(lib@),
                None => self.spec_process_fonts(fonts@) is None,
            },
    {
        let entries = match fonts {
            Value::Dict(e) => e,
            _ => {
                return None;
            },
        };
        let ghost m = value_dict_view(entries@);
        proof {
            lemma_value_dict_view(entries@);
        }
        let mut lib = FontLib::new();
        let mut i: usize = 0;
        assert(Map::new(
            |k: Seq<u8>| first_before(entries@, 0, k),
            |k: Seq<u8>| self.spec_font_entry(k, m[k])->0,
        ) =~= Map::<Seq<u8>, SpecFont>::empty());
        while i < entries.len()
            invariant
                i <= entries@.len(),
                m == value_dict_view(entries@),
                m == entries_view(entries@, |v: Value| value_view(v)),
                fonts@ == SpecValue::Dict(m),
                lib@ == Map::new(
                    |k: Seq<u8>| first_before(entries@, i as int, k),
                    |k: Seq<u8>| self.spec_font_entry(k, m[k])->0,
                ),
                forall|k: Seq<u8>| #[trigger]
                    first_before(entries@, i as int, k) ==> self.spec_font_entry(k, m[k]) is Some,
            decreases entries.len() - i,
        {
            proof {
                lemma_first_before_step(entries@, i as int);
            }
            let key = &entries[i].0;
            let first = match entries_find(entries, key.as_slice()) {
                Some(j) => j == i,
                None => false,
            };
            if first {
                assert(m.contains_key(key@));
                assert(m[key@] == entries@[i as int].1@);
                match self.try_font_entry(key, &entries[i].1) {
                    Some(f) => {
                        lib.insert(copy_bytes(key), f);
                        assert(lib@ =~= Map::new(
                            |k: Seq<u8>| first_before(entries@, i + 1, k),
                            |k: Seq<u8>| self.spec_font_entry(k, m[k])->0,
                        ));
                    },
                    None => {
                        assert(!(self.spec_font_entry(key@, m[key@]) is Some));
                        return None;
                    },
                }
            } else {
                assert(Map::new(
                    |k: Seq<u8>| first_before(entries@, i as int, k),
                    |k: Seq<u8>| self.spec_font_entry(k, m[k])->0,
                ) =~= Map::new(
                    |k: Seq<u8>| first_before(entries@, i + 1, k),
                    |k: Seq<u8>| self.spec_font_entry(k, m[k])->0,
                ));
            }
            i = i + 1;
        }
        proof {
            lemma_first_before_all(entries@);
            assert(Map::new(
                |k: Seq<u8>| first_before(entries@, entries@.len() as int, k),
                |k: Seq<u8>| self.spec_font_entry(k, m[k])->0,
            ) =~= Map::new(
                |k: Seq<u8>| m.contains_key(k),
                |k: Seq<u8>| self.spec_font_entry(k, m[k])->0,
            ));
            assert forall|k: Seq<u8>| #[trigger]
                m.contains_key(k) implies self.spec_font_entry(k, m[k]) is Some by {
                assert(first_before(entries@, entries@.len() as int, k));
            }
        }
        Some(lib)
    }

    /// The fonts of a `/Font` resource dictionary.
    pub fn process_fonts(&self, fonts: &Value) -> (r: FontLib)
        requires
            self.spec_process_fonts(fonts@) is Some,
        ensures
            self.spec_process_fonts(fonts@) == Some(r@),
    {
        match self.try_process_fonts(fonts) {
            Some(lib) => lib,
            None => vstd::pervasive::unreached(),
        }
    }
}

/// What a page needs from the file to be drawn: its size, as the numerals
/// of its media box, and its fonts, colour spaces and images.
#[derive(Debug)]
pub struct PageCtx {
    pub width: Vec<u8>,
    pub height: Vec<u8>,
    pub font_lib: FontLib,
    pub cs_lib: ColourSpaceLib,
    pub xobj_lib: XObjectLib,
}

pub struct SpecPageCtx {
    pub width: Seq<u8>,
    pub height: Seq<u8>,
    pub fonts: Map<Seq<u8>, SpecFont>,
    pub colour_spaces: Map<Seq<u8>, u8>,
    pub xobjs: Map<Seq<u8>, SpecXObject>,
}

impl View for PageCtx {
    type V = SpecPageCtx;

    open spec fn view(&self) -> SpecPageCtx {
        SpecPageCtx {
            width: self.width@,
            height: self.height@,
            fonts: self.font_lib@,
            colour_spaces: self.cs_lib@,
            xobjs: self.xobj_lib@,
        }
    }
}

/// The width and height of a page: its `/MediaBox` is an array of four
/// numbers whose first two are zero.
pub open spec fn spec_media_box(page: SpecValue) -> Option<(Seq<u8>, Seq<u8>)> {
    let d = dict_of(page);
    if page is Dict && d.contains_key(spec_name_media_box()) {
        match d[spec_name_media_box()] {
            SpecValue::Vector(items) => {
                if items.len() == 4 && (forall|i: int|
                    0 <= i < items.len() ==> #[trigger] is_number(items[i])) && is_zero_numeral(
                    num_of(items[0]),
                ) && is_zero_numeral(num_of(items[1])) {
                    Some((num_of(items[2]), num_of(items[3])))
                } else {
                    None
                }
            },
            _ => None,
        }
    } else {
        None
    }
}

/// The width and height of a page, where its media box starts at zero.
pub fn try_media_box(page: &Value) -> (r: Option<(Vec<u8>, Vec<u8>)>)
    ensures
        match r {
            Some((w, h)) => spec_media_box(page@) == Some((w@, h@)),
            None => spec_media_box(page@) is None,
        },
{
    match page {
        Value::Dict(_) => {},
        _ => {
            return None;
        },
    }
    let mb = match page.try_get(name_media_box().as_slice()) {
        Some(v) => v,
        None => {
            return None;
        },
    };
    let items = match mb {
        Value::Vector(items) => items,
        _ => {
            return None;
        },
    };
    proof {
        lemma_values_view_index(items@);
    }
    if items.len() != 4 {
        return None;
    }
    let mut i: usize = 0;
    while i < 4
        invariant
            i <= 4,
            items@.len() == 4,
            values_view(items@).len() == 4,
            page@ is Dict,
            dict_of(page@).contains_key(spec_name_media_box()),
            dict_of(page@)[spec_name_media_box()] == SpecValue::Vector(values_view(items@)),
            forall|j: int| 0 <= j < 4 ==> #[trigger] values_view(items@)[j] == value_view(items@[j]),
            forall|j: int| 0 <= j < i ==> #[trigger] is_number(values_view(items@)[j]),
        decreases 4 - i,
    {
        match &items[i] {
            Value::Number(n) => {
                if !check_numeral(n) {
                    assert(!is_number(values_view(items@)[i as int]));
                    return None;
                }
            },
            _ => {
                assert(!is_number(values_view(items@)[i as int]));
                return None;
            },
        }
        i = i + 1;
    }
    let (x0, y0, w, h) = match (&items[0], &items[1], &items[2], &items[3]) {
        (Value::Number(a), Value::Number(b), Value::Number(c), Value::Number(d)) => (a, b, c, d),
        _ => {
            assert(is_number(values_view(items@)[0]));
            assert(is_number(values_view(items@)[1]));
            assert(is_number(values_view(items@)[2]));
            assert(is_number(values_view(items@)[3]));
            return None;
        },
    };
    if !check_zero_numeral(x0) || !check_zero_numeral(y0) {
        return None;
    }
    Some((copy_bytes(w), copy_bytes(h)))
}

impl Pdf {
    /// The `/Resources` dictionary of a page, taken through its reference
    /// where it is one.
    pub open spec fn spec_page_resources(&self, page: SpecValue) -> Option<SpecValue> {
        let d = dict_of(page);
        if page is Dict && d.contains_key(spec_name_resources()) {
            match self.spec_deref_or_self(d[spec_name_resources()]) {
                Some(res) => {
                    if res is Dict {
                        Some(res)
                    } else {
                        None
                    }
                },
                None => None,
            }
        } else {
            None
        }
    }

    /// What a page needs to be drawn: the size of its media box and the
    /// fonts, colour spaces and images of its resources (no colour spaces
    /// where it names none).  `None` where one of them cannot be read.
    pub open spec fn spec_mk_page_ctx(&self, page: SpecValue) -> Option<SpecPageCtx> {
        match self.spec_page_resources(page) {
            Some(res) => {
                let rd = dict_of(res);
                if rd.contains_key(spec_name_font()) && self.spec_process_fonts(
                    rd[spec_name_font()],
                ) is Some && (rd.contains_key(spec_name_color_space())
                    ==> self.spec_process_colour_spaces(rd[spec_name_color_space()]) is Some) && (
                rd.contains_key(spec_name_x_object()) ==> self.spec_process_xobjs(
                    rd[spec_name_x_object()],
                ) is Some) && spec_media_box(page) is Some {
                    Some(
                        SpecPageCtx {
                            width: (spec_media_box(page)->0).0,
                            height: (spec_media_box(page)->0).1,
                            fonts: self.spec_process_fonts(rd[spec_name_font()])->0,
                            colour_spaces: if rd.contains_key(spec_name_color_space()) {
                                self.spec_process_colour_spaces(rd[spec_name_color_space()])->0
                            } else {
                                Map::empty()
                            },
                            xobjs: if rd.contains_key(spec_name_x_object()) {
                                self.spec_process_xobjs(rd[spec_name_x_object()])->0
                            } else {
                                Map::empty()
                            },
                        },
                    )
                } else {
                    None
                }
            },
            None => None,
        }
    }

    /// What a page needs to be drawn, or `None` where part of it cannot be
    /// read.
    pub fn try_mk_page_ctx(&self, page: &Value) -> (r: Option<PageCtx>)
        ensures
            match r {
                Some(ctx) => self.spec_mk_page_ctx(page@) == Some(ctx@),
                None => self.spec_mk_page_ctx(page@) is None,
            },
    {
        match page {
            Value::Dict(_) => {},
            _ => {
                return None;
            },
        }
        let resource_ref = match page.try_get(name_resources().as_slice()) {
            Some(v) => v,
            None => {
                return None;
            },
        };
        let resources = if Value::is_obj_ref(resource_ref) {
            match self.try_get_object(resource_ref) {
                Some(o) => o,
                None => {
                    return None;
                },
            }
        } else {
            resource_ref
        };
        match resources {
            Value::Dict(_) => {},
            _ => {
                return None;
            },
        }
        let fonts = match resources.try_get(name_font().as_slice()) {
            Some(v) => v,
            None => {
                return None;
            },
        };
        let font_lib = match self.try_process_fonts(fonts) {
            Some(l) => l,
            None => {
                return None;
            },
        };
        let cs_lib = match resources.try_get(name_color_space().as_slice()) {
            Some(cs) => match self.try_process_colour_spaces(cs) {
                Some(l) => l,
                None => {
                    return None;
                },
            },
            None => ColourSpaceLib::empty(),
        };
        let xobj_lib = match resources.try_get(name_x_object().as_slice()) {
            Some(x) => match self.try_process_xobjs(x) {
                Some(l) => l,
                None => {
                    return None;
                },
            },
            None => XObjectLib::new(),
        };
        let (width, height) = match try_media_box(page) {
            Some(wh) => wh,
            None => {
                return None;
            },
        };
        Some(PageCtx { width, height, font_lib, cs_lib, xobj_lib })
    }

    /// What a page needs to be drawn.
    pub fn mk_page_ctx(&self, page: &Value) -> (r: PageCtx)
        requires
            self.spec_mk_page_ctx(page@) is Some,
        ensures
            self.spec_mk_page_ctx(page@) == Some(r@),
    {
        match self.try_mk_page_ctx(page) {
            Some(ctx) => ctx,
            None => vstd::pervasive::unreached(),
        }
    }
}

/// The colour-space library of a `/ColorSpace` dictionary `m` is built
/// exactly when every entry is an ICC-based colour space.  It then holds the
/// names of `m` and the two device colour spaces; each entry of `m` has the
/// `/N` of its stream (1, 3 or 4) as its number of components; gray keeps
/// one component and RGB three unless `m` names them itself.
pub proof fn law_colour_space_library(pdf: Pdf, m: Map<Seq<u8>, SpecValue>)
    ensures
        pdf.spec_process_colour_spaces(SpecValue::Dict(m)) is Some <==> (forall|k: Seq<u8>|
            #[trigger] m.contains_key(k) ==> pdf.spec_cs_components(m[k]) is Some),
        match pdf.spec_process_colour_spaces(SpecValue::Dict(m)) {
            Some(lib) => {
                &&& lib.dom() == m.dom().insert(spec_name_device_gray()).insert(
                    spec_name_device_rgb(),
                )
                &&& forall|k: Seq<u8>| #[trigger]
                    m.contains_key(k) ==> lib[k] == pdf.spec_cs_components(m[k])->0 && (lib[k]
                        == 1 || lib[k] == 3 || lib[k] == 4)
                &&& !m.contains_key(spec_name_device_gray()) ==> lib[spec_name_device_gray()] == 1
                &&& !m.contains_key(spec_name_device_rgb()) ==> lib[spec_name_device_rgb()] == 3
            },
            None => true,
        },
{
    match pdf.spec_process_colour_spaces(SpecValue::Dict(m)) {
        Some(lib) => {
            assert(lib.dom() =~= m.dom().insert(spec_name_device_gray()).insert(
                spec_name_device_rgb(),
            ));
        },
        None => {},
    }
}

/// A colour space read from a resource entry is an `[/ICCBased stream]`
/// array whose stream has an `/N` number; its number of components is that
/// number rounded toward zero, and it is read only where that is 1, 3 or 4.
pub proof fn law_colour_space_entry(pdf: Pdf, v: SpecValue)
    ensures
        pdf.spec_cs_components(v) matches Some(n) ==> {
            let items = vec_of(pdf.spec_object(v)->0);
            let stream = pdf.spec_object(items[1])->0;
            let num = numeral_int(num_of(meta_of(stream)[spec_name_n()]));
            &&& pdf.spec_object(v) is Some
            &&& pdf.spec_object(v)->0 is Vector
            &&& items.len() == 2
            &&& ident_of(items[0]) == spec_name_icc_based()
            &&& pdf.spec_object(items[1]) is Some
            &&& is_stream(stream)
            &&& has_number(meta_of(stream), spec_name_n())
            &&& (num == 1 || num == 3 || num == 4)
            &&& n as int == num
        },
{
    match pdf.spec_cs_components(v) {
        Some(n) => {
            let items = vec_of(pdf.spec_object(v)->0);
            let stream = pdf.spec_object(items[1])->0;
            let num = numeral_int(num_of(meta_of(stream)[spec_name_n()]));
            let c = clamp(num, 0, 255);
            assert(0 <= c <= 255);
        },
        None => {},
    }
}

/// The font library of a `/Font` dictionary `m` is built exactly when every
/// entry is a font.  It then holds exactly the names of `m`; each font
/// carries its own name as its id, comes from a dictionary whose `/Type` is
/// `/Font` and whose `/Subtype` is `/TrueType`, and has a program that
/// `fontdue` reads.
pub proof fn law_font_library(pdf: Pdf, m: Map<Seq<u8>, SpecValue>)
    ensures
        pdf.spec_process_fonts(SpecValue::Dict(m)) is Some <==> (forall|k: Seq<u8>|
            #[trigger] m.contains_key(k) ==> pdf.spec_font_entry(k, m[k]) is Some),
        match pdf.spec_process_fonts(SpecValue::Dict(m)) {
            Some(lib) => {
                &&& lib.dom() == m.dom()
                &&& forall|k: Seq<u8>| #[trigger]
                    m.contains_key(k) ==> {
                        &&& pdf.spec_font_entry(k, m[k]) == Some(lib[k])
                        &&& lib[k].id == k
                        &&& spec_font_parses(lib[k].font_bytes)
                        &&& pdf.spec_object(m[k]) is Some
                        &&& pdf.spec_object(m[k])->0 is Dict
                        &&& ident_of(dict_of(pdf.spec_object(m[k])->0)[spec_name_type()])
                            == spec_name_font()
                        &&& ident_of(dict_of(pdf.spec_object(m[k])->0)[spec_name_subtype()])
                            == spec_name_true_type()
                    }
            },
            None => true,
        },
{
    match pdf.spec_process_fonts(SpecValue::Dict(m)) {
        Some(lib) => {
            assert(lib.dom() =~= m.dom());
            assert forall|k: Seq<u8>| #[trigger] m.contains_key(k) implies {
                &&& pdf.spec_font_entry(k, m[k]) == Some(lib[k])
                &&& lib[k].id == k
                &&& spec_font_parses(lib[k].font_bytes)
                &&& pdf.spec_object(m[k]) is Some
                &&& pdf.spec_object(m[k])->0 is Dict
                &&& ident_of(dict_of(pdf.spec_object(m[k])->0)[spec_name_type()])
                    == spec_name_font()
                &&& ident_of(dict_of(pdf.spec_object(m[k])->0)[spec_name_subtype()])
                    == spec_name_true_type()
            } by {
                assert(pdf.spec_font_entry(k, m[k]) is Some);
            }
        },
        None => {},
    }
}

/// What a font read from a `/Font` entry holds: its id is the name it is
/// under; its first character is the dictionary's `/FirstChar` number,
/// rounded toward zero and kept within `u32`; its widths are the numbers of
/// its `/Widths` array (taken through a reference where it is one), in
/// order, each rounded the same way, so the width of character `c` is the
/// `/Widths` entry `c - /FirstChar`; its name is the descriptor's
/// `/FontName`; its encoding is the `/Encoding` name where there is one;
/// and its program is the decoded `/FontFile2` stream, which `fontdue`
/// reads.
pub proof fn law_font_fields(pdf: Pdf, id: Seq<u8>, v: SpecValue)
    ensures
        pdf.spec_font_entry(id, v) matches Some(f) ==> {
            let d = dict_of(pdf.spec_object(v)->0);
            let desc = dict_of(pdf.spec_object(d[spec_name_font_descriptor()])->0);
            let wv = pdf.spec_deref_or_self(d[spec_name_widths()])->0;
            &&& f.id == id
            &&& has_number(d, spec_name_first_char())
            &&& f.first_char as int == clamp(
                numeral_int(num_of(d[spec_name_first_char()])),
                0,
                u32::MAX as int,
            )
            &&& wv is Vector
            &&& f.widths.len() == vec_of(wv).len()
            &&& forall|j: int|
                0 <= j < f.widths.len() ==> is_number(#[trigger] vec_of(wv)[j]) && f.widths[j] as int
                    == clamp(numeral_int(num_of(vec_of(wv)[j])), 0, u32::MAX as int)
            &&& f.name == ident_of(desc[spec_name_font_name()])
            &&& f.encoding == if d.contains_key(spec_name_encoding()) {
                Some(ident_of(d[spec_name_encoding()]))
            } else {
                None
            }
            &&& spec_decode(pdf.spec_object(desc[spec_name_font_file2()])->0) == Some(f.font_bytes)
            &&& spec_font_parses(f.font_bytes)
        },
{
    match pdf.spec_font_entry(id, v) {
        Some(f) => {
            let d = dict_of(pdf.spec_object(v)->0);
            let fc = numeral_int(num_of(d[spec_name_first_char()]));
            assert(0 <= clamp(fc, 0, u32::MAX as int) <= u32::MAX);
            let wv = pdf.spec_deref_or_self(d[spec_name_widths()])->0;
            assert forall|j: int| 0 <= j < f.widths.len() implies is_number(
                #[trigger] vec_of(wv)[j],
            ) && f.widths[j] as int == clamp(
                numeral_int(num_of(vec_of(wv)[j])),
                0,
                u32::MAX as int,
            ) by {
                let c = clamp(numeral_int(num_of(vec_of(wv)[j])), 0, u32::MAX as int);
                assert(0 <= c <= u32::MAX);
            }
        },
        None => {},
    }
}

/// What an image read from a stream holds: its width and height are the
/// stream's `/Width` and `/Height` numbers rounded toward zero and kept
/// within `u32`, its colour space is its `/ColorSpace` name, its bytes are
/// the decoded stream, and the stream's `/Subtype` is `/Image`.
pub open spec fn image_from(x: SpecXObject, obj: SpecValue) -> bool {
    let m = meta_of(obj);
    &&& is_stream(obj)
    &&& ident_of(m[spec_name_subtype()]) == spec_name_image()
    &&& has_number(m, spec_name_width()) && has_number(m, spec_name_height())
    &&& x.width as int == clamp(numeral_int(num_of(m[spec_name_width()])), 0, u32::MAX as int)
    &&& x.height as int == clamp(numeral_int(num_of(m[spec_name_height()])), 0, u32::MAX as int)
    &&& x.cs == ident_of(m[spec_name_color_space()])
    &&& spec_decode(obj) == Some(x.bytes)
}

/// The image library of an `/XObject` dictionary `m` is built exactly when
/// every entry is an image.  It then holds exactly the names of `m`; each
/// image is the RGB image its reference points to, and carries as its mask
/// the gray image that the stream's `/SMask` points to.
pub proof fn law_image_library(pdf: Pdf, m: Map<Seq<u8>, SpecValue>)
    ensures
        pdf.spec_process_xobjs(SpecValue::Dict(m)) is Some <==> (forall|k: Seq<u8>|
            #[trigger] m.contains_key(k) ==> pdf.spec_xobj_entry(m[k]) is Some),
        pdf.spec_process_xobjs(SpecValue::Dict(m)) matches Some(lib) ==> {
            &&& lib.dom() == m.dom()
            &&& forall|k: Seq<u8>| #[trigger]
                m.contains_key(k) ==> {
                    let obj = pdf.spec_object(m[k])->0;
                    let mobj = pdf.spec_object(meta_of(obj)[spec_name_s_mask()])->0;
                    &&& pdf.spec_object(m[k]) is Some
                    &&& image_from(lib[k], obj)
                    &&& lib[k].cs == spec_name_device_rgb()
                    &&& lib[k].mask is Some
                    &&& pdf.spec_object(meta_of(obj)[spec_name_s_mask()]) is Some
                    &&& image_from(*lib[k].mask->0, mobj)
                    &&& (lib[k].mask->0).cs == spec_name_device_gray()
                }
        },
{
    match pdf.spec_process_xobjs(SpecValue::Dict(m)) {
        Some(lib) => {
            assert(lib.dom() =~= m.dom());
            assert forall|k: Seq<u8>| #[trigger] m.contains_key(k) implies {
                let obj = pdf.spec_object(m[k])->0;
                let mobj = pdf.spec_object(meta_of(obj)[spec_name_s_mask()])->0;
                &&& pdf.spec_object(m[k]) is Some
                &&& image_from(lib[k], obj)
                &&& lib[k].cs == spec_name_device_rgb()
                &&& lib[k].mask is Some
                &&& pdf.spec_object(meta_of(obj)[spec_name_s_mask()]) is Some
                &&& image_from(*lib[k].mask->0, mobj)
                &&& (lib[k].mask->0).cs == spec_name_device_gray()
            } by {
                assert(pdf.spec_xobj_entry(m[k]) is Some);
                let obj = pdf.spec_object(m[k])->0;
                let mt = meta_of(obj);
                let mobj = pdf.spec_object(mt[spec_name_s_mask()])->0;
                let mm = meta_of(mobj);
                assert(0 <= clamp(numeral_int(num_of(mt[spec_name_width()])), 0, u32::MAX as int) <= u32::MAX);
                assert(0 <= clamp(numeral_int(num_of(mt[spec_name_height()])), 0, u32::MAX as int) <= u32::MAX);
                assert(0 <= clamp(numeral_int(num_of(mm[spec_name_width()])), 0, u32::MAX as int) <= u32::MAX);
                assert(0 <= clamp(numeral_int(num_of(mm[spec_name_height()])), 0, u32::MAX as int) <= u32::MAX);
            }
        },
        None => {},
    }
}

/// What a page context holds.  Its size is the third and fourth number of
/// the page's `/MediaBox`, an array of four numbers whose first two are
/// zero (any other media box refuses the page).  Its fonts are those named
/// in the `/Font` dictionary of the page's resources; where the resources
/// name no colour spaces or no images, it has none (not even the device
/// colour spaces), and where they name colour spaces, gray and RGB are
/// among them.
pub proof fn law_page_context(pdf: Pdf, page: SpecValue)
    ensures
        page is Dict && dict_of(page).contains_key(spec_name_media_box()) && dict_of(
            page,
        )[spec_name_media_box()] is Vector && vec_of(dict_of(page)[spec_name_media_box()]).len()
            != 4 ==> pdf.spec_mk_page_ctx(page) is None,
        match pdf.spec_mk_page_ctx(page) {
            Some(ctx) => {
                let items = vec_of(dict_of(page)[spec_name_media_box()]);
                let rd = dict_of(pdf.spec_page_resources(page)->0);
                &&& dict_of(page)[spec_name_media_box()] is Vector
                &&& items.len() == 4
                &&& (forall|i: int| 0 <= i < 4 ==> #[trigger] is_number(items[i]))
                &&& is_zero_numeral(num_of(items[0]))
                &&& is_zero_numeral(num_of(items[1]))
                &&& ctx.width == num_of(items[2])
                &&& ctx.height == num_of(items[3])
                &&& pdf.spec_page_resources(page) is Some
                &&& rd.contains_key(spec_name_font())
                &&& rd[spec_name_font()] is Dict
                &&& ctx.fonts.dom() == dict_of(rd[spec_name_font()]).dom()
                &&& !rd.contains_key(spec_name_color_space()) ==> ctx.colour_spaces
                    == Map::<Seq<u8>, u8>::empty()
                &&& rd.contains_key(spec_name_color_space()) ==> ctx.colour_spaces.contains_key(
                    spec_name_device_gray(),
                ) && ctx.colour_spaces.contains_key(spec_name_device_rgb())
                &&& !rd.contains_key(spec_name_x_object()) ==> ctx.xobjs == Map::<
                    Seq<u8>,
                    SpecXObject,
                >::empty()
            },
            None => true,
        },
{
    match pdf.spec_mk_page_ctx(page) {
        Some(ctx) => {
            let rd = dict_of(pdf.spec_page_resources(page)->0);
            let fonts = rd[spec_name_font()];
            law_font_library(pdf, dict_of(fonts));
            if rd.contains_key(spec_name_color_space()) {
                law_colour_space_library(pdf, dict_of(rd[spec_name_color_space()]));
            }
        },
        None => {},
    }
}

} // verus!
