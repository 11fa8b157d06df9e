use std::io::Write;

use pdf_view::content::tokenizer::{tokenize_stream, Token};
use pdf_view::pages::{get_pages, try_get_pages, try_page_contents};
use pdf_view::pdf::ast::{Block, ColourSpaceLib, Pdf, Value, XObjectLib};
use pdf_view::pdf::tokenizer::{try_tokenize_pdf, PdfToken};
use pdf_view::fonts::TtfProgram;
use pdf_view::pdf::{parse_pdf, try_parse_pdf};
use pdf_view::src_loc::SrcLoc;

fn zlib(data: &[u8]) -> Vec<u8> {
    let mut e = flate2::write::ZlibEncoder::new(Vec::new(), flate2::Compression::default());
    e.write_all(data).unwrap();
    e.finish().unwrap()
}

fn obj(id: u32, body: &str) -> Vec<u8> {
    format!("{} 0 obj\n{}\nendobj\n", id, body).into_bytes()
}

fn stream_obj(id: u32, dict: &str, data: &[u8]) -> Vec<u8> {
    let mut out = format!("{} 0 obj\n<< {} >>\nstream\n", id, dict).into_bytes();
    out.extend_from_slice(data);
    out.extend_from_slice(b"\nendstream\nendobj\n");
    out
}

const CONTENT: &str = "q BT /F1 12 Tf 1 0 0 1 72 700 Tm (Hello) Tj ET Q";

fn document(font_resource: &str, extra: &[Vec<u8>]) -> Vec<u8> {
    let mut d = b"%PDF-1.4\n".to_vec();
    d.extend(obj(1, "<< /Type /Catalog /Pages 2 0 R >>"));
    d.extend(obj(2, "<< /Type /Pages /Kids [3 0 R] /Count 1 >>"));
    d.extend(obj(
        3,
        &format!(
            "<< /Type /Page /MediaBox [0 0 612 792] /Contents 4 0 R /Resources << /Font << {} >> /ColorSpace << /Cs1 5 0 R >> /XObject << /Im1 7 0 R >> >> >>",
            font_resource
        ),
    ));
    d.extend(stream_obj(4, "/Filter /FlateDecode", &zlib(CONTENT.as_bytes())));
    d.extend(obj(5, "[/ICCBased 6 0 R]"));
    d.extend(stream_obj(6, "/N 3 /Filter /FlateDecode", &zlib(b"profile")));
    d.extend(stream_obj(
        7,
        "/Type /XObject /Subtype /Image /Width 2 /Height 1 /ColorSpace /DeviceRGB /Filter /FlateDecode /SMask 8 0 R",
        &zlib(&[255, 0, 0, 0, 0, 255]),
    ));
    d.extend(stream_obj(
        8,
        "/Type /XObject /Subtype /Image /Width 2 /Height 1 /ColorSpace /DeviceGray /Filter /FlateDecode",
        &zlib(&[255, 128]),
    ));
    for e in extra {
        d.extend_from_slice(e);
    }
    d.extend(b"xref\n0 2\n0000000000 65535 f\n0000000009 00000 n\n".to_vec());
    d.extend(b"trailer\n<< /Size 9 /Root 1 0 R >>\nstartxref\n321\n%%EOF\n".to_vec());
    d
}

fn page(pdf: &Pdf) -> &Value {
    let kids = get_pages(pdf);
    pdf.get_object(&kids[0])
}

#[test]
fn tokens_are_located_in_order() {
    let d = document("", &[]);
    let toks = try_tokenize_pdf(&d).unwrap();
    assert!(matches!(toks[0].1, PdfToken::Percent));
    let mut last = 0;
    for (loc, _) in toks.iter() {
        assert!(loc.pos() < d.len());
        assert!(loc.pos() >= last);
        last = loc.pos();
    }
}

#[test]
fn document_parses_into_blocks() {
    let pdf = try_parse_pdf(&document("", &[])).unwrap();
    let n_objects = pdf.blocks.iter().filter(|b| matches!(b, Block::Object { .. })).count();
    assert_eq!(n_objects, 8);
    match pdf.blocks.last().unwrap() {
        Block::XRefTable(offsets, loc) => {
            assert_eq!(offsets.len(), 2);
            assert_eq!(offsets[1].pos(), 9);
            assert_eq!(loc.pos(), 321);
        },
        other => panic!("expected the cross-reference table last, got {:?}", other),
    }
    let trailer = pdf.get_trailer_dict();
    assert!(trailer.iter().any(|(k, v)| k == b"Root" && *v == Value::Reference { id: 1, gxn: 0 }));
}

#[test]
fn unreadable_files_are_refused() {
    assert!(try_parse_pdf(&b"1 0 obj << /A 1 >>".to_vec()).is_none());
    assert!(try_parse_pdf(&b"%%EOX".to_vec()).is_none());
    assert!(try_tokenize_pdf(&b"1 0 obj\n<< /A bogusword >>".to_vec()).is_none());
}

#[test]
fn pages_and_contents() {
    let pdf = parse_pdf(&document("", &[]));
    let kids = try_get_pages(&pdf).unwrap();
    assert_eq!(kids, &vec![Value::Reference { id: 3, gxn: 0 }]);
    let page = pdf.get_object(&kids[0]);
    let contents = try_page_contents(&pdf, page).unwrap();
    assert_eq!(contents, CONTENT.as_bytes().to_vec());
    let toks = tokenize_stream(contents);
    assert_eq!(toks[0], Token::SaveGraphicsState);
    assert_eq!(toks.len(), 16);
}

#[test]
fn page_resources() {
    let pdf = parse_pdf(&document("", &[]));
    let ctx = pdf.try_mk_page_ctx(page(&pdf)).unwrap();
    assert_eq!(ctx.width, b"612".to_vec());
    assert_eq!(ctx.height, b"792".to_vec());
    assert_eq!(ctx.cs_lib.num_components(b"Cs1"), 3);
    assert_eq!(ctx.cs_lib.num_components(b"DeviceGray"), 1);
    assert_eq!(ctx.cs_lib.num_components(b"DeviceRGB"), 3);
    assert!(ctx.font_lib.try_get_font(b"F1").is_none());
    let im = ctx.xobj_lib.id_to_obj.get(b"Im1").unwrap();
    assert_eq!(im.width, 2);
    assert_eq!(im.height, 1);
    assert_eq!(im.cs, b"DeviceRGB".to_vec());
    assert_eq!(im.bytes, vec![255, 0, 0, 0, 0, 255]);
    let mask = im.mask.as_ref().unwrap();
    assert_eq!(mask.cs, b"DeviceGray".to_vec());
    assert_eq!(mask.bytes, vec![255, 128]);
    assert!(mask.mask.is_none());
}

#[test]
fn a_font_program_that_does_not_parse_is_refused() {
    let extra = vec![
        obj(9, "<< /Type /Font /Subtype /TrueType /FirstChar 32 /Widths [250 333.5] /FontDescriptor 10 0 R /Encoding /MacRomanEncoding >>"),
        obj(10, "<< /Type /FontDescriptor /FontName /Garbage /FontFile2 11 0 R >>"),
        stream_obj(11, "/Filter /FlateDecode", &zlib(b"not a font program")),
    ];
    let pdf = parse_pdf(&document("/F1 9 0 R", &extra));
    let p = page(&pdf);
    assert!(pdf.try_mk_page_ctx(p).is_none());
    let resources = p.get(b"Resources");
    let fonts = resources.get(b"Font");
    assert!(pdf.try_process_fonts(fonts).is_none());
    let widths = pdf.get_object(&Value::Reference { id: 9, gxn: 0 }).get(b"Widths");
    assert_eq!(widths.try_to_vec_u32(), Some(vec![250, 333]));
}

#[test]
fn libraries_start_empty_or_with_device_spaces() {
    let lib = ColourSpaceLib::new();
    assert_eq!(lib.num_components(b"DeviceGray"), 1);
    assert_eq!(lib.num_components(b"DeviceRGB"), 3);
    let xs = XObjectLib::new();
    assert!(xs.id_to_obj.get(b"Im1").is_none());
}

#[test]
fn streams_decode_only_with_flate() {
    let plain = Value::ByteStream(Box::new(Value::Dict(vec![])), b"raw".to_vec());
    assert!(plain.try_decode().is_none());
    let flate = Value::ByteStream(
        Box::new(Value::Dict(vec![(b"Filter".to_vec(), Value::Identifier(b"FlateDecode".to_vec()))])),
        zlib(b"decoded bytes"),
    );
    assert_eq!(flate.try_decode().unwrap(), b"decoded bytes".to_vec());
    let broken = Value::ByteStream(
        Box::new(Value::Dict(vec![(b"Filter".to_vec(), Value::Identifier(b"FlateDecode".to_vec()))])),
        b"not zlib".to_vec(),
    );
    assert!(broken.try_decode().is_none());
}

#[test]
fn panicking_forms_agree_with_the_checked_ones() {
    let d = document("", &[]);
    let toks = pdf_view::pdf::tokenizer::tokenize_pdf(&d);
    let pdf = pdf_view::pdf::parser::parse_tokens(&toks);
    let p = page(&pdf);
    let ctx = pdf.mk_page_ctx(p);
    assert_eq!(ctx.width, b"612".to_vec());
    let resources = p.get(b"Resources");
    let cs = pdf.process_colour_spaces(resources.get(b"ColorSpace"));
    assert_eq!(cs.num_components(b"Cs1"), 3);
    let xs = pdf.process_xobjs(resources.get(b"XObject"));
    assert_eq!(xs.id_to_obj.get(b"Im1").unwrap().width, 2);
    let im = Value::Reference { id: 7, gxn: 0 }.deref(&pdf);
    let x = im.to_xobj();
    assert_eq!((x.width, x.height), (2, 1));
    assert!(x.mask.is_none());
    let arr = Value::Reference { id: 5, gxn: 0 }.deref(&pdf);
    assert_eq!(arr.get_vec()[0].get_string(), b"ICCBased".to_vec());
    let dict = Value::from_dict(vec![(b"A".to_vec(), Value::Null)]);
    assert_eq!(dict.try_get(b"A"), Some(&Value::Null));
    assert_eq!(dict.try_get(b"B"), None);
}

#[test]
fn colour_space_entries_must_be_icc_profiles() {
    let extra = vec![obj(12, "[/CalRGB 6 0 R]")];
    let pdf = parse_pdf(&document("", &extra));
    let bad = Value::Dict(vec![(b"Cs2".to_vec(), Value::Reference { id: 12, gxn: 0 })]);
    assert!(pdf.try_process_colour_spaces(&bad).is_none());
    assert!(pdf.try_process_colour_spaces(&Value::Null).is_none());
    let good = Value::Dict(vec![
        (b"DeviceRGB".to_vec(), Value::Reference { id: 5, gxn: 0 }),
        (b"DeviceRGB".to_vec(), Value::Reference { id: 12, gxn: 0 }),
    ]);
    let lib = pdf.try_process_colour_spaces(&good).unwrap();
    assert_eq!(lib.num_components(b"DeviceRGB"), 3);
    assert_eq!(lib.num_components(b"DeviceGray"), 1);
}

#[test]
fn images_need_a_gray_mask() {
    let pdf = parse_pdf(&document("", &[]));
    let unmasked = Value::Dict(vec![(b"Im2".to_vec(), Value::Reference { id: 8, gxn: 0 })]);
    assert!(pdf.try_process_xobjs(&unmasked).is_none());
    let direct = Value::Dict(vec![(b"Im3".to_vec(), Value::Null)]);
    assert!(pdf.try_process_xobjs(&direct).is_none());
}

#[test]
fn pdf_token_texts() {
    assert_eq!(PdfToken::Number(b"3.50".to_vec()).text(), b"3.5".to_vec());
    assert_eq!(PdfToken::Identifier(vec![b'F', 0xDE]).text(), "F\u{de}".as_bytes().to_vec());
    assert_eq!(PdfToken::ByteStream(vec![1, 2]).text(), b"<bytes...>".to_vec());
    assert_eq!(PdfToken::StartXRefKeyword.text(), b"startxref".to_vec());
    let src = "obj endobj xref trailer R f n true false null [ ] > startxref ";
    let toks = try_tokenize_pdf(&src.as_bytes().to_vec()).unwrap();
    let words: Vec<String> =
        toks.iter().map(|(_, t)| String::from_utf8(t.text()).unwrap()).collect();
    let expected: Vec<String> = src.split_whitespace().map(|w| w.to_string()).collect();
    assert_eq!(words, expected);
}

#[test]
fn values_blocks_and_files_print() {
    let v = Value::Dict(vec![
        (b"Type".to_vec(), Value::Identifier(b"Page".to_vec())),
        (b"Kids".to_vec(), Value::Vector(vec![Value::Reference { id: 3, gxn: 0 }, Value::Number(b"2.50".to_vec())])),
        (b"On".to_vec(), Value::Boolean(true)),
        (b"N".to_vec(), Value::Null),
    ]);
    let text = String::from_utf8(v.text()).unwrap();
    assert_eq!(text, "{\n\t\tType => \"Page\",\n\t\tKids => [obj<3,0>,2.5,],\n\t\tOn => true,\n\t\tN => NULL,\n\t}");
    let neg = Value::Reference { id: -12, gxn: 105 };
    assert_eq!(neg.text(), b"obj<-12,105>".to_vec());
    let stream = Value::ByteStream(Box::new(Value::Dict(vec![])), vec![1, 2, 3]);
    assert_eq!(String::from_utf8(stream.text()).unwrap(), "3 bytes -- metadata: {\n\t}");
    let latin = Value::Identifier(vec![0xDE]);
    assert_eq!(String::from_utf8(latin.text()).unwrap(), "\"\u{de}\"");

    let object = Block::Object { id: 7, gxn: 0, body: Value::Boolean(false), loc: SrcLoc::new(42) };
    assert_eq!(String::from_utf8(object.text()).unwrap(), "loc.42: obj<7,0>\n\tfalse");
    let xref = Block::XRefTable(vec![SrcLoc::new(0), SrcLoc::new(1234)], SrcLoc::new(99));
    assert_eq!(
        String::from_utf8(xref.text()).unwrap(),
        "loc.99: xref\n\tobj<0,0> => loc.0\n\tobj<1,0> => loc.1234\n"
    );
    let trailer = Block::Trailer(vec![(b"Root".to_vec(), Value::Reference { id: 1, gxn: 0 })]);
    assert_eq!(String::from_utf8(trailer.text()).unwrap(), "Trailer dictionary: {\n\tRoot => obj<1,0>\n}");

    let pdf = Pdf { blocks: vec![object, trailer] };
    assert_eq!(
        String::from_utf8(pdf.text()).unwrap(),
        "loc.42: obj<7,0>\n\tfalse\nTrailer dictionary: {\n\tRoot => obj<1,0>\n}\n%%EOF"
    );
    assert_eq!(Pdf { blocks: vec![] }.text(), b"%%EOF".to_vec());
}

#[test]
fn a_parsed_file_ends_with_its_only_cross_reference_table() {
    let pdf = try_parse_pdf(&document("", &[])).unwrap();
    let n = pdf.blocks.len();
    assert!(matches!(pdf.blocks[n - 1], Block::XRefTable(..)));
    assert!(pdf.blocks[..n - 1].iter().all(|b| !matches!(b, Block::XRefTable(..))));
    let twice = [document("", &[]), b"xref\n0 1\n0000000000 65535 f\n".to_vec()].concat();
    if let Some(p) = try_parse_pdf(&twice) {
        let n = p.blocks.len();
        assert_eq!(p.blocks.iter().filter(|b| matches!(b, Block::XRefTable(..))).count(), 1);
        assert!(matches!(p.blocks[n - 1], Block::XRefTable(..)));
    }
}

#[test]
fn font_programs_keep_the_bytes_they_were_read_from() {
    assert!(TtfProgram::parse(b"not a font program".to_vec()).is_none());
    assert!(TtfProgram::parse(Vec::new()).is_none());
}

#[test]
fn lookup_finds_the_first_object_with_the_number() {
    let loc = SrcLoc::new(0);
    let pdf = Pdf {
        blocks: vec![
            Block::Trailer(vec![]),
            Block::Object { id: 1, gxn: 0, body: Value::Null, loc },
            Block::Object { id: 1, gxn: 0, body: Value::Boolean(true), loc },
            Block::Object { id: 1, gxn: 1, body: Value::Boolean(false), loc },
        ],
    };
    assert_eq!(pdf.try_get_object(&Value::Reference { id: 1, gxn: 0 }), Some(&Value::Null));
    assert_eq!(pdf.try_get_object(&Value::Reference { id: 1, gxn: 1 }), Some(&Value::Boolean(false)));
    assert_eq!(pdf.try_get_object(&Value::Reference { id: 2, gxn: 0 }), None);
}

#[test]
fn inserting_under_a_name_replaces_what_was_there() {
    let mut lib = ColourSpaceLib::empty();
    lib.add_cs(b"A".to_vec(), pdf_view::pdf::ast::ColourSpace { num_components: 1 });
    lib.add_cs(b"A".to_vec(), pdf_view::pdf::ast::ColourSpace { num_components: 4 });
    assert_eq!(lib.num_components(b"A"), 4);
    assert_eq!(lib.try_num_components(b"B"), None);
}
