use pdf_view::content::pretty::{can_pretty_print, keyword_text, to_txt, try_pretty_print};
use pdf_view::content::tokenizer::{tokenize_stream, Token};

fn b(s: &str) -> Vec<u8> {
    s.as_bytes().to_vec()
}

#[test]
fn token_texts() {
    assert_eq!(to_txt(&Token::Number(b("1.50"))), b("1.5"));
    assert_eq!(to_txt(&Token::Number(b("-0.25"))), b("-0.25"));
    assert_eq!(to_txt(&Token::Identifier(b("F1.0"))), b("/F1.0"));
    assert_eq!(to_txt(&Token::StringBytes(vec![72, 0xDE])), b("(\"H\u{de}\")"));
    let arr = Token::Array(vec![Token::Number(b("1")), Token::StringBytes(b("a"))]);
    assert_eq!(to_txt(&arr), b("1(\"a\")"));
    let dict = Token::Dict(vec![
        (b("K"), Token::Number(b("2"))),
        (b("L"), Token::Identifier(b("M"))),
    ]);
    assert_eq!(to_txt(&dict), b("{K => 2L => /M}"));
    assert_eq!(to_txt(&Token::SetColourStroke), b("SC"));
    assert_eq!(to_txt(&Token::FillStar), b("unknown"));
    assert_eq!(to_txt(&Token::Null), b("unknown"));
    assert_eq!(keyword_text(&Token::WStar), b("W*"));
}

#[test]
fn operators_print_as_the_words_they_were_read_from() {
    for w in [
        "SC", "sc", "i", "cs", "CS", "cm", "BT", "Tm", "Tf", "Tj", "ET", "TJ", "re", "m", "l",
        "h", "v", "c", "y", "BDC", "EMC", "BMC", "gs", "g", "G", "rg", "RG", "w", "J", "j", "S",
        "Tc", "Do", "Q", "q", "n", "W", "W*", "f",
    ] {
        let toks = tokenize_stream(b(w));
        assert_eq!(toks.len(), 1, "{}", w);
        assert_eq!(to_txt(&toks[0]), b(w), "{}", w);
    }
}

#[test]
fn blocks_are_indented() {
    let toks = tokenize_stream(b("q BT /F1 12 Tf (Hi) Tj ET Q"));
    let out = String::from_utf8(try_pretty_print(&toks).unwrap()).unwrap();
    assert_eq!(
        out,
        "<CONTENTS>\n    q \n    BT\n        /F1 12 Tf (\"Hi\") Tj \n    ET\n    Q \n</CONTENTS>\n"
    );
}

#[test]
fn marked_content_nests() {
    let toks = tokenize_stream(b("/P BMC BT ET EMC"));
    let out = String::from_utf8(try_pretty_print(&toks).unwrap()).unwrap();
    assert_eq!(
        out,
        "<CONTENTS>\n    /P \n    BMC\n        \n        BT\n            \n        ET\n        \n    EMC\n    \n</CONTENTS>\n"
    );
}

#[test]
fn empty_stream_prints_the_tags() {
    let out = try_pretty_print(&Vec::new()).unwrap();
    assert_eq!(String::from_utf8(out).unwrap(), "<CONTENTS>\n    \n</CONTENTS>\n");
}

#[test]
fn unbalanced_blocks_cannot_be_printed() {
    assert!(!can_pretty_print(&tokenize_stream(b("ET ET"))));
    assert!(try_pretty_print(&tokenize_stream(b("ET ET"))).is_none());
    assert!(try_pretty_print(&tokenize_stream(b("ET"))).is_none());
    assert!(can_pretty_print(&tokenize_stream(b("BT ET BT"))));
}

#[test]
fn printing_succeeds_unless_a_block_closes_at_the_outermost_level() {
    let closed = try_pretty_print(&vec![Token::BT, Token::ET]).unwrap();
    assert!(closed.starts_with(b"<CONTENTS>\n    "));
    assert!(closed.ends_with(b"</CONTENTS>\n"));
    let open = try_pretty_print(&vec![Token::BT]).unwrap();
    assert!(open.ends_with(b"</CONTENTS>\n    "));
    // One closer too many at the outermost level still prints, as long as
    // an opener makes up for it before the end.
    assert!(can_pretty_print(&vec![Token::ET, Token::BT]));
    assert!(!can_pretty_print(&vec![Token::ET]));
    assert!(!can_pretty_print(&vec![Token::ET, Token::EMC, Token::BT, Token::BT]));
}
