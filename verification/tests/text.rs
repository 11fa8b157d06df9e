use pdf_view::content::parse_stream;
use pdf_view::content::text::{
    char_is_whitespace, is_identifier_char, try_parse_stream, try_tokenize_stream, ContentToken,
};

fn chars(s: &str) -> Vec<char> {
    s.chars().collect()
}

fn line(y: i32, s: &str) -> (i32, Vec<char>) {
    (y, chars(s))
}

#[test]
fn whitespace_is_unicode_white_space() {
    for u in 0..=0x10FFFFu32 {
        if let Some(c) = char::from_u32(u) {
            assert_eq!(char_is_whitespace(c), c.is_whitespace(), "{:x}", u);
        }
    }
}

#[test]
fn word_characters() {
    assert!(is_identifier_char('a'));
    assert!(is_identifier_char('\u{e9}'));
    assert!(is_identifier_char('+'));
    assert!(!is_identifier_char('_'));
    assert!(!is_identifier_char('('));
}

#[test]
fn stream_tokens() {
    let toks = try_tokenize_stream(chars("BT /F\u{e9} 12 Tf (a(b)\\)c) Tj ET q")).unwrap();
    assert_eq!(
        toks,
        vec![
            ContentToken::BTKeyword,
            ContentToken::Identifier(chars("F\u{e9}")),
            ContentToken::Number(b"12".to_vec()),
            ContentToken::TfKeyword,
            ContentToken::LParens,
            ContentToken::Identifier(chars("a(b)\\)c")),
            ContentToken::RParens,
            ContentToken::TjKeyword,
            ContentToken::ETKeyword,
            ContentToken::SaveGraphicsState,
        ]
    );
    let toks = try_tokenize_stream(chars("W* W n\u{a0}-.5 [1]\0")).unwrap();
    assert_eq!(
        toks,
        vec![
            ContentToken::WStarKeyword,
            ContentToken::WKeyword,
            ContentToken::NKeyword,
            ContentToken::Number(b"-.5".to_vec()),
            ContentToken::LBracket,
            ContentToken::Number(b"1".to_vec()),
            ContentToken::RBracket,
            ContentToken::Null,
        ]
    );
}

#[test]
fn streams_the_reader_refuses() {
    assert!(try_tokenize_stream(chars("12")).is_none());
    assert!(try_tokenize_stream(chars("BT")).is_none());
    assert!(try_tokenize_stream(chars("W")).is_none());
    assert!(try_tokenize_stream(chars("\u{b2} ")).is_none());
    assert!(try_tokenize_stream(chars("1.2.3 ")).is_none());
    assert!(try_tokenize_stream(chars("Td ")).is_none());
    assert!(try_tokenize_stream(chars("/F1")).is_none());
}

#[test]
fn text_by_line_highest_first() {
    let lines = parse_stream(chars(
        "BT 12 0 0 1 0 0 Tm [(A) 5 (B)] TJ ET q BT 700 0 0 1 0 0 Tm (Hello) Tj ( world) Tj ET Q ",
    ));
    assert_eq!(lines, vec![line(700, "Hello world"), line(12, "AB")]);
}

#[test]
fn numbers_show_as_they_print() {
    let lines = parse_stream(chars("BT 5.9 0 0 1 0 0 Tm 2.50 Tj ET "));
    assert_eq!(lines, vec![line(5, "2.5")]);
    let lines = parse_stream(chars("BT -3.7 0 0 1 0 0 Tm /F1 12 Tf (x) Tj ET "));
    assert_eq!(lines, vec![line(-3, "x")]);
}

#[test]
fn the_token_after_a_block_is_passed_over() {
    let lines = parse_stream(chars(
        "BT 1 0 0 1 0 0 Tm (a) Tj ET BT 2 0 0 1 0 0 Tm (b) Tj ET ",
    ));
    assert_eq!(lines, vec![line(1, "a")]);
}

#[test]
fn blocks_that_cannot_be_read() {
    assert!(try_parse_stream(chars("BT (a) Tj ET ")).is_none());
    assert!(try_parse_stream(chars("BT 1 2 Tm ET ")).is_none());
    assert!(try_parse_stream(chars("BT 1 ET ")).is_none());
    assert!(try_parse_stream(chars("BT 1 0 0 1 0 0 Tm (a) Tj ")).is_none());
    assert!(try_parse_stream(chars("BT 1 0 0 1 0 0 Tm [[1]] TJ ET ")).is_none());
    assert_eq!(try_parse_stream(chars("q Q 1 2 re f ")), Some(vec![]));
}
