use pdf_view::chars::{
    is_alphabetic, is_alphanumeric, is_identifier_char, is_numeric, is_whitespace,
};

#[test]
fn byte_classes_agree_with_char_classes() {
    for b in 0..=255u8 {
        let c = b as char;
        assert_eq!(is_whitespace(b), c.is_whitespace(), "whitespace {}", b);
        assert_eq!(is_numeric(b), c.is_numeric(), "numeric {}", b);
        assert_eq!(is_alphabetic(b), c.is_alphabetic(), "alphabetic {}", b);
        assert_eq!(is_alphanumeric(b), c.is_alphanumeric(), "alphanumeric {}", b);
        let ident = c.is_alphanumeric() || matches!(c, '.' | '-' | '+' | '_');
        assert_eq!(is_identifier_char(b), ident, "identifier {}", b);
    }
}

#[test]
fn latin1_letters_are_identifier_chars() {
    assert!(is_identifier_char(0xDE));
    assert!(is_identifier_char(0xE9));
    assert!(!is_identifier_char(b'/'));
    assert!(!is_identifier_char(b'('));
    assert!(is_whitespace(0x85));
    assert!(is_whitespace(0xA0));
}
