use pdf_view::content::pretty::numeral_text;
use pdf_view::numeral::{
    check_numeral, check_zero_numeral, numeral_to_i32, numeral_to_u32, numeral_to_u8,
    numeral_to_usize,
};

fn n(s: &str) -> Vec<u8> {
    s.as_bytes().to_vec()
}

#[test]
fn numerals_are_what_the_float_parser_takes() {
    for s in ["0", "12", "-3", ".5", "-.5", "1.", "007.250", "-0"] {
        assert!(check_numeral(&n(s)), "{}", s);
        assert!(s.parse::<f64>().is_ok());
    }
    for s in ["", "-", ".", "1.2.3", "--1", "1-2", "+1", "1e5"] {
        assert!(!check_numeral(&n(s)), "{}", s);
    }
}

#[test]
fn integer_conversions_round_toward_zero() {
    assert_eq!(numeral_to_i32(&n("42")), 42);
    assert_eq!(numeral_to_i32(&n("-42.9")), -42);
    assert_eq!(numeral_to_i32(&n("99999999999")), i32::MAX);
    assert_eq!(numeral_to_i32(&n("-99999999999")), i32::MIN);
    assert_eq!(numeral_to_u32(&n("612.7")), 612);
    assert_eq!(numeral_to_u32(&n("-5")), 0);
    assert_eq!(numeral_to_u8(&n("300")), 255);
    assert_eq!(numeral_to_u8(&n("3")), 3);
    assert_eq!(numeral_to_usize(&n("1234")), 1234);
    for s in ["0", "1", "-1", "17.5", "-17.5", "255.99", "70000"] {
        let f: f64 = s.parse().unwrap();
        assert_eq!(numeral_to_i32(&n(s)), f as i32, "{}", s);
        assert_eq!(numeral_to_u32(&n(s)), f as u32, "{}", s);
        assert_eq!(numeral_to_u8(&n(s)), f as u8, "{}", s);
    }
}

#[test]
fn zero_numerals() {
    assert!(check_zero_numeral(&n("0")));
    assert!(check_zero_numeral(&n("-0.000")));
    assert!(check_zero_numeral(&n(".0")));
    assert!(!check_zero_numeral(&n("0.001")));
    assert!(!check_zero_numeral(&n("10")));
}

#[test]
fn numerals_print_as_floats_do() {
    for s in [
        "0", "-0", "1.0", "0.50", "12.340", "-.5", ".0", "007", "-12.", "3.14159", "612", "-36",
        "0.6000000", "0.3019608", "100.25",
    ] {
        let expected = s.parse::<f64>().unwrap().to_string();
        assert_eq!(String::from_utf8(numeral_text(&n(s))).unwrap(), expected, "{}", s);
    }
}
