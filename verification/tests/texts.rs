use urtrends::text::{decimal, is_text_before, parse_i64};

#[test]
fn orders_texts_by_code_points() {
    assert!(is_text_before("", "a"));
    assert!(is_text_before("DE", "FR"));
    assert!(is_text_before("U", "US"));
    assert!(is_text_before("Z", "a"));
    assert!(is_text_before("z", "\u{e9}"));
    assert!(!is_text_before("FR", "FR"));
    assert!(!is_text_before("US", "U"));
}

#[test]
fn reads_integers() {
    assert_eq!(parse_i64("2000"), Some(2000));
    assert_eq!(parse_i64("+7"), Some(7));
    assert_eq!(parse_i64("-0012"), Some(-12));
    assert_eq!(parse_i64("9223372036854775807"), Some(i64::MAX));
    assert_eq!(parse_i64("-9223372036854775808"), Some(i64::MIN));
}

#[test]
fn refuses_what_is_no_integer() {
    for text in ["", "+", "-", "1.5", " 1", "1 ", "--1", "0x10", "9223372036854775808", "\u{661}"] {
        assert_eq!(parse_i64(text), None, "{}", text);
        assert!(text.parse::<i64>().is_err());
    }
}

#[test]
fn writes_and_reads_back() {
    for n in [0u64, 9, 10, 500, 1500, 1_000_000, i64::MAX as u64] {
        assert_eq!(decimal(n), n.to_string());
        assert_eq!(parse_i64(&decimal(n)), Some(n as i64));
    }
}
