use xmlrpc::b64::{decode_base64_text, strip_whitespace};
use xmlrpc::dbl::check_f64_text;
use xmlrpc::escape::{escape_xml, unescape_text};
use xmlrpc::numtext::{parse_i32, parse_i64};
use xmlrpc::parser::parse_boolean;

#[test]
fn escaping_round_trips() {
    let original = b"a<b&c>d'e\"f";
    let escaped = escape_xml(original);
    assert_eq!(escaped, b"a&lt;b&amp;c>d'e\"f".to_vec());
    assert_eq!(unescape_text(&escaped), Some(original.to_vec()));
}

#[test]
fn unescape_rejects_unknown_entities() {
    assert_eq!(unescape_text(b"a&unknown;b"), None);
    assert_eq!(unescape_text(b"a&amp"), None);
    assert_eq!(unescape_text(b"a&#xD800;"), None);
}

#[test]
fn base64_whitespace_is_stripped() {
    assert_eq!(strip_whitespace(b" a\nb\tc\rd "), b"abcd".to_vec());
    assert_eq!(
        decode_base64_text(b"aGVs\nbG8="),
        decode_base64_text(b"aGVsbG8=")
    );
    assert_eq!(decode_base64_text(b"aGVsbG8="), Some(b"hello".to_vec()));
    assert_eq!(decode_base64_text(b"!!!"), None);
}

#[test]
fn integer_parsing_is_strict() {
    assert_eq!(parse_i32(b"+1234"), Some(1234));
    assert_eq!(parse_i32(b"-17"), Some(-17));
    assert_eq!(parse_i32(b""), None);
    assert_eq!(parse_i32(b"+"), None);
    assert_eq!(parse_i32(b" 1"), None);
    assert_eq!(parse_i32(b"1.5"), None);
    assert_eq!(parse_i32(b"2147483648"), None);
    assert_eq!(parse_i32(b"-2147483648"), Some(i32::MIN));
    assert_eq!(parse_i64(b"9223372036854775807"), Some(i64::MAX));
    assert_eq!(parse_i64(b"-9223372036854775808"), Some(i64::MIN));
    assert_eq!(parse_i64(b"9223372036854775808"), None);
}

#[test]
fn boolean_text_is_strict() {
    assert_eq!(parse_boolean(b"0"), Some(false));
    assert_eq!(parse_boolean(b"1"), Some(true));
    assert_eq!(parse_boolean(b"2"), None);
    assert_eq!(parse_boolean(b"00"), None);
    assert_eq!(parse_boolean(b""), None);
    assert_eq!(parse_boolean(b"true"), None);
}

#[test]
fn double_syntax_matches_float_parsing() {
    for ok in ["1", "1.", ".5", "-2.5e-3", "+inf", "NaN", "Infinity", "3E8"] {
        assert!(check_f64_text(ok.as_bytes()), "rejected {}", ok);
        assert!(ok.parse::<f64>().is_ok(), "std rejected {}", ok);
    }
    for bad in ["", ".", "e5", "1e", "1.2.3", " 1", "0x1", "1_000"] {
        assert!(!check_f64_text(bad.as_bytes()), "accepted {}", bad);
        assert!(bad.parse::<f64>().is_err(), "std accepted {}", bad);
    }
}
