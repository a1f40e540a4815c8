//! Text and number helpers.

use minnal_db::doc_store::flat_record::{extract_bool, extract_int, extract_str};
use minnal_db::doc_store::schema::IndexValue;
use minnal_db::lex::{lex_less, lex_less_eq};
use minnal_db::numbers::{decimal, parse_i64};
use minnal_db::text::{chars_of, find_char, is_whitespace, join};

#[test]
fn white_space_is_that_of_unicode() {
    for u in 0..=0x10ffffu32 {
        if let Some(c) = char::from_u32(u) {
            assert_eq!(is_whitespace(c), c.is_whitespace(), "U+{u:04X}");
        }
    }
}

#[test]
fn characters_and_joins() {
    assert_eq!(chars_of("aß漢"), vec!['a', 'ß', '漢']);
    let units: Vec<String> = ["a", "b", "c"].iter().map(|s| s.to_string()).collect();
    assert_eq!(join(&units, 1, 3, ", "), "b, c");
    assert_eq!(join(&units, 2, 2, ", "), "");
    assert_eq!(find_char(&chars_of("k=v=w"), '=', 0), 1);
    assert_eq!(find_char(&chars_of("k=v=w"), '=', 2), 3);
    assert_eq!(find_char(&chars_of("kv"), '=', 0), 2);
}

#[test]
fn byte_strings_are_ordered() {
    let samples: Vec<&[u8]> = vec![b"", b"\0", b"a", b"a\0", b"ab", b"b", b"\xff"];
    for a in &samples {
        for b in &samples {
            assert_eq!(lex_less(a, b), a < b);
            assert_eq!(lex_less_eq(a, b), a <= b);
        }
    }
}

#[test]
fn integers_parse_like_those_of_the_standard_library() {
    let samples = [
        "0", "-0", "+7", "42", "-42", "9223372036854775807", "9223372036854775808", "-9223372036854775808", "-9223372036854775809",
        "00000000000000000000000000012", "", "+", "-", "--1", "1 ", " 1", "1.5", "1_000", "٣", "99999999999999999999999",
    ];
    for s in samples {
        assert_eq!(parse_i64(&chars_of(s)), s.parse::<i64>().ok(), "{s:?}");
    }
}

#[test]
fn numbers_in_decimal() {
    for n in [0, 9, 10, 99, 100, 12345, u64::MAX] {
        assert_eq!(decimal(n), n.to_string());
    }
}

#[test]
fn flat_records() {
    let record = b"status=active,age=30,verified=true";
    assert!(matches!(extract_str("status", record), Some(IndexValue::Str(s)) if s == "active"));
    assert!(matches!(extract_int("age", record), Some(IndexValue::Int(30))));
    assert!(matches!(extract_bool("verified", record), Some(IndexValue::Bool(true))));
    assert!(matches!(extract_bool("verified", b"verified=false"), Some(IndexValue::Bool(false))));
    assert!(extract_str("missing", record).is_none());
    assert!(extract_int("status", record).is_none());
    assert!(extract_bool("age", record).is_none());
    assert!(extract_str("status", b"status").is_none());
    assert!(extract_str("status", b"\xff\xfe").is_none());
    // The first piece that starts with the name counts.
    assert!(matches!(extract_str("stat", record), Some(IndexValue::Str(s)) if s == "active"));
    assert!(matches!(extract_str("k", b"key=a=b,k=c"), Some(IndexValue::Str(s)) if s == "a=b"));
}
