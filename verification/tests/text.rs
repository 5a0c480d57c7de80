//! Tests of texts, numbers and tables.

use vcl_normalizer::ast::{bytes_val, duration_secs};
use vcl_normalizer::decimal::Decimal;
use vcl_normalizer::json::{compact, pretty, read, Json};
use vcl_normalizer::order::text_before;
use vcl_normalizer::table::Table;
use vcl_normalizer::text::{
    contains_char, find_char, join_strings, parse_unsigned, repeat, split_char, split_words,
    starts_with, to_chars, u64_text,
};

fn dec(s: &str) -> Decimal {
    Decimal::parse(s).expect("a number")
}

#[test]
fn words_are_split_at_white_space() {
    assert_eq!(split_words(" a\tb\u{a0}c \u{2003}d\n"), ["a", "b", "c", "d"]);
    assert!(split_words(" \t\r\n").is_empty());
}

#[test]
fn texts_are_split_at_a_character() {
    assert_eq!(split_char("a.b..c", '.'), ["a", "b", "", "c"]);
    assert_eq!(split_char("", '.'), [""]);
    assert_eq!(join_strings(&split_char("ä.ö", '.'), "--"), "ä--ö");
    assert_eq!(find_char(&to_chars("naïve"), 'v', 1), 3);
    assert_eq!(find_char(&to_chars("abc"), 'x', 0), 3);
    assert!(contains_char("abc", 'b') && !contains_char("abc", 'd'));
    assert!(starts_with("vcl_recv", "vcl_") && !starts_with("vcl", "vcl_"));
    assert_eq!(repeat("ab", 3), "ababab");
}

#[test]
fn numerals_denote_numbers() {
    assert_eq!(u64_text(0), "0");
    assert_eq!(u64_text(u64::MAX), "18446744073709551615");
    assert_eq!(parse_unsigned("255", 255), Some(255));
    assert_eq!(parse_unsigned("+7", 255), Some(7));
    assert_eq!(parse_unsigned("007", 255), Some(7));
    for bad in ["256", "", "+", "-1", "1 ", "1x"] {
        assert_eq!(parse_unsigned(bad, 255), None, "{bad}");
    }
}

#[test]
fn decimals_are_exact() {
    assert_eq!(dec("2.50").text(), "2.5");
    assert_eq!(dec("0.100").text(), "0.1");
    assert_eq!(dec("10").text(), "10");
    assert_eq!(dec("007.0").text(), "7");
    assert_eq!(dec("0.1").times(3).text(), "0.3");
    assert_eq!(dec("1.5").shifted(3).text(), "0.0015");
    assert_eq!(dec("1.999").floor(), 1);
    assert_eq!(dec("0.5").floor_times(1024), 512);
    assert_eq!(dec("99999999999999999999").floor(), u64::MAX);
    assert_eq!(dec("99999999999999999999.5").text(), "99999999999999999999.5");
    assert!(dec("3.0").is_whole() && !dec("3.01").is_whole());
    assert!(dec("1.10").same(&dec("1.1")) && !dec("1.1").same(&dec("1.01")));
    for bad in ["", ".", "1.", ".5", "1.2.3", "x", "-1"] {
        assert!(Decimal::parse(bad).is_none(), "{bad}");
    }
}

#[test]
fn units_scale_numbers() {
    let secs = |n: &str, u: &str| duration_secs(&dec(n), u).map(|d| d.text());
    assert_eq!(secs("1500", "ms"), Some("1.5".to_string()));
    assert_eq!(secs("1.5", "m"), Some("90".to_string()));
    assert_eq!(secs("2", "h"), Some("7200".to_string()));
    assert_eq!(secs("1", "w"), Some("604800".to_string()));
    assert_eq!(secs("1", "y"), Some("31557600".to_string()));
    assert_eq!(secs("1", "x"), None);
    assert_eq!(bytes_val(&dec("1.5"), "KB"), Some(1536));
    assert_eq!(bytes_val(&dec("1"), "TB"), Some(1 << 40));
    assert_eq!(bytes_val(&dec("99999999"), "TB"), Some(u64::MAX));
    assert_eq!(bytes_val(&dec("1"), "PB"), None);
}

#[test]
fn texts_are_ordered_by_their_bytes() {
    assert!(text_before("a", "b") && text_before("a", "aa") && text_before("", "a"));
    assert!(text_before("Z", "a") && text_before("z", "é") && text_before("é", "\u{1f600}"));
    assert!(!text_before("a", "a") && !text_before("b", "a"));
}

#[test]
fn a_table_holds_the_last_value() {
    let mut t: Table<u64> = Table::new();
    assert!(!t.contains_key("a"));
    t.insert("a".to_string(), 1);
    t.insert("b".to_string(), 2);
    t.insert("a".to_string(), 3);
    assert_eq!(t.get("a"), Some(&3));
    assert_eq!(t.get("b"), Some(&2));
    assert_eq!(t.get("c"), None);
}

#[test]
fn json_is_read_and_written() {
    let j = read(b"{\"b\": [1, \"x\\n\", null, true], \"a\": {}}").expect("json");
    assert_eq!(compact(&j), "{\"b\":[1,\"x\\n\",null,true],\"a\":{}}");
    assert_eq!(
        pretty(&j),
        "{\n  \"b\": [\n    1,\n    \"x\\n\",\n    null,\n    true\n  ],\n  \"a\": {}\n}"
    );
    assert!(matches!(j.get("b"), Some(Json::Array(_))));
    assert!(j.get("c").is_none());
    let fault = read(b"{\"a\": }").expect_err("a fault");
    assert!(fault.contains("line 1 column 7"), "{fault}");
    assert!(read(b"\xff").is_err());
}
