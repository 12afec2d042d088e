use fast_routing_table::scalar::is_float_text;
use fast_routing_table::scalar::parse_int;
use fast_routing_table::text::contains_slash;
use fast_routing_table::text::split_segment;
use fast_routing_table::text::str_eq;
use fast_routing_table::text::strip_edge;

#[test]
fn parse_int_reads_signed_decimals() {
    assert_eq!(parse_int("42"), Some(42));
    assert_eq!(parse_int("-42"), Some(-42));
    assert_eq!(parse_int("+7"), Some(7));
    assert_eq!(parse_int("007"), Some(7));
    assert_eq!(parse_int("-0"), Some(0));
    assert_eq!(parse_int("0"), Some(0));
}

#[test]
fn parse_int_rejects_what_is_no_decimal() {
    assert_eq!(parse_int(""), None);
    assert_eq!(parse_int("+"), None);
    assert_eq!(parse_int("-"), None);
    assert_eq!(parse_int("abc"), None);
    assert_eq!(parse_int("12a"), None);
    assert_eq!(parse_int(" 12"), None);
    assert_eq!(parse_int("12 "), None);
    assert_eq!(parse_int("1_000"), None);
    assert_eq!(parse_int("1.0"), None);
    assert_eq!(parse_int("+-1"), None);
    assert_eq!(parse_int("--1"), None);
    assert_eq!(parse_int("0x10"), None);
    assert_eq!(parse_int("\u{661}\u{662}"), None);
    assert_eq!(parse_int("1\u{e9}"), None);
}

#[test]
fn parse_int_holds_to_the_range_of_i64() {
    assert_eq!(parse_int("9223372036854775807"), Some(i64::MAX));
    assert_eq!(parse_int("-9223372036854775808"), Some(i64::MIN));
    assert_eq!(parse_int("9223372036854775808"), None);
    assert_eq!(parse_int("-9223372036854775809"), None);
    assert_eq!(parse_int("99999999999999999999999999"), None);
    assert_eq!(parse_int("-99999999999999999999999999"), None);
    assert_eq!(parse_int("0000000000000000000000000000009"), Some(9));
}

#[test]
fn parse_int_agrees_with_std() {
    let samples = [
        "", "0", "-0", "+0", "1", "-1", "+1", "12345", "-12345", "+", "-", "++1", "1-", "1+1",
        "9223372036854775807", "9223372036854775808", "-9223372036854775808",
        "-9223372036854775809", "18446744073709551616", "a", "1a", "a1", " 1", "1 ", "1.5",
        "1e5", "0001", "-0001", "١", "１",
    ];
    for sample in samples {
        assert_eq!(parse_int(sample), sample.parse::<i64>().ok(), "on {:?}", sample);
    }
}

#[test]
fn float_text_accepts_the_literals() {
    for sample in [
        "3.14", "-3.14", "2.5E10", "2.5e10", "2.5E-10", "2.5e+10", "5.", ".5", "0.5", "7", "007",
        "inf", "-inf", "+infinity", "NaN", "nan", "INF", "Infinity", "iNfInItY", "+nan", "-NaN",
        "1e5", "1E5", "1.e5", ".5e5", "+.5", "-5.", "0", "-0", "1e0005", "42",
    ] {
        assert!(is_float_text(sample), "on {:?}", sample);
    }
}

#[test]
fn float_text_rejects_what_is_no_literal() {
    for sample in [
        "", "+", "-", ".", "+.", "e5", ".e5", "1e", "1e+", "1e-", "1e5.5", "1.2.3", "abc", "in",
        "infinit", "infinityy", "na", "nane", " 1", "1 ", "1_0", "0x10", "1f", "--1", "+-1",
        "1e++5", "1ee5", "١", "1\u{e9}", "i\u{307}nf", "a/b",
    ] {
        assert!(!is_float_text(sample), "on {:?}", sample);
    }
}

#[test]
fn float_text_agrees_with_std() {
    let samples = [
        "", "0", "1", "-1", "+1", "1.", ".1", ".", "1.5", "-1.5", "1e1", "1e", "e1", "1e+1",
        "1e-1", "1e+", "1E1", "1.5e3", "1.5e3.2", "inf", "-inf", "+inf", "infinity", "Infinity",
        "infinit", "nan", "NaN", "-nan", "nana", "1e400", "1e-400", "0.0000000001",
        "123456789012345678901234567890", "1,5", "1 5", "0x1p3", "1f", "1d", "++1", "+-1", "-+1",
        "١.٥", "1.5\u{e9}", "1/2", "in", "INF", "INFINITY", "iNf",
    ];
    for sample in samples {
        assert_eq!(is_float_text(sample), sample.parse::<f64>().is_ok(), "on {:?}", sample);
    }
}

#[test]
fn split_segment_cuts_at_the_first_slash() {
    assert_eq!(split_segment("users/42/posts"), ("users", "42/posts"));
    assert_eq!(split_segment("users"), ("users", ""));
    assert_eq!(split_segment(""), ("", ""));
    assert_eq!(split_segment("/users"), ("", "users"));
    assert_eq!(split_segment("users/"), ("users", ""));
    assert_eq!(split_segment("/"), ("", ""));
    assert_eq!(split_segment("//a"), ("", "/a"));
    assert_eq!(split_segment("caf\u{e9}/\u{4e2d}\u{6587}/x"), ("caf\u{e9}", "\u{4e2d}\u{6587}/x"));
}

#[test]
fn strip_edge_follows_a_prefix_of_whole_segments() {
    assert_eq!(strip_edge("api/v1", "api/v1/users"), Some("users"));
    assert_eq!(strip_edge("api/v1", "api/v1"), Some(""));
    assert_eq!(strip_edge("api/v1", "api/v1/"), Some(""));
    assert_eq!(strip_edge("api/v1", "api/v12/users"), None);
    assert_eq!(strip_edge("api/v1", "api/v"), None);
    assert_eq!(strip_edge("api/v1", "api"), None);
    assert_eq!(strip_edge("api/v1", "xapi/v1/users"), None);
    assert_eq!(strip_edge("", "/users"), Some("users"));
    assert_eq!(strip_edge("", "users"), None);
    assert_eq!(strip_edge("caf\u{e9}", "caf\u{e9}/\u{4e2d}"), Some("\u{4e2d}"));
    assert_eq!(strip_edge("caf\u{e9}", "cafe/x"), None);
}

#[test]
fn str_eq_compares_texts() {
    assert!(str_eq("", ""));
    assert!(str_eq("GET", "GET"));
    assert!(!str_eq("GET", "get"));
    assert!(!str_eq("GET", "GE"));
    assert!(!str_eq("GE", "GET"));
    assert!(str_eq("caf\u{e9}", "caf\u{e9}"));
    assert!(!str_eq("caf\u{e9}", "cafe"));
}

#[test]
fn contains_slash_finds_a_slash() {
    assert!(!contains_slash(""));
    assert!(!contains_slash("abc"));
    assert!(contains_slash("/"));
    assert!(contains_slash("abc/def"));
    assert!(contains_slash("abc/"));
    assert!(!contains_slash("caf\u{e9}"));
    assert!(contains_slash("caf\u{e9}/x"));
}
