use layer0::text::{address_key, decimal_string, parse_i64, path_segments, split_address, text_eq};

#[test]
fn decimal_text_values() {
    assert_eq!(decimal_string(0), "0");
    assert_eq!(decimal_string(8080), "8080");
    assert_eq!(decimal_string(-45), "-45");
    assert_eq!(decimal_string(i64::MIN), "-9223372036854775808");
    assert_eq!(decimal_string(i64::MAX), "9223372036854775807");
}

#[test]
fn parse_matches_std() {
    for s in ["", "+", "-", "0", "-0", "+12", "007", "12a", " 1", "9223372036854775807",
        "9223372036854775808", "-9223372036854775808", "-9223372036854775809", "١٢"] {
        assert_eq!(parse_i64(s), s.parse::<i64>().ok(), "{}", s);
    }
}

#[test]
fn decimal_then_parse_roundtrip() {
    for n in [0i64, 1, -1, 42, -8080, i64::MIN, i64::MAX] {
        assert_eq!(parse_i64(&decimal_string(n)), Some(n));
    }
}

#[test]
fn split_fields() {
    assert_eq!(split_address("a:b:c"), ("a".to_string(), Some("b".to_string())));
    assert_eq!(split_address("abc"), ("abc".to_string(), None));
    assert_eq!(split_address(":"), ("".to_string(), Some("".to_string())));
    assert_eq!(split_address("é:ü"), ("é".to_string(), Some("ü".to_string())));
}

#[test]
fn address_key_format() {
    assert_eq!(address_key("127.0.0.1", 8080), format!("{}:{}", "127.0.0.1", 8080));
    assert_eq!(address_key("h", -3), "h:-3");
}

#[test]
fn text_equality() {
    assert!(text_eq("ping", "ping"));
    assert!(!text_eq("ping", "Ping"));
}

#[test]
fn path_segments_match_split() {
    for p in ["", "a", "a->b", "a->b->c", "->", "a-->b", "->->", "a->", "-", ">", "a-b>c"] {
        let want: Vec<String> = p.split("->").map(|x| x.to_string()).collect();
        assert_eq!(path_segments(p), want, "{}", p);
    }
}
