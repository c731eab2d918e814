use layer0::jsonize::{from_str, parse_json, read_json_member, Jsonize};

#[test]
fn member_reads() {
    let m = read_json_member(r#"{"a":{"b":1},"s":"txt","n":12}"#, "a").unwrap();
    assert!(m.is_object);
    assert_eq!(m.string, None);
    assert_eq!(m.shown, r#"{"b":1}"#);
    assert_eq!(m.dumped, r#"{"b":1}"#);
    let s = read_json_member(r#"{"a":{"b":1},"s":"txt","n":12}"#, "s").unwrap();
    assert!(!s.is_object);
    assert_eq!(s.string, Some("txt".to_string()));
    assert_eq!(s.shown, "txt");
    assert_eq!(s.dumped, "\"txt\"");
    let missing = read_json_member("{}", "x").unwrap();
    assert!(!missing.is_object);
    assert_eq!(missing.dumped, "null");
    assert!(read_json_member("{not json", "x").is_none());
}

#[test]
fn json_value_lookups() {
    let j = from_str(r#"{ "a" : { "b" : { "c" : 5 } }, "x" : "y" }"#);
    assert_eq!(j.dump(), r#"{"a":{"b":{"c":5}},"x":"y"}"#);
    assert!(j.has_key("a"));
    assert!(!j.has_key("x"));
    assert!(!j.has_key("zz"));
    assert_eq!(j.get_key("x").dump(), "\"y\"");
    assert_eq!(j.get_path("a->b->c").dump(), "5");
    assert_eq!(j.get_path("a->missing->c").dump(), "null");
    assert!(j.has_path("a->b"));
    assert!(!j.has_path("a->b->c"));
    assert!(!j.has_path(""));
    assert!(!j.has_path("q"));
}

#[test]
fn parse_json_rejects_non_json() {
    assert!(parse_json("[1,2").is_none());
    assert_eq!(parse_json("[1, 2]").unwrap().dump(), "[1,2]");
}
