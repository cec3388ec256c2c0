use noisescope::json::{parse, parse_aborts, Json, ObjBuilder};

#[test]
fn roundtrip_object() {
    let v = parse(r#"{"a":1,"b":[true,null,"x"]}"#).unwrap();
    assert_eq!(v.get("a"), Some(&Json::Num("1".to_string())));
    assert_eq!(v.to_compact(), r#"{"a":1,"b":[true,null,"x"]}"#);
}

#[test]
fn integers_have_no_decimal() {
    let v = Json::Num("42".to_string());
    assert_eq!(v.to_compact(), "42");
}

#[test]
fn string_escapes() {
    let v = parse(r#""line\nbreak\t\u0041""#).unwrap();
    assert_eq!(v.as_str(), Some("line\nbreak\tA"));
}

#[test]
fn comments_allowed() {
    let v = parse("{\n // a comment\n \"k\": 1\n}").unwrap();
    assert_eq!(v.get("k"), Some(&Json::Num("1".to_string())));
}

#[test]
fn rejects_trailing_garbage() {
    assert!(parse("{} junk").is_err());
}

#[test]
fn builder_dedup() {
    let o = ObjBuilder::new()
        .set("a", Json::Num("1".to_string()))
        .set("a", Json::Num("2".to_string()))
        .build();
    assert_eq!(o.to_compact(), r#"{"a":2}"#);
}

#[test]
fn error_positions_are_bytes() {
    let e = parse("[\"é\", x]").unwrap_err();
    assert_eq!(e.message, "unexpected character");
    assert_eq!(e.position, 7);
    assert_eq!(e.to_string(), "JSON error at byte 7: unexpected character");
    let e = parse("{} junk").unwrap_err();
    assert_eq!(e.message, "trailing characters after JSON document");
    assert_eq!(e.position, 3);
    assert_eq!(parse("").unwrap_err().message, "unexpected end of input");
    assert_eq!(parse("  ").unwrap_err().position, 2);
}

#[test]
fn error_messages() {
    assert_eq!(parse("{1:2}").unwrap_err().message, "expected string key in object");
    assert_eq!(parse("{\"a\" 2}").unwrap_err().message, "expected ':' after object key");
    assert_eq!(parse("{\"a\":2 3}").unwrap_err().message, "expected ',' or '}' in object");
    assert_eq!(parse("[1 2]").unwrap_err().message, "expected ',' or ']' in array");
    assert_eq!(parse("\"abc").unwrap_err().message, "unterminated string");
    assert_eq!(parse("\"\\q\"").unwrap_err().message, "invalid escape sequence");
    assert_eq!(parse("\"\\u12g4\"").unwrap_err().message, "invalid \\u escape");
    assert_eq!(parse("\"\\uD800x\"").unwrap_err().message, "unpaired high surrogate");
    assert_eq!(parse("\"\\uDC00\"").unwrap_err().message, "invalid unicode escape");
    assert_eq!(parse("tru").unwrap_err().message, "invalid literal");
    assert_eq!(parse("nul").unwrap_err().message, "invalid literal");
    assert_eq!(parse("-").unwrap_err().message, "invalid number literal");
    assert_eq!(parse("1e").unwrap_err().message, "invalid number literal");
    assert_eq!(parse("@").unwrap_err().message, "unexpected character");
}

#[test]
fn numbers_keep_their_text() {
    for lit in ["0", "-12", "3.25", "1e5", "2E-3", "1.", "-0.5e+7"] {
        assert_eq!(parse(lit).unwrap(), Json::Num(lit.to_string()));
    }
    assert!(parse(".5").is_err());
}

#[test]
fn surrogate_pairs_and_literals() {
    let v = parse(r#"["\ud83d\ude00", true, false, null, "\/\b\f\r\\\""]"#).unwrap();
    let items = v.as_array().unwrap();
    assert_eq!(items[0].as_str(), Some("\u{1F600}"));
    assert_eq!(items[1].as_bool(), Some(true));
    assert_eq!(items[2].as_bool(), Some(false));
    assert_eq!(items[3], Json::Null);
    assert_eq!(items[4].as_str(), Some("/\u{8}\u{c}\r\\\""));
    assert_eq!(v.get("x"), None);
    assert_eq!(items[0].as_bool(), None);
}

#[test]
fn get_finds_first_entry() {
    let v = parse(r#"{"k":1,"k":2}"#).unwrap();
    assert_eq!(v.get("k"), Some(&Json::Num("1".to_string())));
}

#[test]
fn compact_escapes_control_characters() {
    let v = Json::Str("a\"b\\c\n\r\t\u{1}z".to_string());
    assert_eq!(v.to_compact(), "\"a\\\"b\\\\c\\n\\r\\t\\u0001z\"");
    assert_eq!(parse(&v.to_compact()).unwrap(), v);
}

#[test]
fn pretty_layout() {
    let v = parse(r#"{"a":[1,{}],"b":{"c":[]},"d":"x"}"#).unwrap();
    assert_eq!(
        v.to_pretty(),
        "{\n  \"a\": [\n    1,\n    {}\n  ],\n  \"b\": {\n    \"c\": []\n  },\n  \"d\": \"x\"\n}"
    );
    assert_eq!(Json::Arr(vec![]).to_pretty(), "[]");
}

#[test]
fn builder_keeps_first_insertion_order() {
    let o = ObjBuilder::default()
        .set("b", Json::Bool(true))
        .set("a", Json::Null)
        .set("b", Json::Str("x".to_string()))
        .build();
    assert_eq!(o.to_compact(), r#"{"b":"x","a":null}"#);
    assert_eq!(o.get("b"), Some(&Json::Str("x".to_string())));
}

#[test]
fn low_surrogate_after_high_is_not_parsed() {
    assert!(parse_aborts(r#""\uD800\u0041""#));
    assert!(parse_aborts(r#"{"k": ["\uDBFF\uDBFF"]}"#));
    assert!(!parse_aborts(r#""\uD83D\uDE00""#));
    assert!(!parse_aborts(r#"[1,, "\uD800\u0041"]"#));
    assert!(!parse_aborts("{}"));
}

#[test]
fn serialized_values_parse_back() {
    let inner = ObjBuilder::new()
        .set("s", Json::Str("tab\there \"q\" \\ \u{1} \u{1F600}".to_string()))
        .set("n", Json::Num("-12.5e3".to_string()))
        .set("empty", Json::Arr(vec![]))
        .build();
    let v = Json::Arr(vec![
        Json::Null,
        Json::Bool(true),
        Json::Bool(false),
        inner,
        Json::Obj(vec![]),
        Json::Arr(vec![Json::Num("0".to_string()), Json::Str(String::new())]),
    ]);
    assert_eq!(parse(&v.to_compact()).unwrap(), v);
    assert_eq!(parse(&v.to_pretty()).unwrap(), v);
}
