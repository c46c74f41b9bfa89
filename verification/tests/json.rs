use smc::json::{Json, JsonLine};

#[test]
fn values_are_read_and_written() {
    for text in [
        "null",
        "true",
        "-12.5",
        "18446744073709551615",
        "\"a\\n\\\"b\\\" é\"",
        "[1,[],{}]",
        "{\"a\":1,\"b\":[null]}",
    ] {
        assert_eq!(Json::parse(text.as_bytes()).unwrap().to_text(), text);
        assert_eq!(Json::parse(text.as_bytes()).unwrap().to_line(), text);
    }
    assert_eq!(Json::parse(b" { \"a\" : 1 } ").unwrap().to_text(), "{\"a\":1}");
    assert!(Json::parse(b"{").is_none());
    assert!(Json::parse(b"").is_none());
    assert!(Json::parse(&[0xff, 0xfe]).is_none());
}

#[test]
fn members_are_found_by_name() {
    let v = Json::parse(b"{\"a\":{\"b\":\"c\"},\"n\":1}").unwrap();
    assert_eq!(v.get("a").unwrap().get("b").unwrap().as_str(), Some("c"));
    assert!(v.get("x").is_none());
    assert!(v.get("n").unwrap().as_str().is_none());
    assert!(v.get("n").unwrap().get("x").is_none());
    let twice = Json::Object(vec![
        ("k".to_string(), Json::Bool(true)),
        ("k".to_string(), Json::Null),
    ]);
    assert!(matches!(twice.get("k"), Some(Json::Bool(true))));
}

#[test]
fn texts_are_those_of_the_outside_crate() {
    for text in [
        "[1E2, -0, 0.1, 1e400000000000000000000]",
        "[1E2, -0, 0.1, 12345678901234567890123]",
        "{\"b\":1,\"a\":{\"y\":[],\"x\":\"\\u0000\\u001f\\u007f\\/\"}}",
        "{\"k\":1,\"k\":2}",
        "[[[[\"\\ud83d\\ude00\"]]]]",
        "\"\\ud800\"",
        "nul",
        "1 2",
    ] {
        let want = serde_json::from_str::<serde_json::Value>(text).ok().map(|v| v.to_string());
        assert_eq!(Json::parse(text.as_bytes()).map(|v| v.to_text()), want, "{text}");
        // What was read is read again from its own text.
        if let Some(v) = Json::parse(text.as_bytes()) {
            let again = Json::parse(v.to_text().as_bytes()).unwrap();
            assert_eq!(again.to_text(), v.to_text());
        }
    }
    assert_eq!(Json::parse(b"1E2").unwrap().to_text(), "100.0");
    assert_eq!(Json::parse(b"{\"b\":1,\"a\":2}").unwrap().to_text(), "{\"a\":2,\"b\":1}");
}

#[test]
fn texts_are_escaped_character_by_character() {
    for code in 0..0x300u32 {
        let c = char::from_u32(code).unwrap();
        let want = match c {
            '"' => "\"\\\"\"".to_string(),
            '\\' => "\"\\\\\"".to_string(),
            '\u{8}' => "\"\\b\"".to_string(),
            '\u{c}' => "\"\\f\"".to_string(),
            '\n' => "\"\\n\"".to_string(),
            '\r' => "\"\\r\"".to_string(),
            '\t' => "\"\\t\"".to_string(),
            c if c < ' ' => format!("\"\\u{code:04x}\""),
            c => format!("\"{c}\""),
        };
        assert_eq!(Json::Str(c.to_string()).to_text(), want);
    }
    assert_eq!(Json::Str("日🎉\u{2028}".to_string()).to_text(), "\"日🎉\u{2028}\"");
}

#[test]
fn values_are_read_back_up_to_the_limit_of_depth() {
    let nested = |n: usize| format!("{}{}", "[".repeat(n), "]".repeat(n));
    assert_eq!(Json::parse(nested(127).as_bytes()).unwrap().to_text(), nested(127));
    assert!(Json::parse(nested(128).as_bytes()).is_none());
    for text in ["0", "18446744073709551615", "-1", "-9223372036854775808"] {
        assert_eq!(Json::parse(text.as_bytes()).unwrap().to_text(), text);
    }
    // Names are ordered by their code points.
    let text = "{\"\":1,\"B\":2,\"a\":3,\"é\":4,\"\u{ffff}\":5,\"🎉\":6}";
    assert_eq!(Json::parse(text.as_bytes()).unwrap().to_text(), text);
}
