use smc::json::Json;
use smc::output::{Emitter, ErrorRecord, MetaRecord, SummaryRecord, SMC_TAG};
use serde_json::Value;

fn json(text: &str) -> Json {
    Json::parse(text.as_bytes()).expect("a JSON text")
}

fn values(em: Emitter) -> Vec<Value> {
    em.into_records().iter().map(|j| serde_json::from_str(&j.to_text()).unwrap()).collect()
}

#[test]
fn emits_jsonl() {
    let mut em = Emitter::capturing(0);
    em.emit(&json(r#"{"type": "match", "line": 1}"#));
    em.emit(&json(r#"{"type": "match", "line": 2}"#));
    let records = values(em);
    // Leading meta header + the two emitted records.
    assert_eq!(records.len(), 3);
    assert_eq!(records[0]["type"], "meta");
    assert_eq!(records[1]["line"], 1);
    assert_eq!(records[2]["line"], 2);
}

#[test]
fn first_record_is_meta_with_tag() {
    let mut em = Emitter::capturing(0);
    em.emit(&json(r#"{"type": "match"}"#));
    let records = values(em);
    assert_eq!(records[0]["type"], "meta");
    assert_eq!(records[0]["tag"], SMC_TAG);
    assert_eq!(records[0]["tool"], "smc");
}

#[test]
fn header_survives_truncation() {
    // Even with a budget too small for real records, the header is still written
    // so `search` can exclude the output.
    let mut em = Emitter::capturing(1);
    let _ = em.emit(&json(r#"{"type": "match", "data": "aaaa bbbb cccc dddd"}"#));
    let bytes = em.into_bytes();
    let text = String::from_utf8(bytes).unwrap();
    assert!(text.contains(SMC_TAG));
}

#[test]
fn budget_truncates() {
    let mut em = Emitter::capturing(1);
    let big = json(r#"{"type": "x", "data": "aaaa bbbb cccc dddd eeee ffff"}"#);
    let ok = em.emit(&big);
    assert!(!ok);
    assert!(em.truncated);
}

#[test]
fn zero_budget_is_unlimited() {
    let mut em = Emitter::capturing(0);
    for i in 0..100 {
        assert!(em.emit(&json(&format!("{{\"n\": {i}}}"))));
    }
    assert!(!em.truncated);
}

#[test]
fn warn_emits_warning_record() {
    let mut em = Emitter::capturing(0);
    em.warn(Some("foo.jsonl"), "bad line");
    let records = values(em);
    // Leading meta header + the warning.
    assert_eq!(records.len(), 2);
    assert_eq!(records[1]["type"], "warning");
}

#[test]
fn lines_are_written_as_they_are() {
    let mut em = Emitter::capturing(0);
    em.warn(Some("a \"b\"\n.jsonl"), "é\t");
    em.emit_always(&ErrorRecord::new(None, "x"));
    em.emit_always(&SummaryRecord {
        record_type: "summary",
        count: 12,
        files_scanned: Some(0),
        elapsed_ms: 340282366920938463463374607431768211455,
    });
    let text = String::from_utf8(em.into_bytes()).unwrap();
    assert_eq!(
        text,
        "{\"type\":\"meta\",\"tool\":\"smc\",\"tag\":\"<smc-cc-cli>\",\"version\":\"0.9.1\"}\n\
         {\"type\":\"warning\",\"file\":\"a \\\"b\\\"\\n.jsonl\",\"message\":\"é\\t\"}\n\
         {\"type\":\"error\",\"message\":\"x\"}\n\
         {\"type\":\"summary\",\"count\":12,\"files_scanned\":0,\
         \"elapsed_ms\":340282366920938463463374607431768211455}\n"
    );
}

#[test]
fn the_header_is_that_of_the_version() {
    let m = MetaRecord::current();
    assert_eq!((m.record_type, m.tool, m.tag, m.version), ("meta", "smc", "<smc-cc-cli>", "0.9.1"));
}

#[test]
fn raw_lines_open_with_a_comment() {
    let mut em = Emitter::capturing(0);
    assert!(em.raw("# Title"));
    assert!(em.raw(""));
    let text = String::from_utf8(em.into_bytes()).unwrap();
    assert_eq!(text, "<!-- smc <smc-cc-cli> v0.9.1 -->\n# Title\n\n");
}

#[test]
fn tokens_count_four_bytes_each_and_one_more() {
    let mut em = Emitter::new(0);
    assert_eq!(em.tokens_used(), 0);
    em.raw("12345678");
    // 32 bytes of header, 8 of text.
    assert_eq!(em.tokens_used(), 9 + 3);
    em.raw("é");
    assert_eq!(em.tokens_used(), 9 + 3 + 1);
}

#[test]
fn a_budget_is_used_up_to_the_last_token() {
    // The header takes 9 tokens, each line of 8 bytes 3.
    let mut em = Emitter::new(12);
    assert!(em.raw("12345678"));
    assert!(!em.truncated);
    assert!(!em.raw(""));
    assert!(em.truncated);
    assert_eq!(em.tokens_used(), 12);
    em.emit_always(&json("{}"));
    assert_eq!(em.tokens_used(), 13);
}

#[test]
fn flush_hands_over_what_is_new() {
    let mut em = Emitter::new(0);
    em.raw("a");
    assert_eq!(em.flush(), b"<!-- smc <smc-cc-cli> v0.9.1 -->\na\n".to_vec());
    assert_eq!(em.flush(), Vec::<u8>::new());
    em.raw("é");
    assert_eq!(em.flush(), "é\n".as_bytes().to_vec());
    assert_eq!(em.into_bytes().len(), 32 + 1 + 2 + 3);
}

#[test]
fn records_that_are_no_json_are_passed_over() {
    let mut em = Emitter::capturing(0);
    em.raw("no json");
    em.raw("");
    em.raw("7");
    let records = em.into_records();
    assert_eq!(records.len(), 1);
    assert_eq!(records[0].to_text(), "7");
}

#[test]
fn a_record_stays_on_its_line() {
    let mut em = Emitter::capturing(0);
    em.emit(&json("{\"a\":\"one\\ntwo\"}"));
    em.emit(&json("[\"\\n\",\"é\"]"));
    let text = String::from_utf8(em.into_bytes()).unwrap();
    assert!(text.ends_with('\n'));
    let lines: Vec<&str> = text.lines().skip(1).collect();
    assert_eq!(lines, vec!["{\"a\":\"one\\ntwo\"}", "[\"\\n\",\"é\"]"]);
}

#[test]
fn what_was_written_is_read_back() {
    let mut em = Emitter::capturing(0);
    let written = ["{\"a\":[1,2.5,null,true]}", "\"x\"", "[]"];
    for w in written {
        em.emit(&json(w));
    }
    let read: Vec<String> = em.into_records().iter().skip(1).map(|j| j.to_text()).collect();
    assert_eq!(read, written);
}

#[test]
fn one_header_comes_first_whatever_is_written() {
    let header = "{\"type\":\"meta\",\"tool\":\"smc\",\"tag\":\"<smc-cc-cli>\",\"version\":\"0.9.1\"}\n";
    let comment = "<!-- smc <smc-cc-cli> v0.9.1 -->\n";
    for budget in [0, 1, 1000] {
        let mut em = Emitter::new(budget);
        em.warn(None, "w");
        em.raw("r");
        em.emit_always(&json("1"));
        em.emit(&json("2"));
        let text = String::from_utf8(em.into_bytes()).unwrap();
        let rest = if budget == 1 {
            "1\n"
        } else {
            "{\"type\":\"warning\",\"message\":\"w\"}\nr\n1\n2\n"
        };
        assert_eq!(text, format!("{header}{rest}"));
        let mut em = Emitter::new(budget);
        em.raw("r");
        em.emit(&json("2"));
        let text = String::from_utf8(em.into_bytes()).unwrap();
        let rest = if budget == 1 { "" } else { "r\n2\n" };
        assert_eq!(text, format!("{comment}{rest}"));
    }
    assert!(Emitter::new(1).into_bytes().is_empty());
}

#[test]
fn the_mark_of_a_cut_can_be_asked_for() {
    let mut em = Emitter::new(1);
    assert!(!em.is_truncated());
    em.raw("x");
    assert!(em.is_truncated());
}

#[test]
fn records_of_the_library_are_read_back() {
    let mut em = Emitter::capturing(0);
    em.warn(Some("a\u{1}b"), "\"q\"\\");
    em.emit_always(&SummaryRecord {
        record_type: "summary",
        count: usize::MAX,
        files_scanned: None,
        elapsed_ms: u64::MAX as u128,
    });
    em.emit(&json("{\"b\":-9223372036854775808,\"a\":[{}]}"));
    let read: Vec<String> = em.into_records().iter().map(|j| j.to_text()).collect();
    // The members of an object come in the order of their names.
    assert_eq!(
        read,
        vec![
            "{\"tag\":\"<smc-cc-cli>\",\"tool\":\"smc\",\"type\":\"meta\",\"version\":\"0.9.1\"}"
                .to_string(),
            "{\"file\":\"a\\u0001b\",\"message\":\"\\\"q\\\"\\\\\",\"type\":\"warning\"}".to_string(),
            format!(
                "{{\"count\":{},\"elapsed_ms\":18446744073709551615,\"type\":\"summary\"}}",
                usize::MAX
            ),
            "{\"a\":[{}],\"b\":-9223372036854775808}".to_string(),
        ]
    );
}
