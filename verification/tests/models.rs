use serde_json::Value;
use smc::json::Json;
use smc::models::{
    json_string_values, tool_result_text, ContentBlock, ContentView, Message, MessageContent,
    MessageRecord, Record,
};

// ---- Reading logs -----------------------------------------------------------

fn to_json(v: &Value) -> Json {
    Json::parse(v.to_string().as_bytes()).unwrap()
}

/// A member that is a string, absent or null; nothing where it is anything else.
fn text_member(v: &Value, key: &str) -> Option<Option<String>> {
    match v.get(key) {
        None | Some(Value::Null) => Some(None),
        Some(Value::String(s)) => Some(Some(s.clone())),
        Some(_) => None,
    }
}

fn block(v: &Value) -> Option<ContentBlock> {
    match v.get("type")?.as_str()? {
        "text" => Some(ContentBlock::Text { text: v.get("text")?.as_str()?.to_string() }),
        "thinking" => {
            Some(ContentBlock::Thinking { thinking: v.get("thinking")?.as_str()?.to_string() })
        }
        "tool_use" => Some(ContentBlock::ToolUse {
            id: text_member(v, "id")?,
            name: v.get("name")?.as_str()?.to_string(),
            input: to_json(v.get("input")?),
        }),
        "tool_result" => Some(ContentBlock::ToolResult {
            tool_use_id: text_member(v, "tool_use_id")?,
            content: v.get("content").filter(|c| !c.is_null()).map(to_json),
        }),
        _ => Some(ContentBlock::Other),
    }
}

fn message(v: &Value) -> Option<Message> {
    let content = match v.get("content")? {
        Value::String(s) => MessageContent::Text(s.clone()),
        Value::Array(a) => {
            MessageContent::Blocks(a.iter().map(block).collect::<Option<Vec<_>>>()?)
        }
        _ => return None,
    };
    Some(Message { role: v.get("role")?.as_str()?.to_string(), content })
}

fn message_record(v: &Value) -> Option<MessageRecord> {
    Some(MessageRecord {
        uuid: text_member(v, "uuid")?,
        parent_uuid: v.get("parentUuid").filter(|p| !p.is_null()).map(to_json),
        session_id: text_member(v, "sessionId")?,
        timestamp: text_member(v, "timestamp")?,
        cwd: text_member(v, "cwd")?,
        git_branch: text_member(v, "gitBranch")?,
        version: text_member(v, "version")?,
        message: match v.get("message") {
            None | Some(Value::Null) => None,
            Some(m) => Some(message(m)?),
        },
        content: text_member(v, "content")?,
    })
}

fn record(line: &str) -> Option<Record> {
    let v: Value = serde_json::from_str(line).ok()?;
    match v.get("type")?.as_str()? {
        "user" => Some(Record::User(message_record(&v)?)),
        "assistant" => Some(Record::Assistant(message_record(&v)?)),
        "system" => Some(Record::System(message_record(&v)?)),
        "file-history-snapshot" => Some(Record::FileHistorySnapshot(to_json(&v))),
        "progress" => Some(Record::Progress(to_json(&v))),
        _ => Some(Record::Unknown),
    }
}

fn parse(line: &str) -> Record {
    record(line).expect("record should parse")
}

fn json(text: &str) -> Json {
    Json::parse(text.as_bytes()).expect("a JSON text")
}

#[test]
fn system_record_without_message_parses() {
    // Real shape: system records have no `message` key at all.
    let r = parse(
        r#"{"type":"system","subtype":"turn_duration","uuid":"u1","timestamp":"2026-07-12T00:00:00Z","durationMs":1234}"#,
    );
    assert_eq!(r.role(), "system");
    let msg = r.as_message().unwrap();
    assert_eq!(msg.text_content(), "");
    assert_eq!(msg.full_content(), "");
}

#[test]
fn system_record_with_top_level_content() {
    let r = parse(
        r#"{"type":"system","content":"Hook output: lint passed","uuid":"u2","timestamp":"2026-07-12T00:00:00Z"}"#,
    );
    assert_eq!(r.role(), "system");
    let msg = r.as_message().unwrap();
    assert_eq!(msg.text_content(), "Hook output: lint passed");
    assert_eq!(msg.full_content(), "Hook output: lint passed");
}

#[test]
fn tool_result_text_from_block_list() {
    // The common on-disk shape: a list of {type, text} blocks.
    let v = json(r#"[{"type":"text","text":"line one\nline \"two\""}]"#);
    assert_eq!(tool_result_text(&v), "line one\nline \"two\"");
}

#[test]
fn tool_result_text_from_plain_string() {
    let v = json(r#""plain result""#);
    assert_eq!(tool_result_text(&v), "plain result");
}

#[test]
fn tool_result_text_adversarial_shapes() {
    // Mixed/malformed lists must not panic and should keep what's usable.
    let v = json(r#"["bare string", {"no_text": 1}, {"text": "block"}, 42, null]"#);
    assert_eq!(tool_result_text(&v), "bare string\nblock");
    // Non-string/list falls back to JSON serialization.
    let v = json(r#"{"weird": true}"#);
    assert_eq!(tool_result_text(&v), r#"{"weird":true}"#);
}

#[test]
fn full_content_searchable_across_tool_result_lines() {
    // Regression: phrases with quotes/newlines inside tool results must match.
    let r = parse(
        r#"{"type":"user","message":{"role":"user","content":[{"type":"tool_result","tool_use_id":"t1","content":[{"type":"text","text":"error: cannot find value `foo_bar`\nhelp: try \"baz\""}]}]}}"#,
    );
    let text = r.as_message().unwrap().full_content();
    assert!(text.contains("cannot find value `foo_bar`"));
    assert!(text.contains("try \"baz\""), "quotes must not be JSON-escaped");
}

#[test]
fn unknown_block_type_is_tolerated() {
    let r = parse(
        r#"{"type":"assistant","message":{"role":"assistant","content":[{"type":"banana","peel":true},{"type":"text","text":"hi"}]}}"#,
    );
    assert_eq!(r.as_message().unwrap().text_content(), "hi");
}

#[test]
fn tool_input_text_is_searchable_unescaped() {
    // Regression: Write/Edit file content and Bash commands live in tool
    // INPUT string values; they used to be searched as escaped JSON.
    let r = parse(
        r##"{"type":"assistant","message":{"role":"assistant","content":[{"type":"tool_use","id":"t1","name":"Write","input":{"file_path":"/tmp/x.yaml","content":"# no app change is required.\nexpire_in: 86400\nname: \"prod\""}}]}}"##,
    );
    let msg = r.as_message().unwrap();
    let full = msg.full_content();
    assert!(full.contains("[tool: Write]"));
    assert!(full.contains("# no app change is required.\nexpire_in: 86400"));
    assert!(full.contains("name: \"prod\""), "quotes must not be JSON-escaped");
    assert!(msg.tool_input_content().contains("expire_in: 86400"));
}

#[test]
fn json_string_values_walks_nested_shapes() {
    let v = json(
        r#"{
            "a": "top",
            "b": {"c": ["deep", {"d": "deeper"}], "n": 42, "t": true},
            "z": null
        }"#,
    );
    let s = json_string_values(&v);
    for expect in ["top", "deep", "deeper"] {
        assert!(s.contains(expect));
    }
    assert!(!s.contains("42"), "non-string leaves are not text");
    assert_eq!(json_string_values(&json("{}")), "");
}

#[test]
fn touches_file_via_tool_result() {
    let r = parse(
        r#"{"type":"user","message":{"role":"user","content":[{"type":"tool_result","tool_use_id":"t","content":[{"type":"text","text":"edited /Users/x/src/Main.swift"}]}]}}"#,
    );
    assert!(r.as_message().unwrap().touches_file("main.swift"));
    assert!(!r.as_message().unwrap().touches_file("other.rs"));
}

const TALK: &str = r#"{"type":"assistant","parentUuid":"p","message":{"role":"assistant","content":[
    {"type":"thinking","thinking":"hm"},
    {"type":"text","text":"said"},
    {"type":"thinking","thinking":""},
    {"type":"tool_use","name":"Bash","input":{"z":"last","a":["one",2]}},
    {"type":"tool_result","content":"done"},
    {"type":"tool_result"},
    {"type":"tool_use","name":"Read","input":{}}]}}"#;

#[test]
fn each_reading_takes_its_blocks() {
    let r = parse(TALK);
    let m = r.as_message().unwrap();
    assert_eq!(m.text_content(), "hm\nsaid");
    assert_eq!(m.text_no_thinking(), "said");
    assert_eq!(m.thinking_content(), "hm");
    assert_eq!(m.tool_input_content(), "[Bash] one\nlast\n[Read] ");
    assert_eq!(
        m.full_content(),
        "hm\nsaid\n[tool: Bash] one\nlast\n[result] done\n[tool: Read] "
    );
    assert_eq!(m.tool_names(), vec!["Bash", "Read"]);
    assert_eq!(m.parent_uuid_str(), Some("p".to_string()));
    assert!(m.touches_file("LAST"));
    assert!(!m.touches_file("said"));
}

#[test]
fn plain_text_is_said() {
    let r = parse(r#"{"type":"user","parentUuid":7,"message":{"role":"user","content":"hello"}}"#);
    let m = r.as_message().unwrap();
    assert_eq!(m.text_content(), "hello");
    assert_eq!(m.text_no_thinking(), "hello");
    assert_eq!(m.full_content(), "hello");
    assert_eq!(m.thinking_content(), "");
    assert_eq!(m.tool_input_content(), "");
    assert!(m.tool_names().is_empty());
    assert!(!m.touches_file("hello"));
    assert_eq!(m.parent_uuid_str(), None);
    assert!(matches!(m.content_view(), ContentView::Text("hello")));
    assert!(r.is_message());
}

#[test]
fn other_records_carry_no_message() {
    for (line, role) in [
        (r#"{"type":"progress","x":1}"#, "other"),
        (r#"{"type":"file-history-snapshot"}"#, "other"),
        (r#"{"type":"anything"}"#, "other"),
    ] {
        let r = parse(line);
        assert!(!r.is_message());
        assert!(r.as_message().is_none());
        assert_eq!(r.role(), role);
    }
}
