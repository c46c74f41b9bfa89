//! Whole commands on synthetic logs, read back from their output.
use std::path::PathBuf;

use serde_json::Value;
use smc::cmd;
use smc::cmd::search::corpus::CorpusStats;
use smc::cmd::search::{GroupMode, SearchError, SearchOpts, SortMode};
use smc::cmd::{exit_code, parse_records, Session};
use smc::json::Json;
use smc::models::{ContentBlock, Message, MessageContent, MessageRecord, Record};
use smc::output::Emitter;
use smc::text::blank;
use smc::util::discover::SessionFile;

// ---- Reading logs -----------------------------------------------------------

fn to_json(v: &Value) -> Json {
    Json::parse(v.to_string().as_bytes()).unwrap()
}

/// A member that is a string, absent or null; nothing where it is anything else.
fn text_member(v: &Value, key: &str) -> Option<Option<String>> {
    match v.get(key) {
        None | Some(Value::Null) => Some(None),
        Some(Value::String(s)) => Some(Some(s.clone())),
        Some(_) => None,
    }
}

fn block(v: &Value) -> Option<ContentBlock> {
    match v.get("type")?.as_str()? {
        "text" => Some(ContentBlock::Text { text: v.get("text")?.as_str()?.to_string() }),
        "thinking" => {
            Some(ContentBlock::Thinking { thinking: v.get("thinking")?.as_str()?.to_string() })
        }
        "tool_use" => Some(ContentBlock::ToolUse {
            id: text_member(v, "id")?,
            name: v.get("name")?.as_str()?.to_string(),
            input: to_json(v.get("input")?),
        }),
        "tool_result" => Some(ContentBlock::ToolResult {
            tool_use_id: text_member(v, "tool_use_id")?,
            content: v.get("content").filter(|c| !c.is_null()).map(to_json),
        }),
        _ => Some(ContentBlock::Other),
    }
}

fn message(v: &Value) -> Option<Message> {
    let content = match v.get("content")? {
        Value::String(s) => MessageContent::Text(s.clone()),
        Value::Array(a) => {
            MessageContent::Blocks(a.iter().map(block).collect::<Option<Vec<_>>>()?)
        }
        _ => return None,
    };
    Some(Message { role: v.get("role")?.as_str()?.to_string(), content })
}

fn message_record(v: &Value) -> Option<MessageRecord> {
    Some(MessageRecord {
        uuid: text_member(v, "uuid")?,
        parent_uuid: v.get("parentUuid").filter(|p| !p.is_null()).map(to_json),
        session_id: text_member(v, "sessionId")?,
        timestamp: text_member(v, "timestamp")?,
        cwd: text_member(v, "cwd")?,
        git_branch: text_member(v, "gitBranch")?,
        version: text_member(v, "version")?,
        message: match v.get("message") {
            None | Some(Value::Null) => None,
            Some(m) => Some(message(m)?),
        },
        content: text_member(v, "content")?,
    })
}

fn record(line: &str) -> Option<Record> {
    let v: Value = serde_json::from_str(line).ok()?;
    match v.get("type")?.as_str()? {
        "user" => Some(Record::User(message_record(&v)?)),
        "assistant" => Some(Record::Assistant(message_record(&v)?)),
        "system" => Some(Record::System(message_record(&v)?)),
        "file-history-snapshot" => Some(Record::FileHistorySnapshot(to_json(&v))),
        "progress" => Some(Record::Progress(to_json(&v))),
        _ => Some(Record::Unknown),
    }
}

fn read_log(content: &str) -> Vec<(usize, Record)> {
    parse_records(
        content.lines().map(|l| if blank(l) { None } else { record(l) }).collect(),
    )
}

/// Rates a match for want of a better measure: how often the terms occur, over the length.
fn rate(_: &CorpusStats, tfs: &Vec<usize>, doc_len: usize) -> u64 {
    (tfs.iter().sum::<usize>() * 10_000 / doc_len.max(1)) as u64
}

const SECOND: i128 = 1_000_000_000;
const NOW: i128 = 1_800_000_000 * SECOND;

struct Corpus {
    sessions: Vec<Session>,
}

impl Corpus {
    fn new() -> Self {
        Self { sessions: Vec::new() }
    }

    fn add_session(&mut self, session_id: &str, project: &str, lines: &[String]) {
        self.add_content(session_id, project, &lines.join("\n"));
    }

    fn add_content(&mut self, session_id: &str, project: &str, content: &str) {
        self.sessions.push(Session {
            file: SessionFile {
                path: PathBuf::from(format!("{session_id}.jsonl")),
                session_id: session_id.to_string(),
                project_name: project.to_string(),
                size_bytes: content.len() as u64,
                modified: None,
            },
            records: Some(read_log(content)),
        });
    }

    /// A session whose log cannot be opened.
    fn add_unreadable(&mut self, session_id: &str, project: &str) {
        self.add_content(session_id, project, "");
        self.sessions.last_mut().unwrap().records = None;
    }
}

fn q(s: &str) -> String {
    serde_json::to_string(s).unwrap()
}

fn opt(s: Option<&str>) -> String {
    s.map_or("null".to_string(), q)
}

fn user(uuid: &str, parent: Option<&str>, ts: &str, text: &str) -> String {
    format!(
        "{{\"type\":\"user\",\"uuid\":{},\"parentUuid\":{},\"timestamp\":{},\
         \"message\":{{\"role\":\"user\",\"content\":{}}}}}",
        q(uuid),
        opt(parent),
        q(ts),
        q(text)
    )
}

fn assistant(uuid: &str, parent: Option<&str>, ts: &str, text: &str) -> String {
    format!(
        "{{\"type\":\"assistant\",\"uuid\":{},\"parentUuid\":{},\"timestamp\":{},\
         \"message\":{{\"role\":\"assistant\",\"content\":[{{\"type\":\"text\",\"text\":{}}}]}}}}",
        q(uuid),
        opt(parent),
        q(ts),
        q(text)
    )
}

fn tool_result(uuid: &str, ts: &str, text: &str) -> String {
    format!(
        "{{\"type\":\"user\",\"uuid\":{},\"timestamp\":{},\"message\":{{\"role\":\"user\",\
         \"content\":[{{\"type\":\"tool_result\",\"tool_use_id\":\"t1\",\
         \"content\":[{{\"type\":\"text\",\"text\":{}}}]}}]}}}}",
        q(uuid),
        q(ts),
        q(text)
    )
}

fn system(uuid: &str, ts: &str, content: &str) -> String {
    format!(
        "{{\"type\":\"system\",\"uuid\":{},\"timestamp\":{},\"content\":{}}}",
        q(uuid),
        q(ts),
        q(content)
    )
}

fn opts(queries: &[&str]) -> SearchOpts {
    SearchOpts {
        queries: queries.iter().map(|s| s.to_string()).collect(),
        is_regex: false,
        and_mode: false,
        role: None,
        tool: None,
        project: None,
        after: None,
        before: None,
        branch: None,
        file: None,
        tool_input: false,
        max_results: 50,
        include_smc: false,
        exclude_session: None,
        snippet_len: 500,
        sort: SortMode::Document,
        group_by: None,
        group_samples: 3,
        score: false,
        context: 0,
        phrase: false,
        dedupe: false,
        exclude_live: None,
    }
}

fn values(em: Emitter) -> Vec<Value> {
    em.into_records().iter().map(|j| serde_json::from_str(&j.to_text()).unwrap()).collect()
}

/// Runs a search; gives whether it found anything, the records without the header, and the
/// summary.
fn search(o: &SearchOpts, sessions: &Vec<Session>, budget: usize) -> (bool, Vec<Value>, Value) {
    let mut em = Emitter::capturing(budget);
    let found = cmd::search::run(o, sessions, NOW, 3, rate, &mut em).unwrap();
    let mut records = values(em);
    assert_eq!(records[0]["type"], "meta", "stream must start with the meta header");
    records.remove(0);
    let summary = records.pop().expect("summary record");
    assert_eq!(summary["type"], "summary", "stream must end with a summary");
    (found, records, summary)
}

// ---- Search basics ----------------------------------------------------------

#[test]
fn search_finds_matches_and_reports_honestly() {
    let mut c = Corpus::new();
    c.add_session(
        "aaaa1111",
        "projA",
        &[
            user("u1", None, "2026-01-01T10:00:00Z", "let's fix the flux capacitor"),
            assistant("a1", Some("u1"), "2026-01-01T10:00:05Z", "the flux capacitor is fixed"),
        ],
    );
    c.add_session(
        "bbbb2222",
        "projB",
        &[user("u2", None, "2026-01-02T10:00:00Z", "unrelated message")],
    );

    let (found, records, summary) = search(&opts(&["flux capacitor"]), &c.sessions, 0);
    assert!(found);
    assert_eq!(records.len(), 2);
    assert_eq!(summary["total_matched"], 2);
    assert_eq!(summary["count"], 2);
    assert_eq!(summary["files_scanned"], 2);
    assert_eq!(summary["truncated"], false);
    assert_eq!(summary["capped"], false);
    // Every match carries the cross-reference fields.
    for r in &records {
        assert!(r["line"].as_u64().unwrap() >= 1);
        assert!(r["uuid"].is_string());
        assert!(r["msg_chars"].as_u64().unwrap() > 0);
    }
}

#[test]
fn search_no_match_returns_false() {
    let mut c = Corpus::new();
    c.add_session("aaaa", "p", &[user("u1", None, "2026-01-01T00:00:00Z", "hello")]);
    let (found, records, summary) = search(&opts(&["absent_term"]), &c.sessions, 0);
    assert!(!found);
    assert!(records.is_empty());
    assert_eq!(summary["total_matched"], 0);
}

#[test]
fn phrases_inside_tool_results_match() {
    // Regression: tool_result content used to be searched as escaped JSON,
    // so phrases with quotes or newlines could never match.
    let mut c = Corpus::new();
    c.add_session(
        "cccc",
        "p",
        &[tool_result(
            "u1",
            "2026-01-01T00:00:00Z",
            "error: cannot find value `foo_bar`\nhelp: try \"baz\" instead",
        )],
    );
    let (found, records, _) = search(&opts(&["try \"baz\" instead"]), &c.sessions, 0);
    assert!(found, "quoted phrase inside a tool result must match");
    assert!(records[0]["text"].as_str().unwrap().contains("try \"baz\""));
}

#[test]
fn system_records_are_searchable() {
    // Regression: system records (no `message` key) never parsed at all.
    let mut c = Corpus::new();
    c.add_session(
        "dddd",
        "p",
        &[
            user("u1", None, "2026-01-01T00:00:00Z", "the user says something"),
            system("s1", "2026-01-01T00:00:01Z", "hook fired: the lint passed"),
        ],
    );
    let mut o = opts(&["the"]);
    o.role = Some("system".into());
    let (found, records, _) = search(&o, &c.sessions, 0);
    assert!(found);
    assert_eq!(records.len(), 1);
    assert_eq!(records[0]["role"], "system");
    assert!(records[0]["text"].as_str().unwrap().contains("hook fired"));
}

// ---- Caps, budgets, truncation signals --------------------------------------

#[test]
fn max_results_sets_capped_not_truncated() {
    let mut c = Corpus::new();
    let lines: Vec<String> = (0..10)
        .map(|i| user(&format!("u{i}"), None, "2026-01-01T00:00:00Z", "needle here"))
        .collect();
    c.add_session("eeee", "p", &lines);

    let mut o = opts(&["needle"]);
    o.max_results = 3;
    let (_, records, summary) = search(&o, &c.sessions, 0);
    assert_eq!(records.len(), 3);
    assert_eq!(summary["total_matched"], 10);
    assert_eq!(summary["capped"], true);
    assert_eq!(summary["truncated"], false);
}

#[test]
fn token_budget_truncates_but_summary_survives() {
    let mut c = Corpus::new();
    let long = "needle ".repeat(200);
    let lines: Vec<String> = (0..20)
        .map(|i| user(&format!("u{i}"), None, "2026-01-01T00:00:00Z", &long))
        .collect();
    c.add_session("ffff", "p", &lines);

    // Budget fits the header + a couple of records at most.
    let (_, _records, summary) = search(&opts(&["needle"]), &c.sessions, 300);
    assert_eq!(summary["truncated"], true, "budget cut must be flagged");
    assert_eq!(summary["total_matched"], 20, "total_matched stays exact");
}

// ---- Sorting, grouping, context ---------------------------------------------

#[test]
fn sort_recency_is_newest_first() {
    let mut c = Corpus::new();
    c.add_session(
        "gggg",
        "p",
        &[
            user("u1", None, "2026-01-01T00:00:00Z", "needle old"),
            user("u2", None, "2026-03-01T00:00:00Z", "needle new"),
            user("u3", None, "2026-02-01T00:00:00Z", "needle mid"),
        ],
    );
    let mut o = opts(&["needle"]);
    o.sort = SortMode::Recency;
    let (_, records, _) = search(&o, &c.sessions, 0);
    let ts: Vec<&str> = records.iter().map(|r| r["timestamp"].as_str().unwrap()).collect();
    assert_eq!(ts, vec!["2026-03-01T00:00:00Z", "2026-02-01T00:00:00Z", "2026-01-01T00:00:00Z"]);
}

#[test]
fn group_by_session_collapses_hits() {
    let mut c = Corpus::new();
    c.add_session(
        "hhh1",
        "p",
        &(0..5)
            .map(|i| user(&format!("u{i}"), None, "2026-01-01T00:00:00Z", "needle"))
            .collect::<Vec<_>>(),
    );
    c.add_session("hhh2", "p", &[user("x", None, "2026-01-02T00:00:00Z", "needle")]);

    let mut o = opts(&["needle"]);
    o.group_by = Some(GroupMode::Session);
    o.group_samples = 2;
    let (_, records, summary) = search(&o, &c.sessions, 0);
    assert_eq!(records.len(), 2, "one group per session");
    assert_eq!(summary["total_matched"], 6);
    let g1 = records.iter().find(|r| r["key"] == "hhh1").unwrap();
    assert_eq!(g1["hits"], 5);
    assert_eq!(g1["samples"].as_array().unwrap().len(), 2);
}

#[test]
fn inline_context_carries_neighbors_with_lines() {
    let mut c = Corpus::new();
    c.add_session(
        "iii1",
        "p",
        &[
            user("u1", None, "2026-01-01T00:00:01Z", "first"),
            assistant("a1", Some("u1"), "2026-01-01T00:00:02Z", "second"),
            user("u2", Some("a1"), "2026-01-01T00:00:03Z", "the needle is here"),
            assistant("a2", Some("u2"), "2026-01-01T00:00:04Z", "fourth"),
            user("u3", Some("a2"), "2026-01-01T00:00:05Z", "fifth"),
        ],
    );
    let mut o = opts(&["needle"]);
    o.context = 2;
    let (_, records, _) = search(&o, &c.sessions, 0);
    assert_eq!(records.len(), 1);
    let m = &records[0];
    assert_eq!(m["line"], 3);
    let lines = |key: &str| -> Vec<u64> {
        m[key].as_array().unwrap().iter().map(|x| x["line"].as_u64().unwrap()).collect()
    };
    assert_eq!(lines("context_before"), vec![1, 2]);
    assert_eq!(lines("context_after"), vec![4, 5]);
    assert_eq!(m["context_before"][0]["text"], "first");
    assert_eq!(m["context_after"][1]["role"], "user");
}

#[test]
fn context_ignores_filters_but_matches_respect_them() {
    let mut c = Corpus::new();
    c.add_session(
        "jjj1",
        "p",
        &[
            assistant("a1", None, "2026-01-01T00:00:01Z", "assistant needle before"),
            user("u1", Some("a1"), "2026-01-01T00:00:02Z", "user needle match"),
            assistant("a2", Some("u1"), "2026-01-01T00:00:03Z", "assistant needle after"),
        ],
    );
    let mut o = opts(&["needle"]);
    o.role = Some("user".into());
    o.context = 1;
    let (_, records, _) = search(&o, &c.sessions, 0);
    assert_eq!(records.len(), 1, "role filter applies to matches");
    assert_eq!(records[0]["context_before"][0]["role"], "assistant");
    assert_eq!(records[0]["context_after"][0]["role"], "assistant");
}

// ---- Filters ----------------------------------------------------------------

#[test]
fn and_mode_requires_every_term() {
    let mut c = Corpus::new();
    c.add_session(
        "kkk1",
        "p",
        &[
            user("u1", None, "2026-01-01T00:00:00Z", "alpha and beta together"),
            user("u2", None, "2026-01-01T00:00:01Z", "alpha alone"),
        ],
    );
    let mut o = opts(&["alpha", "beta"]);
    o.and_mode = true;
    let (_, records, _) = search(&o, &c.sessions, 0);
    assert_eq!(records.len(), 1);
    assert_eq!(records[0]["line"], 1);
}

#[test]
fn before_date_includes_the_whole_named_day() {
    // Regression: "--before 2026-01-05" lexically excluded every timestamp
    // ON 2026-01-05.
    let mut c = Corpus::new();
    c.add_session(
        "lll1",
        "p",
        &[
            user("u1", None, "2026-01-05T23:59:00Z", "needle on the day"),
            user("u2", None, "2026-01-06T00:01:00Z", "needle after the day"),
        ],
    );
    let mut o = opts(&["needle"]);
    o.before = Some("2026-01-05".into());
    let (_, records, _) = search(&o, &c.sessions, 0);
    assert_eq!(records.len(), 1);
    assert_eq!(records[0]["line"], 1);
}

#[test]
fn untimestamped_messages_fail_active_date_filters() {
    let mut c = Corpus::new();
    c.add_session(
        "mmm1",
        "p",
        &[r#"{"type":"user","uuid":"u1","message":{"role":"user","content":"needle no timestamp"}}"#
            .to_string()],
    );
    let mut o = opts(&["needle"]);
    o.after = Some("2026-01-01".into());
    let (found, _, _) = search(&o, &c.sessions, 0);
    assert!(!found, "a message that can't be dated must not pass a date filter");
    // Without date filters it still matches.
    let (found, _, _) = search(&opts(&["needle"]), &c.sessions, 0);
    assert!(found);
}

#[test]
fn smc_output_is_excluded_unless_asked() {
    let mut c = Corpus::new();
    c.add_session(
        "nnn1",
        "p",
        &[user(
            "u1",
            None,
            "2026-01-01T00:00:00Z",
            "pasted earlier smc output <smc-cc-cli> needle inside",
        )],
    );
    let (found, _, _) = search(&opts(&["needle"]), &c.sessions, 0);
    assert!(!found, "smc's own output must not recursively match");
    let mut o = opts(&["needle"]);
    o.include_smc = true;
    let (found, _, _) = search(&o, &c.sessions, 0);
    assert!(found);
}

#[test]
fn phrases_inside_tool_inputs_match() {
    // Regression: Write/Edit content and Bash commands (tool INPUT string
    // values) used to be searched as escaped JSON.
    let mut c = Corpus::new();
    c.add_session(
        "uuu1",
        "p",
        &[r##"{"type":"assistant","uuid":"a1","timestamp":"2026-01-01T00:00:00Z","message":{"role":"assistant","content":[{"type":"tool_use","id":"t1","name":"Write","input":{"file_path":"/tmp/cfg.yaml","content":"# ops knob, not a safety knob\nexpire_in: 86400"}}]}}"##
            .to_string()],
    );
    let mut o = opts(&["knob\nexpire_in: 86400"]);
    o.phrase = false;
    let (found, records, _) = search(&o, &c.sessions, 0);
    assert!(found, "multiline phrase inside tool input must match");
    assert!(records[0]["text"].as_str().unwrap().contains("ops knob"));
    // And --file still resolves paths from input string values.
    let mut o = opts(&["knob"]);
    o.file = Some("cfg.yaml".into());
    let (found, _, _) = search(&o, &c.sessions, 0);
    assert!(found);
}

#[test]
fn phrase_flag_joins_words_into_one_substring() {
    let mut c = Corpus::new();
    c.add_session(
        "vvv1",
        "p",
        &[
            user("u1", None, "2026-01-01T00:00:00Z", "the flux capacitor is broken again"),
            user("u2", None, "2026-01-01T00:00:01Z", "capacitor here, flux there"),
        ],
    );
    // OR mode: both messages hit.
    let (_, records, _) = search(&opts(&["flux", "capacitor"]), &c.sessions, 0);
    assert_eq!(records.len(), 2);
    // Phrase mode: only the exact wording.
    let mut o = opts(&["flux", "capacitor"]);
    o.phrase = true;
    let (_, records, summary) = search(&o, &c.sessions, 0);
    assert_eq!(records.len(), 1);
    assert_eq!(records[0]["line"], 1);
    assert_eq!(summary["query"], "flux capacitor");
}

#[test]
fn zero_match_multiword_query_gets_a_hint() {
    let mut c = Corpus::new();
    c.add_session("www1", "p", &[user("u1", None, "2026-01-01T00:00:00Z", "nothing relevant")]);
    let mut em = Emitter::capturing(0);
    cmd::search::run(&opts(&["several words not present"]), &c.sessions, NOW, 0, rate, &mut em)
        .unwrap();
    let records = values(em);
    let warning = records.iter().find(|r| r["type"] == "warning");
    assert!(warning.is_some(), "0-match multi-word query must explain substring semantics");
    assert!(warning.unwrap()["message"].as_str().unwrap().contains("--phrase"));
    // No hint when terms are separate or the phrase is explicit.
    let mut em = Emitter::capturing(0);
    cmd::search::run(&opts(&["absent1", "absent2"]), &c.sessions, NOW, 0, rate, &mut em).unwrap();
    assert!(!values(em).iter().any(|r| r["type"] == "warning"));
}

#[test]
fn dedupe_collapses_identical_snippets() {
    let mut c = Corpus::new();
    let boilerplate = "IMPORTANT: the needle instructions are repeated verbatim";
    let mut lines: Vec<String> = (0..4)
        .map(|i| user(&format!("u{i}"), None, "2026-01-01T00:00:00Z", boilerplate))
        .collect();
    lines.push(user("u9", None, "2026-01-01T00:00:01Z", "a unique needle mention"));
    c.add_session("xxx1", "p", &lines);

    let mut o = opts(&["needle"]);
    o.dedupe = true;
    let (_, records, summary) = search(&o, &c.sessions, 0);
    assert_eq!(records.len(), 2, "4 identical snippets collapse to 1 + 1 unique");
    assert_eq!(summary["deduped"], 3);
    assert_eq!(summary["total_matched"], 5, "raw count stays honest");
}

#[test]
fn exclude_live_skips_freshly_written_sessions() {
    let mut c = Corpus::new();
    c.add_session("yyy1", "p", &[user("u1", None, "2026-01-01T00:00:00Z", "needle live")]);
    c.add_session("yyy2", "p", &[user("u2", None, "2026-01-01T00:00:00Z", "needle old")]);
    // yyy1 was written "just now"; yyy2 an hour ago.
    c.sessions[0].file.modified = Some(NOW);
    c.sessions[1].file.modified = Some(NOW - 3600 * SECOND);

    let mut o = opts(&["needle"]);
    o.exclude_live = Some(120);
    let (_, records, summary) = search(&o, &c.sessions, 0);
    assert_eq!(records.len(), 1);
    assert_eq!(records[0]["session_id"], "yyy2");
    assert_eq!(summary["files_scanned"], 1);

    // Adversarial: unknown mtime counts as live (conservative).
    c.sessions[1].file.modified = None;
    let (found, _, _) = search(&o, &c.sessions, 0);
    assert!(!found);
}

#[test]
fn empty_thinking_blocks_are_invisible() {
    // Logs keep thinking signatures with EMPTY text. Empty blocks must not
    // inject blank lines or shift offsets.
    let mut c = Corpus::new();
    c.add_session(
        "zzt1",
        "p",
        &[r#"{"type":"assistant","uuid":"a1","timestamp":"2026-01-01T00:00:00Z","message":{"role":"assistant","content":[{"type":"thinking","thinking":"","signature":"abc123"},{"type":"text","text":"visible reply"}]}}"#
            .to_string()],
    );

    // Full-content search text has no stray leading newline from the empty block.
    let (_, records, _) = search(&opts(&["visible reply"]), &c.sessions, 0);
    assert_eq!(records[0]["match_offset"], 0, "empty thinking must not shift offsets");

    // Nothing is left of the empty block.
    let msg = c.sessions[0].records.as_ref().unwrap()[0].1.as_message().unwrap();
    assert_eq!(msg.thinking_content(), "");
    assert_eq!(msg.text_content(), "visible reply");
}

#[test]
fn legacy_nonempty_thinking_is_searchable_and_shown() {
    // Old logs keep thinking text; it is ordinary message content, searchable
    // and readable.
    let mut c = Corpus::new();
    c.add_session(
        "zzt2",
        "p",
        &[r#"{"type":"assistant","uuid":"a1","timestamp":"2026-01-01T00:00:00Z","message":{"role":"assistant","content":[{"type":"thinking","thinking":"secretly considering the needle approach"},{"type":"text","text":"public answer"}]}}"#
            .to_string()],
    );
    let (found, records, _) = search(&opts(&["needle approach"]), &c.sessions, 0);
    assert!(found);
    assert!(records[0]["text"].as_str().unwrap().contains("considering"));

    let msg = c.sessions[0].records.as_ref().unwrap()[0].1.as_message().unwrap();
    assert!(msg.thinking_content().contains("secretly"));
}

// ---- Adversarial corpora ----------------------------------------------------

#[test]
fn garbage_lines_never_break_the_scan() {
    let mut c = Corpus::new();
    c.add_session(
        "ooo1",
        "p",
        &[
            "not json at all".to_string(),
            "".to_string(),
            "{\"truncated\": ".to_string(),
            "\u{0}\u{1}\u{2}binary junk".to_string(),
            r#"{"type":"user","message":"wrong shape"}"#.to_string(),
            r#"{"type":"never_seen_before","x":1}"#.to_string(),
            user("u1", None, "2026-01-01T00:00:00Z", "the needle survives garbage"),
        ],
    );
    let (found, records, _) = search(&opts(&["needle"]), &c.sessions, 0);
    assert!(found);
    assert_eq!(records[0]["line"], 7, "line numbers stay correct past garbage");
}

#[test]
fn crlf_line_endings_parse() {
    let mut c = Corpus::new();
    let content = format!(
        "{}\r\n{}\r\n",
        user("u1", None, "2026-01-01T00:00:00Z", "needle one"),
        user("u2", None, "2026-01-01T00:00:01Z", "needle two"),
    );
    c.add_content("crlf", "p", &content);
    let (_, records, _) = search(&opts(&["needle"]), &c.sessions, 0);
    assert_eq!(records.len(), 2);
}

#[test]
fn multibyte_snippets_center_without_panic() {
    let mut c = Corpus::new();
    let text = format!("{}ネコneedle🚀{}", "🎉".repeat(400), "日本語".repeat(300));
    c.add_session("ppp1", "p", &[user("u1", None, "2026-01-01T00:00:00Z", &text)]);
    let mut o = opts(&["needle"]);
    o.snippet_len = 50;
    let (_, records, _) = search(&o, &c.sessions, 0);
    let snip = records[0]["text"].as_str().unwrap();
    assert!(snip.contains("needle"));
    assert!(snip.starts_with('…') && snip.ends_with('…'));
    assert_eq!(records[0]["msg_chars"].as_u64().unwrap() as usize, text.chars().count());
}

#[test]
fn empty_file_and_empty_query_behave() {
    let mut c = Corpus::new();
    c.add_session("qqq1", "p", &[String::new()]);
    let (found, records, _) = search(&opts(&["anything"]), &c.sessions, 0);
    assert!(!found);
    assert!(records.is_empty());

    // Empty query list is a hard error, not a silent full dump.
    let mut em = Emitter::capturing(0);
    assert!(cmd::search::run(&opts(&[]), &c.sessions, NOW, 0, rate, &mut em).is_err());
}

// ---- Other commands ---------------------------------------------------------

#[test]
fn recent_role_filter_fills_to_limit() {
    // Regression: role filtering happened after the tail window, so a tail
    // full of assistant messages starved --role user.
    let mut c = Corpus::new();
    let mut lines: Vec<String> = (0..5)
        .map(|i| {
            user(
                &format!("u{i}"),
                None,
                &format!("2026-01-01T00:00:0{i}Z"),
                &format!("user question {i}"),
            )
        })
        .collect();
    lines.extend((0..40).map(|i| {
        assistant(
            &format!("a{i}"),
            None,
            &format!("2026-01-01T01:00:{:02}Z", i % 60),
            "assistant chatter",
        )
    }));
    c.add_session("rrr1", "p", &lines);

    let o = cmd::recent::RecentOpts { limit: 3, role: Some("user".into()), project: None };
    let mut em = Emitter::capturing(0);
    let found = cmd::recent::run(&o, &c.sessions, 0, &mut em);
    assert!(found);
    let records = values(em);
    let recents: Vec<&Value> = records.iter().filter(|r| r["type"] == "recent").collect();
    assert_eq!(recents.len(), 3, "window must fill despite assistant-heavy tail");
    assert!(recents.iter().all(|r| r["role"] == "user"));
}

#[test]
fn sessions_reports_real_counts_and_skips_empty_previews() {
    let mut c = Corpus::new();
    let mut lines = vec![tool_result("t1", "2026-01-01T00:00:00Z", "tool noise first")];
    lines.extend((0..9).map(|i| {
        if i % 2 == 0 {
            assistant(&format!("a{i}"), None, &format!("2026-01-01T00:01:0{i}Z"), "reply")
        } else {
            user(
                &format!("u{i}"),
                None,
                &format!("2026-01-01T00:01:0{i}Z"),
                &format!("real question {i}"),
            )
        }
    }));
    c.add_session("ssss1", "p", &lines);

    let o = cmd::sessions::SessionsOpts { limit: 10, project: None, after: None, before: None };
    let mut em = Emitter::capturing(0);
    let found = cmd::sessions::run(&o, &c.sessions, 0, &mut em);
    assert!(found);
    let records = values(em);
    let s = records.iter().find(|r| r["type"] == "session").unwrap();
    assert_eq!(s["msg_count"], 10, "must count ALL messages, not stop at 6");
    // First user record is a tool_result (no readable text) — preview must
    // come from the first user message with actual text. Note: tool_result
    // records have role user, so it's the "real question 1" line.
    assert_eq!(s["preview"], "real question 1");
    assert!(s["last_timestamp"].is_string());
}

// ---- More of each command ---------------------------------------------------

#[test]
fn threads_are_told_apart() {
    let mut c = Corpus::new();
    c.add_session(
        "th",
        "p",
        &[
            user("r1", None, "2026-01-01T00:00:01Z", "needle"),
            user("r2", None, "2026-01-01T00:00:02Z", "needle"),
            // Not a match itself, but a link of the chain.
            assistant("l", Some("r1"), "2026-01-01T00:00:03Z", "between"),
            user("x", Some("l"), "2026-01-01T00:00:04Z", "needle"),
            user("y", Some("gone"), "2026-01-01T00:00:05Z", "needle"),
        ],
    );
    let mut o = opts(&["needle"]);
    o.group_by = Some(GroupMode::Thread);
    let (_, records, summary) = search(&o, &c.sessions, 0);
    let got: Vec<(&str, u64)> = records
        .iter()
        .map(|r| (r["key"].as_str().unwrap(), r["hits"].as_u64().unwrap()))
        .collect();
    assert_eq!(got, vec![("r1", 2), ("r2", 1), ("y", 1)]);
    assert_eq!(summary["count"], 3);
    assert_eq!(summary["total_matched"], 4);
}

#[test]
fn relevance_scores_and_sorts() {
    let mut c = Corpus::new();
    c.add_session(
        "sc",
        "p",
        &[
            user("a", None, "t", "needle in a haystack"),
            user("b", None, "t", "needle needle"),
            user("c", None, "t", "no match at all"),
            user("d", None, "t", "needle needle too"),
        ],
    );
    let mut o = opts(&["needle"]);
    o.sort = SortMode::Relevance;
    let (_, records, _) = search(&o, &c.sessions, 0);
    let got: Vec<(u64, f64)> = records
        .iter()
        .map(|r| (r["line"].as_u64().unwrap(), r["score"].as_f64().unwrap()))
        .collect();
    assert_eq!(got, vec![(2, 1.0), (4, 0.6666), (1, 0.25)]);
    // Scores without sorting by them.
    let mut o = opts(&["needle"]);
    o.score = true;
    let (_, records, _) = search(&o, &c.sessions, 0);
    assert_eq!(records[0]["score"], 0.25);
    // No scores unless asked for.
    let (_, records, _) = search(&opts(&["needle"]), &c.sessions, 0);
    assert!(records[0].get("score").is_none());
}

#[test]
fn every_searched_message_counts_for_relevance() {
    let mut c = Corpus::new();
    c.add_session(
        "one",
        "p",
        &[
            user("a", None, "t", "needle in a haystack"),
            user("b", None, "t", "nothing"),
            assistant("c", None, "t", "needle of another role"),
        ],
    );
    c.add_session("two", "p", &[user("d", None, "t", "one more  needle\nneedle")]);
    let mut o = opts(&["needle", "nothing"]);
    o.score = true;
    o.role = Some("user".into());
    let seen = |corpus: &CorpusStats, _: &Vec<usize>, _: usize| -> u64 {
        assert_eq!(corpus.docs, 3);
        assert_eq!(corpus.total_len, 4 + 1 + 4);
        assert_eq!(corpus.df, vec![2, 1]);
        10_000
    };
    let mut em = Emitter::capturing(0);
    assert!(cmd::search::run(&o, &c.sessions, NOW, 0, seen, &mut em).unwrap());
    assert!(values(em).iter().filter(|r| r["type"] == "match").all(|r| r["score"] == 1.0));
}

#[test]
fn filters_on_tools_branches_and_projects() {
    let mut c = Corpus::new();
    c.add_session(
        "f1",
        "MyApp",
        &[
            r#"{"type":"assistant","gitBranch":"Feature/X","message":{"role":"assistant","content":[{"type":"text","text":"needle"},{"type":"tool_use","name":"Bash","input":{"command":"git push"}}]}}"#.to_string(),
            r#"{"type":"assistant","message":{"role":"assistant","content":[{"type":"text","text":"needle"},{"type":"tool_use","name":"Read","input":{"file_path":"needle.rs"}}]}}"#.to_string(),
        ],
    );
    c.add_session("f2", "other", &[user("u", None, "t", "needle")]);
    let found = |o: &SearchOpts| -> Vec<(String, u64)> {
        search(o, &c.sessions, 0)
            .1
            .iter()
            .map(|r| (r["session_id"].as_str().unwrap().to_string(), r["line"].as_u64().unwrap()))
            .collect()
    };
    let f = |s: &str, l: u64| (s.to_string(), l);
    let mut o = opts(&["needle"]);
    o.tool = Some("bas".into());
    assert_eq!(found(&o), vec![f("f1", 1)]);
    let mut o = opts(&["needle"]);
    o.branch = Some("feature".into());
    assert_eq!(found(&o), vec![f("f1", 1)]);
    let mut o = opts(&["needle"]);
    o.project = Some("myapp".into());
    assert_eq!(found(&o), vec![f("f1", 1), f("f1", 2)]);
    let mut o = opts(&["needle"]);
    o.exclude_session = Some("f1".into());
    assert_eq!(found(&o), vec![f("f2", 1)]);
    let mut o = opts(&["needle"]);
    o.tool_input = true;
    assert_eq!(found(&o), vec![f("f1", 2)]);
    let mut o = opts(&["GIT push"]);
    o.tool_input = true;
    assert_eq!(found(&o), vec![f("f1", 1)]);
    let mut o = opts(&["git.push"]);
    o.is_regex = true;
    assert_eq!(found(&o), vec![f("f1", 1)]);
    let (_, records, _) = search(&opts(&["git push"]), &c.sessions, 0);
    assert_eq!(records[0]["tool_names"][0], "Bash");
    assert_eq!(records[0]["git_branch"], "Feature/X");
    assert_eq!(records[0]["matched_query"], "git push");
}

#[test]
fn a_search_that_cannot_be_run_writes_nothing() {
    let c = Corpus::new();
    let mut em = Emitter::capturing(0);
    let e = cmd::search::run(&opts(&[]), &c.sessions, NOW, 0, rate, &mut em).err().unwrap();
    assert!(matches!(e, SearchError::EmptyQuery));
    let mut o = opts(&["("]);
    o.is_regex = true;
    let e = cmd::search::run(&o, &c.sessions, NOW, 0, rate, &mut em).err().unwrap();
    assert!(matches!(e, SearchError::InvalidRegex { .. }));
    assert!(em.into_bytes().is_empty());
}

#[test]
fn the_summary_is_exact() {
    let mut c = Corpus::new();
    c.add_session("s", "p", &[user("u", None, "t", "b")]);
    let mut em = Emitter::capturing(0);
    let mut o = opts(&["a", "b"]);
    o.dedupe = true;
    cmd::search::run(&o, &c.sessions, NOW, 42, rate, &mut em).unwrap();
    let text = String::from_utf8(em.into_bytes()).unwrap();
    assert_eq!(
        text.lines().last(),
        Some(
            "{\"type\":\"summary\",\"query\":\"a, b\",\"count\":1,\"total_matched\":1,\
             \"files_scanned\":1,\"truncated\":false,\"capped\":false,\"deduped\":0,\
             \"elapsed_ms\":42}"
        )
    );
}

#[test]
fn a_search_does_not_find_its_own_output() {
    let mut c = Corpus::new();
    c.add_session("s", "p", &[user("u", None, "2026-01-01T00:00:00Z", "the needle")]);
    let mut em = Emitter::capturing(1);
    cmd::search::run(&opts(&["needle"]), &c.sessions, NOW, 0, rate, &mut em).unwrap();
    let output = String::from_utf8(em.into_bytes()).unwrap();
    assert!(output.contains("needle"), "the summary names the query");
    let mut again = Corpus::new();
    again.add_session(
        "t",
        "p",
        &[tool_result("u", "2026-01-02T00:00:00Z", &format!("$ smc\n{output}"))],
    );
    let (found, _, _) = search(&opts(&["needle"]), &again.sessions, 0);
    assert!(!found);
}

#[test]
fn recent_lists_the_latest_of_all_sessions() {
    let mut c = Corpus::new();
    c.add_session(
        "one",
        "alpha",
        &[
            user("a", None, "2026-01-01T00:00:00Z", "first"),
            user("b", None, "2026-01-03T00:00:00Z", "two\nlines"),
            tool_result("c", "2026-01-09T00:00:00Z", "nothing to read"),
            r#"{"type":"system","content":"undated"}"#.to_string(),
        ],
    );
    c.add_session(
        "two",
        "beta",
        &[assistant("d", None, "2026-01-02T00:00:00Z", &"long ".repeat(40))],
    );
    let run = |limit: usize, project: Option<&str>, budget: usize| -> (bool, Vec<Value>) {
        let o = cmd::recent::RecentOpts { limit, role: None, project: project.map(String::from) };
        let mut em = Emitter::capturing(budget);
        let any = cmd::recent::run(&o, &c.sessions, 7, &mut em);
        (any, values(em))
    };
    let (any, records) = run(10, None, 0);
    assert!(any);
    let got: Vec<(&str, u64, &str)> = records[1..records.len() - 1]
        .iter()
        .map(|r| {
            (
                r["session_id"].as_str().unwrap(),
                r["line"].as_u64().unwrap(),
                r["text"].as_str().unwrap(),
            )
        })
        .collect();
    let long = "long ".repeat(24);
    assert_eq!(
        got,
        vec![
            ("one", 2, "two lines"),
            ("two", 1, long.as_str()),
            ("one", 1, "first"),
            ("one", 4, "undated"),
        ]
    );
    assert_eq!(records[4]["timestamp"], "");
    let last = records.last().unwrap();
    assert_eq!((&last["count"], &last["files_scanned"]), (&Value::from(4), &Value::from(2)));
    // The limit holds for each session, and for all of them.
    let (_, records) = run(1, None, 0);
    assert_eq!(records.len(), 3);
    assert_eq!(records[1]["session_id"], "two");
    let (any, records) = run(0, None, 0);
    assert!(!any);
    assert_eq!(records.len(), 2);
    let (_, records) = run(10, Some("ALPHA"), 0);
    assert_eq!(records.len(), 5);
    // A budget cuts the list, but the summary counts what was to be shown.
    let (any, records) = run(10, None, 1);
    assert!(!any, "nothing was written");
    assert_eq!(records.len(), 2);
    assert_eq!(records[1]["count"], 4);
    let (any, records) = run(10, None, 60);
    assert!(any);
    assert_eq!(records.len(), 3);
    assert_eq!(records[2]["count"], 4);
}

#[test]
fn sessions_are_listed_by_their_first_timestamp() {
    let mut c = Corpus::new();
    c.add_session("old", "p", &[user("a", None, "2026-01-01T08:00:00Z", "x")]);
    c.add_session(
        "new",
        "Q",
        &[
            r#"{"type":"system","content":"sys"}"#.to_string(),
            user("b", None, "2026-02-01T08:00:00Z", "\n \t"),
            user("c", None, "2026-01-15T08:00:00Z", &"y".repeat(130)),
        ],
    );
    c.add_session("undated", "p", &[r#"{"type":"progress"}"#.to_string()]);
    let run = |limit: usize, after: Option<&str>, before: Option<&str>| -> Vec<Value> {
        let o = cmd::sessions::SessionsOpts {
            limit,
            project: None,
            after: after.map(String::from),
            before: before.map(String::from),
        };
        let mut em = Emitter::capturing(0);
        let any = cmd::sessions::run(&o, &c.sessions, 0, &mut em);
        let records = values(em);
        assert_eq!(any, records.len() > 2);
        assert_eq!(records.last().unwrap()["count"], records.len() - 2);
        assert_eq!(records.last().unwrap()["files_scanned"], 3);
        records
    };
    let ids = |records: &[Value]| -> Vec<String> {
        records[1..records.len() - 1]
            .iter()
            .map(|r| r["session_id"].as_str().unwrap().to_string())
            .collect()
    };
    let all = run(0, None, None);
    assert_eq!(ids(&all), vec!["new", "old", "undated"]);
    assert_eq!(all[1]["timestamp"], "2026-02-01T08:00:00Z");
    assert_eq!(all[1]["last_timestamp"], "2026-01-15T08:00:00Z");
    assert_eq!(all[1]["preview"], "y".repeat(120));
    assert_eq!(all[1]["msg_count"], 3);
    assert_eq!(all[3]["msg_count"], 0);
    assert!(all[3].get("timestamp").is_none() && all[3].get("preview").is_none());
    assert_eq!(all[3]["size_human"], "19B");
    assert_eq!(ids(&run(1, None, None)), vec!["new"]);
    assert_eq!(ids(&run(0, Some("2026-01-15"), None)), vec!["new"]);
    assert_eq!(ids(&run(0, None, Some("2026-01-01"))), vec!["old"]);
    assert!(ids(&run(0, Some("2027"), None)).is_empty());
}

#[test]
fn sessions_that_no_budget_has_room_for_are_none() {
    let mut c = Corpus::new();
    c.add_session("s", "p", &[user("a", None, "2026-01-01T08:00:00Z", "x")]);
    let o = cmd::sessions::SessionsOpts { limit: 0, project: None, after: None, before: None };
    let mut em = Emitter::capturing(1);
    assert!(!cmd::sessions::run(&o, &c.sessions, 0, &mut em));
    assert!(em.is_truncated());
    let records = values(em);
    assert_eq!(records.len(), 2);
    assert_eq!(records[1]["count"], 1);
}

#[test]
fn logs_that_cannot_be_opened_are_scanned_but_not_listed() {
    let mut c = Corpus::new();
    c.add_session("good", "p", &[user("a", None, "2026-01-01T08:00:00Z", "needle")]);
    c.add_session("empty", "p", &[]);
    c.add_unreadable("gone", "p");
    let o = cmd::sessions::SessionsOpts { limit: 0, project: None, after: None, before: None };
    let mut em = Emitter::capturing(0);
    assert!(cmd::sessions::run(&o, &c.sessions, 0, &mut em));
    let records = values(em);
    let ids: Vec<&str> =
        records[1..records.len() - 1].iter().map(|r| r["session_id"].as_str().unwrap()).collect();
    assert_eq!(ids, vec!["good", "empty"]);
    assert_eq!(records.last().unwrap()["count"], 2);
    assert_eq!(records.last().unwrap()["files_scanned"], 3);

    let o = cmd::recent::RecentOpts { limit: 5, role: None, project: None };
    let mut em = Emitter::capturing(0);
    assert!(cmd::recent::run(&o, &c.sessions, 0, &mut em));
    let records = values(em);
    assert_eq!(records.len(), 3);
    assert_eq!(records[2]["files_scanned"], 3);

    let (found, records, summary) = search(&opts(&["needle"]), &c.sessions, 0);
    assert!(found);
    assert_eq!(records.len(), 1);
    assert_eq!(summary["files_scanned"], 3);
}

#[test]
fn sessions_read_apart_come_to_the_same() {
    let mut c = Corpus::new();
    c.add_session("one", "p", &[user("a", None, "2026-01-01T08:00:00Z", "needle one")]);
    c.add_unreadable("gone", "p");
    c.add_session("two", "p", &[user("b", None, "2026-01-02T08:00:00Z", "needle two needle")]);

    let mut o = opts(&["needle"]);
    o.sort = SortMode::Relevance;
    let mut whole = Emitter::capturing(0);
    assert!(cmd::search::run(&o, &c.sessions, NOW, 9, rate, &mut whole).unwrap());
    let plan = cmd::search::scan::prepare(&o).unwrap();
    // In any order, as long as the results are in that of the sessions.
    let mut parts: Vec<_> =
        c.sessions.iter().rev().map(|s| cmd::search::search_session(s, &plan)).collect();
    parts.reverse();
    let mut apart = Emitter::capturing(0);
    assert!(cmd::search::finish(&plan, parts, 9, &rate, &mut apart));
    assert_eq!(apart.into_bytes(), whole.into_bytes());

    let o = cmd::recent::RecentOpts { limit: 5, role: None, project: None };
    let mut whole = Emitter::capturing(0);
    cmd::recent::run(&o, &c.sessions, 9, &mut whole);
    let parts = c.sessions.iter().map(|s| cmd::recent::session_messages(&o, s)).collect();
    let mut apart = Emitter::capturing(0);
    assert!(cmd::recent::finish(&o, parts, 9, &mut apart));
    assert_eq!(apart.into_bytes(), whole.into_bytes());

    let o = cmd::sessions::SessionsOpts { limit: 0, project: None, after: None, before: None };
    let mut whole = Emitter::capturing(0);
    cmd::sessions::run(&o, &c.sessions, 9, &mut whole);
    let parts = c.sessions.iter().map(|s| cmd::sessions::describe_session(&o, s)).collect();
    let mut apart = Emitter::capturing(0);
    assert!(cmd::sessions::finish(&o, parts, 9, &mut apart));
    assert_eq!(apart.into_bytes(), whole.into_bytes());
}

#[test]
fn offsets_count_characters_of_the_message() {
    let mut c = Corpus::new();
    c.add_content("s", "p", "{\"type\":\"user\",\"content\":\"İx\"}");
    let (_, records, _) = search(&opts(&["x"]), &c.sessions, 0);
    assert_eq!(records[0]["match_offset"], 1);
    assert_eq!(records[0]["msg_chars"], 2);
    // Characters that take up more than one place in lower case do not move the snippet.
    let mut c = Corpus::new();
    let text = format!("{}Needle{}", "İ".repeat(300), "b".repeat(300));
    c.add_session("s", "p", &[user("u", None, "t", &text)]);
    let mut o = opts(&["needle"]);
    o.snippet_len = 20;
    let (_, records, _) = search(&o, &c.sessions, 0);
    assert_eq!(records[0]["match_offset"], 300);
    assert_eq!(records[0]["text"], format!("…{}Needle{}…", "İ".repeat(10), "b".repeat(4)));
}

#[test]
fn a_bad_pattern_writes_nothing() {
    let c = Corpus::new();
    let mut o = opts(&["a", "["]);
    o.is_regex = true;
    let mut em = Emitter::capturing(0);
    let e = cmd::search::run(&o, &c.sessions, NOW, 0, rate, &mut em).err().unwrap();
    let SearchError::InvalidRegex { message } = e else { panic!("a pattern is at fault") };
    assert_eq!(message, regex::Regex::new("[").err().unwrap().to_string());
    assert!(em.into_bytes().is_empty());
    // The words of a phrase are one pattern.
    o.phrase = true;
    let mut em = Emitter::capturing(0);
    let e = cmd::search::run(&o, &c.sessions, NOW, 0, rate, &mut em).err().unwrap();
    assert_eq!(e.message(), regex::Regex::new("a [").err().unwrap().to_string());
    assert!(em.into_bytes().is_empty());
}

#[test]
fn tools_lists_each_call() {
    let records = read_log(
        "{\"type\":\"user\",\"message\":{\"role\":\"user\",\"content\":\"x\"}}\n\
         junk\n\
         {\"type\":\"assistant\",\"uuid\":\"u\",\"timestamp\":\"t\",\"message\":{\"role\":\"assistant\",\
         \"content\":[{\"type\":\"tool_use\",\"name\":\"Bash\",\"input\":{\"c\":\"ls\\n\"}},\
         {\"type\":\"text\",\"text\":\"and\"},\
         {\"type\":\"tool_use\",\"name\":\"Read\",\"input\":\"0123456789\"}]}}",
    );
    let mut em = Emitter::capturing(0);
    assert!(cmd::tools::run(&records, 5, &mut em));
    let text = String::from_utf8(em.into_bytes()).unwrap();
    let lines: Vec<&str> = text.lines().skip(1).collect();
    assert_eq!(
        lines,
        vec![
            "{\"type\":\"tool_call\",\"line\":3,\"uuid\":\"u\",\"timestamp\":\"t\",\
             \"role\":\"assistant\",\"tool_name\":\"Bash\",\"input_preview\":\"{\\\"c\\\":\\\"ls\\\\n\\\"}\"}",
            "{\"type\":\"tool_call\",\"line\":3,\"uuid\":\"u\",\"timestamp\":\"t\",\
             \"role\":\"assistant\",\"tool_name\":\"Read\",\"input_preview\":\"\\\"0123456789\\\"\"}",
            "{\"type\":\"summary\",\"count\":2,\"elapsed_ms\":5}",
        ]
    );
    let mut em = Emitter::capturing(0);
    assert!(!cmd::tools::run(&read_log(""), 0, &mut em));
}

#[test]
fn commands_end_with_their_exit_code() {
    assert_eq!(exit_code::<()>(&Ok(true)), 0);
    assert_eq!(exit_code::<()>(&Ok(false)), 1);
    assert_eq!(exit_code(&Err("no")), 2);
}

#[test]
fn a_snippet_shows_what_matched() {
    let mut c = Corpus::new();
    let text = format!("{}needle{}", "a".repeat(300), "b".repeat(300));
    c.add_session("s", "p", &[user("u", None, "t", &text)]);
    for len in [12, 13, 40, 0] {
        for regex in [false, true] {
            let mut o = opts(&["needle"]);
            o.is_regex = regex;
            o.snippet_len = len;
            let (_, records, _) = search(&o, &c.sessions, 0);
            assert!(records[0]["text"].as_str().unwrap().contains("needle"), "{len} {regex}");
        }
    }
}
