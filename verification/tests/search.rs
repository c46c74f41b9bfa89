use smc::cmd::search::corpus::CorpusStats;
use smc::cmd::search::matcher::{assemble, combine, MatchInfo, Matcher};
use smc::cmd::search::records::{write_score, CtxMsg, SearchRecord};
use smc::cmd::search::results::{drop_repeats, sort_records};
use smc::cmd::search::snippet::make_snippet;
use smc::cmd::search::threads::{resolve_thread_root, Parents};
use smc::cmd::search::groups::{collect_groups, emit_groups};
use smc::cmd::search::{live, GroupMode, SearchError, SortMode};
use smc::json::JsonLine;
use smc::output::Emitter;

fn first_match(m: &Matcher, text: &str) -> Option<MatchInfo> {
    m.scan(text, false).0
}

// ---- Matcher ----------------------------------------------------------------

#[test]
fn matcher_plain_or() {
    let m = Matcher::new(&["foo".into(), "bar".into()], false, false).unwrap();
    assert!(first_match(&m, "hello foo world").is_some());
    assert!(first_match(&m, "hello bar world").is_some());
    assert!(first_match(&m, "hello baz world").is_none());
}

#[test]
fn matcher_plain_and() {
    let m = Matcher::new(&["foo".into(), "bar".into()], false, true).unwrap();
    assert!(first_match(&m, "foo and bar").is_some());
    assert!(first_match(&m, "foo only").is_none());
}

#[test]
fn matcher_regex() {
    let m = Matcher::new(&["fn\\s+\\w+".into()], true, false).unwrap();
    assert!(first_match(&m, "pub fn main()").is_some());
    assert!(first_match(&m, "no function here").is_none());
}

#[test]
fn matcher_regex_and_mode() {
    let m = Matcher::new(&["fn\\s+\\w+".into(), "pub".into()], true, true).unwrap();
    assert!(first_match(&m, "pub fn main()").is_some());
    assert!(first_match(&m, "fn main()").is_none(), "AND requires every regex");
}

#[test]
fn scan_counts_occurrences() {
    let m = Matcher::new(&["x".into(), "y".into()], false, false).unwrap();
    assert_eq!(m.scan("x x x y", true).1, vec![3, 1]);
    assert_eq!(m.scan("nothing here", true).1, vec![0, 0]);
    assert!(m.scan("x only", false).1.is_empty(), "no TF work when not scoring");
}

#[test]
fn match_is_case_insensitive_in_plain_mode() {
    let m = Matcher::new(&["FooBar".into()], false, false).unwrap();
    let info = first_match(&m, "prefix FOOBAR suffix").unwrap();
    assert_eq!(info.char_pos, 7);
}

fn pair(m: Option<MatchInfo>) -> Option<(String, usize)> {
    m.map(|i| (i.matched, i.char_pos))
}

#[test]
fn the_earliest_query_is_reported() {
    let m = Matcher::new(&["world".into(), "HELLO".into(), "he".into()], false, false).unwrap();
    assert_eq!(pair(first_match(&m, "oh, Hello world")), Some(("hello".into(), 4)));
    // Of two at one position, the first query.
    let m = Matcher::new(&["he".into(), "hello".into()], false, false).unwrap();
    assert_eq!(pair(first_match(&m, "oh, Hello world")), Some(("he".into(), 4)));
}

#[test]
fn all_queries_are_reported_together() {
    let m = Matcher::new(&["world".into(), "hello".into()], false, true).unwrap();
    assert_eq!(pair(first_match(&m, "oh, Hello world")), Some(("world + hello".into(), 4)));
    let m = Matcher::new(&["w\\w+".into(), "[A-Z]".into()], true, true).unwrap();
    assert_eq!(pair(first_match(&m, "öh, Hello world")), Some(("world + H".into(), 4)));
}

#[test]
fn positions_count_characters_of_the_text_itself() {
    let m = Matcher::new(&["x".into()], false, false).unwrap();
    assert_eq!(pair(first_match(&m, "日本x")), Some(("x".into(), 2)));
    // The capital I with a dot takes up two characters in lower case.
    assert_eq!(pair(first_match(&m, "İx")), Some(("x".into(), 1)));
    assert_eq!(pair(first_match(&m, "İİXİ")), Some(("x".into(), 2)));
    // Its second one, the dot, stands for it as well.
    let m = Matcher::new(&["\u{307}x".into()], false, false).unwrap();
    assert_eq!(pair(first_match(&m, "aİX")), Some(("\u{307}x".into(), 1)));
    let m = Matcher::new(&["x".into(), "a".into()], false, true).unwrap();
    assert_eq!(pair(first_match(&m, "İXa")), Some(("x + a".into(), 1)));
    let m = Matcher::new(&["".into()], false, false).unwrap();
    assert_eq!(pair(first_match(&m, "İ")), Some((String::new(), 0)));
    let m = Matcher::new(&["x".into()], true, false).unwrap();
    assert_eq!(pair(first_match(&m, "İx")), Some(("x".into(), 1)));
    assert!(first_match(&m, "X").is_none(), "a regex keeps to its case");
}

#[test]
fn regex_matches_are_counted_without_overlap() {
    let m = Matcher::new(&["aa".into(), "b*".into()], true, false).unwrap();
    assert_eq!(m.scan("aaaaa", true).1, vec![2, 6]);
    assert_eq!(m.term_count(), 2);
    let m = Matcher::new(&["aa".into(), "".into()], false, false).unwrap();
    assert_eq!(m.scan("aaaaa", true).1, vec![2, 6]);
    assert_eq!(m.term_count(), 2);
}

#[test]
fn no_query_matches_nothing_or_everything() {
    let m = Matcher::new(&[], true, false).unwrap();
    assert_eq!(pair(first_match(&m, "x")), None);
    let m = Matcher::new(&[], false, true).unwrap();
    assert_eq!(pair(first_match(&m, "x")), Some((String::new(), 0)));
    assert_eq!(m.term_count(), 0);
}

#[test]
fn a_bad_pattern_is_reported() {
    let e = Matcher::new(&["ok".into(), "(".into(), "[".into()], true, false).err().unwrap();
    match &e {
        SearchError::InvalidRegex { message } => assert!(message.contains("unclosed group")),
        SearchError::EmptyQuery => panic!("there is a query"),
    }
    assert!(e.message().contains("unclosed group"));
    assert_eq!(e.message(), regex::Regex::new("(").err().unwrap().to_string());
    assert_eq!(SearchError::EmptyQuery.message(), "search query cannot be empty");
    // The same text is no error where it is not a pattern.
    assert!(Matcher::new(&["(".into()], false, false).is_ok());
}

#[test]
fn the_first_pattern_at_fault_decides() {
    let compiled = vec![regex::Regex::new("a"), regex::Regex::new("["), regex::Regex::new("(")];
    let want = regex::Regex::new("[").err().unwrap().to_string();
    match assemble(compiled, true) {
        Err(SearchError::InvalidRegex { message }) => assert_eq!(message, want),
        _ => panic!("the second pattern is at fault"),
    }
    let m = assemble(vec![regex::Regex::new("a"), regex::Regex::new("b")], true).unwrap();
    assert_eq!(pair(first_match(&m, "xbxa")), Some(("a + b".into(), 1)));
}

fn info(matched: &str, char_pos: usize) -> Option<MatchInfo> {
    Some(MatchInfo { matched: matched.into(), char_pos })
}

#[test]
fn hits_are_combined() {
    let hits = || vec![info("a", 5), None, info("b", 2), info("c", 2)];
    assert_eq!(pair(combine(hits(), false)), Some(("b".into(), 2)));
    assert_eq!(pair(combine(hits(), true)), None);
    assert_eq!(pair(combine(vec![info("a", 5), info("b", 2)], true)), Some(("a + b".into(), 2)));
    assert_eq!(pair(combine(vec![None, None], false)), None);
}

// ---- Snippets: boundary and multibyte cases ---------------------------------

#[test]
fn snippet_shorter_than_window_is_untouched() {
    let chars: Vec<char> = "short text".chars().collect();
    assert_eq!(make_snippet(&chars, 0, 100), "short text");
}

#[test]
fn snippet_zero_max_means_unlimited() {
    let chars: Vec<char> = "abc".repeat(100).chars().collect();
    assert_eq!(make_snippet(&chars, 5, 0).chars().count(), 300);
}

#[test]
fn snippet_centered_with_markers_both_sides() {
    let chars: Vec<char> = ('a'..='z').cycle().take(100).collect();
    let s = make_snippet(&chars, 50, 10);
    assert!(s.starts_with('…') && s.ends_with('…'));
    assert_eq!(s.chars().count(), 12); // 10 + two markers
}

#[test]
fn snippet_match_at_start_and_end() {
    let chars: Vec<char> = ('a'..='z').cycle().take(100).collect();
    let at_start = make_snippet(&chars, 0, 10);
    assert!(!at_start.starts_with('…') && at_start.ends_with('…'));
    let at_end = make_snippet(&chars, 99, 10);
    assert!(at_end.starts_with('…') && !at_end.ends_with('…'));
}

#[test]
fn snippet_multibyte_never_splits_or_panics() {
    // Emoji + CJK + combining marks — every boundary is a char boundary.
    let text = "🎉🚀日本語テキストe\u{301}と絵文字🧪の混在テスト".repeat(20);
    let chars: Vec<char> = text.chars().collect();
    for pos in [0, 1, chars.len() / 2, chars.len() - 1] {
        for max in [1, 2, 3, 10, chars.len(), chars.len() + 5] {
            let s = make_snippet(&chars, pos, max);
            assert!(!s.is_empty());
        }
    }
}

#[test]
fn snippets_are_exact() {
    let chars: Vec<char> = "0123456789".chars().collect();
    assert_eq!(make_snippet(&chars, 5, 4), "…3456…");
    assert_eq!(make_snippet(&chars, 2, 5), "01234…");
    assert_eq!(make_snippet(&chars, 3, 5), "…12345…");
    assert_eq!(make_snippet(&chars, 9, 4), "…6789");
    assert_eq!(make_snippet(&chars, 1000, 4), "…6789");
    assert_eq!(make_snippet(&chars, usize::MAX, 9), "…123456789");
    assert_eq!(make_snippet(&chars, 5, 10), "0123456789");
    assert_eq!(make_snippet(&chars, 5, 1), "…5…");
}

// ---- Threads ----------------------------------------------------------------

#[test]
fn thread_root_cycle_does_not_hang() {
    // Adversarial: corrupted parent chain A→B→A must terminate.
    let mut map = Parents::new();
    map.insert("A".to_string(), Some("B".to_string()));
    map.insert("B".to_string(), Some("A".to_string()));
    let root = resolve_thread_root("A", &map);
    assert!(root == "A" || root == "B");
}

#[test]
fn thread_root_walks_to_top() {
    let mut map = Parents::new();
    map.insert("C".to_string(), Some("B".to_string()));
    map.insert("B".to_string(), Some("A".to_string()));
    map.insert("A".to_string(), None);
    assert_eq!(resolve_thread_root("C", &map), "A");
}

#[test]
fn thread_roots_at_the_edges() {
    let mut map = Parents::new();
    assert_eq!(resolve_thread_root("X", &map), "X");
    map.insert("B".to_string(), Some("unknown".to_string()));
    map.insert("C".to_string(), Some("B".to_string()));
    // An unknown parent ends the walk below it.
    assert_eq!(resolve_thread_root("C", &map), "B");
    assert_eq!(resolve_thread_root("B", &map), "B");
    // A later record of the same id replaces the earlier one.
    map.insert("C".to_string(), None);
    assert_eq!(resolve_thread_root("C", &map), "C");
    // A tail that leads into a circle ends where the circle closes.
    map.insert("T".to_string(), Some("P".to_string()));
    map.insert("P".to_string(), Some("Q".to_string()));
    map.insert("Q".to_string(), Some("P".to_string()));
    assert_eq!(resolve_thread_root("T", &map), "P");
    map.insert("S".to_string(), Some("S".to_string()));
    assert_eq!(resolve_thread_root("S", &map), "S");
}

// ---- Corpus -----------------------------------------------------------------

#[test]
fn corpora_add_up() {
    let mut c = CorpusStats::new(2);
    assert_eq!((c.docs, c.total_len, c.df.clone()), (0, 0, vec![0, 0]));
    c.add_doc(7, &vec![3, 0]);
    c.add_doc(5, &vec![1, 2]);
    assert_eq!((c.docs, c.total_len, c.df.clone()), (2, 12, vec![2, 1]));
    let mut d = CorpusStats::new(3);
    d.add_doc(1, &vec![0, 0, 9]);
    c.merge(&d);
    assert_eq!((c.docs, c.total_len, c.df.clone()), (3, 13, vec![2, 1, 1]));
    let mut e = CorpusStats { docs: usize::MAX, total_len: 1, df: vec![] };
    e.merge(&c);
    assert_eq!((e.docs, e.total_len, e.df), (usize::MAX, 14, vec![2, 1, 1]));
}

// ---- Records ----------------------------------------------------------------

#[test]
fn scores_are_written_as_decimals() {
    for (n, want) in [
        (0, "0.0"),
        (1, "0.0001"),
        (10, "0.001"),
        (7386, "0.7386"),
        (34100, "3.41"),
        (30000, "3.0"),
        (123450, "12.345"),
        (10000000, "1000.0"),
    ] {
        assert_eq!(write_score(n), want);
        // As a float of that value is written.
        assert_eq!(serde_json::to_string(&(n as f64 / 10000.0)).unwrap(), want);
    }
}

fn hit(session: &str, line: usize, ts: Option<&str>, text: &str) -> SearchRecord {
    SearchRecord {
        record_type: "match",
        project: format!("project of {session}"),
        session_id: session.to_string(),
        line,
        uuid: None,
        role: "user".to_string(),
        timestamp: ts.map(String::from),
        matched_query: "q".to_string(),
        score: None,
        text: text.to_string(),
        match_offset: 0,
        msg_chars: 0,
        tool_names: vec![],
        git_branch: None,
        context_before: vec![],
        context_after: vec![],
        thread_root: None,
        doc_len: 0,
        tfs: vec![],
    }
}

#[test]
fn a_match_is_written_field_by_field() {
    let mut r = hit("s", 3, None, "a\n");
    assert_eq!(
        r.to_line(),
        "{\"type\":\"match\",\"project\":\"project of s\",\"session_id\":\"s\",\"line\":3,\
         \"role\":\"user\",\"matched_query\":\"q\",\"text\":\"a\\n\",\"match_offset\":0,\
         \"msg_chars\":0}"
    );
    r.uuid = Some("u".to_string());
    r.timestamp = Some("t".to_string());
    r.score = Some(5000);
    r.tool_names = vec!["Bash".to_string(), "R\"d".to_string()];
    r.git_branch = Some("main".to_string());
    r.context_before = vec![CtxMsg {
        line: 1,
        role: "system".to_string(),
        timestamp: None,
        text: "x".to_string(),
    }];
    r.context_after = vec![
        CtxMsg { line: 4, role: "user".to_string(), timestamp: Some("z".to_string()), text: "".to_string() },
        CtxMsg { line: 5, role: "user".to_string(), timestamp: None, text: "y".to_string() },
    ];
    r.thread_root = Some("never written".to_string());
    r.doc_len = 9;
    r.tfs = vec![1];
    assert_eq!(
        r.to_line(),
        "{\"type\":\"match\",\"project\":\"project of s\",\"session_id\":\"s\",\"line\":3,\
         \"uuid\":\"u\",\"role\":\"user\",\"timestamp\":\"t\",\"matched_query\":\"q\",\
         \"score\":0.5,\"text\":\"a\\n\",\"match_offset\":0,\"msg_chars\":0,\
         \"tool_names\":[\"Bash\",\"R\\\"d\"],\"git_branch\":\"main\",\
         \"context_before\":[{\"line\":1,\"role\":\"system\",\"text\":\"x\"}],\
         \"context_after\":[{\"line\":4,\"role\":\"user\",\"timestamp\":\"z\",\"text\":\"\"},\
         {\"line\":5,\"role\":\"user\",\"text\":\"y\"}]}"
    );
}

// ---- Order and repeats ------------------------------------------------------

fn lines(list: &[SearchRecord]) -> Vec<usize> {
    list.iter().map(|r| r.line).collect()
}

#[test]
fn results_are_sorted_stably() {
    let all = || {
        vec![
            hit("s", 1, Some("2026-01"), "a"),
            hit("s", 2, None, "b"),
            hit("s", 3, Some("2026-03"), "c"),
            hit("s", 4, Some("2026-01"), "d"),
            hit("s", 5, Some(""), "e"),
            hit("s", 6, None, "f"),
        ]
    };
    assert_eq!(lines(&sort_records(all(), SortMode::Document)), vec![1, 2, 3, 4, 5, 6]);
    assert_eq!(lines(&sort_records(all(), SortMode::Recency)), vec![3, 1, 4, 5, 2, 6]);
    assert_eq!(lines(&sort_records(all(), SortMode::Oldest)), vec![2, 6, 5, 1, 4, 3]);
    let mut scored = all();
    for (r, s) in scored.iter_mut().zip([Some(5), Some(9), None, Some(9), Some(0), None]) {
        r.score = s;
    }
    assert_eq!(lines(&sort_records(scored, SortMode::Relevance)), vec![2, 4, 1, 5, 3, 6]);
}

#[test]
fn repeated_snippets_go() {
    let list = vec![
        hit("s", 1, None, "a"),
        hit("t", 2, None, "b"),
        hit("u", 3, None, "a"),
        hit("s", 4, None, "A"),
        hit("s", 5, None, "b"),
    ];
    assert_eq!(lines(&drop_repeats(list)), vec![1, 2, 4]);
    assert!(drop_repeats(vec![]).is_empty());
}

// ---- Groups -----------------------------------------------------------------

fn threaded(session: &str, line: usize, ts: Option<&str>, root: Option<&str>) -> SearchRecord {
    let mut r = hit(session, line, ts, &format!("text {line}"));
    r.thread_root = root.map(String::from);
    r
}

#[test]
fn groups_follow_first_appearance() {
    let list = vec![
        threaded("b", 1, Some("2026-02"), Some("r1")),
        threaded("a", 2, None, Some("r2")),
        threaded("b", 3, Some("2026-01"), Some("r2")),
        threaded("b", 4, Some("2026-03"), None),
        threaded("c", 5, Some("2026-09"), Some("r1")),
    ];
    let gs = collect_groups(&list, GroupMode::Session, 2);
    let got: Vec<(&str, &str, usize, Option<&str>, Option<&str>, Vec<usize>)> = gs
        .iter()
        .map(|g| {
            (
                g.key.as_str(),
                g.project.as_str(),
                g.hits,
                g.first_ts.as_deref(),
                g.last_ts.as_deref(),
                g.samples.iter().map(|s| s.line).collect(),
            )
        })
        .collect();
    assert_eq!(
        got,
        vec![
            ("b", "project of b", 3, Some("2026-01"), Some("2026-03"), vec![1, 3]),
            ("a", "project of a", 1, None, None, vec![2]),
            ("c", "project of c", 1, Some("2026-09"), Some("2026-09"), vec![5]),
        ]
    );
    let gs = collect_groups(&list, GroupMode::Thread, 0);
    let got: Vec<(&str, &str, usize, usize)> =
        gs.iter().map(|g| (g.key.as_str(), g.session_id.as_str(), g.hits, g.samples.len())).collect();
    // A match without a thread goes by its session.
    assert_eq!(got, vec![("r1", "b", 2, 0), ("r2", "a", 2, 0), ("b", "b", 1, 0)]);
}

#[test]
fn groups_are_capped_and_written() {
    let list: Vec<SearchRecord> =
        (0..5).map(|i| threaded(&format!("s{i}"), i, Some("t"), None)).collect();
    let mut em = Emitter::capturing(0);
    assert_eq!(emit_groups(&list, GroupMode::Session, 2, 1, &mut em), (2, 2, true));
    let text = String::from_utf8(em.into_bytes()).unwrap();
    assert_eq!(
        text.lines().nth(1),
        Some(
            "{\"type\":\"group\",\"group_by\":\"session\",\"key\":\"s0\",\
             \"project\":\"project of s0\",\"session_id\":\"s0\",\"hits\":1,\"first_ts\":\"t\",\
             \"last_ts\":\"t\",\"samples\":[{\"line\":0,\"timestamp\":\"t\",\"text\":\"text 0\"}]}"
        )
    );
    let mut em = Emitter::capturing(0);
    assert_eq!(emit_groups(&list, GroupMode::Thread, 0, 0, &mut em), (5, 5, false));
    assert!(String::from_utf8(em.into_bytes()).unwrap().contains("\"samples\":[]}"));
    // A budget that ends after the header leaves all of them out.
    let mut em = Emitter::capturing(20);
    assert_eq!(emit_groups(&list, GroupMode::Session, 5, 1, &mut em), (0, 5, false));
}

// ---- Live sessions ----------------------------------------------------------

#[test]
fn a_session_is_live_within_its_window() {
    let s: i128 = 1_000_000_000;
    assert!(live(Some(100 * s), 100 * s, 1));
    assert!(!live(Some(100 * s), 100 * s, 0));
    assert!(live(Some(100 * s), 219 * s + 999_999_999, 120));
    assert!(!live(Some(100 * s), 220 * s, 120));
    assert!(live(Some(100 * s + 1), 100 * s, 0), "the future is live");
    assert!(live(None, 0, 0));
    assert!(!live(Some(i128::MIN), i128::MAX, u64::MAX));
}
