use std::path::PathBuf;

use smc::util::discover::{
    extract_project_name, file_name, find_session, list_sessions, log_stem,
    project_name_from_cwd, FindError, LogFile, ProjectDir, SessionFile,
};

fn session(id: &str, size: u64) -> SessionFile {
    SessionFile {
        path: PathBuf::from("/x"),
        session_id: id.to_string(),
        project_name: "p".to_string(),
        size_bytes: size,
        modified: None,
    }
}

#[test]
fn extracts_github_project() {
    assert_eq!(extract_project_name("-Users-travis-GitHub-myapp"), "myapp");
}

#[test]
fn github_match_is_case_insensitive() {
    assert_eq!(
        extract_project_name("-Users-tmarq-Github-smc-cli-cc"),
        "smc-cli-cc"
    );
}

#[test]
fn extracts_nested_project() {
    assert_eq!(
        extract_project_name("-Users-travis-GitHub-misc-smc_cli"),
        "misc-smc_cli"
    );
}

#[test]
fn fallback_last_segment() {
    assert_eq!(extract_project_name("-Users-travis-something"), "something");
}

#[test]
fn project_name_edges() {
    assert_eq!(extract_project_name("-home-me-github"), "-home-me-github");
    assert_eq!(extract_project_name("-home-me-github-"), "");
    assert_eq!(extract_project_name("-Users-"), "-Users-");
    assert_eq!(extract_project_name(""), "");
    assert_eq!(extract_project_name("a-github-b-GITHUB-c"), "b-GITHUB-c");
}

#[test]
fn cwd_beats_dir_name_heuristic() {
    let dir = ProjectDir {
        dir_name: "-Users-x-Github-My-Dashed-Name".to_string(),
        heads: vec![vec![
            "not json at all".to_string(),
            "{\"type\":\"user\",\"cwd\":\"/Users/x/Github/My-Dashed-Name\",\"message\":{\"role\":\"user\",\"content\":\"hi\"}}".to_string(),
        ]],
        logs: vec![LogFile {
            path: PathBuf::from("/tmp/abc123.jsonl"),
            stem: log_stem("abc123.jsonl").unwrap(),
            size_bytes: 10,
            modified: None,
        }],
    };
    let files = list_sessions(vec![dir]);
    assert_eq!(files.len(), 1);
    assert_eq!(files[0].project_name, "My-Dashed-Name");
    assert_eq!(files[0].session_id, "abc123");
    assert_eq!(files[0].path, PathBuf::from("/tmp/abc123.jsonl"));
}

#[test]
fn empty_or_garbage_files_fall_back_to_dir_name() {
    let dir = ProjectDir {
        dir_name: "-Users-x-Github-fallback-proj".to_string(),
        heads: vec![vec!["\u{0}garbage".to_string(), String::new()]],
        logs: vec![LogFile {
            path: PathBuf::from("/tmp/s1.jsonl"),
            stem: log_stem("s1.jsonl").unwrap(),
            size_bytes: 10,
            modified: None,
        }],
    };
    let files = list_sessions(vec![dir]);
    assert_eq!(files.len(), 1);
    assert_eq!(files[0].project_name, "fallback-proj");
}

#[test]
fn cwd_is_asked_of_three_logs_and_twenty_lines() {
    let named = "{\"cwd\":\"/a/found\"}".to_string();
    let mut long: Vec<String> = vec![String::new(); 19];
    long.push(named.clone());
    assert_eq!(project_name_from_cwd(&vec![vec![], long.clone()]), Some("found".to_string()));
    long.insert(0, String::new());
    assert_eq!(project_name_from_cwd(&vec![long]), None);
    assert_eq!(
        project_name_from_cwd(&vec![vec![], vec![], vec![], vec![named.clone()]]),
        None
    );
    // A `cwd` without a name does not end the search.
    assert_eq!(
        project_name_from_cwd(&vec![vec!["{\"cwd\":\"/\"}".to_string(), named]]),
        Some("found".to_string())
    );
    assert_eq!(project_name_from_cwd(&vec![vec!["{\"cwd\":7}".to_string()]]), None);
}

#[test]
fn file_name_is_the_last_component() {
    for p in ["/a/b", "/a/b/", "/a/b/.", "/a//b//", "b", "./b"] {
        assert_eq!(file_name(p), Some("b".to_string()), "{p}");
        assert_eq!(
            std::path::Path::new(p).file_name().and_then(|n| n.to_str()),
            Some("b")
        );
    }
    for p in ["", "/", ".", "..", "/a/..", "./.", "//"] {
        assert_eq!(file_name(p), None, "{p}");
        assert!(std::path::Path::new(p).file_name().is_none());
    }
}

#[test]
fn log_names() {
    assert_eq!(log_stem("a.jsonl"), Some("a".to_string()));
    assert_eq!(log_stem("a.b.jsonl"), Some("a.b".to_string()));
    assert_eq!(log_stem("日本.jsonl"), Some("日本".to_string()));
    assert_eq!(log_stem(".jsonl"), None);
    assert_eq!(log_stem("a.json"), None);
    assert_eq!(log_stem("jsonl"), None);
}

#[test]
fn sessions_are_listed_largest_first() {
    let log = |stem: &str, size: u64| LogFile {
        path: PathBuf::from(stem),
        stem: stem.to_string(),
        size_bytes: size,
        modified: Some(7),
    };
    let dirs = vec![
        ProjectDir {
            dir_name: "one".to_string(),
            heads: vec![],
            logs: vec![log("a", 5), log("b", 9)],
        },
        ProjectDir { dir_name: "none".to_string(), heads: vec![], logs: vec![] },
        ProjectDir {
            dir_name: "two".to_string(),
            heads: vec![],
            logs: vec![log("c", 9), log("d", 1), log("e", 5)],
        },
    ];
    let files = list_sessions(dirs);
    let got: Vec<(&str, &str)> = files
        .iter()
        .map(|f| (f.session_id.as_str(), f.project_name.as_str()))
        .collect();
    assert_eq!(
        got,
        vec![("b", "one"), ("c", "two"), ("a", "one"), ("e", "two"), ("d", "two")]
    );
    assert_eq!(files[0].modified, Some(7));
}

#[test]
fn a_session_is_found_by_id_or_unique_prefix() {
    let files = vec![session("abc1", 1), session("abc", 1), session("xyz", 1)];
    assert_eq!(find_session(&files, "abc").unwrap().session_id, "abc");
    assert_eq!(find_session(&files, "abc1").unwrap().session_id, "abc1");
    assert_eq!(find_session(&files, "x").unwrap().session_id, "xyz");
    match find_session(&files, "ab") {
        Err(e) => {
            assert!(matches!(e, FindError::Ambiguous { matches: 2, .. }));
            assert_eq!(
                e.message(),
                "ambiguous session ID 'ab' (2 matches) — provide more characters"
            );
        }
        Ok(_) => panic!("two sessions begin so"),
    }
    match find_session(&files, "q") {
        Err(e) => {
            assert!(matches!(e, FindError::NotFound { .. }));
            assert_eq!(e.message(), "no session found matching 'q'");
        }
        Ok(_) => panic!("no session begins so"),
    }
}

#[test]
fn sizes_read_as_a_float_would_print_them() {
    let mut sizes: Vec<u64> = vec![0, 1, 1023, 1024, 1075, 1076, 1152, 1280, 1408, 1536];
    for k in 0..64u32 {
        let p = 1u64 << k;
        for d in [0u64, 1, 3, 512, 51_200, 104_857] {
            sizes.push(p.saturating_sub(d));
            sizes.push(p.saturating_add(d));
            sizes.push(p.saturating_add(p / 4).saturating_add(d));
            sizes.push(p.saturating_add(p / 20).saturating_sub(d));
            sizes.push(p.saturating_add(p / 200 * 3).saturating_sub(d));
        }
    }
    sizes.push(u64::MAX);
    sizes.push((1 << 53) + 1);
    sizes.push((1 << 62) + 12_345_678_901);
    for b in sizes {
        let want = if b < 1024 {
            format!("{}B", b)
        } else if b < 1024 * 1024 {
            format!("{:.1}KB", b as f64 / 1024.0)
        } else if b < 1024 * 1024 * 1024 {
            format!("{:.1}MB", b as f64 / (1024.0 * 1024.0))
        } else {
            format!("{:.2}GB", b as f64 / (1024.0 * 1024.0 * 1024.0))
        };
        assert_eq!(session("s", b).size_human(), want, "{b}");
    }
    assert_eq!(session("s", 1536).size_human(), "1.5KB");
    assert_eq!(session("s", 3 << 30).size_human(), "3.00GB");
}
