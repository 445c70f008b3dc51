use agent_mcp::ops::list_dir::{self, WalkItem};
use agent_mcp::ops::search_text::{
    check_exit, check_search_dir, collect_matches, ripgrep_args, search_cwd, spawn_error, to_search_match,
    truncate_around_match, RgMatch,
};
use agent_mcp::protocol::{DetailValue, ErrorCode, ListDirArgs, SearchTextArgs};

fn list_args(dir: &str, depth: usize, include_hidden: bool, max_entries: usize) -> ListDirArgs {
    ListDirArgs { dir_path: dir.to_string(), depth, include_hidden, max_entries }
}

fn root_item(name: &str) -> WalkItem {
    WalkItem::Entry { name: name.to_string(), depth: 0, relative: String::new(), meta: Some((true, false, 0)) }
}

fn file(rel: &str, depth: usize, len: u64) -> WalkItem {
    let name = rel.rsplit('/').next().unwrap().to_string();
    WalkItem::Entry { name, depth, relative: rel.to_string(), meta: Some((false, true, len)) }
}

fn dir(rel: &str, depth: usize) -> WalkItem {
    let name = rel.rsplit('/').next().unwrap().to_string();
    WalkItem::Entry { name, depth, relative: rel.to_string(), meta: Some((true, false, 4096)) }
}

#[test]
fn test_list_simple_directory() {
    let args = list_args("test_dir", 1, false, 100);
    assert!(list_dir::check_dir(&args, true, true).is_ok());
    let res = list_dir::collect(&args, vec![root_item("test_dir"), file("file1.txt", 1, 8), file("file2.txt", 1, 8)]);
    assert_eq!(res.entries.len(), 2);
    assert!(!res.truncated);
}

#[test]
fn test_list_with_subdirectories() {
    let args = list_args("base", 2, false, 100);
    let items = vec![
        root_item("base"),
        file("root.txt", 1, 4),
        dir("sub1", 1),
        file("sub1/file1.txt", 2, 8),
        dir("sub2", 1),
        file("sub2/file2.txt", 2, 8),
    ];
    let res = list_dir::collect(&args, items);
    assert!(res.entries.len() >= 5);
    assert!(!res.truncated);
}

#[test]
fn test_list_depth_limit() {
    // A walk limited to depth 1 yields the directory and its children only.
    let args = list_args("base", 1, false, 100);
    let res = list_dir::collect(&args, vec![root_item("base"), dir("level1", 1)]);
    assert!(res.entries.iter().any(|e| e.path == "level1"));
    assert!(!res.entries.iter().any(|e| e.path.contains("level2")));
}

#[test]
fn test_list_hidden_files() {
    let items = || vec![root_item("test_dir"), file("visible.txt", 1, 7), file(".hidden.txt", 1, 6)];
    let res = list_dir::collect(&list_args("test_dir", 1, false, 100), items());
    assert!(!res.entries.iter().any(|e| e.path.contains(".hidden")));
    let res = list_dir::collect(&list_args("test_dir", 1, true, 100), items());
    assert!(res.entries.iter().any(|e| e.path.contains(".hidden")));
}

#[test]
fn test_list_max_entries_truncation() {
    let mut items = vec![root_item("test_dir")];
    for i in 0..10 {
        items.push(file(&format!("file{}.txt", i), 1, 7));
    }
    let res = list_dir::collect(&list_args("test_dir", 1, false, 5), items);
    assert_eq!(res.entries.len(), 5);
    assert!(res.truncated);
}

#[test]
fn test_list_nonexistent_directory() {
    let result = list_dir::check_dir(&list_args("nonexistent", 1, false, 100), false, false);
    assert!(result.is_err());
    assert!(matches!(result.unwrap_err().code, ErrorCode::NotFound));
}

#[test]
fn test_list_file_not_directory() {
    let result = list_dir::check_dir(&list_args("file.txt", 1, false, 100), true, false);
    assert!(result.is_err());
    assert!(matches!(result.unwrap_err().code, ErrorCode::InvalidArgument));
}

#[test]
fn test_list_entry_types() {
    let args = list_args("base", 1, false, 100);
    let res = list_dir::collect(&args, vec![root_item("base"), file("file.txt", 1, 7), dir("subdir", 1)]);
    let file_entry = res.entries.iter().find(|e| e.path == "file.txt").unwrap();
    assert_eq!(file_entry.entry_type, "file");
    assert_eq!(file_entry.size, Some(7));
    let dir_entry = res.entries.iter().find(|e| e.path == "subdir").unwrap();
    assert_eq!(dir_entry.entry_type, "dir");
    assert_eq!(dir_entry.size, None);
}

#[test]
fn unreadable_entries_are_skipped_and_limit_is_only_hit_with_more_items() {
    let args = list_args("d", 1, false, 2);
    let res = list_dir::collect(&args, vec![root_item("d"), WalkItem::Unreadable, file("a", 1, 1), file("b", 1, 1)]);
    assert_eq!(res.entries.len(), 2);
    assert!(!res.truncated);
    let no_meta = WalkItem::Entry { name: "c".to_string(), depth: 1, relative: "c".to_string(), meta: None };
    let res = list_dir::collect(&args, vec![no_meta, file("a", 1, 1), file("b", 1, 1), WalkItem::Unreadable]);
    assert_eq!(res.entries.len(), 2);
    assert!(res.truncated);
}

fn search_args(pattern: &str, max_matches: usize, max_line_length: usize) -> SearchTextArgs {
    SearchTextArgs {
        pattern: pattern.to_string(),
        cwd: None,
        globs: vec![],
        case_sensitive: Some(false),
        regex: Some(false),
        no_ignore: true,
        max_matches,
        max_per_file: 50,
        max_line_length,
    }
}

fn rg(path: &str, line: &str, number: u64, start: Option<usize>) -> Option<RgMatch> {
    Some(RgMatch { path: path.to_string(), line_text: line.to_string(), line_number: number, first_start: start })
}

#[test]
fn search_text_test_test_search_nonexistent_directory() {
    let result = check_search_dir("nonexistent", false);
    assert!(result.is_err());
    let err = result.unwrap_err();
    assert!(matches!(err.code, ErrorCode::NotFound));
    assert_eq!(err.details, Some(vec![("cwd".to_string(), DetailValue::Str("nonexistent".to_string()))]));
}

#[test]
fn search_text_test_test_search_basic_literal() {
    let mut args = search_args("UNIQUE_SEARCH_STRING_12345", 200, 200);
    args.cwd = Some("src".to_string());
    assert_eq!(search_cwd(&args), "src");
    let lines = vec![
        rg("test.txt", "UNIQUE_SEARCH_STRING_12345\n", 1, Some(0)),
        None,
        rg("test.txt", "UNIQUE_SEARCH_STRING_12345\n", 3, Some(0)),
    ];
    let res = collect_matches(&args, &lines);
    assert_eq!(res.matches.len(), 2);
    assert_eq!(res.matches[1].line, 3);
    assert_eq!(res.matches[0].column, Some(1));
    assert_eq!(res.matches[0].text, "UNIQUE_SEARCH_STRING_12345");
}

#[test]
fn search_text_test_test_search_no_matches_is_ok() {
    assert!(check_exit(false, Some(1), b"", b"").is_ok());
    let res = collect_matches(&search_args("DEFINITELY_NOT_PRESENT_XYZABC", 200, 200), &vec![None, None]);
    assert_eq!(res.matches.len(), 0);
    assert!(!res.truncated);
}

#[test]
fn search_text_test_test_search_respects_max_matches() {
    let mut lines = Vec::new();
    for i in 0..10 {
        lines.push(rg("many.txt", "match", i + 1, Some(0)));
    }
    let res = collect_matches(&search_args("match", 5, 200), &lines);
    assert!(res.matches.len() <= 5);
    assert_eq!(res.matches.len(), 5);
    assert!(res.truncated);
}

#[test]
fn search_text_test_test_search_default_cwd() {
    let args = search_args("x", 200, 200);
    assert_eq!(search_cwd(&args), ".");
}

#[test]
fn search_text_test_test_search_with_glob_filter() {
    let mut args = search_args("needle", 200, 200);
    args.globs = vec!["*.rs".to_string(), "!target/**".to_string()];
    let a = ripgrep_args(&args);
    let expected: Vec<String> = vec![
        "--json", "--no-messages", "--max-count", "50", "--ignore-case", "--fixed-strings", "--no-ignore",
        "--glob", "*.rs", "--glob", "!target/**", "needle", ".",
    ]
    .into_iter()
    .map(|s| s.to_string())
    .collect();
    assert_eq!(a, expected);
}

#[test]
fn test_search_yarn_lock_with_glob() {
    let mut args = search_args("lodash", 200, 200);
    args.globs = vec!["yarn.lock".to_string()];
    args.case_sensitive = Some(true);
    args.regex = Some(true);
    args.no_ignore = false;
    let a = ripgrep_args(&args);
    assert_eq!(a[4], "--case-sensitive");
    assert!(!a.contains(&"--fixed-strings".to_string()));
    assert!(!a.contains(&"--no-ignore".to_string()));
    assert_eq!(&a[a.len() - 4..], &["--glob".to_string(), "yarn.lock".to_string(), "lodash".to_string(), ".".to_string()]);
}

#[test]
fn test_search_with_wildcard_glob() {
    let mut args = search_args("x", 200, 200);
    args.globs = vec!["**/*.lock".to_string()];
    assert!(ripgrep_args(&args).contains(&"**/*.lock".to_string()));
}

#[test]
fn test_debug_ripgrep_command() {
    let err = spawn_error("No such file or directory (os error 2)");
    assert!(matches!(err.code, ErrorCode::SearchFailed));
    assert_eq!(err.message, "Failed to execute ripgrep");
    let err = check_exit(false, Some(2), b"out", b"bad \xff").unwrap_err();
    assert_eq!(err.message, "ripgrep command failed");
    assert_eq!(
        err.details,
        Some(vec![
            ("code".to_string(), DetailValue::Int(2)),
            ("stderr".to_string(), DetailValue::Str("bad \u{fffd}".to_string())),
            ("stdout".to_string(), DetailValue::Str("out".to_string())),
        ])
    );
    let err = check_exit(false, None, b"", b"").unwrap_err();
    assert_eq!(err.details.unwrap()[0].1, DetailValue::Null);
}

#[test]
fn test_search_with_debug_output() {
    let lines = vec![rg("./a.txt", "  hello world  \n", 7, Some(8))];
    let res = collect_matches(&search_args("world", 200, 200), &lines);
    assert!(res.matches.len() > 0);
    assert_eq!(res.matches[0].file_path, "./a.txt");
    assert_eq!(res.matches[0].text, "hello world");
    assert_eq!(res.matches[0].column, Some(9));
}

#[test]
fn test_line_truncation_long_line() {
    let line = format!("{}FINDME{}\n", "a".repeat(1000), "z".repeat(1000));
    let res = collect_matches(&search_args("FINDME", 200, 200), &vec![rg("minified.js", &line, 1, Some(1000))]);
    assert_eq!(res.matches.len(), 1);
    let match_text = &res.matches[0].text;
    assert!(match_text.len() <= 250);
    assert!(match_text.contains("FINDME"));
    assert!(match_text.contains("[+"));
    assert!(match_text.contains("chars]"));
    assert_eq!(match_text, &format!("[+920 chars] {}FINDME{} [+926 chars]", "a".repeat(80), "z".repeat(74)));
}

#[test]
fn test_line_truncation_short_line() {
    let res = collect_matches(
        &search_args("FINDME", 200, 200),
        &vec![rg("short.txt", "This is a short line with FINDME in it\n", 1, Some(26))],
    );
    assert_eq!(res.matches.len(), 1);
    let match_text = &res.matches[0].text;
    assert!(!match_text.contains("[+"));
    assert_eq!(match_text, "This is a short line with FINDME in it");
}

#[test]
fn test_line_truncation_match_at_start() {
    let line = format!("FINDME{}\n", "x".repeat(1000));
    let res = collect_matches(&search_args("FINDME", 200, 200), &vec![rg("start.txt", &line, 1, Some(0))]);
    assert_eq!(res.matches.len(), 1);
    let match_text = &res.matches[0].text;
    assert!(match_text.contains("FINDME"));
    assert!(!match_text.starts_with("[+"));
    assert!(match_text.contains("chars]"));
}

#[test]
fn test_line_truncation_match_at_end() {
    let line = format!("{}FINDME\n", "y".repeat(1000));
    let res = collect_matches(&search_args("FINDME", 200, 200), &vec![rg("end.txt", &line, 1, Some(1000))]);
    assert_eq!(res.matches.len(), 1);
    let match_text = &res.matches[0].text;
    assert!(match_text.contains("FINDME"));
    assert!(match_text.starts_with("[+"));
    assert!(!match_text.ends_with("chars]"));
}

#[test]
fn truncation_with_tiny_limit_cuts_the_head() {
    assert_eq!(truncate_around_match("abcdefghij", Some(5), 4), "abcd...");
    assert_eq!(truncate_around_match("abcdefghij", None, 59), "abcdefghij...");
    let m = to_search_match(&RgMatch { path: "p".to_string(), line_text: "\tabc ".to_string(), line_number: 4_294_967_297, first_start: Some(usize::MAX) }, 200);
    assert_eq!(m.text, "abc");
    assert_eq!(m.line, 1);
    assert_eq!(m.column, Some(0));
}

#[test]
fn long_line_with_leading_whitespace_keeps_the_match() {
    let line = format!("{}{}FINDME{}\n", " ".repeat(300), "a".repeat(1000), "z".repeat(1000));
    let res = collect_matches(&search_args("FINDME", 200, 200), &vec![rg("w.js", &line, 1, Some(1300))]);
    let text = &res.matches[0].text;
    assert!(text.len() <= 250);
    assert!(text.contains("FINDME"));
    assert_eq!(text, &format!("[+920 chars] {}FINDME{} [+926 chars]", "a".repeat(80), "z".repeat(74)));
    assert_eq!(res.matches[0].column, Some(1301));
}

#[test]
fn truncation_indicators_count_chars() {
    let line = format!("{}FINDME{}", "é".repeat(150), "z".repeat(300));
    // The match starts at byte 300; the window of 160 bytes starts at byte 220.
    let out = truncate_around_match(&line, Some(300), 200);
    assert!(out.starts_with("[+110 chars] "));
    assert!(out.contains("FINDME"));
    assert!(out.ends_with(" [+226 chars]"));
    // A window edge inside a char is moved back to the char's start.
    let out = truncate_around_match(&line, Some(301), 200);
    assert!(out.starts_with("[+110 chars] "));
    let head = truncate_around_match("ééééé", None, 3);
    assert_eq!(head, "é...");
}
