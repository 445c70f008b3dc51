use agent_mcp::cache::{cache_failure, cache_max_bytes, mtime_ns, CacheEntry, CacheStep, FileMeta, RopeCache};
use agent_mcp::ops::apply_patch::{
    self, byte_to_line, find_needle, patch_terminates, ranges_overlap, write_failure, WriteStep,
};
use agent_mcp::ops::read_excerpt;
use agent_mcp::paths::temp_path;
use agent_mcp::protocol::{
    ApplyPatchArgs, DetailValue, ErrorCode, PatchAnchor, PatchEdit, PatchRegion, ReadExcerptArgs,
};
use agent_mcp::text::truncate_to_max_bytes;
use agent_mcp::workspace::{PathProbe, Workspace};
use ropey::Rope;

fn anchor(needle: &str, unique: Option<bool>) -> PatchAnchor {
    PatchAnchor { needle: needle.to_string(), require_unique: unique }
}

fn patch(content: &str, mode: Option<&str>, edits: Vec<PatchEdit>) -> Result<(Rope, agent_mcp::protocol::ApplyPatchResult), agent_mcp::protocol::EngineError> {
    let rope = Rope::from_str(content);
    let args = ApplyPatchArgs {
        file_path: "f.txt".to_string(),
        mode: mode.map(|m| m.to_string()),
        dry_run: false,
        edits,
    };
    assert!(patch_terminates(content.as_bytes(), &args.edits, mode.map_or(true, |m| m == "strict")));
    apply_patch::run(&rope, &args)
}

#[test]
fn test_apply_patch_with_utf8_characters() {
    let test_content = "// Start of file\n\
                   fn hello() {\n\
                       println!(\"Hello 世界 🌍\");\n\
                   }\n\
                   // End of file\n";
    let result = patch(
        test_content,
        Some("strict"),
        vec![PatchEdit::Insert {
            where_: "after".to_string(),
            anchor: anchor("println!(\"Hello 世界 🌍\");", Some(true)),
            text: "\n    println!(\"Goodbye!\");".to_string(),
        }],
    );
    assert!(result.is_ok(), "Failed to apply patch with UTF-8: {:?}", result);
    let (rope, res) = result.unwrap();
    let modified_content = rope.to_string();
    assert!(modified_content.contains("println!(\"Goodbye!\")"));
    assert!(modified_content.contains("println!(\"Hello 世界 🌍\");\n    println!(\"Goodbye!\");"));
    assert_eq!(res.applied.len(), 1);
    assert_eq!(res.applied[0].kind, "insert");
}

#[test]
fn test_apply_patch_simple_insert() {
    let result = patch(
        "line 1\nline 2\nline 3\n",
        Some("strict"),
        vec![PatchEdit::Insert {
            where_: "after".to_string(),
            anchor: anchor("line 2", Some(true)),
            text: "\ninserted line".to_string(),
        }],
    );
    assert!(result.is_ok(), "Failed to apply simple patch: {:?}", result);
    let (rope, res) = result.unwrap();
    assert!(rope.to_string().contains("inserted line"));
    assert_eq!(rope.to_string(), "line 1\nline 2\ninserted line\nline 3\n");
    assert_eq!(res.applied[0].summary, "Insert 14 bytes after anchor");
    assert_eq!(res.applied[0].start_line, Some(2));
}

#[test]
fn replace_and_delete_regions() {
    let content = "a\nBEGIN\nold\nEND\nz\n";
    let (rope, res) = patch(
        content,
        None,
        vec![PatchEdit::Replace {
            target: PatchRegion { start: anchor("BEGIN", None), end: Some(anchor("END", None)), include_end_needle: Some(true) },
            replacement: "new".to_string(),
        }],
    )
    .unwrap();
    assert_eq!(rope.to_string(), "a\nnew\nz\n");
    assert_eq!(res.applied[0].summary, "Replace 13 bytes with 3 bytes");
    let (rope, _) = patch(
        content,
        None,
        vec![PatchEdit::Delete { target: PatchRegion { start: anchor("old\n", None), end: None, include_end_needle: None } }],
    )
    .unwrap();
    assert_eq!(rope.to_string(), "a\nBEGIN\nEND\nz\n");
}

#[test]
fn drift_and_overlap_are_refused_in_strict_mode() {
    let err = patch("abc", None, vec![PatchEdit::Insert { where_: "before".to_string(), anchor: anchor("zzz", None), text: "x".to_string() }]).unwrap_err();
    assert!(matches!(err.code, ErrorCode::DriftDetected));
    assert_eq!(err.message, "Anchor not found");
    let err = patch("abab", None, vec![PatchEdit::Insert { where_: "before".to_string(), anchor: anchor("ab", Some(true)), text: "x".to_string() }]).unwrap_err();
    assert_eq!(err.message, "Anchor is not unique");
    assert_eq!(err.details.unwrap()[2], ("count".to_string(), DetailValue::Int(2)));
    let overlapping = vec![
        PatchEdit::Delete { target: PatchRegion { start: anchor("abc", None), end: None, include_end_needle: None } },
        PatchEdit::Delete { target: PatchRegion { start: anchor("bcd", None), end: None, include_end_needle: None } },
    ];
    let err = patch("abcde", None, overlapping.clone()).unwrap_err();
    assert_eq!(err.message, "Edits overlap");
    // Best effort applies them anyway, back to front.
    assert!(patch("abcde", Some("best_effort"), overlapping).is_ok());
    // A missing anchor is skipped in best-effort mode.
    let (rope, res) = patch("abc", Some("best_effort"), vec![PatchEdit::Insert { where_: "before".to_string(), anchor: anchor("zzz", None), text: "x".to_string() }]).unwrap();
    assert_eq!(rope.to_string(), "abc");
    assert!(res.applied.is_empty());
}

#[test]
fn patch_helpers() {
    assert_eq!(find_needle(b"abcabc", "bc"), vec![1, 4]);
    assert_eq!(find_needle(b"aaa", "aa"), vec![0, 1]);
    assert!(ranges_overlap(0, 3, 2, 5));
    assert!(!ranges_overlap(0, 3, 3, 5));
    assert_eq!(byte_to_line(b"a\nb\nc", 3), 2);
    assert_eq!(byte_to_line(b"a\nb\nc", 4), 3);
    assert_eq!(byte_to_line(b"a\nb\nc", 5), 3);
    assert_eq!(byte_to_line(b"a\nb\nc", 0), 1);
    assert!(!patch_terminates(b"abc", &vec![PatchEdit::Insert { where_: "before".to_string(), anchor: anchor("", None), text: String::new() }], true));
    let e = write_failure(WriteStep::RenameTemp, "f.txt", "cross-device link");
    assert_eq!(e.message, "Failed to rename temporary file");
    assert_eq!(temp_path("/repo/src/main.rs"), "/repo/src/main.tmp");
    assert_eq!(temp_path("/repo/Makefile"), "/repo/Makefile.tmp");
    assert_eq!(temp_path("/repo/.bashrc"), "/repo/.bashrc.tmp");
    assert_eq!(temp_path("/repo/a.tar.gz"), "/repo/a.tar.tmp");
}

fn excerpt(content: &str, start: u32, end: u32, max: usize) -> Result<agent_mcp::protocol::ReadExcerptResult, agent_mcp::protocol::EngineError> {
    let rope = Rope::from_str(content);
    read_excerpt::run(&rope, &ReadExcerptArgs { file_path: "f.txt".to_string(), start_line: start, end_line: end, max_bytes: max })
}

#[test]
fn read_excerpt_test_test_hard_limit_enforced() {
    let line = "x".repeat(100);
    let content = (0..1500).map(|_| line.as_str()).collect::<Vec<_>>().join("\n");
    let result = excerpt(&content, 1, 1500, 200_000);
    assert!(result.is_ok());
    let res = result.unwrap();
    assert!(res.truncated);
    assert!(res.text.len() <= 102_400);
    assert_eq!(res.text.len(), 102_400);
}

#[test]
fn test_normal_read_under_limit() {
    let result = excerpt("line 1\nline 2\nline 3\n", 1, 3, 20_000);
    assert!(result.is_ok());
    let res = result.unwrap();
    assert!(!res.truncated);
    assert_eq!(res.text, "line 1\nline 2\nline 3\n");
}

#[test]
fn excerpt_ranges() {
    let res = excerpt("a\nb\nc\n", 2, 10, 100).unwrap();
    assert_eq!(res.text, "b\nc\n");
    assert_eq!(res.end_line, 4);
    let err = excerpt("a\nb\n", 0, 1, 100).unwrap_err();
    assert_eq!(err.message, "Invalid line range");
    let err = excerpt("a\nb\n", 9, 10, 100).unwrap_err();
    assert_eq!(err.message, "startLine beyond end of file");
    let res = excerpt("héllo\n", 1, 1, 2).unwrap();
    assert_eq!(res.text, "h");
    assert!(res.truncated);
}

#[test]
fn truncation_never_cuts_a_char() {
    assert_eq!(truncate_to_max_bytes("héllo", 2), ("h".to_string(), true));
    assert_eq!(truncate_to_max_bytes("héllo", 3), ("hé".to_string(), true));
    assert_eq!(truncate_to_max_bytes("abc", 5), ("abc".to_string(), false));
}

#[test]
fn cache_reload_and_budget() {
    let mut cache = RopeCache::new(10);
    let m1 = FileMeta { size: 6, mtime_ns: 1 };
    let key = "/repo/a.txt".to_string();
    assert!(cache.needs_reload(&key, m1));
    let rope = cache.load_text(key.clone(), m1, "hello\n");
    assert_eq!(rope.to_string(), "hello\n");
    assert!(!cache.needs_reload(&key, m1));
    assert!(cache.needs_reload(&key, FileMeta { size: 6, mtime_ns: 2 }));
    assert_eq!(cache.get(&key).unwrap().to_string(), "hello\n");
    assert_eq!(cache.get_fresh_rope(&key, m1).unwrap().to_string(), "hello\n");
    assert!(cache.get_fresh_rope(&key, FileMeta { size: 7, mtime_ns: 1 }).is_none());
    // A second file pushes the total over the budget: the least recently
    // used one is evicted.
    let key2 = "/repo/b.txt".to_string();
    cache.load_text(key2.clone(), FileMeta { size: 6, mtime_ns: 1 }, "world\n");
    assert!(cache.get(&key).is_none());
    assert!(cache.get(&key2).is_some());
    // A single entry larger than the budget is kept.
    let key3 = "/repo/c.txt".to_string();
    cache.put_rope(key3.clone(), FileMeta { size: 20, mtime_ns: 1 }, Rope::from_str("01234567890123456789"));
    assert!(cache.get(&key3).is_some());
    assert!(cache.get(&key2).is_none());
}

#[test]
fn cache_settings_and_failures() {
    assert_eq!(cache_max_bytes(None), 128 * 1024 * 1024);
    assert_eq!(cache_max_bytes(Some("2")), 2 * 1024 * 1024);
    assert_eq!(cache_max_bytes(Some("+3")), 3 * 1024 * 1024);
    assert_eq!(cache_max_bytes(Some("x")), 128 * 1024 * 1024);
    assert_eq!(cache_max_bytes(Some(&usize::MAX.to_string())), usize::MAX);
    assert_eq!(mtime_ns(Some((2, 5))), 2_000_000_005);
    assert_eq!(mtime_ns(None), 0);
    let e = cache_failure(CacheStep::Read, "a.txt", "invalid utf-8");
    assert!(matches!(e.code, ErrorCode::IoError));
    assert_eq!(e.message, "Failed to read file as UTF-8 text");
    let e = cache_failure(CacheStep::StatAfterWrite, "a.txt", "gone");
    assert_eq!(e.message, "Failed to stat file after write");
}

#[test]
fn sandbox_resolution() {
    let ws = Workspace::new("/repo".to_string());
    assert_eq!(ws.repo_root(), "/repo");
    let missing = PathProbe::Missing;
    let root = PathProbe::Canonical("/repo".to_string());
    assert_eq!(ws.resolve_path("src/a.rs", &missing, &root).unwrap(), "/repo/src/a.rs");
    let e = ws.resolve_path("/etc/passwd", &missing, &root).unwrap_err();
    assert!(matches!(e.code, ErrorCode::PathOutsideRoot));
    assert_eq!(e.message, "Absolute paths are not allowed");
    let e = ws.resolve_path("a/../../x", &missing, &root).unwrap_err();
    assert_eq!(e.message, "Path traversal is not allowed");
    let e = ws.resolve_path("link", &PathProbe::Canonical("/etc".to_string()), &root).unwrap_err();
    assert_eq!(e.message, "Resolved path is outside repo root");
    let e = ws.resolve_path("link", &PathProbe::Canonical("/repository".to_string()), &root).unwrap_err();
    assert!(matches!(e.code, ErrorCode::PathOutsideRoot));
    assert_eq!(ws.resolve_path("x", &PathProbe::Canonical("/repo/x".to_string()), &root).unwrap(), "/repo/x");
    let e = ws.resolve_path("d/f", &missing, &PathProbe::Canonical("/tmp".to_string())).unwrap_err();
    assert_eq!(e.message, "Resolved parent is outside repo root");
    let e = ws.resolve_path("f", &PathProbe::Failed("loop".to_string()), &root).unwrap_err();
    assert!(matches!(e.code, ErrorCode::IoError));
    assert_eq!(ws.resolve_path("..foo", &missing, &root).unwrap(), "/repo/..foo");
}

#[test]
fn line_numbers_are_one_based() {
    assert_eq!(byte_to_line(b"a\nb\n", 0), 1);
    assert_eq!(byte_to_line(b"a\nb\n", 1), 1);
    assert_eq!(byte_to_line(b"a\nb\n", 2), 2);
    assert_eq!(byte_to_line(b"a\nb\n", 4), 3);
    assert_eq!(byte_to_line(b"a\nb\n", 100), 3);
    assert_eq!(byte_to_line(b"", 0), 1);
}

#[test]
fn strict_mode_refuses_an_ambiguous_anchor() {
    let edits = vec![PatchEdit::Insert { where_: "after".to_string(), anchor: anchor("x = 1;", None), text: " // dup".to_string() }];
    let err = patch("x = 1;\nx = 1;\n", Some("strict"), edits.clone()).unwrap_err();
    assert_eq!(err.code, ErrorCode::DriftDetected);
    assert_eq!(err.message, "Anchor is not unique");
    let d = err.details.unwrap();
    assert_eq!(d[2], ("count".to_string(), DetailValue::Int(2)));
    // The default mode is strict as well.
    assert!(patch("x = 1;\nx = 1;\n", None, edits.clone()).is_err());
    // Best effort takes the first occurrence.
    let (rope, _) = patch("x = 1;\nx = 1;\n", Some("best_effort"), edits).unwrap();
    assert_eq!(rope.to_string(), "x = 1; // dup\nx = 1;\n");
    // Region anchors too.
    let region = PatchRegion { start: anchor("ab", None), end: None, include_end_needle: None };
    let err = patch("ab ab", Some("strict"), vec![PatchEdit::Delete { target: region }]).unwrap_err();
    assert_eq!(err.message, "Start anchor is not unique");
    let region = PatchRegion { start: anchor("<", None), end: Some(anchor(">", None)), include_end_needle: Some(true) };
    let err = patch("<a> <b>", Some("strict"), vec![PatchEdit::Delete { target: region.clone() }]).unwrap_err();
    assert_eq!(err.message, "Start anchor is not unique");
    let (rope, _) = patch("<a> <b>", Some("best_effort"), vec![PatchEdit::Delete { target: region }]).unwrap();
    assert_eq!(rope.to_string(), " <b>");
}

#[test]
fn best_effort_skips_missing_region_anchors() {
    let missing_start = PatchRegion { start: anchor("MISSING", None), end: None, include_end_needle: None };
    let (rope, res) = patch("a\nb\n", Some("best_effort"), vec![PatchEdit::Delete { target: missing_start.clone() }]).unwrap();
    assert!(res.applied.is_empty());
    assert_eq!(rope.to_string(), "a\nb\n");
    let missing_end = PatchRegion { start: anchor("a", None), end: Some(anchor("ZZZ", None)), include_end_needle: None };
    let (rope, res) = patch(
        "a\nb\n",
        Some("best_effort"),
        vec![
            PatchEdit::Replace { target: missing_end.clone(), replacement: "q".to_string() },
            PatchEdit::Insert { where_: "before".to_string(), anchor: anchor("b", None), text: "B".to_string() },
        ],
    )
    .unwrap();
    assert_eq!(res.applied.len(), 1);
    assert_eq!(rope.to_string(), "a\nBb\n");
    // Strict mode still refuses them, with details.
    let err = patch("a\nb\n", Some("strict"), vec![PatchEdit::Delete { target: missing_start }]).unwrap_err();
    assert_eq!(err.message, "Start anchor not found");
    assert!(err.details.is_some());
    let err = patch("a\nb\n", Some("strict"), vec![PatchEdit::Delete { target: missing_end }]).unwrap_err();
    assert_eq!(err.message, "End anchor not found");
}

#[test]
fn needles_starting_with_multibyte_chars() {
    assert_eq!(find_needle("é é".as_bytes(), "é"), vec![0, 3]);
    let (rope, res) = patch(
        "名前 = 1;\n",
        Some("strict"),
        vec![PatchEdit::Insert { where_: "after".to_string(), anchor: anchor("名前", Some(true)), text: "2".to_string() }],
    )
    .unwrap();
    assert_eq!(rope.to_string(), "名前2 = 1;\n");
    assert_eq!(res.applied[0].start_line, Some(1));
    let err = patch(
        "🌍a🌍b",
        Some("best_effort"),
        vec![PatchEdit::Insert { where_: "after".to_string(), anchor: anchor("🌍", Some(true)), text: "!".to_string() }],
    )
    .unwrap_err();
    assert_eq!(err.message, "Anchor is not unique");
    assert_eq!(err.details.unwrap()[2], ("count".to_string(), DetailValue::Int(2)));
    let err = patch(
        "ü",
        Some("strict"),
        vec![PatchEdit::Insert { where_: "inside".to_string(), anchor: anchor("ü", None), text: "!".to_string() }],
    )
    .unwrap_err();
    assert_eq!(err.code, ErrorCode::InvalidArgument);
    assert_eq!(err.message, "Invalid 'where' value");
    let region = PatchRegion { start: anchor("é", None), end: Some(anchor("ß", None)), include_end_needle: None };
    let err = patch("é x", Some("strict"), vec![PatchEdit::Delete { target: region.clone() }]).unwrap_err();
    assert_eq!(err.message, "End anchor not found");
    let (rope, _) = patch("é x ß", Some("strict"), vec![PatchEdit::Delete { target: region }]).unwrap();
    assert_eq!(rope.to_string(), "ß");
}

#[test]
fn dry_run_reports_what_a_real_run_applies() {
    let rope = Rope::from_str("one\ntwo\n");
    let edits = vec![PatchEdit::Insert { where_: "before".to_string(), anchor: anchor("two", None), text: "1.5\n".to_string() }];
    let dry = ApplyPatchArgs { file_path: "f".to_string(), mode: None, dry_run: true, edits: edits.clone() };
    let real = ApplyPatchArgs { file_path: "f".to_string(), mode: None, dry_run: false, edits };
    let (r1, a) = apply_patch::run(&rope, &dry).unwrap();
    let (r2, b) = apply_patch::run(&rope, &real).unwrap();
    assert_eq!(r1.to_string(), r2.to_string());
    assert_eq!(a.applied, b.applied);
    assert!(a.dry_run && !b.dry_run);
    assert_eq!(a.applied[0].start_line, Some(2));
}

#[test]
fn excerpt_lines_follow_ropey_line_breaks() {
    // CRLF is one break; a lone CR and the Unicode line separator break too.
    let text = "a\r\nb\rc\u{2028}d";
    assert_eq!(Rope::from_str(text).len_lines(), 4);
    let res = excerpt(text, 2, 3, 100).unwrap();
    assert_eq!(res.text, "b\rc\u{2028}");
    assert_eq!(res.end_line, 3);
    let res = excerpt(text, 4, 9, 100).unwrap();
    assert_eq!(res.text, "d");
    assert_eq!(res.end_line, 4);
    let err = excerpt(text, 5, 9, 100).unwrap_err();
    assert_eq!(err.message, "startLine beyond end of file");
}

#[test]
fn insert_stores_the_most_recent_and_evicts_the_least_recent_over_budget() {
    let mut cache = RopeCache::new(10);
    let m = FileMeta { size: 6, mtime_ns: 1 };
    cache.insert("/a".to_string(), CacheEntry { meta: m, rope: Rope::from_str("aaaaaa") });
    cache.insert("/b".to_string(), CacheEntry { meta: m, rope: Rope::from_str("bbbb") });
    assert!(cache.get_fresh_rope(&"/a".to_string(), m).is_some());
    // "/b" is now the least recently used; storing more evicts it first.
    cache.insert("/c".to_string(), CacheEntry { meta: m, rope: Rope::from_str("cc") });
    assert!(cache.get_fresh_rope(&"/b".to_string(), m).is_none());
    assert_eq!(cache.get_fresh_rope(&"/a".to_string(), m).unwrap().to_string(), "aaaaaa");
    assert_eq!(cache.get_fresh_rope(&"/c".to_string(), m).unwrap().to_string(), "cc");
}

#[test]
fn can_store_checks_the_byte_total() {
    let mut cache = RopeCache::new(100);
    let m = FileMeta { size: 3, mtime_ns: 1 };
    assert!(cache.can_store(&"/a".to_string(), usize::MAX));
    cache.load_text("/a".to_string(), m, "abc");
    assert!(!cache.can_store(&"/b".to_string(), usize::MAX));
    assert!(cache.can_store(&"/b".to_string(), usize::MAX - 3));
    // Replacing "/a" frees its three bytes first.
    assert!(cache.can_store(&"/a".to_string(), usize::MAX));
}
