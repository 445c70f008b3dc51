use agent_mcp::paths::{extension, temp_path};
use agent_mcp::protocol::{
    default_depth, default_encoding, default_max_bytes, default_max_entries, default_max_file_bytes,
    default_max_line_length, default_max_matches, default_max_per_file, default_max_symbols, default_no_ignore,
    path_detail, DetailValue, EngineError, ErrorCode,
};
use agent_mcp::text::parse_usize;
use agent_mcp::workspace::{has_parent_dir, is_absolute};

#[test]
fn defaults() {
    assert_eq!(default_depth(), 4);
    assert_eq!(default_max_entries(), 2000);
    assert!(default_no_ignore());
    assert_eq!(default_max_matches(), 200);
    assert_eq!(default_max_per_file(), 50);
    assert_eq!(default_max_line_length(), 200);
    assert_eq!(default_max_bytes(), 20_000);
    assert_eq!(default_max_symbols(), 200);
    assert_eq!(default_encoding(), "utf8");
    assert_eq!(default_max_file_bytes(), 102_400);
}

#[test]
fn errors_carry_details() {
    let e = EngineError::new(ErrorCode::NotFound, "gone".to_string()).with_details(path_detail("a/b"));
    assert_eq!(e.code, ErrorCode::NotFound);
    assert_eq!(e.message, "gone");
    assert_eq!(e.details, Some(vec![("path".to_string(), DetailValue::Str("a/b".to_string()))]));
}

#[test]
fn path_components() {
    assert!(is_absolute("/x"));
    assert!(!is_absolute("x/"));
    assert!(has_parent_dir(".."));
    assert!(has_parent_dir("a/../b"));
    assert!(has_parent_dir("a/.."));
    assert!(!has_parent_dir("a..b/c"));
    assert!(!has_parent_dir("...")); 
    assert_eq!(extension("dir.d/file"), "");
    assert_eq!(extension("a/b.c/"), "c");
    assert_eq!(extension("x.."), "");
    assert_eq!(temp_path("/"), "/.tmp");
    assert_eq!(temp_path("/repo/notes.tmp"), "/repo/notes.tmp.tmp");
}

#[test]
fn std_string_operations() {
    assert_eq!(parse_usize("42"), Some(42));
    assert_eq!(parse_usize("4 2"), None);
    assert_eq!(parse_usize(""), None);
    assert_eq!(parse_usize("99999999999999999999999"), None);
}
