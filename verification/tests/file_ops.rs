use agent_mcp::ops::create_directory::{self, DirectoryStep};
use agent_mcp::ops::create_file;
use agent_mcp::ops::delete_file;
use agent_mcp::ops::read_file::{self, FileStat};
use agent_mcp::ops::read_file_info::{self, InfoStat};
use agent_mcp::protocol::{
    CreateDirectoryArgs, CreateDirectoryResult, CreateFileArgs, CreateFileResult, DeleteFileArgs,
    DeleteFileResult, DetailValue, EngineError, ErrorCode, ReadFileArgs, ReadFileInfoArgs, ReadFileResult,
};
use agent_mcp::workspace::{PathProbe, Workspace};

const ROOT: &str = "/repo";

fn ws() -> Workspace {
    Workspace::new(ROOT.to_string())
}

/// Resolves a path of the repository whose parent is the root itself.
fn resolve(user: &str) -> Result<String, EngineError> {
    ws().resolve_path(user, &PathProbe::Missing, &PathProbe::Canonical(ROOT.to_string()))
}

// create_directory, driven over what the file system reports.
fn create_dir(dir: &str, exists: bool, is_dir: bool) -> Result<CreateDirectoryResult, EngineError> {
    let args = CreateDirectoryArgs { dir_path: dir.to_string() };
    resolve(dir)?;
    match create_directory::decide(&args, exists, is_dir)? {
        DirectoryStep::Done(r) => Ok(r),
        DirectoryStep::CreateAll => create_directory::finish(&args, Ok(())),
    }
}

#[test]
fn test_create_single_directory() {
    let result = create_dir("test_dir", false, false);
    assert!(result.is_ok());
    let res = result.unwrap();
    assert!(res.created);
    assert_eq!(res.dir_path, "test_dir");
}

#[test]
fn test_create_nested_directories() {
    let result = create_dir("parent/child/grandchild", false, false);
    assert!(result.is_ok());
    assert!(result.unwrap().created);
}

#[test]
fn test_create_already_existing_directory() {
    let result = create_dir("existing", true, true);
    assert!(result.is_ok());
    assert!(!result.unwrap().created);
}

#[test]
fn test_create_when_file_exists() {
    let result = create_dir("existing_file", true, false);
    assert!(result.is_err());
    assert!(matches!(result.unwrap_err().code, ErrorCode::InvalidArgument));
}

#[test]
fn create_directory_failure_is_io_error() {
    let args = CreateDirectoryArgs { dir_path: "d".to_string() };
    let err = create_directory::finish(&args, Err("Permission denied".to_string())).unwrap_err();
    assert!(matches!(err.code, ErrorCode::IoError));
    assert_eq!(err.message, "Failed to create directory");
    assert_eq!(
        err.details,
        Some(vec![
            ("path".to_string(), DetailValue::Str("d".to_string())),
            ("io".to_string(), DetailValue::Str("Permission denied".to_string())),
        ])
    );
}

// create_file, driven over what the file system reports.
fn create(path: &str, contents: &str, encoding: &str, exists: bool, is_dir: bool) -> Result<CreateFileResult, EngineError> {
    let args = CreateFileArgs { file_path: path.to_string(), contents: contents.to_string(), encoding: encoding.to_string() };
    resolve(path)?;
    create_file::check_encoding(&args)?;
    create_file::parents_created(&args, Ok(()))?;
    let already = create_file::check_target(&args, exists, is_dir)?;
    create_file::finish(&args, already, Ok(()))
}

#[test]
fn test_create_simple_file() {
    let result = create("test.txt", "Hello, World!", "utf8", false, false);
    assert!(result.is_ok());
    let res = result.unwrap();
    assert!(res.created);
    assert_eq!(res.bytes_written, 13);
}

#[test]
fn test_create_file_with_nested_path() {
    let result = create("dir1/dir2/test.txt", "Nested file", "utf8", false, false);
    assert!(result.is_ok());
    assert!(result.unwrap().created);
}

#[test]
fn test_overwrite_existing_file() {
    let result = create("existing.txt", "New content", "utf8", true, false);
    assert!(result.is_ok());
    let res = result.unwrap();
    assert!(!res.created);
    assert_eq!(res.bytes_written, 11);
}

#[test]
fn test_create_file_utf8_content() {
    let result = create("utf8_test.txt", "Hello 世界 🌍", "utf8", false, false);
    assert!(result.is_ok());
    assert_eq!(result.unwrap().bytes_written, "Hello 世界 🌍".len());
}

#[test]
fn test_create_file_where_directory_exists() {
    let result = create("existing_dir", "content", "utf8", true, true);
    assert!(result.is_err());
    assert!(matches!(result.unwrap_err().code, ErrorCode::InvalidArgument));
}

#[test]
fn test_invalid_encoding() {
    let result = create("test.txt", "content", "latin1", false, false);
    assert!(result.is_err());
    let err = result.unwrap_err();
    assert!(matches!(err.code, ErrorCode::InvalidArgument));
    assert_eq!(err.message, "Only UTF-8 encoding is currently supported");
}

#[test]
fn encoding_name_is_case_insensitive() {
    assert!(create("a.txt", "x", "UTF-8", false, false).is_ok());
    assert!(create("a.txt", "x", "Utf8", false, false).is_ok());
    assert!(create("a.txt", "x", "utf-16", false, false).is_err());
}

#[test]
fn create_file_failures() {
    let args = CreateFileArgs { file_path: "f".to_string(), contents: "c".to_string(), encoding: "utf8".to_string() };
    let e = create_file::parents_created(&args, Err("denied".to_string())).unwrap_err();
    assert_eq!(e.message, "Failed to create parent directories");
    let e = create_file::finish(&args, false, Err("disk full".to_string())).unwrap_err();
    assert_eq!(e.message, "Failed to write file");
    assert!(matches!(e.code, ErrorCode::IoError));
}

// delete_file, driven over what the file system reports.
fn delete(path: &str, stat: InfoStat) -> Result<DeleteFileResult, EngineError> {
    let args = DeleteFileArgs { file_path: path.to_string() };
    resolve(path)?;
    let is_dir = delete_file::decide(&args, &stat)?;
    delete_file::finish(&args, is_dir, Ok(()))
}

fn present(is_dir: bool) -> InfoStat {
    InfoStat::Present { is_file: !is_dir, is_dir, is_symlink: false, len: 7, modified: Some((1, 0)) }
}

#[test]
fn test_delete_file() {
    let result = delete("test.txt", present(false));
    assert!(result.is_ok());
    assert!(result.unwrap().deleted);
}

#[test]
fn test_delete_empty_directory() {
    let result = delete("test_dir", present(true));
    assert!(result.is_ok());
    assert!(result.unwrap().deleted);
}

#[test]
fn test_delete_directory_with_contents() {
    let args = DeleteFileArgs { file_path: "test_dir".to_string() };
    assert_eq!(delete_file::decide(&args, &present(true)).unwrap(), true);
    let result = delete("test_dir", present(true));
    assert!(result.unwrap().deleted);
}

#[test]
fn test_delete_nonexistent_file() {
    let result = delete("nonexistent.txt", InfoStat::Missing);
    assert!(result.is_err());
    assert!(matches!(result.unwrap_err().code, ErrorCode::NotFound));
}

#[test]
fn test_delete_nested_file() {
    let args = DeleteFileArgs { file_path: "dir1/dir2/test.txt".to_string() };
    assert_eq!(delete_file::decide(&args, &present(false)).unwrap(), false);
    let result = delete("dir1/dir2/test.txt", present(false));
    assert!(result.is_ok());
}

#[test]
fn delete_failures_name_the_kind_of_entry() {
    let args = DeleteFileArgs { file_path: "x".to_string() };
    let e = delete_file::finish(&args, true, Err("busy".to_string())).unwrap_err();
    assert_eq!(e.message, "Failed to delete directory");
    let e = delete_file::finish(&args, false, Err("busy".to_string())).unwrap_err();
    assert_eq!(e.message, "Failed to delete file");
    let e = delete_file::decide(&args, &InfoStat::MetadataFailed("eio".to_string())).unwrap_err();
    assert_eq!(e.message, "Failed to read file metadata");
}

// read_file, driven over what the file system reports.
fn read(path: &str, max_bytes: usize, stat: FileStat, contents: &str) -> Result<ReadFileResult, EngineError> {
    let args = ReadFileArgs { file_path: path.to_string(), max_bytes };
    resolve(path)?;
    let size = read_file::check_readable(&args, &stat)?;
    read_file::finish(&args, size, Ok(contents.to_string()))
}

#[test]
fn test_read_small_file() {
    let result = read("small.txt", 102_400, FileStat::Entry(13), "Hello, World!");
    assert!(result.is_ok());
    let res = result.unwrap();
    assert_eq!(res.contents, "Hello, World!");
    assert_eq!(res.size, 13);
    assert!(!res.truncated);
}

#[test]
fn test_read_file_with_utf8() {
    let text = "Hello 世界 🌍\nUnicode test";
    let result = read("utf8.txt", 102_400, FileStat::Entry(text.len() as u64), text);
    assert!(result.is_ok());
    assert_eq!(result.unwrap().contents, text);
}

#[test]
fn test_read_empty_file() {
    let result = read("empty.txt", 102_400, FileStat::Entry(0), "");
    assert!(result.is_ok());
    let res = result.unwrap();
    assert_eq!(res.contents, "");
    assert_eq!(res.size, 0);
}

#[test]
fn test_read_file_exceeds_max_bytes() {
    let result = read("large.txt", 102_400, FileStat::Entry(150 * 1024), "");
    assert!(result.is_err());
    let err = result.unwrap_err();
    assert!(matches!(err.code, ErrorCode::InvalidArgument));
    assert!(err.message.contains("exceeds maximum allowed"));
    assert_eq!(
        err.message,
        "File size (153600 bytes) exceeds maximum allowed (102400 bytes, hard limit 100KB). Use read_excerpt to read parts of large files."
    );
    assert_eq!(
        err.details,
        Some(vec![
            ("path".to_string(), DetailValue::Str("large.txt".to_string())),
            ("size".to_string(), DetailValue::Int(153600)),
            ("maxBytes".to_string(), DetailValue::Int(102400)),
            ("hardLimit".to_string(), DetailValue::Int(102400)),
        ])
    );
}

#[test]
fn test_read_file_exactly_at_limit() {
    let text = "x".repeat(102_400);
    let result = read("exact.txt", 102_400, FileStat::Entry(102_400), &text);
    assert!(result.is_ok());
    assert_eq!(result.unwrap().contents.len(), 102_400);
}

#[test]
fn test_read_nonexistent_file() {
    let result = read("nonexistent.txt", 102_400, FileStat::Missing, "");
    assert!(result.is_err());
    assert!(matches!(result.unwrap_err().code, ErrorCode::NotFound));
}

#[test]
fn test_read_directory() {
    let result = read("test_dir", 102_400, FileStat::Directory, "");
    assert!(result.is_err());
    let err = result.unwrap_err();
    assert!(matches!(err.code, ErrorCode::InvalidArgument));
    assert!(err.message.contains("directory"));
}

#[test]
fn test_read_file_with_custom_limit() {
    let result = read("medium.txt", 1000, FileStat::Entry(2000), "");
    assert!(result.is_err());
    assert!(matches!(result.unwrap_err().code, ErrorCode::InvalidArgument));
}

#[test]
fn read_file_test_test_hard_limit_enforced() {
    let result = read("large.txt", 200_000, FileStat::Entry(150 * 1024), "");
    assert!(result.is_err());
    let err = result.unwrap_err();
    assert!(matches!(err.code, ErrorCode::InvalidArgument));
    assert!(err.message.contains("102400 bytes"));
}

#[test]
fn read_file_not_utf8() {
    let args = ReadFileArgs { file_path: "bin".to_string(), max_bytes: 10 };
    let err = read_file::finish(&args, 3, Err("stream did not contain valid UTF-8".to_string())).unwrap_err();
    assert_eq!(err.message, "Failed to read file as UTF-8");
    assert!(matches!(err.code, ErrorCode::IoError));
}

// read_file_info
fn info(path: &str, stat: InfoStat) -> agent_mcp::protocol::ReadFileInfoResult {
    let args = ReadFileInfoArgs { file_path: path.to_string() };
    read_file_info::run(&args, &stat).unwrap()
}

#[test]
fn test_read_file_info_for_file() {
    let res = info("test.txt", InfoStat::Present { is_file: true, is_dir: false, is_symlink: false, len: 13, modified: Some((1_700_000_000, 5)) });
    assert!(res.exists);
    assert_eq!(res.entry_type, "file");
    assert_eq!(res.size, Some(13));
    assert_eq!(res.mtime_ns, Some(1_700_000_000_000_000_005));
}

#[test]
fn test_read_file_info_for_directory() {
    let res = info("test_dir", InfoStat::Present { is_file: false, is_dir: true, is_symlink: false, len: 4096, modified: Some((1, 0)) });
    assert!(res.exists);
    assert_eq!(res.entry_type, "dir");
    assert!(res.size.is_none());
    assert!(res.mtime_ns.is_some());
}

#[test]
fn test_read_file_info_nonexistent() {
    let res = info("nonexistent.txt", InfoStat::Missing);
    assert!(!res.exists);
    assert_eq!(res.entry_type, "unknown");
    assert!(res.size.is_none());
    assert!(res.mtime_ns.is_none());
}

#[test]
fn test_read_file_info_mtime_changes() {
    let m1 = info("test.txt", InfoStat::Present { is_file: true, is_dir: false, is_symlink: false, len: 7, modified: Some((100, 0)) }).mtime_ns;
    let m2 = info("test.txt", InfoStat::Present { is_file: true, is_dir: false, is_symlink: false, len: 8, modified: Some((100, 10_000_000)) }).mtime_ns;
    assert_ne!(m1, m2);
}

#[test]
fn test_read_file_info_empty_file() {
    let res = info("empty.txt", InfoStat::Present { is_file: true, is_dir: false, is_symlink: false, len: 0, modified: None });
    assert!(res.exists);
    assert_eq!(res.entry_type, "file");
    assert_eq!(res.size, Some(0));
    assert_eq!(res.mtime_ns, None);
}

#[test]
fn read_file_info_other_kinds() {
    let res = info("link", InfoStat::Present { is_file: false, is_dir: false, is_symlink: true, len: 0, modified: None });
    assert_eq!(res.entry_type, "symlink");
    let res = info("fifo", InfoStat::Present { is_file: false, is_dir: false, is_symlink: false, len: 0, modified: None });
    assert_eq!(res.entry_type, "other");
    let args = ReadFileInfoArgs { file_path: "x".to_string() };
    let err = read_file_info::run(&args, &InfoStat::MetadataFailed("eio".to_string())).unwrap_err();
    assert!(matches!(err.code, ErrorCode::IoError));
}
