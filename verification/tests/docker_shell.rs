use agent_mcp::ops::docker_shell::{
    check_command, container_name, exec_args, exit_result, new_container_name, step_failure, stop_args,
    timeout_error, DockerManager, DockerStep, OutputCollector,
};
use agent_mcp::protocol::{
    default_docker_timeout_ms, default_work_dir, DetailValue, DockerShellArgs, ErrorCode,
};

fn shell_args(command: &str, work_dir: &str) -> DockerShellArgs {
    DockerShellArgs { command: command.to_string(), timeout_ms: default_docker_timeout_ms(), work_dir: work_dir.to_string() }
}

fn strings(v: &[&str]) -> Vec<String> {
    v.iter().map(|s| s.to_string()).collect()
}

#[test]
fn test_empty_command_is_rejected() {
    let result = check_command(&shell_args("", "."));
    assert!(result.is_err());
    let err = result.unwrap_err();
    assert!(matches!(err.code, ErrorCode::InvalidArgument));
    assert_eq!(err.message, "command must be a non-empty string");
    assert!(check_command(&shell_args("echo hi", ".")).is_ok());
}

#[test]
fn test_container_is_reused_across_calls() {
    let mut m = DockerManager::new("/repo".to_string(), "ubuntu:24.04".to_string());
    assert!(m.running_container().is_none());
    let id = m.record_start(true, b"abc123\n", b"").unwrap();
    assert_eq!(id, "abc123");
    assert_eq!(m.running_container(), Some("abc123".to_string()));
    assert_eq!(m.running_container(), Some("abc123".to_string()));
    assert_eq!(m.take_container(), Some("abc123".to_string()));
    assert!(m.running_container().is_none());
    assert_eq!(stop_args("abc123"), strings(&["stop", "abc123"]));
}

#[test]
fn failed_start_keeps_no_container() {
    let mut m = DockerManager::new("/repo".to_string(), "img".to_string());
    let err = m.record_start(false, b"", b"  Unable to find image\n").unwrap_err();
    assert!(matches!(err.code, ErrorCode::IoError));
    assert_eq!(err.message, "Failed to start Docker container");
    assert_eq!(err.details, Some(vec![("stderr".to_string(), DetailValue::Str("Unable to find image".to_string()))]));
    assert!(m.running_container().is_none());
}

#[test]
fn test_workspace_mounted() {
    let m = DockerManager::new("/home/u/repo".to_string(), "ubuntu:24.04".to_string());
    let a = m.run_args("agent-mcp-00000000000000ff", 1000, 100);
    assert_eq!(
        a,
        strings(&[
            "run", "-d", "--rm", "--name", "agent-mcp-00000000000000ff", "--user", "1000:100", "-v",
            "/home/u/repo:/workspace", "-w", "/workspace", "ubuntu:24.04", "sleep", "infinity",
        ])
    );
    assert_eq!(
        exec_args("cid", &shell_args("pwd", "/sub/dir/")),
        strings(&["exec", "-w", "/workspace/sub/dir", "cid", "/bin/bash", "-c", "pwd"])
    );
    assert_eq!(default_work_dir(), ".");
    assert_eq!(exec_args("cid", &shell_args("ls", "."))[2], "/workspace/.");
}

#[test]
fn container_names() {
    assert_eq!(container_name(255), "agent-mcp-00000000000000ff");
    assert_eq!(container_name(u64::MAX), "agent-mcp-ffffffffffffffff");
    assert_eq!(container_name(0x0123456789abcdef), "agent-mcp-0123456789abcdef");
    let n = new_container_name();
    assert_eq!(n.len(), 26);
    assert!(n.starts_with("agent-mcp-"));
    assert!(n[10..].chars().all(|c| c.is_ascii_hexdigit() && !c.is_ascii_uppercase()));
}

#[test]
fn test_simple_echo() {
    let mut out = OutputCollector::new();
    out.take_in(false, b"hello\n");
    let result = exit_result(Some(0), out.finish());
    assert_eq!(result.exit_code, 0);
    assert!(result.success);
    assert_eq!(result.output, vec![("hello\n".to_string(), "stdout".to_string())]);
}

#[test]
fn test_exit_code_nonzero() {
    let result = exit_result(Some(3), Vec::new());
    assert_eq!(result.exit_code, 3);
    assert!(!result.success);
    assert_eq!(exit_result(None, Vec::new()).exit_code, -1);
}

#[test]
fn test_stderr_captured() {
    let mut out = OutputCollector::new();
    out.take_in(true, b"oops: par");
    out.take_in(false, b"a\nb");
    out.take_in(true, b"tial\nmore");
    let chunks = out.finish();
    assert_eq!(
        chunks,
        vec![
            ("a\n".to_string(), "stdout".to_string()),
            ("oops: partial\n".to_string(), "stderr".to_string()),
            ("b".to_string(), "stdout".to_string()),
            ("more".to_string(), "stderr".to_string()),
        ]
    );
}

#[test]
fn chunks_end_at_the_last_newline_of_what_was_read() {
    let mut out = OutputCollector::new();
    out.take_in(false, b"1\n2\n3");
    out.take_in(false, b"");
    let chunks = out.finish();
    assert_eq!(chunks, vec![("1\n2\n".to_string(), "stdout".to_string()), ("3".to_string(), "stdout".to_string())]);
}

#[test]
fn test_timeout_fires() {
    let err = timeout_error(1500);
    assert!(matches!(err.code, ErrorCode::IoError));
    assert_eq!(err.message, "Command timed out after 1500ms");
    assert!(err.details.is_none());
    let err = step_failure(DockerStep::SpawnExec, "not found");
    assert_eq!(err.message, "Failed to spawn docker exec");
    assert_eq!(err.details, Some(vec![("io".to_string(), DetailValue::Str("not found".to_string()))]));
}

#[test]
fn chunks_join_to_the_lenient_decoding_of_each_stream() {
    let mut out = OutputCollector::new();
    out.take_in(false, b"a\xff\n\xe2\x82");
    out.take_in(true, b"err\xe2\x82A\n");
    out.take_in(false, b"\xac\nlast");
    let chunks = out.finish();
    assert_eq!(
        chunks,
        vec![
            ("a\u{FFFD}\n".to_string(), "stdout".to_string()),
            ("err\u{FFFD}A\n".to_string(), "stderr".to_string()),
            ("\u{20AC}\n".to_string(), "stdout".to_string()),
            ("last".to_string(), "stdout".to_string()),
        ]
    );
    let stdout: String = chunks.iter().filter(|c| c.1 == "stdout").map(|c| c.0.as_str()).collect();
    assert_eq!(stdout, String::from_utf8_lossy(b"a\xff\n\xe2\x82\xac\nlast"));
    let stderr: String = chunks.iter().filter(|c| c.1 == "stderr").map(|c| c.0.as_str()).collect();
    assert_eq!(stderr, String::from_utf8_lossy(b"err\xe2\x82A\n"));
}
