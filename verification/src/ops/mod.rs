//! The operations, each as the decisions it takes on what the file system
//! and the tools it drives report.
pub mod apply_patch;
pub mod read_excerpt;
pub mod read_file;
pub mod read_file_info;
pub mod create_directory;
pub mod delete_file;
pub mod create_file;
pub mod list_dir;
pub mod search_text;
pub mod explore_code;
pub mod docker_shell;
