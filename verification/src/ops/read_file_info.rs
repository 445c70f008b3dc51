//! What is known of a path without reading it: whether it exists, its kind,
//! its size if it is a file, and its modification time.
use vstd::prelude::*;
use crate::cache::mtime_ns;
use crate::protocol::{EngineError, ErrorCode, ReadFileInfoArgs, ReadFileInfoResult, detailed_error};
use crate::workspace::{io_details, io_error};

verus! {

/// What the file system reports of a resolved path.
#[derive(Debug, Clone, PartialEq)]
pub enum InfoStat {
    Missing,
    /// Its metadata could not be read; the I/O message.
    MetadataFailed(String),
    /// An existing entry: what its metadata says of its kind, its length, and
    /// its modification time as whole seconds and nanoseconds since the Unix
    /// epoch (none when unavailable or before the epoch).
    Present { is_file: bool, is_dir: bool, is_symlink: bool, len: u64, modified: Option<(u64, u32)> },
}

/// The kind of entry reported, by the first of file, directory and symlink
/// that the metadata says it is.
pub open spec fn entry_type_of(is_file: bool, is_dir: bool, is_symlink: bool) -> Seq<char> {
    if is_file {
        "file"@
    } else if is_dir {
        "dir"@
    } else if is_symlink {
        "symlink"@
    } else {
        "other"@
    }
}

/// Nanoseconds since the epoch of a time given as seconds and nanoseconds.
pub open spec fn nanos_since_epoch(t: Option<(u64, u32)>) -> Option<int> {
    match t {
        Some((s, n)) => Some(s as int * 1_000_000_000 + n as int),
        None => None,
    }
}

/// Describes a path from what the file system reports of it; only a failure
/// to read the metadata of an existing entry is an error.
pub fn run(args: &ReadFileInfoArgs, stat: &InfoStat) -> (r: Result<ReadFileInfoResult, EngineError>)
    ensures
        match stat {
            InfoStat::Missing => r matches Ok(res) && res.file_path@ == args.file_path@ && !res.exists
                && res.entry_type@ == "unknown"@ && res.size is None && res.mtime_ns is None,
            InfoStat::MetadataFailed(m) => r matches Err(e) && e@ == detailed_error(
                ErrorCode::IoError,
                "Failed to read file metadata"@,
                io_details(args.file_path@, m@),
            ),
            InfoStat::Present { is_file, is_dir, is_symlink, len, modified } => r matches Ok(res)
                && res.file_path@ == args.file_path@ && res.exists
                && res.entry_type@ == entry_type_of(*is_file, *is_dir, *is_symlink)
                && res.size == (if *is_file { Some(*len) } else { None::<u64> })
                && (match nanos_since_epoch(*modified) {
                    Some(t) => res.mtime_ns matches Some(m) && m as int == t,
                    None => res.mtime_ns is None,
                }),
        },
{
    match stat {
        InfoStat::Missing => Ok(ReadFileInfoResult {
            file_path: args.file_path.clone(),
            exists: false,
            entry_type: "unknown".to_owned(),
            size: None,
            mtime_ns: None,
        }),
        InfoStat::MetadataFailed(m) => Err(io_error("Failed to read file metadata", args.file_path.as_str(), m.as_str())),
        InfoStat::Present { is_file, is_dir, is_symlink, len, modified } => {
            let entry_type = if *is_file {
                "file"
            } else if *is_dir {
                "dir"
            } else if *is_symlink {
                "symlink"
            } else {
                "other"
            };
            let size = if *is_file { Some(*len) } else { None };
            let mtime = match modified {
                Some(t) => Some(mtime_ns(Some(*t))),
                None => None,
            };
            Ok(ReadFileInfoResult {
                file_path: args.file_path.clone(),
                exists: true,
                entry_type: entry_type.to_owned(),
                size,
                mtime_ns: mtime,
            })
        },
    }
}

} // verus!
