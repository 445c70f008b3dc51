//! Reading a whole file, refused when it is missing, a directory, or larger
//! than the requested limit, which is itself capped at 100KB.
use vstd::prelude::*;
use crate::protocol::{
    DetailValue, DetailView, EngineError, EngineErrorView, ErrorCode, ReadFileArgs, ReadFileResult,
    detailed_error, details_view, path_detail,
};
use crate::text::{decimal, decimal_string, push_str};
use crate::workspace::{io_details, io_error, path_details};

verus! {

/// The hard limit on the size of a file that is read whole.
pub const MAX_FILE_BYTES: usize = 102_400;

/// What the file system reports of a resolved path before it is read.
#[derive(Debug, Clone, PartialEq)]
pub enum FileStat {
    Missing,
    Directory,
    /// Its metadata could not be read; the I/O message.
    MetadataFailed(String),
    /// Anything else, with its size in bytes.
    Entry(u64),
}

/// The mathematical content of a [`FileStat`].
pub enum StatView {
    Missing,
    Directory,
    MetadataFailed(Seq<char>),
    Entry(nat),
}

impl View for FileStat {
    type V = StatView;

    open spec fn view(&self) -> StatView {
        match self {
            FileStat::Missing => StatView::Missing,
            FileStat::Directory => StatView::Directory,
            FileStat::MetadataFailed(m) => StatView::MetadataFailed(m@),
            FileStat::Entry(n) => StatView::Entry(*n as nat),
        }
    }
}

/// The size limit that applies: the requested one, capped by the hard limit.
pub open spec fn read_limit(requested: usize) -> nat {
    if requested < MAX_FILE_BYTES { requested as nat } else { MAX_FILE_BYTES as nat }
}

/// The message of the refusal of a file that is too large.
pub open spec fn size_message(size: nat, max: nat) -> Seq<char> {
    "File size ("@ + decimal(size) + " bytes) exceeds maximum allowed ("@ + decimal(max)
        + " bytes, hard limit 100KB). Use read_excerpt to read parts of large files."@
}

pub open spec fn size_details(user: Seq<char>, size: nat, max: nat) -> Seq<(Seq<char>, DetailView)> {
    seq![
        ("path"@, DetailView::Str(user)),
        ("size"@, DetailView::Int(size as int)),
        ("maxBytes"@, DetailView::Int(max as int)),
        ("hardLimit"@, DetailView::Int(MAX_FILE_BYTES as int)),
    ]
}

/// Whether a file may be read whole: its size if so, else the refusal.
pub open spec fn readable_spec(user: Seq<char>, requested: usize, stat: StatView) -> Result<nat, EngineErrorView> {
    match stat {
        StatView::Missing => Err(detailed_error(ErrorCode::NotFound, "File not found"@, path_details(user))),
        StatView::Directory => Err(detailed_error(
            ErrorCode::InvalidArgument,
            "Path is a directory, not a file"@,
            path_details(user),
        )),
        StatView::MetadataFailed(m) => Err(detailed_error(
            ErrorCode::IoError,
            "Failed to read file metadata"@,
            io_details(user, m),
        )),
        StatView::Entry(size) => if size > read_limit(requested) {
            Err(detailed_error(
                ErrorCode::InvalidArgument,
                size_message(size, read_limit(requested)),
                size_details(user, size, read_limit(requested)),
            ))
        } else {
            Ok(size)
        },
    }
}

/// Decides, from what the file system reports, whether the file may be read
/// whole; gives its size when it may.
pub fn check_readable(args: &ReadFileArgs, stat: &FileStat) -> (r: Result<u64, EngineError>)
    ensures
        match r {
            Ok(n) => readable_spec(args.file_path@, args.max_bytes, stat@) == Ok::<nat, EngineErrorView>(n as nat),
            Err(e) => readable_spec(args.file_path@, args.max_bytes, stat@) == Err::<nat, EngineErrorView>(e@),
        },
        r matches Ok(n) ==> n <= read_limit(args.max_bytes) && n <= MAX_FILE_BYTES,
{
    let user = args.file_path.as_str();
    let max_bytes = if args.max_bytes < MAX_FILE_BYTES { args.max_bytes } else { MAX_FILE_BYTES };
    match stat {
        FileStat::Missing => Err(EngineError::new(ErrorCode::NotFound, "File not found".to_owned())
            .with_details(path_detail(user))),
        FileStat::Directory => Err(EngineError::new(
            ErrorCode::InvalidArgument,
            "Path is a directory, not a file".to_owned(),
        ).with_details(path_detail(user))),
        FileStat::MetadataFailed(m) => Err(io_error("Failed to read file metadata", user, m.as_str())),
        FileStat::Entry(size) => {
            if *size > max_bytes as u64 {
                let mut msg = "File size (".to_owned();
                push_str(&mut msg, decimal_string(*size as u128).as_str());
                push_str(&mut msg, " bytes) exceeds maximum allowed (");
                push_str(&mut msg, decimal_string(max_bytes as u128).as_str());
                push_str(
                    &mut msg,
                    " bytes, hard limit 100KB). Use read_excerpt to read parts of large files.",
                );
                let mut d: Vec<(String, DetailValue)> = Vec::new();
                d.push(("path".to_owned(), DetailValue::Str(user.to_owned())));
                d.push(("size".to_owned(), DetailValue::Int(*size as i128)));
                d.push(("maxBytes".to_owned(), DetailValue::Int(max_bytes as i128)));
                d.push(("hardLimit".to_owned(), DetailValue::Int(MAX_FILE_BYTES as i128)));
                proof {
                    assert(details_view(d@) =~= size_details(user@, *size as nat, max_bytes as nat));
                }
                Err(EngineError::new(ErrorCode::InvalidArgument, msg).with_details(d))
            } else {
                Ok(*size)
            }
        },
    }
}

/// The result of reading a file whose size was accepted: its contents, or
/// the refusal of a file that is not valid UTF-8 (the I/O message).
pub fn finish(args: &ReadFileArgs, size: u64, read: Result<String, String>) -> (r: Result<ReadFileResult, EngineError>)
    ensures
        match read {
            Ok(contents) => r matches Ok(res) && res.file_path@ == args.file_path@ && res.contents == contents
                && res.size == size && !res.truncated,
            Err(m) => r matches Err(e) && e@ == detailed_error(
                ErrorCode::IoError,
                "Failed to read file as UTF-8"@,
                io_details(args.file_path@, m@),
            ),
        },
{
    match read {
        Ok(contents) => Ok(ReadFileResult { file_path: args.file_path.clone(), contents, size, truncated: false }),
        Err(m) => Err(io_error("Failed to read file as UTF-8", args.file_path.as_str(), m.as_str())),
    }
}

} // verus!
