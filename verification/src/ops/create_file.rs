//! Writing a file whole, creating its missing parent directories; only UTF-8
//! is accepted as the encoding of the contents.
use vstd::prelude::*;
use vstd::utf8::*;
use crate::protocol::{
    CreateFileArgs, CreateFileResult, DetailValue, DetailView, EngineError, ErrorCode,
    detailed_error, details_view, path_detail,
};
use crate::text::{all_ascii, ascii_lower, str_eq, to_lowercase, unicode_lowercase};
use crate::workspace::{io_details, io_error, path_details};

verus! {

/// An encoding name, once lowercased, that means UTF-8.
pub open spec fn names_utf8(lowered: Seq<char>) -> bool {
    lowered == "utf8"@ || lowered == "utf-8"@
}

/// Refuses any encoding but UTF-8, whose name is compared without regard to
/// case.
pub fn check_encoding(args: &CreateFileArgs) -> (r: Result<(), EngineError>)
    ensures
        r is Ok <==> names_utf8(unicode_lowercase(args.encoding@)),
        all_ascii(args.encoding@) ==> (r is Ok <==> names_utf8(args.encoding@.map_values(|c: char| ascii_lower(c)))),
        r matches Err(e) ==> e@ == detailed_error(
            ErrorCode::InvalidArgument,
            "Only UTF-8 encoding is currently supported"@,
            seq![("encoding"@, DetailView::Str(args.encoding@))],
        ),
{
    let lowered = to_lowercase(args.encoding.as_str());
    if !str_eq(lowered.as_str(), "utf8") && !str_eq(lowered.as_str(), "utf-8") {
        let mut d: Vec<(String, DetailValue)> = Vec::new();
        d.push(("encoding".to_owned(), DetailValue::Str(args.encoding.clone())));
        proof {
            assert(details_view(d@) =~= seq![("encoding"@, DetailView::Str(args.encoding@))]);
        }
        return Err(EngineError::new(
            ErrorCode::InvalidArgument,
            "Only UTF-8 encoding is currently supported".to_owned(),
        ).with_details(d));
    }
    Ok(())
}

/// Passes on the creation of the missing parent directories, or reports its
/// failure (the I/O message).
pub fn parents_created(args: &CreateFileArgs, outcome: Result<(), String>) -> (r: Result<(), EngineError>)
    ensures
        match outcome {
            Ok(()) => r is Ok,
            Err(m) => r matches Err(e) && e@ == detailed_error(
                ErrorCode::IoError,
                "Failed to create parent directories"@,
                io_details(args.file_path@, m@),
            ),
        },
{
    match outcome {
        Ok(()) => Ok(()),
        Err(m) => Err(io_error("Failed to create parent directories", args.file_path.as_str(), m.as_str())),
    }
}

/// Refuses a target that is a directory; gives whether the file already
/// exists (it is then overwritten).
pub fn check_target(args: &CreateFileArgs, exists: bool, is_dir: bool) -> (r: Result<bool, EngineError>)
    ensures
        exists && is_dir ==> (r matches Err(e) && e@ == detailed_error(
            ErrorCode::InvalidArgument,
            "Path exists and is a directory"@,
            path_details(args.file_path@),
        )),
        !(exists && is_dir) ==> r == Ok::<bool, EngineError>(exists),
{
    if exists && is_dir {
        return Err(EngineError::new(ErrorCode::InvalidArgument, "Path exists and is a directory".to_owned())
            .with_details(path_detail(args.file_path.as_str())));
    }
    Ok(exists)
}

/// The result once the contents were written, or the failure to write them
/// (the I/O message); the bytes written are those of the UTF-8 encoding.
pub fn finish(args: &CreateFileArgs, already_exists: bool, outcome: Result<(), String>) -> (r: Result<CreateFileResult, EngineError>)
    ensures
        match outcome {
            Ok(()) => r matches Ok(res) && res.file_path@ == args.file_path@
                && res.created == !already_exists
                && res.bytes_written == encode_utf8(args.contents@).len(),
            Err(m) => r matches Err(e) && e@ == detailed_error(
                ErrorCode::IoError,
                "Failed to write file"@,
                io_details(args.file_path@, m@),
            ),
        },
{
    let bytes_written = args.contents.as_str().as_bytes().len();
    match outcome {
        Ok(()) => Ok(CreateFileResult { file_path: args.file_path.clone(), created: !already_exists, bytes_written }),
        Err(m) => Err(io_error("Failed to write file", args.file_path.as_str(), m.as_str())),
    }
}

} // verus!
