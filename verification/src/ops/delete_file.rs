//! Deleting a file, or a directory with everything below it.
use vstd::prelude::*;
use crate::ops::read_file_info::InfoStat;
use crate::protocol::{
    DeleteFileArgs, DeleteFileResult, EngineError, ErrorCode, detailed_error, path_detail,
};
use crate::workspace::{io_details, io_error, path_details};

verus! {

/// Decides, from what the file system reports of the resolved path, whether
/// it can be deleted; gives whether it is a directory (to be removed with its
/// contents) when it can.
pub fn decide(args: &DeleteFileArgs, stat: &InfoStat) -> (r: Result<bool, EngineError>)
    ensures
        match stat {
            InfoStat::Missing => r matches Err(e) && e@ == detailed_error(
                ErrorCode::NotFound,
                "File or directory not found"@,
                path_details(args.file_path@),
            ),
            InfoStat::MetadataFailed(m) => r matches Err(e) && e@ == detailed_error(
                ErrorCode::IoError,
                "Failed to read file metadata"@,
                io_details(args.file_path@, m@),
            ),
            InfoStat::Present { is_dir, .. } => r == Ok::<bool, EngineError>(*is_dir),
        },
{
    match stat {
        InfoStat::Missing => Err(EngineError::new(ErrorCode::NotFound, "File or directory not found".to_owned())
            .with_details(path_detail(args.file_path.as_str()))),
        InfoStat::MetadataFailed(m) => Err(io_error("Failed to read file metadata", args.file_path.as_str(), m.as_str())),
        InfoStat::Present { is_dir, .. } => Ok(*is_dir),
    }
}

/// The result once the entry was removed, or the failure to remove it (the
/// I/O message), told apart by whether it was a directory.
pub fn finish(args: &DeleteFileArgs, was_dir: bool, outcome: Result<(), String>) -> (r: Result<DeleteFileResult, EngineError>)
    ensures
        match outcome {
            Ok(()) => r matches Ok(res) && res.file_path@ == args.file_path@ && res.deleted,
            Err(m) => r matches Err(e) && e@ == detailed_error(
                ErrorCode::IoError,
                if was_dir { "Failed to delete directory"@ } else { "Failed to delete file"@ },
                io_details(args.file_path@, m@),
            ),
        },
{
    match outcome {
        Ok(()) => Ok(DeleteFileResult { file_path: args.file_path.clone(), deleted: true }),
        Err(m) => {
            let message = if was_dir { "Failed to delete directory" } else { "Failed to delete file" };
            Err(io_error(message, args.file_path.as_str(), m.as_str()))
        },
    }
}

} // verus!
