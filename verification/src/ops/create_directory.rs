//! Creating a directory and its missing parents; an existing directory is
//! accepted as it is.
use vstd::prelude::*;
use crate::protocol::{
    CreateDirectoryArgs, CreateDirectoryResult, EngineError, ErrorCode, detailed_error, path_detail,
};
use crate::workspace::{io_details, io_error, path_details};

verus! {

/// What to do about a requested directory.
#[derive(Debug, Clone, PartialEq)]
pub enum DirectoryStep {
    /// It already exists: nothing to create.
    Done(CreateDirectoryResult),
    /// It does not exist: create it with all its missing parents.
    CreateAll,
}

/// Decides, from whether the resolved path exists and is a directory, what
/// the request needs; a path taken by something other than a directory is
/// refused.
pub fn decide(args: &CreateDirectoryArgs, exists: bool, is_dir: bool) -> (r: Result<DirectoryStep, EngineError>)
    ensures
        !exists ==> r matches Ok(DirectoryStep::CreateAll),
        exists && is_dir ==> (r matches Ok(DirectoryStep::Done(res)) && res.dir_path@ == args.dir_path@
            && !res.created),
        exists && !is_dir ==> (r matches Err(e) && e@ == detailed_error(
            ErrorCode::InvalidArgument,
            "Path exists but is not a directory"@,
            path_details(args.dir_path@),
        )),
{
    if exists {
        if is_dir {
            Ok(DirectoryStep::Done(CreateDirectoryResult { dir_path: args.dir_path.clone(), created: false }))
        } else {
            Err(EngineError::new(ErrorCode::InvalidArgument, "Path exists but is not a directory".to_owned())
                .with_details(path_detail(args.dir_path.as_str())))
        }
    } else {
        Ok(DirectoryStep::CreateAll)
    }
}

/// The result once the directory was created, or the failure to create it
/// (the I/O message).
pub fn finish(args: &CreateDirectoryArgs, outcome: Result<(), String>) -> (r: Result<CreateDirectoryResult, EngineError>)
    ensures
        match outcome {
            Ok(()) => r matches Ok(res) && res.dir_path@ == args.dir_path@ && res.created,
            Err(m) => r matches Err(e) && e@ == detailed_error(
                ErrorCode::IoError,
                "Failed to create directory"@,
                io_details(args.dir_path@, m@),
            ),
        },
{
    match outcome {
        Ok(()) => Ok(CreateDirectoryResult { dir_path: args.dir_path.clone(), created: true }),
        Err(m) => Err(io_error("Failed to create directory", args.dir_path.as_str(), m.as_str())),
    }
}

} // verus!
