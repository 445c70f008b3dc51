//! Request and response shapes of every operation, and the structured error
//! that all of them report.
use vstd::prelude::*;

verus! {

/// Stable error codes reported to clients.
#[derive(Debug, Clone, Copy, PartialEq, Eq, Structural)]
pub enum ErrorCode {
    InvalidArgument,
    NotFound,
    PathOutsideRoot,
    DriftDetected,
    SearchFailed,
    ParseFailed,
    IoError,
    Internal,
}

/// A value attached to an error as a detail.
#[derive(Debug, Clone, PartialEq)]
pub enum DetailValue {
    Str(String),
    Int(i128),
    Bool(bool),
    Null,
}

/// The mathematical content of a [`DetailValue`].
pub enum DetailView {
    Str(Seq<char>),
    Int(int),
    Bool(bool),
    Null,
}

impl View for DetailValue {
    type V = DetailView;

    open spec fn view(&self) -> DetailView {
        match self {
            DetailValue::Str(s) => DetailView::Str(s@),
            DetailValue::Int(i) => DetailView::Int(*i as int),
            DetailValue::Bool(b) => DetailView::Bool(*b),
            DetailValue::Null => DetailView::Null,
        }
    }
}

/// The view of a list of named details.
pub open spec fn details_view(d: Seq<(String, DetailValue)>) -> Seq<(Seq<char>, DetailView)> {
    d.map_values(|p: (String, DetailValue)| (p.0@, p.1@))
}

/// A structured error: a code, a message and optional named details.
#[derive(Debug, Clone, PartialEq)]
pub struct EngineError {
    pub code: ErrorCode,
    pub message: String,
    pub details: Option<Vec<(String, DetailValue)>>,
}

/// The mathematical content of an [`EngineError`].
pub struct EngineErrorView {
    pub code: ErrorCode,
    pub message: Seq<char>,
    pub details: Option<Seq<(Seq<char>, DetailView)>>,
}

impl View for EngineError {
    type V = EngineErrorView;

    open spec fn view(&self) -> EngineErrorView {
        EngineErrorView {
            code: self.code,
            message: self.message@,
            details: match self.details {
                Some(d) => Some(details_view(d@)),
                None => None,
            },
        }
    }
}

/// An error with the given code and message and no details.
pub open spec fn plain_error(code: ErrorCode, message: Seq<char>) -> EngineErrorView {
    EngineErrorView { code, message, details: None }
}

/// An error with the given code, message and details.
pub open spec fn detailed_error(
    code: ErrorCode,
    message: Seq<char>,
    details: Seq<(Seq<char>, DetailView)>,
) -> EngineErrorView {
    EngineErrorView { code, message, details: Some(details) }
}

impl EngineError {
    pub fn new(code: ErrorCode, message: String) -> (e: Self)
        ensures
            e@ == plain_error(code, message@),
    {
        EngineError { code, message, details: None }
    }

    pub fn with_details(self, details: Vec<(String, DetailValue)>) -> (e: Self)
        ensures
            e.code == self.code,
            e.message == self.message,
            e.details == Some(details),
            e@ == detailed_error(self.code, self.message@, details_view(details@)),
    {
        EngineError { code: self.code, message: self.message, details: Some(details) }
    }
}

/// A single `path` detail.
pub fn path_detail(path: &str) -> (d: Vec<(String, DetailValue)>)
    ensures
        details_view(d@) == seq![("path"@, DetailView::Str(path@))],
{
    let mut d: Vec<(String, DetailValue)> = Vec::new();
    d.push(("path".to_owned(), DetailValue::Str(path.to_owned())));
    proof {
        assert(details_view(d@) =~= seq![("path"@, DetailView::Str(path@))]);
    }
    d
}

// ---------- list_dir ----------
#[derive(Debug, Clone, PartialEq)]
pub struct ListDirArgs {
    pub dir_path: String,
    pub depth: usize,
    pub include_hidden: bool,
    pub max_entries: usize,
}

pub fn default_depth() -> (r: usize)
    ensures
        r == 4,
{
    4
}

pub fn default_max_entries() -> (r: usize)
    ensures
        r == 2000,
{
    2000
}

#[derive(Debug, Clone, PartialEq)]
pub struct ListDirResult {
    pub entries: Vec<ListDirEntry>,
    pub truncated: bool,
}

#[derive(Debug, Clone, PartialEq)]
pub struct ListDirEntry {
    pub path: String,
    pub entry_type: String,
    pub size: Option<u64>,
}

// ---------- search_text ----------
#[derive(Debug, Clone, PartialEq)]
pub struct SearchTextArgs {
    pub pattern: String,
    pub cwd: Option<String>,
    pub globs: Vec<String>,
    pub case_sensitive: Option<bool>,
    pub regex: Option<bool>,
    pub no_ignore: bool,
    pub max_matches: usize,
    pub max_per_file: usize,
    pub max_line_length: usize,
}

pub fn default_no_ignore() -> (r: bool)
    ensures
        r,
{
    true
}

pub fn default_max_matches() -> (r: usize)
    ensures
        r == 200,
{
    200
}

pub fn default_max_per_file() -> (r: usize)
    ensures
        r == 50,
{
    50
}

pub fn default_max_line_length() -> (r: usize)
    ensures
        r == 200,
{
    200
}

#[derive(Debug, Clone, PartialEq)]
pub struct SearchTextResult {
    pub matches: Vec<SearchMatch>,
    pub truncated: bool,
}

#[derive(Debug, Clone, PartialEq)]
pub struct SearchMatch {
    pub file_path: String,
    pub line: u32,
    pub column: Option<u32>,
    pub text: String,
}

// ---------- read_excerpt ----------
#[derive(Debug, Clone, PartialEq)]
pub struct ReadExcerptArgs {
    pub file_path: String,
    pub start_line: u32,
    pub end_line: u32,
    /// Maximum bytes to return; values above the hard limit of 100KB are capped.
    pub max_bytes: usize,
}

pub fn default_max_bytes() -> (r: usize)
    ensures
        r == 20_000,
{
    20_000
}

#[derive(Debug, Clone, PartialEq)]
pub struct ReadExcerptResult {
    pub file_path: String,
    pub start_line: u32,
    pub end_line: u32,
    pub text: String,
    pub truncated: bool,
}

// ---------- explore_code ----------
#[derive(Debug, Clone, PartialEq)]
pub struct ExploreCodeArgs {
    pub file_path: String,
    pub exported: bool,
    pub max_symbols: usize,
}

pub fn default_max_symbols() -> (r: usize)
    ensures
        r == 200,
{
    200
}

#[derive(Debug, Clone, PartialEq)]
pub struct ExploreCodeResult {
    pub file_path: String,
    pub language: String,
    pub symbols: Vec<ExploredSymbol>,
    pub notes: Option<Vec<String>>,
}

#[derive(Debug, Clone, PartialEq)]
pub struct ExploredSymbol {
    pub name: String,
    pub kind: String,
    pub exported: bool,
    pub signature: Option<String>,
    pub location: SymbolLocation,
}

#[derive(Debug, Clone, Copy, PartialEq, Eq, Structural)]
pub struct SymbolLocation {
    pub start_line: u32,
    pub end_line: u32,
}

// ---------- apply_patch ----------
#[derive(Debug, Clone, PartialEq)]
pub struct ApplyPatchArgs {
    pub file_path: String,
    pub mode: Option<String>,
    pub dry_run: bool,
    pub edits: Vec<PatchEdit>,
}

#[derive(Debug, Clone, PartialEq)]
pub enum PatchEdit {
    Insert { where_: String, anchor: PatchAnchor, text: String },
    Replace { target: PatchRegion, replacement: String },
    Delete { target: PatchRegion },
}

#[derive(Debug, Clone, PartialEq)]
pub struct PatchAnchor {
    pub needle: String,
    pub require_unique: Option<bool>,
}

#[derive(Debug, Clone, PartialEq)]
pub struct PatchRegion {
    pub start: PatchAnchor,
    pub end: Option<PatchAnchor>,
    pub include_end_needle: Option<bool>,
}

#[derive(Debug, Clone, PartialEq)]
pub struct ApplyPatchResult {
    pub file_path: String,
    pub dry_run: bool,
    pub applied: Vec<AppliedEditSummary>,
}

#[derive(Debug, Clone, PartialEq)]
pub struct AppliedEditSummary {
    pub kind: String,
    pub summary: String,
    pub start_line: Option<u32>,
    pub end_line: Option<u32>,
}

// ---------- create_directory ----------
#[derive(Debug, Clone, PartialEq)]
pub struct CreateDirectoryArgs {
    pub dir_path: String,
}

#[derive(Debug, Clone, PartialEq)]
pub struct CreateDirectoryResult {
    pub dir_path: String,
    pub created: bool,
}

// ---------- create_file ----------
#[derive(Debug, Clone, PartialEq)]
pub struct CreateFileArgs {
    pub file_path: String,
    pub contents: String,
    pub encoding: String,
}

pub fn default_encoding() -> (r: String)
    ensures
        r@ == "utf8"@,
{
    "utf8".to_owned()
}

#[derive(Debug, Clone, PartialEq)]
pub struct CreateFileResult {
    pub file_path: String,
    pub created: bool,
    pub bytes_written: usize,
}

// ---------- read_file_info ----------
#[derive(Debug, Clone, PartialEq)]
pub struct ReadFileInfoArgs {
    pub file_path: String,
}

#[derive(Debug, Clone, PartialEq)]
pub struct ReadFileInfoResult {
    pub file_path: String,
    pub exists: bool,
    pub entry_type: String,
    pub size: Option<u64>,
    pub mtime_ns: Option<i128>,
}

// ---------- delete_file ----------
#[derive(Debug, Clone, PartialEq)]
pub struct DeleteFileArgs {
    pub file_path: String,
}

#[derive(Debug, Clone, PartialEq)]
pub struct DeleteFileResult {
    pub file_path: String,
    pub deleted: bool,
}

// ---------- read_file ----------
#[derive(Debug, Clone, PartialEq)]
pub struct ReadFileArgs {
    pub file_path: String,
    /// Maximum bytes to read; the hard limit of 100KB is enforced.
    pub max_bytes: usize,
}

pub fn default_max_file_bytes() -> (r: usize)
    ensures
        r == 102_400,
{
    102_400
}

#[derive(Debug, Clone, PartialEq)]
pub struct ReadFileResult {
    pub file_path: String,
    pub contents: String,
    pub size: u64,
    pub truncated: bool,
}

// ---------- docker_shell ----------
#[derive(Debug, Clone, PartialEq)]
pub struct DockerShellArgs {
    /// Shell command to execute inside the container.
    pub command: String,
    /// Timeout in milliseconds.
    pub timeout_ms: u64,
    /// Working directory relative to /workspace.
    pub work_dir: String,
}

pub fn default_docker_timeout_ms() -> (r: u64)
    ensures
        r == 30_000,
{
    30_000
}

pub fn default_work_dir() -> (r: String)
    ensures
        r@ == "."@,
{
    ".".to_owned()
}

#[derive(Debug, Clone, PartialEq)]
pub struct DockerShellResult {
    pub exit_code: i32,
    pub output: Vec<(String, String)>,
    pub success: bool,
}

} // verus!
