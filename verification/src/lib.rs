//! Structural comparison of two Git revisions: which files and functions
//! changed, how risky each change is, and what reaches it.

pub mod analysis;
pub mod application;
pub mod collections;
pub mod git;
pub mod graph;
pub mod harness;
pub mod imports;
pub mod languages;
pub mod laws;
pub mod metrics;
pub mod order;
pub mod output;
pub mod query;
pub mod result;
pub mod text;

use vstd::prelude::*;

use crate::text::text_option;

verus! {

#[derive(Debug, Clone, PartialEq, Eq)]
pub struct AnalysisRequest {
    pub repository_path: String,
    pub base_revision: String,
    pub target_revision: String,
}

#[derive(Debug, Clone, PartialEq, Eq)]
pub struct ChangeInventory {
    pub repository_path: String,
    pub base: ResolvedRevision,
    pub target: ResolvedRevision,
    pub files: Vec<FileChange>,
    pub summary: ChangeSummary,
}

#[derive(Debug, Clone, PartialEq, Eq)]
pub struct ResolvedRevision {
    pub input: String,
    pub commit_id: String,
}

#[derive(Debug, Clone, Copy, PartialEq, Eq, Structural)]
pub enum FileStatus {
    Added,
    Deleted,
    Modified,
    Renamed,
    Binary,
}

#[derive(Debug, Clone, PartialEq, Eq)]
pub struct FileChange {
    pub base_path: Option<String>,
    pub target_path: Option<String>,
    pub status: FileStatus,
    pub old_blob_id: Option<String>,
    pub new_blob_id: Option<String>,
    pub base_blob: BlobContent,
    pub target_blob: BlobContent,
    pub added_lines: u32,
    pub removed_lines: u32,
    pub hunks: Vec<DiffHunk>,
}

#[derive(Debug, Clone, PartialEq, Eq)]
pub enum BlobContent {
    Available(Vec<u8>),
    Missing,
    NotApplicable,
    Binary,
}

#[derive(Debug, Clone, Copy, PartialEq, Eq, Structural)]
pub struct DiffHunk {
    pub base_start: u32,
    pub base_count: u32,
    pub target_start: u32,
    pub target_count: u32,
    pub added_lines: u32,
    pub removed_lines: u32,
}

#[derive(Debug, Clone, Copy, PartialEq, Eq, Structural)]
pub struct ChangeSummary {
    pub changed_files: u32,
    pub added_lines: u32,
    pub removed_lines: u32,
    pub binary_files: u32,
}

#[derive(Debug, Clone, PartialEq, Eq)]
pub enum DiffScopeError {
    Git { command: String, message: String },
    InvalidGitOutput(String),
    Language(String),
}

impl Default for ChangeSummary {
    fn default() -> (r: Self)
        ensures
            r == (ChangeSummary { changed_files: 0, added_lines: 0, removed_lines: 0, binary_files: 0 }),
    {
        ChangeSummary { changed_files: 0, added_lines: 0, removed_lines: 0, binary_files: 0 }
    }
}

/// What a blob holds: bytes, or the reason there are none.
#[verifier::ext_equal]
pub enum BlobView {
    Available(Seq<u8>),
    Missing,
    NotApplicable,
    Binary,
}

impl View for BlobContent {
    type V = BlobView;

    open spec fn view(&self) -> BlobView {
        match self {
            BlobContent::Available(bytes) => BlobView::Available(bytes@),
            BlobContent::Missing => BlobView::Missing,
            BlobContent::NotApplicable => BlobView::NotApplicable,
            BlobContent::Binary => BlobView::Binary,
        }
    }
}

impl BlobContent {
    /// An equal blob.
    pub fn copy(&self) -> (r: BlobContent)
        ensures
            r@ == self@,
    {
        match self {
            BlobContent::Available(bytes) => {
                let copied = bytes.clone();
                assert(copied@ =~= bytes@);
                BlobContent::Available(copied)
            },
            BlobContent::Missing => BlobContent::Missing,
            BlobContent::NotApplicable => BlobContent::NotApplicable,
            BlobContent::Binary => BlobContent::Binary,
        }
    }
}

/// A file change by what its texts and lists hold.
#[verifier::ext_equal]
pub struct FileChangeView {
    pub base_path: Option<Seq<char>>,
    pub target_path: Option<Seq<char>>,
    pub status: FileStatus,
    pub old_blob_id: Option<Seq<char>>,
    pub new_blob_id: Option<Seq<char>>,
    pub base_blob: BlobView,
    pub target_blob: BlobView,
    pub added_lines: u32,
    pub removed_lines: u32,
    pub hunks: Seq<DiffHunk>,
}

impl View for FileChange {
    type V = FileChangeView;

    open spec fn view(&self) -> FileChangeView {
        FileChangeView {
            base_path: text_option(self.base_path),
            target_path: text_option(self.target_path),
            status: self.status,
            old_blob_id: text_option(self.old_blob_id),
            new_blob_id: text_option(self.new_blob_id),
            base_blob: self.base_blob@,
            target_blob: self.target_blob@,
            added_lines: self.added_lines,
            removed_lines: self.removed_lines,
            hunks: self.hunks@,
        }
    }
}

/// The views of a sequence of file changes.
pub open spec fn change_views(files: Seq<FileChange>) -> Seq<FileChangeView> {
    files.map_values(|file: FileChange| file@)
}

/// An error by what its texts hold.
#[verifier::ext_equal]
pub enum ErrorView {
    Git { command: Seq<char>, message: Seq<char> },
    InvalidGitOutput(Seq<char>),
    Language(Seq<char>),
}

impl View for DiffScopeError {
    type V = ErrorView;

    open spec fn view(&self) -> ErrorView {
        match self {
            DiffScopeError::Git { command, message } => ErrorView::Git { command: command@, message: message@ },
            DiffScopeError::InvalidGitOutput(message) => ErrorView::InvalidGitOutput(message@),
            DiffScopeError::Language(message) => ErrorView::Language(message@),
        }
    }
}

/// The sentence an error is reported with.
pub open spec fn error_text(error: ErrorView) -> Seq<char> {
    match error {
        ErrorView::Git { command, message } => "git command failed (`"@ + command + "`): "@ + message,
        ErrorView::InvalidGitOutput(message) => "invalid git output: "@ + message,
        ErrorView::Language(message) => "language analysis failed: "@ + message,
    }
}

impl DiffScopeError {
    /// The sentence this error is reported with.
    pub fn to_text(&self) -> (r: String)
        ensures
            r@ == error_text(self@),
    {
        match self {
            DiffScopeError::Git { command, message } => {
                let mut out = "git command failed (`".to_owned();
                out.append(command.as_str());
                out.append("`): ");
                out.append(message.as_str());
                out
            },
            DiffScopeError::InvalidGitOutput(message) => {
                let mut out = "invalid git output: ".to_owned();
                out.append(message.as_str());
                out
            },
            DiffScopeError::Language(message) => {
                let mut out = "language analysis failed: ".to_owned();
                out.append(message.as_str());
                out
            },
        }
    }
}

} // verus!
