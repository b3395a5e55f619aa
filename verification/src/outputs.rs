//! What the operations take and give back.

use vstd::prelude::*;

use crate::patch::StructuredPatchHunk;

verus! {

/// `serde_json::Value`, which the outputs have room for.
#[verifier::external_type_specification]
#[verifier::external_body]
pub struct ExJsonValue(serde_json::Value);

/// Text payload returned by file-reading operations.
#[derive(Debug, Clone, PartialEq, Eq)]
pub struct TextFilePayload {
    pub file_path: String,
    pub content: String,
    pub num_lines: usize,
    pub start_line: usize,
    pub total_lines: usize,
}

/// Output envelope for the `read_file` operation.
#[derive(Debug, Clone, PartialEq, Eq)]
pub struct ReadFileOutput {
    pub kind: String,
    pub file: TextFilePayload,
}

/// Output envelope for full-file write operations.
#[derive(Debug, Clone, PartialEq, Eq)]
pub struct WriteFileOutput {
    pub kind: String,
    pub file_path: String,
    pub content: String,
    pub structured_patch: Vec<StructuredPatchHunk>,
    pub original_file: Option<String>,
    pub git_diff: Option<serde_json::Value>,
}

/// Output envelope for targeted string-replacement edits.
#[derive(Debug, Clone, PartialEq, Eq)]
pub struct EditFileOutput {
    pub file_path: String,
    pub old_string: String,
    pub new_string: String,
    pub original_file: String,
    pub structured_patch: Vec<StructuredPatchHunk>,
    pub user_modified: bool,
    pub replace_all: bool,
    pub git_diff: Option<serde_json::Value>,
}

/// Output envelope for Markdown annotation insertions.
#[derive(Debug, Clone, PartialEq, Eq)]
pub struct AnnotateMarkdownOutput {
    pub file_path: String,
    pub annotation: String,
    pub anchor: Option<String>,
    pub position: String,
    pub original_file: String,
    pub structured_patch: Vec<StructuredPatchHunk>,
    pub git_diff: Option<String>,
}

/// Result of a glob-based filename search.
#[derive(Debug, Clone, PartialEq)]
pub struct GlobSearchOutput {
    pub duration_ms: u128,
    pub num_files: usize,
    pub filenames: Vec<String>,
    pub truncated: bool,
}

/// Parameters accepted by the grep-style search.
#[derive(Debug, Clone, PartialEq, Eq)]
pub struct GrepSearchInput {
    pub pattern: String,
    pub path: Option<String>,
    pub glob: Option<String>,
    pub output_mode: Option<String>,
    pub before: Option<usize>,
    pub after: Option<usize>,
    pub context_short: Option<usize>,
    pub context: Option<usize>,
    pub line_numbers: Option<bool>,
    pub case_insensitive: Option<bool>,
    pub file_type: Option<String>,
    pub head_limit: Option<usize>,
    pub offset: Option<usize>,
    pub multiline: Option<bool>,
}

/// Result payload returned by the grep-style search.
#[derive(Debug, Clone, PartialEq, Eq)]
pub struct GrepSearchOutput {
    pub mode: Option<String>,
    pub num_files: usize,
    pub filenames: Vec<String>,
    pub content: Option<String>,
    pub num_lines: Option<usize>,
    pub num_matches: Option<usize>,
    pub applied_limit: Option<usize>,
    pub applied_offset: Option<usize>,
}

} // verus!
