//! The ways in which an operation is refused or fails, and the limits that some of
//! them speak of.

use vstd::prelude::*;
use vstd::string::*;
use vstd::utf8::*;

use crate::text::{decimal, decimal_string, lossy_text, path_text};

verus! {

/// The size in bytes of the largest file that is read (10 MB).
pub const MAX_READ_SIZE: u64 = 10 * 1024 * 1024;

/// The size in bytes of the largest content that is written (10 MB).
pub const MAX_WRITE_SIZE: usize = 10 * 1024 * 1024;

/// The kind of an error.
#[derive(Clone, Copy, Debug, PartialEq, Eq, Structural)]
pub enum ErrorKind {
    InvalidData,
    InvalidInput,
    NotFound,
    PermissionDenied,
    /// The kind that the host gave to a failure of its own.
    Host,
}

/// Why an operation did not succeed.
#[derive(Debug, PartialEq, Eq)]
#[allow(inconsistent_fields)]
pub enum FileError {
    /// The host could not do what it was asked to do.
    Host,
    FileTooLarge { size: u64 },
    BinaryFile,
    ContentTooLarge { size: usize },
    StyledContentTooLarge { size: usize },
    AnnotatedFileTooLarge { size: usize },
    EscapesWorkspace { path: Vec<u8>, root: Vec<u8> },
    EmptyOldString,
    SameStrings,
    OldStringNotFound,
    NotMarkdown,
    EmptyAnnotation,
    UnknownPosition,
    EmptyAnchor,
    AmbiguousAnchor,
    AnchorNotFound,
    AnchorRequired,
    InvalidPattern { message: String },
}

/// The sentence that says that something of `size` bytes is over a limit.
pub open spec fn size_message(what: Seq<char>, size: nat, max: nat) -> Seq<char> {
    what + " is too large ("@ + decimal(size) + " bytes, max "@ + decimal(max) + " bytes)"@
}

impl FileError {
    /// The kind of this error.
    pub open spec fn spec_kind(self) -> ErrorKind {
        match self {
            FileError::Host => ErrorKind::Host,
            FileError::FileTooLarge { .. } => ErrorKind::InvalidData,
            FileError::BinaryFile => ErrorKind::InvalidData,
            FileError::ContentTooLarge { .. } => ErrorKind::InvalidData,
            FileError::StyledContentTooLarge { .. } => ErrorKind::InvalidData,
            FileError::AnnotatedFileTooLarge { .. } => ErrorKind::InvalidData,
            FileError::EscapesWorkspace { .. } => ErrorKind::PermissionDenied,
            FileError::OldStringNotFound => ErrorKind::NotFound,
            FileError::AnchorNotFound => ErrorKind::NotFound,
            _ => ErrorKind::InvalidInput,
        }
    }

    /// What this error says.
    pub open spec fn spec_message(self) -> Seq<char> {
        match self {
            FileError::Host => "the host failed"@,
            FileError::FileTooLarge { size } => size_message(
                "file"@,
                size as nat,
                MAX_READ_SIZE as nat,
            ),
            FileError::BinaryFile => "file appears to be binary"@,
            FileError::ContentTooLarge { size } => size_message(
                "content"@,
                size as nat,
                MAX_WRITE_SIZE as nat,
            ),
            FileError::StyledContentTooLarge { size } => size_message(
                "styled content"@,
                size as nat,
                MAX_WRITE_SIZE as nat,
            ),
            FileError::AnnotatedFileTooLarge { size } => size_message(
                "annotated file"@,
                size as nat,
                MAX_WRITE_SIZE as nat,
            ),
            FileError::EscapesWorkspace { path, root } => "path "@ + lossy_text(path@)
                + " escapes workspace boundary "@ + lossy_text(root@),
            FileError::EmptyOldString => "old_string must not be empty"@,
            FileError::SameStrings => "old_string and new_string must differ"@,
            FileError::OldStringNotFound =>
                "old_string not found in file, including CRLF/LF-compatible matching"@,
            FileError::NotMarkdown => "annotate_markdown only supports .md and .markdown files"@,
            FileError::EmptyAnnotation => "annotation must not be empty"@,
            FileError::UnknownPosition => "position must be one of: before, after, end"@,
            FileError::EmptyAnchor => "anchor must not be empty"@,
            FileError::AmbiguousAnchor => "anchor matched multiple locations in the Markdown file"@,
            FileError::AnchorNotFound => "anchor not found in Markdown file"@,
            FileError::AnchorRequired => "anchor is required when position is before or after"@,
            FileError::InvalidPattern { message } => message@,
        }
    }

    /// The kind of this error.
    pub fn kind(&self) -> (r: ErrorKind)
        ensures
            r == self.spec_kind(),
    {
        match self {
            FileError::Host => ErrorKind::Host,
            FileError::FileTooLarge { .. } => ErrorKind::InvalidData,
            FileError::BinaryFile => ErrorKind::InvalidData,
            FileError::ContentTooLarge { .. } => ErrorKind::InvalidData,
            FileError::StyledContentTooLarge { .. } => ErrorKind::InvalidData,
            FileError::AnnotatedFileTooLarge { .. } => ErrorKind::InvalidData,
            FileError::EscapesWorkspace { .. } => ErrorKind::PermissionDenied,
            FileError::OldStringNotFound => ErrorKind::NotFound,
            FileError::AnchorNotFound => ErrorKind::NotFound,
            _ => ErrorKind::InvalidInput,
        }
    }

    /// What this error says.
    pub fn message(&self) -> (r: String)
        ensures
            r@ == self.spec_message(),
            *self matches FileError::EscapesWorkspace { path, root } ==> valid_utf8(path@)
                && valid_utf8(root@) ==> r@ == "path "@ + decode_utf8(path@)
                + " escapes workspace boundary "@ + decode_utf8(root@),
    {
        match self {
            FileError::Host => "the host failed".to_owned(),
            FileError::FileTooLarge { size } => size_sentence("file", *size, MAX_READ_SIZE),
            FileError::BinaryFile => "file appears to be binary".to_owned(),
            FileError::ContentTooLarge { size } => size_sentence(
                "content",
                *size as u64,
                MAX_WRITE_SIZE as u64,
            ),
            FileError::StyledContentTooLarge { size } => size_sentence(
                "styled content",
                *size as u64,
                MAX_WRITE_SIZE as u64,
            ),
            FileError::AnnotatedFileTooLarge { size } => size_sentence(
                "annotated file",
                *size as u64,
                MAX_WRITE_SIZE as u64,
            ),
            FileError::EscapesWorkspace { path, root } => {
                let mut s = "path ".to_owned();
                s.append(path_text(path).as_str());
                s.append(" escapes workspace boundary ");
                s.append(path_text(root).as_str());
                s
            },
            FileError::EmptyOldString => "old_string must not be empty".to_owned(),
            FileError::SameStrings => "old_string and new_string must differ".to_owned(),
            FileError::OldStringNotFound =>
                "old_string not found in file, including CRLF/LF-compatible matching".to_owned(),
            FileError::NotMarkdown =>
                "annotate_markdown only supports .md and .markdown files".to_owned(),
            FileError::EmptyAnnotation => "annotation must not be empty".to_owned(),
            FileError::UnknownPosition =>
                "position must be one of: before, after, end".to_owned(),
            FileError::EmptyAnchor => "anchor must not be empty".to_owned(),
            FileError::AmbiguousAnchor =>
                "anchor matched multiple locations in the Markdown file".to_owned(),
            FileError::AnchorNotFound => "anchor not found in Markdown file".to_owned(),
            FileError::AnchorRequired =>
                "anchor is required when position is before or after".to_owned(),
            FileError::InvalidPattern { message } => message.clone(),
        }
    }
}

/// The sentence that says that something of `size` bytes is over a limit.
fn size_sentence(what: &str, size: u64, max: u64) -> (s: String)
    ensures
        s@ == size_message(what@, size as nat, max as nat),
{
    let mut s = what.to_owned();
    s.append(" is too large (");
    s.append(decimal_string(size).as_str());
    s.append(" bytes, max ");
    s.append(decimal_string(max).as_str());
    s.append(" bytes)");
    s
}

/// Errors are of the kind that their cause is of: what is too large or binary is invalid
/// data, what leads out of a workspace is not permitted, what is looked for and is not there
/// is not found, what the host fails at is the host's, and all else is invalid input.
pub proof fn law_errors_are_of_kind_of_their_cause(e: FileError)
    ensures
        e.spec_kind() == ErrorKind::InvalidData <==> e is FileTooLarge || e is BinaryFile
            || e is ContentTooLarge || e is StyledContentTooLarge || e is AnnotatedFileTooLarge,
        e.spec_kind() == ErrorKind::PermissionDenied <==> e is EscapesWorkspace,
        e.spec_kind() == ErrorKind::NotFound <==> e is OldStringNotFound || e is AnchorNotFound,
        e.spec_kind() == ErrorKind::Host <==> e is Host,
        e.spec_kind() == ErrorKind::InvalidInput <==> e is EmptyOldString || e is SameStrings
            || e is NotMarkdown || e is EmptyAnnotation || e is UnknownPosition || e is EmptyAnchor
            || e is AmbiguousAnchor || e is AnchorRequired || e is InvalidPattern,
{
}

/// An error that has to do with a number or a path says it: the size that was too large and
/// the limit, which is ten mebibytes, and the path and the root that it does not lie in.
pub proof fn law_errors_say_what_they_are_about(e: FileError)
    ensures
        e matches FileError::FileTooLarge { size } ==> e.spec_message() == "file"@
            + " is too large ("@ + decimal(size as nat) + " bytes, max "@ + decimal(10485760)
            + " bytes)"@,
        e matches FileError::ContentTooLarge { size } ==> e.spec_message() == "content"@
            + " is too large ("@ + decimal(size as nat) + " bytes, max "@ + decimal(10485760)
            + " bytes)"@,
        e matches FileError::StyledContentTooLarge { size } ==> e.spec_message()
            == "styled content"@ + " is too large ("@ + decimal(size as nat) + " bytes, max "@
            + decimal(10485760) + " bytes)"@,
        e matches FileError::AnnotatedFileTooLarge { size } ==> e.spec_message()
            == "annotated file"@ + " is too large ("@ + decimal(size as nat) + " bytes, max "@
            + decimal(10485760) + " bytes)"@,
        e matches FileError::EscapesWorkspace { path, root } ==> e.spec_message() == "path "@
            + lossy_text(path@) + " escapes workspace boundary "@ + lossy_text(root@),
        e matches FileError::InvalidPattern { message } ==> e.spec_message() == message@,
{
}

/// Each of the other errors says one thing.
pub proof fn law_errors_say_why(e: FileError)
    ensures
        e is BinaryFile ==> e.spec_message() == "file appears to be binary"@,
        e is EmptyOldString ==> e.spec_message() == "old_string must not be empty"@,
        e is SameStrings ==> e.spec_message() == "old_string and new_string must differ"@,
        e is OldStringNotFound ==> e.spec_message()
            == "old_string not found in file, including CRLF/LF-compatible matching"@,
        e is NotMarkdown ==> e.spec_message()
            == "annotate_markdown only supports .md and .markdown files"@,
        e is EmptyAnnotation ==> e.spec_message() == "annotation must not be empty"@,
        e is UnknownPosition ==> e.spec_message()
            == "position must be one of: before, after, end"@,
        e is EmptyAnchor ==> e.spec_message() == "anchor must not be empty"@,
        e is AmbiguousAnchor ==> e.spec_message()
            == "anchor matched multiple locations in the Markdown file"@,
        e is AnchorNotFound ==> e.spec_message() == "anchor not found in Markdown file"@,
        e is AnchorRequired ==> e.spec_message()
            == "anchor is required when position is before or after"@,
{
}

} // verus!
