//! The operations on single files: reading, writing, editing and annotating one, with
//! or without a workspace that it has to lie in.
//!
//! Each operation is a [`FileTask`]. It resolves the path, holds it against the
//! workspace where there is one, and only then touches the file.

use vstd::prelude::*;
use vstd::string::*;
use vstd::utf8::*;

use crate::annotate::{annotate_text, annotated};
use crate::edit::{edited, replace_text_preserving_style};
use crate::endings::{preserve_existing_text_style, styled};
use crate::error::{FileError, MAX_READ_SIZE, MAX_WRITE_SIZE};
use crate::host::{reply_path, reply_text, Ask, Progress, Reply, Request};
use crate::outputs::{AnnotateMarkdownOutput, EditFileOutput, ReadFileOutput, WriteFileOutput};
use crate::paths::{byte_texts, bytes_of, parent, path_parent};
use crate::reports::{
    build_annotate_output, build_edit_output, build_read_output, build_write_output,
    is_annotate_output, is_binary_file, is_edit_output, is_read_output, is_write_output,
    looks_binary, PROBE_SIZE,
};
use crate::resolve::{
    begins_resolution, normalize_path, normalize_path_allow_missing, resolution_goes_on, Resolution,
    ResolutionProgress,
};
use crate::text::{byte_len, same_text, string_option, text_option};
use crate::trace::{
    begins_trace, trace_goes_on, Approach, Landing, Trace, TraceProgress, Traced,
};
use crate::workspace::{
    canonicalize_workspace_root, escape, in_workspace, is_escape, is_markdown_path, names_markdown,
    root_in_force, validate_workspace_boundary,
};

verus! {

/// What is to be done with a file.
#[derive(Debug)]
pub enum Operation {
    Read { offset: Option<usize>, limit: Option<usize> },
    Write { content: String },
    Edit { old_string: String, new_string: String, replace_all: bool },
    Annotate { annotation: String, anchor: Option<String>, position: Option<String> },
}

/// What an operation reports.
#[derive(Debug)]
pub enum FileOutput {
    Read(ReadFileOutput),
    Write(WriteFileOutput),
    Edit(EditFileOutput),
    Annotate(AnnotateMarkdownOutput),
}

/// What is known of where the path leads.
#[derive(Debug)]
pub enum Clearance {
    /// There is a workspace, and the path was not held against it yet.
    Pending,
    /// There is no workspace.
    Free,
    /// The path was found to lie in the workspace `root`, and to lead into it.
    Inside { root: Vec<u8> },
}

/// How far an operation is.
#[derive(Debug)]
#[allow(inconsistent_fields)]
pub enum Stage {
    /// The path is resolved so that it can be held against the workspace.
    Guarding { resolution: Resolution, root: Vec<u8> },
    /// The root of the workspace is resolved. A path that need not exist, and does not,
    /// waits to be traced.
    Bounding { path: Vec<u8>, trace: Option<Trace>, root: Vec<u8> },
    /// The root of the workspace does not exist, and is traced on the `way` that it leads.
    Rooting { path: Vec<u8>, trace: Trace, root: Vec<u8>, way: Trace },
    /// The path does not exist, and is traced so that where it leads can be held against
    /// the `bounds` of the workspace. They are `known` where the root exists.
    Tracing { path: Vec<u8>, trace: Trace, root: Vec<u8>, bounds: Vec<u8>, known: bool },
    /// The path is resolved, where there is no workspace.
    Locating { resolution: Resolution },
    /// The size of the file is asked for.
    Sizing { path: Vec<u8> },
    /// The first bytes of the file are asked for.
    Probing { path: Vec<u8> },
    /// The text of the file is asked for.
    Loading { path: Vec<u8> },
    /// The directory of the file is made.
    MakingDir { dir: Vec<u8>, path: Vec<u8>, content: String, output: FileOutput },
    /// The file is written.
    Saving { path: Vec<u8>, content: String, output: FileOutput },
}

/// An operation on a file that waits for a reply of the host.
#[derive(Debug)]
pub struct FileTask {
    pub operation: Operation,
    /// The path as it was given.
    pub path: String,
    pub clearance: Clearance,
    pub stage: Stage,
}

/// An operation that waits for a reply, or what has come of it.
pub type FileProgress = Progress<FileTask, Result<FileOutput, FileError>>;

impl Operation {
    /// The file need not exist.
    pub open spec fn may_create(self) -> bool {
        self is Write
    }
}

impl FileTask {
    /// The operation, now at another stage.
    pub open spec fn at(self, stage: Stage) -> FileTask {
        FileTask { stage, ..self }
    }
}

/// A path that is made or written to stays within the workspace: it is inside, or it is
/// above it where the workspace has to be made.
pub open spec fn stays_within(p: Seq<u8>, bounds: Seq<u8>, known: bool) -> bool {
    in_workspace(p, bounds) || (!known && in_workspace(bounds, p))
}

/// The first of the paths that does not stay within the workspace.
pub open spec fn stray(paths: Seq<Seq<u8>>, bounds: Seq<u8>, known: bool) -> Option<Seq<u8>>
    decreases paths.len(),
{
    if paths.len() == 0 {
        None
    } else {
        match stray(paths.drop_last(), bounds, known) {
            Some(p) => Some(p),
            None => if stays_within(paths.last(), bounds, known) {
                None
            } else {
                Some(paths.last())
            },
        }
    }
}

/// None of the paths strays just where all of them stay within the workspace.
pub proof fn law_none_strays(paths: Seq<Seq<u8>>, bounds: Seq<u8>, known: bool)
    ensures
        stray(paths, bounds, known) is None <==> forall|i: int|
            0 <= i < paths.len() ==> stays_within(#[trigger] paths[i], bounds, known),
        stray(paths, bounds, known) matches Some(p) ==> paths.contains(p) && !stays_within(
            p,
            bounds,
            known,
        ),
    decreases paths.len(),
{
    if paths.len() > 0 {
        let rest = paths.drop_last();
        law_none_strays(rest, bounds, known);
        assert(paths[paths.len() - 1] == paths.last());
        assert forall|i: int| 0 <= i < rest.len() implies #[trigger] rest[i] == paths[i] by {}
        if let Some(p) = stray(rest, bounds, known) {
            let i = choose|i: int| 0 <= i < rest.len() && rest[i] == p;
            assert(paths[i] == p);
        } else {
            assert forall|i: int|
                stays_within(paths.last(), bounds, known) && 0 <= i < paths.len() implies stays_within(
                #[trigger] paths[i],
                bounds,
                known,
            ) by {
                if i < rest.len() {
                    assert(rest[i] == paths[i]);
                }
            }
        }
    }
}

/// How an operation goes on once the file was found at `path`.
pub open spec fn is_located(t: FileTask, path: Vec<u8>, next: FileProgress) -> bool {
    match t.operation {
        Operation::Read { .. } => next == FileProgress::Waiting(t.at(Stage::Sizing { path })),
        Operation::Annotate { .. } if !names_markdown(path@) => next == FileProgress::Finished(
            Err(FileError::NotMarkdown),
        ),
        _ => next == FileProgress::Waiting(t.at(Stage::Loading { path })),
    }
}

/// How an operation in a workspace goes on once its path was found to lead into it, to
/// `path`: a write of too much content is refused, and else the file is touched there.
pub open spec fn is_cleared(t: FileTask, path: Vec<u8>, next: FileProgress) -> bool {
    match t.operation {
        Operation::Write { content } if byte_len(content@) > MAX_WRITE_SIZE => next matches Progress::Finished(
            Err(FileError::ContentTooLarge { size }),
        ) && size == byte_len(content@),
        _ => is_located(t, path, next),
    }
}

/// How an operation in a workspace goes on whose path was found to lie in the workspace
/// `root`, and to lead into it.
pub open spec fn enters(t: FileTask, root: Seq<u8>, path: Vec<u8>, next: FileProgress) -> bool {
    exists|w: Vec<u8>|
        #[trigger] w@ == root && is_cleared(
            FileTask { clearance: Clearance::Inside { root: w }, ..t },
            path,
            next,
        )
}

/// How an operation in a workspace goes on once the root of the workspace was asked for:
/// the path is refused where it does not lie in the workspace. Where it does not exist, it
/// is found out where it leads, and first where the root leads if that does not exist
/// either.
pub open spec fn is_bounded(
    t: FileTask,
    path: Vec<u8>,
    trace: Option<Trace>,
    root: Seq<u8>,
    canonical: Option<Seq<u8>>,
    next: FileProgress,
) -> bool {
    let in_force = root_in_force(root, canonical);
    if !in_workspace(path@, in_force) {
        next matches Progress::Finished(Err(e)) && is_escape(e, path@, in_force)
    } else {
        match trace {
            None => enters(t, in_force, path, next),
            Some(trace) => {
                &&& next matches Progress::Waiting(u)
                &&& u == t.at(u.stage)
                &&& match u.stage {
                    Stage::Tracing { path: p, trace: s, root: w, bounds, known } => {
                        &&& canonical is Some
                        &&& p == path && s == trace && w@ == in_force
                        &&& bounds@ == in_force && known
                    },
                    Stage::Rooting { path: p, trace: s, root: w, way } => {
                        &&& canonical is None
                        &&& p == path && s == trace && w@ == in_force
                        &&& way matches Trace::Climbing { at, rest } && at@ == root && rest@.len()
                            == 0
                    },
                    _ => false,
                }
            },
        }
    }
}

/// The bounds of a workspace whose root `root` does not exist: where that leads, if
/// anywhere.
pub open spec fn bounds_of(root: Seq<u8>, l: Landing) -> Seq<u8> {
    match l {
        Landing::At(end, _) => end,
        Landing::Lost => root,
    }
}

/// How an operation in a workspace goes on once it was found out where its path leads, which
/// does not exist: it is refused where that, or anything that is missing on the way, does
/// not stay within the workspace. Where the path leads nowhere, there is no writing to it.
pub open spec fn is_landed(
    t: FileTask,
    path: Vec<u8>,
    root: Seq<u8>,
    bounds: Seq<u8>,
    known: bool,
    l: Landing,
    next: FileProgress,
) -> bool {
    match l {
        Landing::At(end, met) => match stray(seq![end] + met, bounds, known) {
            None => enters(t, root, path, next),
            Some(p) => next matches Progress::Finished(Err(e)) && is_escape(e, p, bounds),
        },
        Landing::Lost => match t.operation {
            Operation::Write { content } if byte_len(content@) > MAX_WRITE_SIZE => next matches Progress::Finished(
                Err(FileError::ContentTooLarge { size }),
            ) && size == byte_len(content@),
            _ => next == FileProgress::Finished(Err(FileError::Host)),
        },
    }
}

/// The operation saves `content` in the file at `path`, and will report what `reports`
/// says.
pub open spec fn saves(
    t: FileTask,
    path: Vec<u8>,
    content: Seq<char>,
    reports: spec_fn(FileOutput) -> bool,
    next: FileProgress,
) -> bool {
    &&& next matches Progress::Waiting(u)
    &&& u == t.at(u.stage)
    &&& u.stage matches Stage::Saving { path: p, content: c, output }
    &&& p == path
    &&& c@ == content
    &&& reports(output)
}

/// The operation makes the directory `dir`, will then save `content` in the file at
/// `path`, and will report what `reports` says.
pub open spec fn makes_dir(
    t: FileTask,
    dir: Seq<u8>,
    path: Vec<u8>,
    content: Seq<char>,
    reports: spec_fn(FileOutput) -> bool,
    next: FileProgress,
) -> bool {
    &&& next matches Progress::Waiting(u)
    &&& u == t.at(u.stage)
    &&& u.stage matches Stage::MakingDir { dir: d, path: p, content: c, output }
    &&& d@ == dir
    &&& p == path
    &&& c@ == content
    &&& reports(output)
}

/// How a read goes on once the text of the file was asked for.
pub open spec fn read_is_loaded(
    path: Seq<u8>,
    offset: Option<usize>,
    limit: Option<usize>,
    text: Option<Seq<char>>,
    next: FileProgress,
) -> bool {
    match text {
        Some(content) => next matches Progress::Finished(Ok(FileOutput::Read(o)))
            && is_read_output(o, path, content, offset, limit),
        None => next == FileProgress::Finished(Err(FileError::Host)),
    }
}

/// How a write goes on once the text of the file was asked for: what is saved takes the
/// style of the text that was there, if any.
pub open spec fn write_is_loaded(
    t: FileTask,
    path: Vec<u8>,
    content: Seq<char>,
    original: Option<Seq<char>>,
    next: FileProgress,
) -> bool {
    let text = styled(content, original);
    let reports = |o: FileOutput|
        o matches FileOutput::Write(w) && is_write_output(w, path@, original, text);
    if byte_len(text) > MAX_WRITE_SIZE {
        next matches Progress::Finished(Err(FileError::StyledContentTooLarge { size })) && size
            == byte_len(text)
    } else {
        match parent(path@) {
            Some(dir) => makes_dir(t, dir, path, text, reports, next),
            None => saves(t, path, text, reports, next),
        }
    }
}

/// How an edit goes on once the text of the file was asked for.
pub open spec fn edit_is_loaded(
    t: FileTask,
    path: Vec<u8>,
    old_string: Seq<char>,
    new_string: Seq<char>,
    replace_all: bool,
    text: Option<Seq<char>>,
    next: FileProgress,
) -> bool {
    match text {
        None => next == FileProgress::Finished(Err(FileError::Host)),
        Some(original) => if old_string == new_string {
            next == FileProgress::Finished(Err(FileError::SameStrings))
        } else {
            match edited(original, old_string, new_string, replace_all) {
                Err(e) => next == FileProgress::Finished(Err(e)),
                Ok(updated) => saves(
                    t,
                    path,
                    updated,
                    |o: FileOutput|
                        o matches FileOutput::Edit(w) && is_edit_output(
                            w,
                            path@,
                            old_string,
                            new_string,
                            replace_all,
                            original,
                            updated,
                        ),
                    next,
                ),
            }
        },
    }
}

/// How an annotation goes on once the text of the file was asked for.
pub open spec fn annotation_is_loaded(
    t: FileTask,
    path: Vec<u8>,
    annotation: Seq<char>,
    anchor: Option<Seq<char>>,
    position: Option<Seq<char>>,
    text: Option<Seq<char>>,
    next: FileProgress,
) -> bool {
    match text {
        None => next == FileProgress::Finished(Err(FileError::Host)),
        Some(original) => match annotated(original, annotation, anchor, position) {
            Err(e) => next == FileProgress::Finished(Err(e)),
            Ok(a) => if byte_len(a.text) > MAX_WRITE_SIZE {
                next matches Progress::Finished(Err(FileError::AnnotatedFileTooLarge { size }))
                    && size == byte_len(a.text)
            } else {
                saves(
                    t,
                    path,
                    a.text,
                    |o: FileOutput|
                        o matches FileOutput::Annotate(w) && is_annotate_output(
                            w,
                            path@,
                            annotation,
                            anchor,
                            a.position,
                            original,
                            a.text,
                        ),
                    next,
                )
            },
        },
    }
}

/// How an operation goes on once the text of the file at `path` was asked for.
pub open spec fn is_loaded(
    t: FileTask,
    path: Vec<u8>,
    text: Option<Seq<char>>,
    next: FileProgress,
) -> bool {
    match t.operation {
        Operation::Read { offset, limit } => read_is_loaded(path@, offset, limit, text, next),
        Operation::Write { content } => write_is_loaded(t, path, content@, text, next),
        Operation::Edit { old_string, new_string, replace_all } => edit_is_loaded(
            t,
            path,
            old_string@,
            new_string@,
            replace_all,
            text,
            next,
        ),
        Operation::Annotate { annotation, anchor, position } => annotation_is_loaded(
            t,
            path,
            annotation@,
            string_option(anchor),
            string_option(position),
            text,
            next,
        ),
    }
}

/// The trace by which an operation in a workspace finds out where its path leads, once that
/// was resolved: there is none but for a path that need not exist.
pub open spec fn begins_trace_of(
    operation: Operation,
    r: Resolution,
    reply: Reply,
    path: Seq<u8>,
    trace: Option<Trace>,
) -> bool {
    if operation.may_create() {
        begins_trace(r, reply, path, trace)
    } else {
        trace is None
    }
}

/// How an operation goes on after a reply.
pub open spec fn file_goes_on(t: FileTask, reply: Reply, next: FileProgress) -> bool {
    match t.stage {
        Stage::Guarding { resolution, root } => exists|p: ResolutionProgress| #[trigger]
            resolution_goes_on(resolution, reply, p) && match p {
                Progress::Waiting(r) => next == FileProgress::Waiting(
                    t.at(Stage::Guarding { resolution: r, root }),
                ),
                Progress::Finished(Ok(path)) => exists|trace: Option<Trace>| #[trigger]
                    begins_trace_of(t.operation, resolution, reply, path@, trace) && next
                        == FileProgress::Waiting(t.at(Stage::Bounding { path, trace, root })),
                Progress::Finished(Err(e)) => next == FileProgress::Finished(Err(e)),
            },
        Stage::Bounding { path, trace, root } => is_bounded(
            t,
            path,
            trace,
            root@,
            reply_path(reply),
            next,
        ),
        Stage::Rooting { path, trace, root, way } => exists|p: TraceProgress| #[trigger]
            trace_goes_on(way, reply, p) && match p {
                Progress::Waiting(u) => next == FileProgress::Waiting(
                    t.at(Stage::Rooting { path, trace, root, way: u }),
                ),
                Progress::Finished(l) => {
                    &&& next matches Progress::Waiting(u)
                    &&& u == t.at(u.stage)
                    &&& u.stage matches Stage::Tracing { path: q, trace: s, root: w, bounds, known }
                    &&& q == path && s == trace && w == root
                    &&& bounds@ == bounds_of(root@, l@) && !known
                },
            },
        Stage::Tracing { path, trace, root, bounds, known } => exists|p: TraceProgress| #[trigger]
            trace_goes_on(trace, reply, p) && match p {
                Progress::Waiting(u) => next == FileProgress::Waiting(
                    t.at(Stage::Tracing { path, trace: u, root, bounds, known }),
                ),
                Progress::Finished(l) => is_landed(t, path, root@, bounds@, known, l@, next),
            },
        Stage::Locating { resolution } => exists|p: ResolutionProgress| #[trigger]
            resolution_goes_on(resolution, reply, p) && match p {
                Progress::Waiting(r) => next == FileProgress::Waiting(
                    t.at(Stage::Locating { resolution: r }),
                ),
                Progress::Finished(Ok(path)) => is_located(t, path, next),
                Progress::Finished(Err(e)) => next == FileProgress::Finished(Err(e)),
            },
        Stage::Sizing { path } => match reply {
            Reply::Size(size) => if size > MAX_READ_SIZE {
                next == FileProgress::Finished(Err(FileError::FileTooLarge { size }))
            } else {
                next == FileProgress::Waiting(t.at(Stage::Probing { path }))
            },
            _ => next == FileProgress::Finished(Err(FileError::Host)),
        },
        Stage::Probing { path } => match reply {
            Reply::Bytes(head) => if looks_binary(head@) {
                next == FileProgress::Finished(Err(FileError::BinaryFile))
            } else {
                next == FileProgress::Waiting(t.at(Stage::Loading { path }))
            },
            _ => next == FileProgress::Finished(Err(FileError::Host)),
        },
        Stage::Loading { path } => is_loaded(t, path, reply_text(reply), next),
        Stage::MakingDir { dir, path, content, output } => match reply {
            Reply::Done => next == FileProgress::Waiting(
                t.at(Stage::Saving { path, content, output }),
            ),
            _ => next == FileProgress::Finished(Err(FileError::Host)),
        },
        Stage::Saving { path, content, output } => match reply {
            Reply::Done => next == FileProgress::Finished(Ok(output)),
            _ => next == FileProgress::Finished(Err(FileError::Host)),
        },
    }
}

/// The number of bytes of a text.
fn size_of(text: &str) -> (n: usize)
    ensures
        n == byte_len(text@),
{
    text.as_bytes().len()
}

/// An optional string as an optional text.
fn borrowed(s: &Option<String>) -> (r: Option<&str>)
    ensures
        text_option(r) == string_option(*s),
{
    match s {
        Some(s) => Some(s.as_str()),
        None => None,
    }
}

/// Whether the path stays within the workspace.
fn is_within(p: &Vec<u8>, bounds: &Vec<u8>, known: bool) -> (r: bool)
    ensures
        r == stays_within(p@, bounds@, known),
{
    if let Ok(()) = validate_workspace_boundary(p.as_slice(), bounds.as_slice()) {
        return true;
    }
    if known {
        return false;
    }
    validate_workspace_boundary(bounds.as_slice(), p.as_slice()).is_ok()
}

/// Refuses where a path leads if that, or anything that is missing on the way, does not
/// stay within the workspace.
fn hold_within(end: &Vec<u8>, met: &Vec<Vec<u8>>, bounds: &Vec<u8>, known: bool) -> (r: Result<
    (),
    FileError,
>)
    ensures
        match (r, stray(seq![end@] + byte_texts(met@), bounds@, known)) {
            (Ok(()), None) => true,
            (Err(e), Some(p)) => is_escape(e, p, bounds@),
            _ => false,
        },
{
    let ghost all = seq![end@] + byte_texts(met@);
    if !is_within(end, bounds, known) {
        proof {
            lemma_first_strays(all, bounds@, known, 0);
        }
        return Err(escape(end.as_slice(), bounds.as_slice()));
    }
    let mut i: usize = 0;
    assert(all.take(1) =~= seq![end@]);
    assert(all.take(1).drop_last() =~= seq![]);
    assert(stray(seq![], bounds@, known) is None);
    assert(stray(all.take(1), bounds@, known) is None);
    while i < met.len()
        invariant
            i <= met@.len(),
            all == seq![end@] + byte_texts(met@),
            stray(all.take(i + 1), bounds@, known) is None,
        decreases met@.len() - i,
    {
        assert(all[i + 1] == met@[i as int]@);
        assert(all.take(i + 2).drop_last() =~= all.take(i + 1));
        if !is_within(&met[i], bounds, known) {
            proof {
                lemma_first_strays(all, bounds@, known, i + 1);
            }
            return Err(escape(met[i].as_slice(), bounds.as_slice()));
        }
        i += 1;
    }
    assert(all.take(i + 1) =~= all);
    Ok(())
}

/// The first path that does not stay within the workspace is the one that strays.
proof fn lemma_first_strays(all: Seq<Seq<u8>>, bounds: Seq<u8>, known: bool, k: int)
    requires
        0 <= k < all.len(),
        stray(all.take(k), bounds, known) is None,
        !stays_within(all[k], bounds, known),
    ensures
        stray(all, bounds, known) == Some(all[k]),
    decreases all.len(),
{
    let rest = all.drop_last();
    if k < rest.len() {
        assert(rest.take(k) =~= all.take(k));
        lemma_first_strays(rest, bounds, known, k);
    } else {
        assert(rest =~= all.take(k));
    }
}

impl FileTask {
    /// What the operation asks for.
    pub open spec fn ask(self) -> Ask {
        match self.stage {
            Stage::Guarding { resolution, .. } => resolution.ask(),
            Stage::Bounding { root, .. } => Ask::Canonicalize(root@),
            Stage::Rooting { way, .. } => way.ask(),
            Stage::Tracing { trace, .. } => trace.ask(),
            Stage::Locating { resolution } => resolution.ask(),
            Stage::Sizing { path } => Ask::FileSize(path@),
            Stage::Probing { path } => Ask::ReadHead(path@, PROBE_SIZE as int),
            Stage::Loading { path } => Ask::ReadText(path@),
            Stage::MakingDir { dir, .. } => Ask::CreateDirs(dir@),
            Stage::Saving { path, content, .. } => Ask::WriteText(path@, content@),
        }
    }

    /// What the operation asks for.
    pub fn request(&self) -> (r: Request<'_>)
        ensures
            r@ == self.ask(),
    {
        match &self.stage {
            Stage::Guarding { resolution, .. } => resolution.request(),
            Stage::Bounding { root, .. } => Request::Canonicalize(root),
            Stage::Rooting { way, .. } => way.request(),
            Stage::Tracing { trace, .. } => trace.request(),
            Stage::Locating { resolution } => resolution.request(),
            Stage::Sizing { path } => Request::FileSize(path),
            Stage::Probing { path } => Request::ReadHead(path, PROBE_SIZE),
            Stage::Loading { path } => Request::ReadText(path),
            Stage::MakingDir { dir, .. } => Request::CreateDirs(dir),
            Stage::Saving { path, content, .. } => Request::WriteText(path, content),
        }
    }

    /// Goes on once the file was found.
    fn locate(operation: Operation, given: String, clearance: Clearance, path: Vec<u8>) -> (next:
        FileProgress)
        ensures
            forall|stage: Stage| #[trigger]
                is_located(
                    FileTask { operation, path: given, clearance, stage },
                    path,
                    next,
                ),
    {
        let stage = match &operation {
            Operation::Read { .. } => Stage::Sizing { path },
            Operation::Annotate { .. } => {
                if !is_markdown_path(path.as_slice()) {
                    return Progress::Finished(Err(FileError::NotMarkdown));
                }
                Stage::Loading { path }
            },
            _ => Stage::Loading { path },
        };
        Progress::Waiting(FileTask { operation, path: given, clearance, stage })
    }

    /// The size of the content that an operation is to write, where it is too much.
    fn excess(operation: &Operation) -> (r: Option<usize>)
        ensures
            match *operation {
                Operation::Write { content } => if byte_len(content@) > MAX_WRITE_SIZE {
                    r matches Some(size) && size == byte_len(content@)
                } else {
                    r is None
                },
                _ => r is None,
            },
    {
        if let Operation::Write { content } = operation {
            let size = size_of(content.as_str());
            if size > MAX_WRITE_SIZE {
                return Some(size);
            }
        }
        None
    }

    /// Goes on once the path was found to lie in the workspace `root`, and to lead into it.
    fn enter(operation: Operation, given: String, root: Vec<u8>, path: Vec<u8>) -> (next:
        FileProgress)
        ensures
            forall|clearance: Clearance, stage: Stage| #[trigger]
                enters(FileTask { operation, path: given, clearance, stage }, root@, path, next),
    {
        let ghost w = root;
        let next = match FileTask::excess(&operation) {
            Some(size) => Progress::Finished(Err(FileError::ContentTooLarge { size })),
            None => FileTask::locate(operation, given, Clearance::Inside { root }, path),
        };
        assert forall|clearance: Clearance, stage: Stage| #[trigger]
            enters(FileTask { operation, path: given, clearance, stage }, root@, path, next) by {
            let cleared = FileTask {
                operation,
                path: given,
                clearance: Clearance::Inside { root: w },
                stage,
            };
            assert(w@ == root@);
            assert(!(operation matches Operation::Write { content } && byte_len(content@)
                > MAX_WRITE_SIZE) ==> is_located(cleared, path, next));
            assert(is_cleared(cleared, path, next));
        }
        next
    }

    /// Goes on once the text of the file was asked for.
    fn load(operation: Operation, given: String, clearance: Clearance, path: Vec<u8>, reply: Reply) -> (next:
        FileProgress)
        ensures
            forall|stage: Stage| #[trigger]
                is_loaded(
                    FileTask { operation, path: given, clearance, stage },
                    path,
                    reply_text(reply),
                    next,
                ),
    {
        let text = match reply {
            Reply::Text(text) => Some(text),
            _ => None,
        };
        let ghost asked = operation;
        match operation {
            Operation::Read { offset, limit } => match text {
                Some(content) => Progress::Finished(
                    Ok(
                        FileOutput::Read(
                            build_read_output(&path, content.as_str(), offset, limit),
                        ),
                    ),
                ),
                None => Progress::Finished(Err(FileError::Host)),
            },
            Operation::Write { content } => {
                let new_text = match &text {
                    Some(original) => preserve_existing_text_style(
                        content.as_str(),
                        Some(original.as_str()),
                    ),
                    None => preserve_existing_text_style(content.as_str(), None),
                };
                let size = size_of(new_text.as_str());
                if size > MAX_WRITE_SIZE {
                    return Progress::Finished(Err(FileError::StyledContentTooLarge { size }));
                }
                let output = FileOutput::Write(
                    build_write_output(&path, text, new_text.as_str()),
                );
                let stage = match path_parent(path.as_slice()) {
                    Some(dir) => Stage::MakingDir { dir, path, content: new_text, output },
                    None => Stage::Saving { path, content: new_text, output },
                };
                let operation = Operation::Write { content };
                Progress::Waiting(FileTask { operation, path: given, clearance, stage })
            },
            Operation::Edit { old_string, new_string, replace_all } => {
                let original = match text {
                    Some(original) => original,
                    None => {
                        return Progress::Finished(Err(FileError::Host));
                    },
                };
                if same_text(old_string.as_str(), new_string.as_str()) {
                    return Progress::Finished(Err(FileError::SameStrings));
                }
                match replace_text_preserving_style(
                    original.as_str(),
                    old_string.as_str(),
                    new_string.as_str(),
                    replace_all,
                ) {
                    Err(e) => Progress::Finished(Err(e)),
                    Ok(updated) => {
                        let output = FileOutput::Edit(
                            build_edit_output(
                                &path,
                                old_string.as_str(),
                                new_string.as_str(),
                                replace_all,
                                original,
                                updated.as_str(),
                            ),
                        );
                        let stage = Stage::Saving { path, content: updated, output };
                        let operation = Operation::Edit { old_string, new_string, replace_all };
                        Progress::Waiting(FileTask { operation, path: given, clearance, stage })
                    },
                }
            },
            Operation::Annotate { annotation, anchor, position } => {
                let original = match text {
                    Some(original) => original,
                    None => {
                        return Progress::Finished(Err(FileError::Host));
                    },
                };
                match annotate_text(
                    original.as_str(),
                    annotation.as_str(),
                    borrowed(&anchor),
                    borrowed(&position),
                ) {
                    Err(e) => Progress::Finished(Err(e)),
                    Ok((updated, place)) => {
                        let size = size_of(updated.as_str());
                        if size > MAX_WRITE_SIZE {
                            return Progress::Finished(
                                Err(FileError::AnnotatedFileTooLarge { size }),
                            );
                        }
                        let output = FileOutput::Annotate(
                            build_annotate_output(
                                &path,
                                annotation.clone(),
                                anchor.clone(),
                                place,
                                original,
                                updated.as_str(),
                            ),
                        );
                        let stage = Stage::Saving { path, content: updated, output };
                        let operation = Operation::Annotate { annotation, anchor, position };
                        Progress::Waiting(FileTask { operation, path: given, clearance, stage })
                    },
                }
            },
        }
    }

    /// Goes on after a reply.
    pub fn step(self, reply: Reply) -> (next: FileProgress)
        ensures
            file_goes_on(self, reply, next),
    {
        let ghost asked = self;
        let FileTask { operation, path: given, clearance, stage } = self;
        match stage {
            Stage::Guarding { resolution, root } => {
                let approach = Approach::of(&resolution, &reply);
                match resolution.step(reply) {
                    Progress::Waiting(resolution) => {
                        let stage = Stage::Guarding { resolution, root };
                        Progress::Waiting(FileTask { operation, path: given, clearance, stage })
                    },
                    Progress::Finished(Ok(path)) => {
                        let trace = match &operation {
                            Operation::Write { .. } => approach.trace(&path),
                            _ => None,
                        };
                        assert(begins_trace_of(operation, resolution, reply, path@, trace));
                        let stage = Stage::Bounding { path, trace, root };
                        Progress::Waiting(FileTask { operation, path: given, clearance, stage })
                    },
                    Progress::Finished(Err(e)) => Progress::Finished(Err(e)),
                }
            },
            Stage::Bounding { path, trace, root } => {
                let canonical = match reply {
                    Reply::Path(p) => Some(p),
                    _ => None,
                };
                let known = canonical.is_some();
                let in_force = canonicalize_workspace_root(root.as_slice(), canonical);
                if let Err(e) = validate_workspace_boundary(path.as_slice(), in_force.as_slice()) {
                    return Progress::Finished(Err(e));
                }
                match trace {
                    None => FileTask::enter(operation, given, in_force, path),
                    Some(trace) => {
                        let stage = if known {
                            let bounds = bytes_of(in_force.as_slice(), 0, in_force.len());
                            assert(bounds@ =~= in_force@);
                            Stage::Tracing { path, trace, root: in_force, bounds, known }
                        } else {
                            let way = Trace::climbing(&root);
                            Stage::Rooting { path, trace, root: in_force, way }
                        };
                        Progress::Waiting(FileTask { operation, path: given, clearance, stage })
                    },
                }
            },
            Stage::Rooting { path, trace, root, way } => match way.step(reply) {
                Progress::Waiting(way) => {
                    let stage = Stage::Rooting { path, trace, root, way };
                    Progress::Waiting(FileTask { operation, path: given, clearance, stage })
                },
                Progress::Finished(traced) => {
                    let bounds = match traced {
                        Traced::Landed { end, .. } => end,
                        Traced::Lost => {
                            let same = bytes_of(root.as_slice(), 0, root.len());
                            assert(same@ =~= root@);
                            same
                        },
                    };
                    let stage = Stage::Tracing { path, trace, root, bounds, known: false };
                    Progress::Waiting(FileTask { operation, path: given, clearance, stage })
                },
            },
            Stage::Tracing { path, trace, root, bounds, known } => match trace.step(reply) {
                Progress::Waiting(trace) => {
                    let stage = Stage::Tracing { path, trace, root, bounds, known };
                    Progress::Waiting(FileTask { operation, path: given, clearance, stage })
                },
                Progress::Finished(Traced::Landed { end, met }) => {
                    match hold_within(&end, &met, &bounds, known) {
                        Err(e) => Progress::Finished(Err(e)),
                        Ok(()) => FileTask::enter(operation, given, root, path),
                    }
                },
                Progress::Finished(Traced::Lost) => match FileTask::excess(&operation) {
                    Some(size) => Progress::Finished(Err(FileError::ContentTooLarge { size })),
                    None => Progress::Finished(Err(FileError::Host)),
                },
            },
            Stage::Locating { resolution } => match resolution.step(reply) {
                Progress::Waiting(resolution) => {
                    let stage = Stage::Locating { resolution };
                    Progress::Waiting(FileTask { operation, path: given, clearance, stage })
                },
                Progress::Finished(Err(e)) => Progress::Finished(Err(e)),
                Progress::Finished(Ok(path)) => {
                    let next = FileTask::locate(operation, given, clearance, path);
                    assert(is_located(asked, path, next));
                    next
                },
            },
            Stage::Sizing { path } => match reply {
                Reply::Size(size) => {
                    if size > MAX_READ_SIZE {
                        return Progress::Finished(Err(FileError::FileTooLarge { size }));
                    }
                    let stage = Stage::Probing { path };
                    Progress::Waiting(FileTask { operation, path: given, clearance, stage })
                },
                _ => Progress::Finished(Err(FileError::Host)),
            },
            Stage::Probing { path } => match reply {
                Reply::Bytes(head) => {
                    if is_binary_file(&head) {
                        return Progress::Finished(Err(FileError::BinaryFile));
                    }
                    let stage = Stage::Loading { path };
                    Progress::Waiting(FileTask { operation, path: given, clearance, stage })
                },
                _ => Progress::Finished(Err(FileError::Host)),
            },
            Stage::Loading { path } => {
                let next = FileTask::load(operation, given, clearance, path, reply);
                assert(is_loaded(asked, path, reply_text(reply), next));
                next
            },
            Stage::MakingDir { dir, path, content, output } => match reply {
                Reply::Done => {
                    let stage = Stage::Saving { path, content, output };
                    Progress::Waiting(FileTask { operation, path: given, clearance, stage })
                },
                _ => Progress::Finished(Err(FileError::Host)),
            },
            Stage::Saving { path, content, output } => match reply {
                Reply::Done => Progress::Finished(Ok(output)),
                _ => Progress::Finished(Err(FileError::Host)),
            },
        }
    }
}

/// What is to be done with a file, with what it speaks of taken by value.
pub ghost enum Plan {
    Read { offset: Option<usize>, limit: Option<usize> },
    Write { content: Seq<char> },
    Edit { old_string: Seq<char>, new_string: Seq<char>, replace_all: bool },
    Annotate {
        annotation: Seq<char>,
        anchor: Option<Seq<char>>,
        position: Option<Seq<char>>,
    },
}

impl View for Operation {
    type V = Plan;

    open spec fn view(&self) -> Plan {
        match *self {
            Operation::Read { offset, limit } => Plan::Read { offset, limit },
            Operation::Write { content } => Plan::Write { content: content@ },
            Operation::Edit { old_string, new_string, replace_all } => Plan::Edit {
                old_string: old_string@,
                new_string: new_string@,
                replace_all,
            },
            Operation::Annotate { annotation, anchor, position } => Plan::Annotate {
                annotation: annotation@,
                anchor: string_option(anchor),
                position: string_option(position),
            },
        }
    }
}

/// How an operation begins where there is no workspace: a write of too much content is
/// refused, and else the path is resolved.
pub open spec fn begins_free(plan: Plan, path: Seq<char>, next: FileProgress) -> bool {
    match plan {
        Plan::Write { content } if byte_len(content) > MAX_WRITE_SIZE => next matches Progress::Finished(
            Err(FileError::ContentTooLarge { size }),
        ) && size == byte_len(content),
        _ => {
            &&& next matches Progress::Waiting(t)
            &&& t.operation@ == plan
            &&& t.path@ == path
            &&& t.clearance is Free
            &&& t.stage matches Stage::Locating { resolution }
            &&& begins_resolution(resolution, encode_utf8(path), plan is Write)
        },
    }
}

/// How an operation begins in a workspace: the path is resolved so that it can be held
/// against the root.
pub open spec fn begins_guarded(
    plan: Plan,
    path: Seq<char>,
    workspace_root: Seq<u8>,
    next: FileProgress,
) -> bool {
    &&& next matches Progress::Waiting(t)
    &&& t.operation@ == plan
    &&& t.path@ == path
    &&& t.clearance is Pending
    &&& t.stage matches Stage::Guarding { resolution, root }
    &&& root@ == workspace_root
    &&& begins_resolution(resolution, encode_utf8(path), plan is Write)
}

impl FileTask {
    /// Begins an operation where there is no workspace.
    fn begin(operation: Operation, path: &str) -> (next: FileProgress)
        ensures
            begins_free(operation@, path@, next),
    {
        if let Some(size) = FileTask::excess(&operation) {
            return Progress::Finished(Err(FileError::ContentTooLarge { size }));
        }
        let resolution = match &operation {
            Operation::Write { .. } => normalize_path_allow_missing(path),
            _ => normalize_path(path),
        };
        let stage = Stage::Locating { resolution };
        Progress::Waiting(
            FileTask { operation, path: path.to_owned(), clearance: Clearance::Free, stage },
        )
    }

    /// Begins an operation in a workspace.
    fn begin_in_workspace(
        operation: Operation,
        path: &str,
        workspace_root: &[u8],
    ) -> (next: FileProgress)
        ensures
            begins_guarded(operation@, path@, workspace_root@, next),
    {
        let root = bytes_of(workspace_root, 0, workspace_root.len());
        assert(root@ =~= workspace_root@);
        let resolution = match &operation {
            Operation::Write { .. } => normalize_path_allow_missing(path),
            _ => normalize_path(path),
        };
        let stage = Stage::Guarding { resolution, root };
        Progress::Waiting(
            FileTask { operation, path: path.to_owned(), clearance: Clearance::Pending, stage },
        )
    }
}

/// Reads a text file and returns a line-windowed payload.
pub fn read_file(path: &str, offset: Option<usize>, limit: Option<usize>) -> (next: FileProgress)
    ensures
        begins_free(Plan::Read { offset, limit }, path@, next),
{
    FileTask::begin(Operation::Read { offset, limit }, path)
}

/// Replaces a file's contents and returns patch metadata.
pub fn write_file(path: &str, content: &str) -> (next: FileProgress)
    ensures
        begins_free(Plan::Write { content: content@ }, path@, next),
{
    FileTask::begin(Operation::Write { content: content.to_owned() }, path)
}

/// The edit of a file, as it is asked for.
fn edit_operation(old_string: &str, new_string: &str, replace_all: bool) -> (r: Operation)
    ensures
        r@ == (Plan::Edit { old_string: old_string@, new_string: new_string@, replace_all }),
{
    Operation::Edit {
        old_string: old_string.to_owned(),
        new_string: new_string.to_owned(),
        replace_all,
    }
}

/// Performs an in-file string replacement and returns patch metadata.
pub fn edit_file(path: &str, old_string: &str, new_string: &str, replace_all: bool) -> (next:
    FileProgress)
    ensures
        begins_free(
            Plan::Edit { old_string: old_string@, new_string: new_string@, replace_all },
            path@,
            next,
        ),
{
    FileTask::begin(edit_operation(old_string, new_string, replace_all), path)
}

/// An optional text as an optional string.
fn owned(t: Option<&str>) -> (r: Option<String>)
    ensures
        string_option(r) == text_option(t),
{
    match t {
        Some(s) => Some(s.to_owned()),
        None => None,
    }
}

/// The annotation of a file, as it is asked for.
fn annotate_operation(annotation: &str, anchor: Option<&str>, position: Option<&str>) -> (r:
    Operation)
    ensures
        r@ == (Plan::Annotate {
            annotation: annotation@,
            anchor: text_option(anchor),
            position: text_option(position),
        }),
{
    Operation::Annotate {
        annotation: annotation.to_owned(),
        anchor: owned(anchor),
        position: owned(position),
    }
}

/// Inserts an annotation block into a Markdown file without modifying existing text.
pub fn annotate_markdown(
    path: &str,
    annotation: &str,
    anchor: Option<&str>,
    position: Option<&str>,
) -> (next: FileProgress)
    ensures
        begins_free(
            Plan::Annotate {
                annotation: annotation@,
                anchor: text_option(anchor),
                position: text_option(position),
            },
            path@,
            next,
        ),
{
    FileTask::begin(annotate_operation(annotation, anchor, position), path)
}

/// Reads a file with workspace boundary enforcement.
pub fn read_file_in_workspace(
    path: &str,
    offset: Option<usize>,
    limit: Option<usize>,
    workspace_root: &[u8],
) -> (next: FileProgress)
    ensures
        begins_guarded(
            Plan::Read { offset, limit },
            path@,
            workspace_root@,
            next,
        ),
{
    FileTask::begin_in_workspace(Operation::Read { offset, limit }, path, workspace_root)
}

/// Writes a file with workspace boundary enforcement.
pub fn write_file_in_workspace(
    path: &str,
    content: &str,
    workspace_root: &[u8],
) -> (next: FileProgress)
    ensures
        begins_guarded(
            Plan::Write { content: content@ },
            path@,
            workspace_root@,
            next,
        ),
{
    let operation = Operation::Write { content: content.to_owned() };
    FileTask::begin_in_workspace(operation, path, workspace_root)
}

/// Edits a file with workspace boundary enforcement.
pub fn edit_file_in_workspace(
    path: &str,
    old_string: &str,
    new_string: &str,
    replace_all: bool,
    workspace_root: &[u8],
) -> (next: FileProgress)
    ensures
        begins_guarded(
            Plan::Edit { old_string: old_string@, new_string: new_string@, replace_all },
            path@,
            workspace_root@,
            next,
        ),
{
    let operation = edit_operation(old_string, new_string, replace_all);
    FileTask::begin_in_workspace(operation, path, workspace_root)
}

/// Inserts an annotation block into a Markdown file with workspace boundary
/// enforcement.
pub fn annotate_markdown_in_workspace(
    path: &str,
    annotation: &str,
    anchor: Option<&str>,
    position: Option<&str>,
    workspace_root: &[u8],
) -> (next: FileProgress)
    ensures
        begins_guarded(
            Plan::Annotate {
                annotation: annotation@,
                anchor: text_option(anchor),
                position: text_option(position),
            },
            path@,
            workspace_root@,
            next,
        ),
{
    let operation = annotate_operation(annotation, anchor, position);
    FileTask::begin_in_workspace(operation, path, workspace_root)
}

/// What stays within a workspace that exists is inside it, by whole components.
pub proof fn law_what_stays_within_is_inside(p: Seq<u8>, bounds: Seq<u8>)
    ensures
        stays_within(p, bounds, true) <==> in_workspace(p, bounds),
        stays_within(p, bounds, false) <==> in_workspace(p, bounds) || in_workspace(bounds, p),
{
}

} // verus!
