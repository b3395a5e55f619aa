//! What the operations on single files do with what the host replies, step by step: what they
//! check before they go on, what they save, and what they report.

use vstd::prelude::*;
use vstd::utf8::*;

use crate::annotate::annotated;
use crate::edit::edited;
use crate::endings::styled;
use crate::error::FileError;
use crate::files::{
    begins_free, begins_trace_of, file_goes_on, is_cleared, is_landed, is_located, law_none_strays,
    stays_within, stray, Clearance, FileOutput, FileProgress, FileTask, Operation, Plan, Stage,
};
use crate::guarantees::{saved, touched};
use crate::host::{Ask, Progress, Reply};
use crate::outputs::{AnnotateMarkdownOutput, EditFileOutput, WriteFileOutput};
use crate::paths::parent;
use crate::reports::{is_annotate_output, is_edit_output, is_read_output, is_write_output};
use crate::resolve::{resolution_goes_on, ResolutionProgress};
use crate::style::law_write_saves_content_in_style;
use crate::text::string_option;
use crate::trace::{trace_goes_on, Landing, Trace, TraceProgress};
use crate::workspace::{in_workspace, names_markdown};

verus! {

/// The operation has failed with the error.
pub open spec fn fails_with(next: FileProgress, e: FileError) -> bool {
    next == FileProgress::Finished(Err::<FileOutput, FileError>(e))
}

/// The operation waits at another stage, and is the same in all else.
pub open spec fn waits_at(t: FileTask, next: FileProgress, stage: Stage) -> bool {
    next matches Progress::Waiting(u) && u.operation == t.operation && u.path == t.path
        && u.clearance == t.clearance && u.stage == stage
}

/// What an operation asks of the host is about the file that it has come to, and about
/// nothing else: its size, its first 8192 bytes, its text, its directory, and that it hold
/// the text that is to be saved.
pub proof fn law_requests_are_about_file(t: FileTask)
    ensures
        match t.stage {
            Stage::Sizing { path } => t.ask() == Ask::FileSize(path@),
            Stage::Probing { path } => t.ask() == Ask::ReadHead(path@, 8192),
            Stage::Loading { path } => t.ask() == Ask::ReadText(path@),
            Stage::MakingDir { dir, .. } => t.ask() == Ask::CreateDirs(dir@),
            Stage::Saving { path, content, .. } => t.ask() == Ask::WriteText(path@, content@),
            _ => t.ask().is_lookup(),
        },
        touched(t.stage) == match t.stage {
            Stage::Sizing { path } => Some(path@),
            Stage::Probing { path } => Some(path@),
            Stage::Loading { path } => Some(path@),
            Stage::MakingDir { path, .. } => Some(path@),
            Stage::Saving { path, .. } => Some(path@),
            _ => None,
        },
        saved(t.stage) == match t.stage {
            Stage::MakingDir { content, .. } => Some(content@),
            Stage::Saving { content, .. } => Some(content@),
            _ => None,
        },
{
}

/// A read looks at a file before it reads it: one of more than ten mebibytes is refused, and
/// so is one whose first bytes hold a zero byte; and what it reports is the text that the
/// host gives, and no other.
pub proof fn law_read_looks_before_it_reads(t: FileTask, reply: Reply, next: FileProgress)
    requires
        file_goes_on(t, reply, next),
        t.operation is Read,
    ensures
        t.stage matches Stage::Sizing { path } ==> match reply {
            Reply::Size(n) => if n > 10 * 1024 * 1024 {
                fails_with(next, FileError::FileTooLarge { size: n })
            } else {
                waits_at(t, next, Stage::Probing { path })
            },
            _ => fails_with(next, FileError::Host),
        },
        t.stage matches Stage::Probing { path } ==> match reply {
            Reply::Bytes(head) => if exists|i: int| 0 <= i < head@.len() && #[trigger] head@[i] == 0 {
                fails_with(next, FileError::BinaryFile)
            } else {
                waits_at(t, next, Stage::Loading { path })
            },
            _ => fails_with(next, FileError::Host),
        },
        t.stage matches Stage::Loading { path } ==> match (reply, t.operation) {
            (Reply::Text(content), Operation::Read { offset, limit }) => next matches Progress::Finished(
                Ok(FileOutput::Read(o)),
            ) && is_read_output(o, path@, content@, offset, limit),
            _ => fails_with(next, FileError::Host),
        },
{
}

/// The operation is about to save `text` in the file at `path`, having made the directory
/// of the file if that is still to be done, and will then report `output`.
pub open spec fn goes_to_save(
    t: FileTask,
    next: FileProgress,
    path: Vec<u8>,
    text: Seq<char>,
    makes_dir: bool,
    output: FileOutput,
) -> bool {
    next matches Progress::Waiting(u) && u.operation == t.operation && u.path == t.path
        && u.clearance == t.clearance && match u.stage {
        Stage::MakingDir { dir, path: p, content, output: o } => makes_dir && parent(path@) == Some(
            dir@,
        ) && p == path && content@ == text && o == output,
        Stage::Saving { path: p, content, output: o } => (makes_dir ==> parent(path@) is None) && p
            == path && content@ == text && o == output,
        _ => false,
    }
}

/// A write saves what it reports, and reports what it saves. Where the host gives no text for
/// the file, that is the content itself, character for character; and else the content in the
/// style of that text. More than ten mebibytes are refused. The directory of the file is made
/// before the file is written.
pub proof fn law_write_saves_what_it_reports(t: FileTask, reply: Reply, next: FileProgress)
    requires
        file_goes_on(t, reply, next),
        t.operation is Write,
        t.stage is Loading,
    ensures
        ({
            let path = t.stage->Loading_path;
            let content = t.operation->Write_content@;
            &&& reply !is Text && encode_utf8(content).len() <= 10 * 1024 * 1024 ==> exists|
                o: WriteFileOutput,
            |
                {
                    &&& #[trigger] is_write_output(o, path@, None, content)
                    &&& o.content@ == content
                    &&& goes_to_save(t, next, path, content, true, FileOutput::Write(o))
                }
            &&& reply matches Reply::Text(was) ==> {
                let text = styled(content, Some(was@));
                if encode_utf8(text).len() > 10 * 1024 * 1024 {
                    next matches Progress::Finished(Err(FileError::StyledContentTooLarge { size }))
                        && size == encode_utf8(text).len()
                } else {
                    exists|o: WriteFileOutput|
                        {
                            &&& #[trigger] is_write_output(o, path@, Some(was@), text)
                            &&& o.content@ == text
                            &&& goes_to_save(t, next, path, text, true, FileOutput::Write(o))
                        }
                }
            }
        }),
{
    let path = t.stage->Loading_path;
    let content = t.operation->Write_content@;
    law_write_saves_content_in_style(content, None);
    if let Progress::Waiting(u) = next {
        match u.stage {
            Stage::MakingDir { output, .. } => {
                if let FileOutput::Write(o) = output {
                    assert(goes_to_save(t, next, path, saved(u.stage)->Some_0, true, output));
                    assert(o.content@ == saved(u.stage)->Some_0);
                }
            },
            Stage::Saving { output, .. } => {
                if let FileOutput::Write(o) = output {
                    assert(goes_to_save(t, next, path, saved(u.stage)->Some_0, true, output));
                    assert(o.content@ == saved(u.stage)->Some_0);
                }
            },
            _ => {},
        }
    }
}

/// An edit saves the text that comes of it, and nothing where none comes of it: a text that
/// the host does not give, two strings that are the same, and an edit that is refused end it.
pub proof fn law_edit_saves_what_comes_of_it(t: FileTask, reply: Reply, next: FileProgress)
    requires
        file_goes_on(t, reply, next),
        t.stage is Loading,
        t.operation is Edit,
    ensures
        ({
            let path = t.stage->Loading_path;
            let old = t.operation->Edit_old_string@;
            let new = t.operation->Edit_new_string@;
            let all = t.operation->Edit_replace_all;
            match reply {
                Reply::Text(was) => if old == new {
                    fails_with(next, FileError::SameStrings)
                } else {
                    match edited(was@, old, new, all) {
                        Err(e) => fails_with(next, e),
                        Ok(text) => exists|o: EditFileOutput|
                            {
                                &&& #[trigger] is_edit_output(o, path@, old, new, all, was@, text)
                                &&& goes_to_save(t, next, path, text, false, FileOutput::Edit(o))
                            },
                    }
                },
                _ => fails_with(next, FileError::Host),
            }
        }),
{
    if let Progress::Waiting(u) = next {
        if let Stage::Saving { output, content, path } = u.stage {
            if let FileOutput::Edit(o) = output {
                assert(goes_to_save(t, next, path, content@, false, output));
            }
        }
    }
}

/// An annotation saves the text that comes of it, and nothing where none comes of it: a text
/// that the host does not give, an annotation that is refused, and a text of more than ten
/// mebibytes end it.
pub proof fn law_annotation_saves_what_comes_of_it(t: FileTask, reply: Reply, next: FileProgress)
    requires
        file_goes_on(t, reply, next),
        t.stage is Loading,
        t.operation is Annotate,
    ensures
        ({
            let path = t.stage->Loading_path;
            let note = t.operation->Annotate_annotation@;
            let anchor = string_option(t.operation->Annotate_anchor);
            let position = string_option(t.operation->Annotate_position);
            match reply {
                Reply::Text(was) => match annotated(was@, note, anchor, position) {
                    Err(e) => fails_with(next, e),
                    Ok(a) => if encode_utf8(a.text).len() > 10 * 1024 * 1024 {
                        next matches Progress::Finished(
                            Err(FileError::AnnotatedFileTooLarge { size }),
                        ) && size == encode_utf8(a.text).len()
                    } else {
                        exists|o: AnnotateMarkdownOutput|
                            {
                                &&& #[trigger] is_annotate_output(
                                    o,
                                    path@,
                                    note,
                                    anchor,
                                    a.position,
                                    was@,
                                    a.text,
                                )
                                &&& goes_to_save(
                                    t,
                                    next,
                                    path,
                                    a.text,
                                    false,
                                    FileOutput::Annotate(o),
                                )
                            }
                    },
                },
                _ => fails_with(next, FileError::Host),
            }
        }),
{
    if let Progress::Waiting(u) = next {
        if let Stage::Saving { output, content, path } = u.stage {
            if let FileOutput::Annotate(o) = output {
                assert(goes_to_save(t, next, path, content@, false, output));
            }
        }
    }
}

/// What is about to be saved is saved, in the file that it was meant for, and what was to be
/// reported is reported once the host has saved it; and nothing is where the host fails.
pub proof fn law_what_is_to_be_saved_is_saved(t: FileTask, reply: Reply, next: FileProgress)
    requires
        file_goes_on(t, reply, next),
    ensures
        t.stage matches Stage::MakingDir { dir, path, content, output } ==> if reply is Done {
            waits_at(t, next, Stage::Saving { path, content, output })
        } else {
            fails_with(next, FileError::Host)
        },
        t.stage matches Stage::Saving { path, content, output } ==> if reply is Done {
            next == FileProgress::Finished(Ok::<FileOutput, FileError>(output))
        } else {
            fails_with(next, FileError::Host)
        },
{
}

/// A write of more than ten mebibytes is refused before the host is asked for anything.
pub proof fn law_large_write_is_refused_at_once(path: Seq<char>, content: Seq<char>, next: FileProgress)
    requires
        begins_free(Plan::Write { content }, path, next),
    ensures
        encode_utf8(content).len() > 10 * 1024 * 1024 ==> (next matches Progress::Finished(
            Err(FileError::ContentTooLarge { size }),
        ) && size == encode_utf8(content).len()),
        encode_utf8(content).len() <= 10 * 1024 * 1024 ==> next is Waiting,
{
}

/// The name of a file that an annotation goes to ends in `.md` or `.markdown`, in whatever
/// case; any other is refused, and is not read.
pub proof fn law_annotated_file_is_markdown(t: FileTask, reply: Reply, next: FileProgress)
    requires
        file_goes_on(t, reply, next),
        t.operation is Annotate,
        t.stage is Locating,
    ensures
        next matches Progress::Waiting(u) ==> (u.stage matches Stage::Loading { path }
            ==> names_markdown(path@)),
        next matches Progress::Waiting(u) ==> u.stage is Locating || u.stage is Loading,
        next matches Progress::Finished(r) ==> r is Err,
{
}

/// Where an operation goes once it has come to the file at `path`: a read asks for its size,
/// an annotation is refused unless the file is Markdown, and all but a read ask for its text.
pub open spec fn goes_to_file(t: FileTask, path: Vec<u8>, next: FileProgress) -> bool {
    match t.operation {
        Operation::Read { .. } => waits_at(t, next, Stage::Sizing { path }),
        Operation::Write { .. } => waits_at(t, next, Stage::Loading { path }),
        Operation::Edit { .. } => waits_at(t, next, Stage::Loading { path }),
        Operation::Annotate { .. } => if names_markdown(path@) {
            waits_at(t, next, Stage::Loading { path })
        } else {
            fails_with(next, FileError::NotMarkdown)
        },
    }
}

/// Where there is no workspace, an operation goes to the file that its path is resolved to.
pub proof fn law_free_operation_goes_to_file(t: FileTask, reply: Reply, next: FileProgress)
    requires
        file_goes_on(t, reply, next),
        t.stage is Locating,
    ensures
        exists|p: ResolutionProgress| #[trigger]
            resolution_goes_on(t.stage->Locating_resolution, reply, p) && match p {
                Progress::Waiting(r) => waits_at(t, next, Stage::Locating { resolution: r }),
                Progress::Finished(Ok(path)) => goes_to_file(t, path, next),
                Progress::Finished(Err(e)) => fails_with(next, e),
            },
{
    let p = choose|p: ResolutionProgress| #[trigger]
        resolution_goes_on(t.stage->Locating_resolution, reply, p) && match p {
            Progress::Waiting(r) => next == FileProgress::Waiting(
                t.at(Stage::Locating { resolution: r }),
            ),
            Progress::Finished(Ok(path)) => is_located(t, path, next),
            Progress::Finished(Err(e)) => next == FileProgress::Finished(Err(e)),
        };
    assert(resolution_goes_on(t.stage->Locating_resolution, reply, p));
}

/// In a workspace an operation goes to the file at `path` once that was cleared: a write of
/// more than ten mebibytes is refused first.
pub open spec fn goes_to_cleared_file(
    t: FileTask,
    root: Seq<u8>,
    path: Vec<u8>,
    next: FileProgress,
) -> bool {
    exists|w: Vec<u8>| #[trigger]
        w@ == root && {
            let cleared = FileTask { clearance: Clearance::Inside { root: w }, ..t };
            match t.operation {
                Operation::Write { content } => if encode_utf8(content@).len() > 10 * 1024 * 1024 {
                    next matches Progress::Finished(Err(FileError::ContentTooLarge { size })) && size
                        == encode_utf8(content@).len()
                } else {
                    goes_to_file(cleared, path, next)
                },
                _ => goes_to_file(cleared, path, next),
            }
        }
}

/// In a workspace, a path that does not start with the components of the root is refused
/// once the root was looked up, and an existing one that does is gone on with.
pub proof fn law_guarded_operation_is_held_against_root(
    t: FileTask,
    reply: Reply,
    next: FileProgress,
)
    requires
        file_goes_on(t, reply, next),
        t.stage is Bounding,
    ensures
        ({
            let path = t.stage->Bounding_path;
            let root = match reply {
                Reply::Path(p) => p@,
                _ => t.stage->Bounding_root@,
            };
            &&& !in_workspace(path@, root) ==> (next matches Progress::Finished(
                Err(FileError::EscapesWorkspace { path: p, root: w }),
            ) && p@ == path@ && w@ == root)
            &&& in_workspace(path@, root) && t.stage->Bounding_trace is None
                ==> goes_to_cleared_file(t, root, path, next)
            &&& in_workspace(path@, root) && t.stage->Bounding_trace is Some ==> next is Waiting
        }),
{
    let path = t.stage->Bounding_path;
    let root = match reply {
        Reply::Path(p) => p@,
        _ => t.stage->Bounding_root@,
    };
    if in_workspace(path@, root) && t.stage->Bounding_trace is None {
        let w = choose|w: Vec<u8>| #[trigger]
            w@ == root && is_cleared(
                FileTask { clearance: Clearance::Inside { root: w }, ..t },
                path,
                next,
            );
        assert(w@ == root);
    }
}

/// An operation takes no step before its time. A read reads the text of a file only once it
/// has looked at its first bytes, and these only once it has looked at its size. Nothing is
/// saved that was not read first. And all along the operation stays with the file that it
/// has come to.
pub proof fn law_operation_takes_its_steps_in_order(t: FileTask, reply: Reply, next: FileProgress)
    requires
        file_goes_on(t, reply, next),
    ensures
        next matches Progress::Waiting(u) ==> {
            &&& u.operation == t.operation
            &&& u.path == t.path
            &&& touched(t.stage) is Some ==> touched(u.stage) == touched(t.stage)
            &&& t.operation is Read && u.stage is Loading ==> t.stage is Probing
            &&& u.stage is Probing ==> t.stage is Sizing
            &&& u.stage is Sizing ==> t.operation is Read && touched(t.stage) is None
            &&& u.stage is MakingDir ==> t.stage is Loading && t.operation is Write
            &&& u.stage is Saving ==> t.stage is Loading || t.stage is MakingDir
            &&& t.stage is MakingDir ==> u.stage is Saving
            &&& t.stage !is Saving
        },
        next matches Progress::Finished(Ok(_)) ==> t.stage is Saving || (t.operation is Read
            && t.stage is Loading),
{
}

/// In a workspace, a write to a path that does not exist is let in where all that it leads to
/// and all that is missing on the way stays within the workspace, and is refused where
/// something does not, whatever else there is to say of the path. Where the path leads
/// nowhere, it fails with the host.
pub proof fn law_traced_write_is_let_in_where_it_stays_within(
    t: FileTask,
    reply: Reply,
    next: FileProgress,
)
    requires
        file_goes_on(t, reply, next),
        t.stage is Tracing,
        t.operation is Write,
    ensures
        exists|p: TraceProgress| #[trigger]
            trace_goes_on(t.stage->Tracing_trace, reply, p) && match p {
                Progress::Waiting(u) => next matches Progress::Waiting(v) && v.operation
                    == t.operation && v.clearance == t.clearance && v.stage is Tracing
                    && v.stage->Tracing_trace == u && v.stage->Tracing_path
                    == t.stage->Tracing_path && v.stage->Tracing_root == t.stage->Tracing_root
                    && v.stage->Tracing_bounds == t.stage->Tracing_bounds
                    && v.stage->Tracing_known == t.stage->Tracing_known,
                Progress::Finished(l) => match l@ {
                    Landing::At(end, met) => if stays_within(
                        end,
                        t.stage->Tracing_bounds@,
                        t.stage->Tracing_known,
                    ) && all_stay_within(
                        met,
                        t.stage->Tracing_bounds@,
                        t.stage->Tracing_known,
                    ) {
                        goes_to_cleared_file(
                            t,
                            t.stage->Tracing_root@,
                            t.stage->Tracing_path,
                            next,
                        )
                    } else {
                        next matches Progress::Finished(Err(FileError::EscapesWorkspace { .. }))
                    },
                    Landing::Lost => if encode_utf8(t.operation->Write_content@).len() > 10 * 1024
                        * 1024 {
                        next matches Progress::Finished(Err(FileError::ContentTooLarge { .. }))
                    } else {
                        fails_with(next, FileError::Host)
                    },
                },
            },
{
    let path = t.stage->Tracing_path;
    let trace = t.stage->Tracing_trace;
    let root = t.stage->Tracing_root;
    let bounds = t.stage->Tracing_bounds;
    let known = t.stage->Tracing_known;
    let p = choose|p: TraceProgress| #[trigger]
        trace_goes_on(trace, reply, p) && match p {
            Progress::Waiting(u) => next == FileProgress::Waiting(
                t.at(Stage::Tracing { path, trace: u, root, bounds, known }),
            ),
            Progress::Finished(l) => is_landed(t, path, root@, bounds@, known, l@, next),
        };
    assert(trace_goes_on(t.stage->Tracing_trace, reply, p));
    if let Progress::Finished(l) = p {
        if let Landing::At(end, met) = l@ {
            let all = seq![end] + met;
            law_none_strays(all, bounds@, known);
            assert(all[0] == end);
            if stays_within(end, bounds@, known) && all_stay_within(met, bounds@, known) {
                assert forall|i: int| 0 <= i < all.len() implies stays_within(
                    #[trigger] all[i],
                    bounds@,
                    known,
                ) by {
                    if i > 0 {
                        assert(all[i] == met[i - 1]);
                    }
                }
                let w = choose|w: Vec<u8>| #[trigger]
                    w@ == root@ && is_cleared(
                        FileTask { clearance: Clearance::Inside { root: w }, ..t },
                        path,
                        next,
                    );
                assert(w@ == root@);
            } else {
                if stray(all, bounds@, known) is None {
                    assert forall|i: int| 0 <= i < met.len() implies stays_within(
                        #[trigger] met[i],
                        bounds@,
                        known,
                    ) by {
                        assert(all[i + 1] == met[i]);
                    }
                }
            }
        }
    }
}

/// All of the paths stay within the workspace.
pub open spec fn all_stay_within(paths: Seq<Seq<u8>>, bounds: Seq<u8>, known: bool) -> bool {
    forall|i: int| 0 <= i < paths.len() ==> stays_within(#[trigger] paths[i], bounds, known)
}

/// In a workspace, an operation resolves its path as it would without one, and then looks up
/// the root that it was given, whatever the path is.
pub proof fn law_guarded_operation_resolves_its_path(t: FileTask, reply: Reply, next: FileProgress)
    requires
        file_goes_on(t, reply, next),
        t.stage is Guarding,
    ensures
        exists|p: ResolutionProgress| #[trigger]
            resolution_goes_on(t.stage->Guarding_resolution, reply, p) && match p {
                Progress::Waiting(r) => waits_at(
                    t,
                    next,
                    Stage::Guarding { resolution: r, root: t.stage->Guarding_root },
                ),
                Progress::Finished(Ok(path)) => next matches Progress::Waiting(u) && u.operation
                    == t.operation && u.clearance == t.clearance && u.stage is Bounding
                    && u.stage->Bounding_path == path && u.stage->Bounding_root
                    == t.stage->Guarding_root && (t.operation !is Write ==> u.stage->Bounding_trace is None),
                Progress::Finished(Err(e)) => fails_with(next, e),
            },
{
    let resolution = t.stage->Guarding_resolution;
    let root = t.stage->Guarding_root;
    let p = choose|p: ResolutionProgress| #[trigger]
        resolution_goes_on(resolution, reply, p) && match p {
            Progress::Waiting(r) => next == FileProgress::Waiting(
                t.at(Stage::Guarding { resolution: r, root }),
            ),
            Progress::Finished(Ok(path)) => exists|trace: Option<Trace>| #[trigger]
                begins_trace_of(t.operation, resolution, reply, path@, trace) && next
                    == FileProgress::Waiting(t.at(Stage::Bounding { path, trace, root })),
            Progress::Finished(Err(e)) => next == FileProgress::Finished(Err(e)),
        };
    assert(resolution_goes_on(t.stage->Guarding_resolution, reply, p));
}

} // verus!
