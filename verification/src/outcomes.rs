//! What comes of the operations on single files: the result of each, from beginning to
//! end, on a host whose files stay as they are until the operation writes.

use vstd::prelude::*;
use vstd::utf8::*;

use crate::annotate::annotated;
use crate::confinement::steady_root;
use crate::edit::edited;
use crate::endings::styled;
use crate::error::{FileError, MAX_READ_SIZE, MAX_WRITE_SIZE};
use crate::files::{
    begins_free, begins_guarded, bounds_of, file_goes_on, stays_within, stray, FileOutput,
    FileProgress, FileTask, Plan, Stage,
};
use crate::guarantees::{
    destination, follows, is_held, landing, law_operation_begins_at_path,
    law_operation_follows_path, law_operation_stays_held, law_touched_file_lies_in_workspace,
    lemma_resolution_keeps_outcome, lemma_trace_keeps_outcome, saved, steady_bounds, touched,
};
use crate::host::{reply_text, Ask, Progress, Reply, SteadyHost};
use crate::lines::joined;
use crate::outputs::ReadFileOutput;
use crate::paths::{byte_texts, parent};
use crate::reports::{
    first_line, is_annotate_output, is_edit_output, is_read_output, is_write_output, last_line,
    looks_binary,
};
use crate::resolve::target;
use crate::style::{law_write_keeps_lines, written_lines};
use crate::text::byte_len;
use crate::trace::{all_grounded, is_grounded, is_resolved, Landing, Trace};
use crate::workspace::{in_workspace, is_escape, names_markdown};

verus! {

/// A host as an operation finds it.
pub ghost struct World {
    pub names: SteadyHost,
    /// The size of the file at a path.
    pub size: spec_fn(Seq<u8>) -> Option<u64>,
    /// The first bytes of the file at a path.
    pub head: spec_fn(Seq<u8>) -> Option<Seq<u8>>,
    /// The text of the file at a path.
    pub text: spec_fn(Seq<u8>) -> Option<Seq<char>>,
    /// The directory can be made, or is there.
    pub makes_dir: spec_fn(Seq<u8>) -> bool,
    /// The file at a path can be written.
    pub writes: spec_fn(Seq<u8>) -> bool,
}

impl World {
    /// The host gives this reply.
    pub open spec fn gives(self, ask: Ask, reply: Reply) -> bool {
        match ask {
            Ask::FileSize(p) => match reply {
                Reply::Size(n) => (self.size)(p) == Some(n),
                _ => (self.size)(p) is None,
            },
            Ask::ReadHead(p, _) => match reply {
                Reply::Bytes(b) => (self.head)(p) == Some(b@),
                _ => (self.head)(p) is None,
            },
            Ask::ReadText(p) => reply_text(reply) == (self.text)(p),
            Ask::CreateDirs(p) => reply is Done <==> (self.makes_dir)(p),
            Ask::WriteText(p, _) => reply is Done <==> (self.writes)(p),
            _ => self.names.gives(ask, reply),
        }
    }
}

/// What comes of an operation.
pub type Outcome = Result<FileOutput, FileError>;

/// What comes of saving a text in the file at `p`.
pub open spec fn comes_of_saving(p: Seq<u8>, world: World, output: FileOutput, r: Outcome) -> bool {
    if (world.writes)(p) {
        r == Outcome::Ok(output)
    } else {
        r == Outcome::Err(FileError::Host)
    }
}

/// What comes of saving a text in the file at `p`, where the report is one of those that
/// `reports` says.
pub open spec fn comes_of_report(
    p: Seq<u8>,
    world: World,
    reports: spec_fn(FileOutput) -> bool,
    r: Outcome,
) -> bool {
    if (world.writes)(p) {
        r matches Ok(output) && reports(output)
    } else {
        r == Outcome::Err(FileError::Host)
    }
}

/// What comes of an operation on the file at `p` once the text of the file is asked for.
pub open spec fn comes_of_text(plan: Plan, p: Seq<u8>, world: World, r: Outcome) -> bool {
    match plan {
        Plan::Read { offset, limit } => match (world.text)(p) {
            None => r == Outcome::Err(FileError::Host),
            Some(content) => r matches Ok(FileOutput::Read(o)) && is_read_output(
                o,
                p,
                content,
                offset,
                limit,
            ),
        },
        Plan::Write { content } => {
            let original = (world.text)(p);
            let text = styled(content, original);
            if byte_len(text) > MAX_WRITE_SIZE {
                r matches Err(FileError::StyledContentTooLarge { size }) && size == byte_len(text)
            } else if parent(p) matches Some(dir) && !(world.makes_dir)(dir) {
                r == Outcome::Err(FileError::Host)
            } else {
                comes_of_report(
                    p,
                    world,
                    |o: FileOutput|
                        o matches FileOutput::Write(w) && is_write_output(w, p, original, text),
                    r,
                )
            }
        },
        Plan::Edit { old_string, new_string, replace_all } => match (world.text)(p) {
            None => r == Outcome::Err(FileError::Host),
            Some(original) => if old_string == new_string {
                r == Outcome::Err(FileError::SameStrings)
            } else {
                match edited(original, old_string, new_string, replace_all) {
                    Err(e) => r == Outcome::Err(e),
                    Ok(updated) => comes_of_report(
                        p,
                        world,
                        |o: FileOutput|
                            o matches FileOutput::Edit(w) && is_edit_output(
                                w,
                                p,
                                old_string,
                                new_string,
                                replace_all,
                                original,
                                updated,
                            ),
                        r,
                    ),
                }
            },
        },
        Plan::Annotate { annotation, anchor, position } => match (world.text)(p) {
            None => r == Outcome::Err(FileError::Host),
            Some(original) => match annotated(original, annotation, anchor, position) {
                Err(e) => r == Outcome::Err(e),
                Ok(a) => if byte_len(a.text) > MAX_WRITE_SIZE {
                    r matches Err(FileError::AnnotatedFileTooLarge { size }) && size == byte_len(
                        a.text,
                    )
                } else {
                    comes_of_report(
                        p,
                        world,
                        |o: FileOutput|
                            o matches FileOutput::Annotate(w) && is_annotate_output(
                                w,
                                p,
                                annotation,
                                anchor,
                                a.position,
                                original,
                                a.text,
                            ),
                        r,
                    )
                },
            },
        },
    }
}

/// What comes of an operation on the file at `p` once its first bytes are asked for.
pub open spec fn comes_of_head(plan: Plan, p: Seq<u8>, world: World, r: Outcome) -> bool {
    match (world.head)(p) {
        None => r == Outcome::Err(FileError::Host),
        Some(head) => if looks_binary(head) {
            r == Outcome::Err(FileError::BinaryFile)
        } else {
            comes_of_text(plan, p, world, r)
        },
    }
}

/// What comes of an operation on the file at `p` once its size is asked for.
pub open spec fn comes_of_size(plan: Plan, p: Seq<u8>, world: World, r: Outcome) -> bool {
    match (world.size)(p) {
        None => r == Outcome::Err(FileError::Host),
        Some(size) => if size > MAX_READ_SIZE {
            r == Outcome::Err(FileError::FileTooLarge { size })
        } else {
            comes_of_head(plan, p, world, r)
        },
    }
}

/// What comes of an operation once its path is resolved: a read looks at the size and
/// the first bytes of the file before it reads the text, and an annotation is for
/// Markdown files alone.
pub open spec fn comes_of_path(
    plan: Plan,
    destination: Option<Seq<u8>>,
    world: World,
    r: Outcome,
) -> bool {
    match destination {
        None => r == Outcome::Err(FileError::Host),
        Some(p) => if plan is Read {
            comes_of_size(plan, p, world, r)
        } else if plan is Annotate && !names_markdown(p) {
            r == Outcome::Err(FileError::NotMarkdown)
        } else {
            comes_of_text(plan, p, world, r)
        },
    }
}

/// What comes of an operation where there is no workspace.
pub open spec fn comes_of_operation(plan: Plan, path: Seq<char>, world: World, r: Outcome) -> bool {
    match plan {
        Plan::Write { content } if byte_len(content) > MAX_WRITE_SIZE => r matches Err(
            FileError::ContentTooLarge { size },
        ) && size == byte_len(content),
        _ => comes_of_path(
            plan,
            target(world.names, encode_utf8(path), plan is Write),
            world,
            r,
        ),
    }
}

/// What comes of an operation in a workspace once its path was found to be `p`, which lies
/// in the workspace and leads into it.
pub open spec fn comes_of_cleared(plan: Plan, p: Seq<u8>, world: World, r: Outcome) -> bool {
    match plan {
        Plan::Write { content } if byte_len(content) > MAX_WRITE_SIZE => r matches Err(
            FileError::ContentTooLarge { size },
        ) && size == byte_len(content),
        _ => comes_of_path(plan, Some(p), world, r),
    }
}

/// What comes of an operation in a workspace whose path is `p`, does not exist, and leads
/// where `l` says: it is refused where that, or anything that is missing on the way, does
/// not stay within the workspace, and it fails with the host where the path leads nowhere.
pub open spec fn comes_of_landing(
    plan: Plan,
    p: Seq<u8>,
    bounds: Seq<u8>,
    known: bool,
    l: Landing,
    world: World,
    r: Outcome,
) -> bool {
    match l {
        Landing::At(end, met) => match stray(seq![end] + met, bounds, known) {
            None => comes_of_cleared(plan, p, world, r),
            Some(q) => r matches Err(e) && is_escape(e, q, bounds),
        },
        Landing::Lost => match plan {
            Plan::Write { content } if byte_len(content) > MAX_WRITE_SIZE => r matches Err(
                FileError::ContentTooLarge { size },
            ) && size == byte_len(content),
            _ => r == Outcome::Err(FileError::Host),
        },
    }
}

/// What comes of an operation in a workspace whose path is `p`: it is refused where that
/// does not lie in the workspace; and where the path does not exist, by where it leads.
pub open spec fn comes_of_bounding(
    plan: Plan,
    p: Seq<u8>,
    lands: Option<Landing>,
    root: Seq<u8>,
    world: World,
    r: Outcome,
) -> bool {
    let in_force = steady_root(root, world.names);
    if !in_workspace(p, in_force) {
        r matches Err(e) && is_escape(e, p, in_force)
    } else {
        match lands {
            None => comes_of_cleared(plan, p, world, r),
            Some(l) => comes_of_landing(
                plan,
                p,
                steady_bounds(root, world.names),
                (world.names.canonical)(root) is Some,
                l,
                world,
                r,
            ),
        }
    }
}

/// What comes of an operation in a workspace: it fails with the host where its path comes
/// to nothing, is refused where the path does not lie in the workspace or does not lead
/// into it, and else goes on as it does where there is no workspace.
pub open spec fn comes_of_guarded(
    plan: Plan,
    path: Seq<char>,
    root: Seq<u8>,
    world: World,
    r: Outcome,
) -> bool {
    match target(world.names, encode_utf8(path), plan is Write) {
        None => r == Outcome::Err(FileError::Host),
        Some(p) => comes_of_bounding(
            plan,
            p,
            landing(plan, path, world.names),
            root,
            world,
            r,
        ),
    }
}

/// What comes of an operation that has come to a stage.
pub open spec fn comes_of_task(t: FileTask, world: World, r: Outcome) -> bool {
    let plan = t.operation@;
    match t.stage {
        Stage::Guarding { root, .. } => comes_of_guarded(plan, t.path@, root@, world, r),
        Stage::Bounding { path, root, .. } => comes_of_bounding(
            plan,
            path@,
            landing(plan, t.path@, world.names),
            root@,
            world,
            r,
        ),
        Stage::Rooting { path, trace, root, way } => comes_of_landing(
            plan,
            path@,
            bounds_of(root@, way.outcome(world.names)),
            false,
            trace.outcome(world.names),
            world,
            r,
        ),
        Stage::Tracing { path, trace, bounds, known, .. } => comes_of_landing(
            plan,
            path@,
            bounds@,
            known,
            trace.outcome(world.names),
            world,
            r,
        ),
        Stage::Locating { .. } => comes_of_path(plan, destination(t, world.names), world, r),
        Stage::Sizing { path } => comes_of_size(plan, path@, world, r),
        Stage::Probing { path } => comes_of_head(plan, path@, world, r),
        Stage::Loading { path } => comes_of_text(plan, path@, world, r),
        Stage::MakingDir { dir, path, output, .. } => if (world.makes_dir)(dir@) {
            comes_of_saving(path@, world, output, r)
        } else {
            r == Outcome::Err(FileError::Host)
        },
        Stage::Saving { path, output, .. } => comes_of_saving(path@, world, output, r),
    }
}

/// An operation comes to what its beginning promises: whatever comes of it later is what
/// comes of the operation as it was asked for.
pub proof fn law_operation_begins_its_outcome(
    plan: Plan,
    path: Seq<char>,
    root: Seq<u8>,
    next: FileProgress,
    world: World,
)
    ensures
        begins_free(plan, path, next) ==> match next {
            Progress::Finished(r) => comes_of_operation(plan, path, world, r),
            Progress::Waiting(t) => forall|r: Outcome| #[trigger]
                comes_of_task(t, world, r) ==> comes_of_operation(plan, path, world, r),
        },
        begins_guarded(plan, path, root, next) ==> match next {
            Progress::Finished(r) => false,
            Progress::Waiting(t) => forall|r: Outcome| #[trigger]
                comes_of_task(t, world, r) ==> comes_of_guarded(
                    plan,
                    path,
                    root,
                    world,
                    r,
                ),
        },
{
}

/// Going on with `next`, an operation keeps to its outcome: when it finishes, it is with
/// what comes of it; as long as it waits, whatever comes of it later is what comes of it
/// now.
pub open spec fn keeps_to_outcome(t: FileTask, next: FileProgress, world: World) -> bool {
    match next {
        Progress::Finished(r) => comes_of_task(t, world, r),
        Progress::Waiting(u) => forall|r: Outcome| #[trigger]
            comes_of_task(u, world, r) ==> comes_of_task(t, world, r),
    }
}

/// An operation keeps to its outcome as long as its path is resolved.
proof fn lemma_lookup_keeps_outcome(
    t: FileTask,
    reply: Reply,
    next: FileProgress,
    world: World,
)
    requires
        follows(t, world.names),
        world.gives(t.ask(), reply),
        file_goes_on(t, reply, next),
        t.stage is Guarding || t.stage is Locating,
    ensures
        keeps_to_outcome(t, next, world),
{
    match t.stage {
        Stage::Guarding { resolution, .. } => {
            lemma_resolution_keeps_outcome(resolution, reply, world.names);
        },
        Stage::Locating { resolution } => {
            lemma_resolution_keeps_outcome(resolution, reply, world.names);
        },
        _ => {},
    }
}

/// An operation keeps to its outcome when its path is held against the workspace.
proof fn lemma_bound_keeps_outcome(t: FileTask, reply: Reply, next: FileProgress, world: World)
    requires
        follows(t, world.names),
        world.gives(t.ask(), reply),
        file_goes_on(t, reply, next),
        t.stage is Bounding,
    ensures
        keeps_to_outcome(t, next, world),
{
    if let Progress::Waiting(u) = next {
        if let Stage::Rooting { way, .. } = u.stage {
            if let Trace::Climbing { rest, .. } = way {
                assert(byte_texts(rest@) =~= seq![]);
            }
        }
    }
}

/// An operation keeps to its outcome as long as its path is traced.
proof fn lemma_trace_keeps_to_outcome(t: FileTask, reply: Reply, next: FileProgress, world: World)
    requires
        follows(t, world.names),
        world.gives(t.ask(), reply),
        file_goes_on(t, reply, next),
        t.stage is Rooting || t.stage is Tracing,
    ensures
        keeps_to_outcome(t, next, world),
{
    match t.stage {
        Stage::Rooting { way, .. } => {
            lemma_trace_keeps_outcome(way, reply, world.names);
        },
        Stage::Tracing { trace, .. } => {
            lemma_trace_keeps_outcome(trace, reply, world.names);
        },
        _ => {},
    }
}

/// An operation keeps to its outcome when the text of the file is known.
proof fn lemma_text_keeps_outcome(t: FileTask, reply: Reply, next: FileProgress, world: World)
    requires
        world.gives(t.ask(), reply),
        file_goes_on(t, reply, next),
        t.stage is Loading,
    ensures
        keeps_to_outcome(t, next, world),
{
}

/// With every reply of a steady host an operation keeps to its outcome: when it finishes,
/// it is with what comes of it; as long as it waits, whatever comes of it later is what
/// comes of it now.
pub proof fn law_operation_keeps_to_its_outcome(
    t: FileTask,
    reply: Reply,
    next: FileProgress,
    world: World,
)
    requires
        follows(t, world.names),
        world.gives(t.ask(), reply),
        file_goes_on(t, reply, next),
    ensures
        keeps_to_outcome(t, next, world),
        next matches Progress::Waiting(u) ==> follows(u, world.names),
{
    assert(next matches Progress::Waiting(u) ==> follows(u, world.names)) by {
        if world.names.gives(t.ask(), reply) {
            law_operation_follows_path(t, reply, next, world.names);
        }
    }
    match t.stage {
        Stage::Guarding { .. } => {
            lemma_lookup_keeps_outcome(t, reply, next, world);
        },
        Stage::Rooting { .. } => {
            lemma_trace_keeps_to_outcome(t, reply, next, world);
        },
        Stage::Tracing { .. } => {
            lemma_trace_keeps_to_outcome(t, reply, next, world);
        },
        Stage::Locating { .. } => {
            lemma_lookup_keeps_outcome(t, reply, next, world);
        },
        Stage::Bounding { .. } => {
            lemma_bound_keeps_outcome(t, reply, next, world);
        },
        Stage::Loading { .. } => {
            lemma_text_keeps_outcome(t, reply, next, world);
        },
        _ => {},
    }
}

/// In a run, the host gives the reply that the `i`th task asks for, and the task goes on
/// to the next one.
pub open spec fn goes_on_at(
    tasks: Seq<FileTask>,
    replies: Seq<Reply>,
    r: Outcome,
    world: World,
    i: int,
) -> bool {
    let next = if i + 1 < tasks.len() {
        FileProgress::Waiting(tasks[i + 1])
    } else {
        FileProgress::Finished(r)
    };
    world.gives(tasks[i].ask(), replies[i]) && file_goes_on(tasks[i], replies[i], next)
}

/// An operation runs through `tasks` on a host that gives `replies`, and comes to `r`.
pub open spec fn is_run(
    tasks: Seq<FileTask>,
    replies: Seq<Reply>,
    r: Outcome,
    world: World,
) -> bool {
    &&& tasks.len() > 0
    &&& replies.len() == tasks.len()
    &&& forall|i: int| 0 <= i < tasks.len() ==> #[trigger] goes_on_at(tasks, replies, r, world, i)
}

/// In a run, an operation follows its path all along.
proof fn lemma_run_follows(
    tasks: Seq<FileTask>,
    replies: Seq<Reply>,
    r: Outcome,
    world: World,
    i: int,
)
    requires
        is_run(tasks, replies, r, world),
        follows(tasks[0], world.names),
        0 <= i < tasks.len(),
    ensures
        follows(tasks[i], world.names),
    decreases i,
{
    if i > 0 {
        lemma_run_follows(tasks, replies, r, world, i - 1);
        assert(goes_on_at(tasks, replies, r, world, i - 1));
        law_operation_keeps_to_its_outcome(
            tasks[i - 1],
            replies[i - 1],
            FileProgress::Waiting(tasks[i]),
            world,
        );
    }
}

/// What a run comes to is what comes of each of its tasks.
proof fn lemma_run_keeps_outcome(
    tasks: Seq<FileTask>,
    replies: Seq<Reply>,
    r: Outcome,
    world: World,
    i: int,
)
    requires
        is_run(tasks, replies, r, world),
        follows(tasks[0], world.names),
        0 <= i < tasks.len(),
    ensures
        comes_of_task(tasks[i], world, r),
    decreases tasks.len() - i,
{
    lemma_run_follows(tasks, replies, r, world, i);
    assert(goes_on_at(tasks, replies, r, world, i));
    if i + 1 < tasks.len() {
        lemma_run_keeps_outcome(tasks, replies, r, world, i + 1);
        law_operation_keeps_to_its_outcome(
            tasks[i],
            replies[i],
            FileProgress::Waiting(tasks[i + 1]),
            world,
        );
    } else {
        law_operation_keeps_to_its_outcome(tasks[i], replies[i], FileProgress::Finished(r), world);
    }
}

/// However an operation runs where there is no workspace, it comes to what comes of it.
pub proof fn law_run_comes_to_outcome(
    plan: Plan,
    path: Seq<char>,
    tasks: Seq<FileTask>,
    replies: Seq<Reply>,
    r: Outcome,
    world: World,
)
    requires
        is_run(tasks, replies, r, world),
        begins_free(plan, path, FileProgress::Waiting(tasks[0])),
    ensures
        comes_of_operation(plan, path, world, r),
{
    let first = FileProgress::Waiting(tasks[0]);
    let nowhere = Seq::<u8>::empty();
    law_operation_begins_at_path(plan, path, nowhere, first, world.names);
    law_operation_begins_its_outcome(plan, path, nowhere, first, world);
    lemma_run_keeps_outcome(tasks, replies, r, world, 0);
}

/// However an operation runs in a workspace, it comes to what comes of it there. Every
/// file that it touches lies in the workspace by its name, and leads into it.
pub proof fn law_guarded_run_comes_to_outcome(
    plan: Plan,
    path: Seq<char>,
    root: Seq<u8>,
    tasks: Seq<FileTask>,
    replies: Seq<Reply>,
    r: Outcome,
    world: World,
)
    requires
        is_run(tasks, replies, r, world),
        begins_guarded(plan, path, root, FileProgress::Waiting(tasks[0])),
    ensures
        comes_of_guarded(plan, path, root, world, r),
        forall|i: int|
            0 <= i < tasks.len() ==> (touched((#[trigger] tasks[i]).stage) matches Some(p)
                ==> touches_inside(tasks[i], p, root, world.names)),
{
    let first = FileProgress::Waiting(tasks[0]);
    law_operation_begins_at_path(plan, path, root, first, world.names);
    law_operation_begins_its_outcome(plan, path, root, first, world);
    lemma_run_keeps_outcome(tasks, replies, r, world, 0);
    assert forall|i: int| 0 <= i < tasks.len() implies (touched((#[trigger] tasks[i]).stage) matches Some(
        p,
    ) ==> touches_inside(tasks[i], p, root, world.names)) by {
        lemma_run_stays_held(tasks, replies, r, world, root, i);
        lemma_run_follows(tasks, replies, r, world, i);
        law_touched_file_lies_in_workspace(tasks[i], root, world.names);
    }
}

/// The path `p` that an operation touches lies in the workspace by its name, and leads into
/// it: it is a path that was resolved, or, where it does not exist, where it leads and all
/// that has to be made on the way are paths that were resolved with names put below them
/// that go down, and stay within the workspace.
pub open spec fn touches_inside(t: FileTask, p: Seq<u8>, root: Seq<u8>, names: SteadyHost) -> bool {
    let bounds = steady_bounds(root, names);
    let known = (names.canonical)(root) is Some;
    &&& destination(t, names) == Some(p)
    &&& in_workspace(p, steady_root(root, names))
    &&& match landing(t.operation@, t.path@, names) {
        None => is_resolved(p, names),
        Some(l) => {
            &&& l matches Landing::At(end, met)
            &&& is_grounded(end, names) && stays_within(end, bounds, known)
            &&& all_grounded(met, names)
            &&& forall|i: int| 0 <= i < met.len() ==> stays_within(#[trigger] met[i], bounds, known)
        },
    }
}

/// In a run in a workspace, an operation is held against it all along.
proof fn lemma_run_stays_held(
    tasks: Seq<FileTask>,
    replies: Seq<Reply>,
    r: Outcome,
    world: World,
    root: Seq<u8>,
    i: int,
)
    requires
        is_run(tasks, replies, r, world),
        follows(tasks[0], world.names),
        is_held(tasks[0], root, world.names),
        0 <= i < tasks.len(),
    ensures
        is_held(tasks[i], root, world.names),
    decreases i,
{
    if i > 0 {
        lemma_run_stays_held(tasks, replies, r, world, root, i - 1);
        lemma_run_follows(tasks, replies, r, world, i - 1);
        assert(goes_on_at(tasks, replies, r, world, i - 1));
        law_operation_stays_held(
            tasks[i - 1],
            replies[i - 1],
            FileProgress::Waiting(tasks[i]),
            root,
            world.names,
        );
    }
}

/// A read gives back what a write wrote: where a file holds what was written to it, a
/// read reports the lines of the content that lie in its window.
pub proof fn law_read_gives_back_write(
    content: Seq<char>,
    original: Option<Seq<char>>,
    path: Seq<u8>,
    offset: Option<usize>,
    limit: Option<usize>,
    output: ReadFileOutput,
)
    requires
        is_read_output(output, path, styled(content, original), offset, limit),
    ensures
        ({
            let all = written_lines(content, original);
            let from = first_line(all.len() as int, offset);
            let to = last_line(all.len() as int, offset, limit);
            &&& output.file.content@ == joined(all.subrange(from, to), "\n"@)
            &&& output.file.num_lines == to - from
            &&& output.file.total_lines == all.len()
        }),
{
    law_write_keeps_lines(content, original);
}

/// An operation begins with `t`, in a workspace or without one.
pub open spec fn begins(
    plan: Plan,
    path: Seq<char>,
    root: Seq<u8>,
    t: FileTask,
) -> bool {
    let first = FileProgress::Waiting(t);
    begins_free(plan, path, first) || begins_guarded(plan, path, root, first)
}

/// What a write is about to save is its content in the style of the text that the file
/// held.
spec fn saves_styled(t: FileTask, content: Seq<char>, world: World) -> bool {
    &&& t.operation@ == (Plan::Write { content })
    &&& saved(t.stage) matches Some(text) ==> touched(t.stage) matches Some(p) && text == styled(
        content,
        (world.text)(p),
    )
}

proof fn lemma_run_saves_styled(
    tasks: Seq<FileTask>,
    replies: Seq<Reply>,
    r: Outcome,
    world: World,
    content: Seq<char>,
    i: int,
)
    requires
        is_run(tasks, replies, r, world),
        saves_styled(tasks[0], content, world),
        0 <= i < tasks.len(),
    ensures
        saves_styled(tasks[i], content, world),
    decreases i,
{
    if i > 0 {
        lemma_run_saves_styled(tasks, replies, r, world, content, i - 1);
        assert(goes_on_at(tasks, replies, r, world, i - 1));
    }
}

/// A write that succeeds ends by saving its content, in the style of the text that the
/// file held before.
pub proof fn law_write_run_saves_styled(
    content: Seq<char>,
    path: Seq<char>,
    root: Seq<u8>,
    tasks: Seq<FileTask>,
    replies: Seq<Reply>,
    r: Outcome,
    world: World,
)
    requires
        is_run(tasks, replies, r, world),
        begins(Plan::Write { content }, path, root, tasks[0]),
        r is Ok,
    ensures
        tasks.last().stage is Saving,
        touched(tasks.last().stage) matches Some(p) && saved(tasks.last().stage) == Some(
            styled(content, (world.text)(p)),
        ),
{
    let last = tasks.len() - 1;
    lemma_run_saves_styled(tasks, replies, r, world, content, last);
    assert(goes_on_at(tasks, replies, r, world, last));
}

/// In a run of a read, what is to be done stays what it was.
proof fn lemma_run_keeps_plan(
    tasks: Seq<FileTask>,
    replies: Seq<Reply>,
    r: Outcome,
    world: World,
    i: int,
)
    requires
        is_run(tasks, replies, r, world),
        tasks[0].operation is Read,
        0 <= i < tasks.len(),
    ensures
        tasks[i].operation == tasks[0].operation,
        saved(tasks[0].stage) is None ==> saved(tasks[i].stage) is None,
    decreases i,
{
    if i > 0 {
        lemma_run_keeps_plan(tasks, replies, r, world, i - 1);
        assert(goes_on_at(tasks, replies, r, world, i - 1));
    }
}

/// A read that succeeds ends by reporting the text of the file that it touches.
pub proof fn law_read_run_reports_text(
    offset: Option<usize>,
    limit: Option<usize>,
    path: Seq<char>,
    root: Seq<u8>,
    tasks: Seq<FileTask>,
    replies: Seq<Reply>,
    r: Outcome,
    world: World,
)
    requires
        is_run(tasks, replies, r, world),
        begins(Plan::Read { offset, limit }, path, root, tasks[0]),
        r is Ok,
    ensures
        touched(tasks.last().stage) matches Some(p) && (world.text)(p) matches Some(text)
            && r matches Ok(FileOutput::Read(o)) && is_read_output(o, p, text, offset, limit),
{
    let last = tasks.len() - 1;
    lemma_run_keeps_plan(tasks, replies, r, world, last);
    assert(goes_on_at(tasks, replies, r, world, last));
}

/// A read gives back what a write wrote: where a write and a read both succeed, the read
/// touches the file that the write saved, and the host holds what was saved in it, the
/// read reports the lines of the content that lie in its window.
pub proof fn law_read_run_gives_back_write_run(
    content: Seq<char>,
    offset: Option<usize>,
    limit: Option<usize>,
    path: Seq<char>,
    root: Seq<u8>,
    write_tasks: Seq<FileTask>,
    write_replies: Seq<Reply>,
    written: Outcome,
    before: World,
    read_tasks: Seq<FileTask>,
    read_replies: Seq<Reply>,
    read: Outcome,
    after: World,
)
    requires
        is_run(write_tasks, write_replies, written, before),
        begins(Plan::Write { content }, path, root, write_tasks[0]),
        written is Ok,
        is_run(read_tasks, read_replies, read, after),
        begins(Plan::Read { offset, limit }, path, root, read_tasks[0]),
        read is Ok,
        touched(read_tasks.last().stage) == touched(write_tasks.last().stage),
        touched(write_tasks.last().stage) matches Some(p) ==> (after.text)(p) == saved(
            write_tasks.last().stage,
        ),
    ensures
        touched(write_tasks.last().stage) matches Some(p) && read matches Ok(FileOutput::Read(o))
            && ({
            let all = written_lines(content, (before.text)(p));
            let from = first_line(all.len() as int, offset);
            let to = last_line(all.len() as int, offset, limit);
            &&& o.file.content@ == joined(all.subrange(from, to), "\n"@)
            &&& o.file.num_lines == to - from
            &&& o.file.total_lines == all.len()
        }),
{
    law_write_run_saves_styled(
        content,
        path,
        root,
        write_tasks,
        write_replies,
        written,
        before,
    );
    law_read_run_reports_text(
        offset,
        limit,
        path,
        root,
        read_tasks,
        read_replies,
        read,
        after,
    );
    let p = touched(write_tasks.last().stage)->Some_0;
    let o = read->Ok_0->Read_0;
    law_read_gives_back_write(content, (before.text)(p), p, offset, limit, o);
}

} // verus!
