//! The search through the text of files, with or without a workspace that it has to
//! stay in.
//!
//! The search is a [`GrepTask`]. It has the host list the files, and asks for the text
//! of one after the other of those that pass the filters.

use vstd::prelude::*;
use vstd::string::*;
use vstd::utf8::*;

use crate::error::FileError;
use crate::globbing::{check_bounds, let_pass, refused, reversed};
use crate::grep::{
    build_grep_output, is_grep_output, matches_optional_filters, passes_filters, search_file,
    with_file, Notes, Tally,
};
use crate::host::{reply_path, Ask, Progress, Reply, Request};
use crate::listing::WalkEntry;
use crate::matchers::{glob_build, regex_build, Expression, Glob, Query};
use crate::outputs::{GrepSearchInput, GrepSearchOutput};
use crate::paths::{byte_texts, bytes_of, HOST};
use crate::resolve::{
    begins_resolution, normalize_path, resolution_goes_on, Resolution, ResolutionProgress,
};
use crate::text::{lossy_text, path_text, string_option};
use crate::workspace::{
    canonicalize_workspace_root, in_workspace, is_escape, normalize_glob_pattern_text, path_option,
    pattern_text, root_in_force, validate_workspace_boundary,
};

verus! {

/// What a search goes by, and what it has noted.
pub struct Run {
    pub expression: Expression,
    /// The glob that files have to match, if there is one.
    pub filter: Option<Glob>,
    /// The root of the workspace that the search has to stay in, if there is one.
    pub bounds: Option<Vec<u8>>,
    pub tally: Tally,
}

/// How far a search is. Files that are still to be searched wait, the next of them last.
pub enum GrepStage {
    /// The path to search is resolved.
    Resolving { resolution: Resolution, workspace: Option<Vec<u8>> },
    /// The current directory is asked for.
    Based { given: Option<Vec<u8>>, workspace: Option<Vec<u8>> },
    /// The root of the workspace is resolved.
    Bounding { base: Vec<u8>, root: Vec<u8> },
    /// Whether the path leads to a file is asked for.
    Probing { base: Vec<u8>, run: Run },
    /// The files below the path are asked for.
    Listing { base: Vec<u8>, run: Run },
    /// A file is resolved, so that it can be held against the workspace.
    Checking { run: Run, file: Vec<u8>, waiting: Vec<Vec<u8>> },
    /// The text of a file is asked for.
    Loading { run: Run, file: Vec<u8>, waiting: Vec<Vec<u8>> },
}

/// A search through the text of files that waits for a reply of the host.
pub struct GrepTask {
    pub input: GrepSearchInput,
    pub stage: GrepStage,
}

/// A search that waits for a reply, or what has come of it.
pub type GrepProgress = Progress<GrepTask, Result<GrepSearchOutput, FileError>>;

impl GrepTask {
    /// The search, now at another stage.
    pub open spec fn at(self, stage: GrepStage) -> GrepTask {
        GrepTask { stage, ..self }
    }
}

/// The expression that is searched for.
pub open spec fn query_of(input: GrepSearchInput) -> Query {
    Query {
        pattern: input.pattern@,
        case_insensitive: input.case_insensitive == Some(true),
        dot_matches_new_line: input.multiline == Some(true),
    }
}

/// The glob that files have to match, if there is one.
pub open spec fn filter_text(input: GrepSearchInput) -> Option<Seq<char>> {
    match input.glob {
        Some(g) => Some(pattern_text(g@, HOST)),
        None => None,
    }
}

/// The glob of a run, as it is written.
pub open spec fn filter_of(run: Run) -> Option<Seq<char>> {
    match run.filter {
        Some(g) => Some(g@),
        None => None,
    }
}

/// The files among the entries, in their order.
pub open spec fn files_of(entries: Seq<WalkEntry>) -> Seq<Seq<u8>>
    decreases entries.len(),
{
    if entries.len() == 0 {
        seq![]
    } else if entries.last().is_file {
        files_of(entries.drop_last()).push(entries.last().path@)
    } else {
        files_of(entries.drop_last())
    }
}

/// The files among the entries, in their order.
pub fn collect_search_files(entries: Vec<WalkEntry>) -> (r: Vec<Vec<u8>>)
    ensures
        byte_texts(r@) == files_of(entries@),
{
    let mut r: Vec<Vec<u8>> = Vec::new();
    let mut i: usize = 0;
    assert(byte_texts(r@) =~= files_of(entries@.take(0)));
    while i < entries.len()
        invariant
            i <= entries@.len(),
            byte_texts(r@) == files_of(entries@.take(i as int)),
        decreases entries@.len() - i,
    {
        let ghost before = r@;
        let ghost es = entries@.take(i + 1);
        assert(es.drop_last() =~= entries@.take(i as int));
        if entries[i].is_file {
            let path = entries[i].path.as_slice();
            let copy = bytes_of(path, 0, path.len());
            assert(copy@ =~= entries@[i as int].path@);
            r.push(copy);
            assert(byte_texts(r@) =~= byte_texts(before).push(copy@));
        }
        i += 1;
    }
    assert(entries@.take(i as int) =~= entries@);
    r
}

/// How a search begins to go through files: it compiles what it searches for and the
/// glob that files have to match, and asks whether the path leads to a file.
pub open spec fn begins_run(
    t: GrepTask,
    base: Vec<u8>,
    bounds: Option<Vec<u8>>,
    next: GrepProgress,
) -> bool {
    let q = query_of(t.input);
    match regex_build(q.pattern, q.case_insensitive, q.dot_matches_new_line) {
        Err(m) => next matches Progress::Finished(Err(FileError::InvalidPattern { message }))
            && message@ == m,
        Ok(_) => match filter_failure(t.input) {
            Some(m) => next matches Progress::Finished(Err(FileError::InvalidPattern { message }))
                && message@ == m,
            None => {
                &&& next matches Progress::Waiting(u)
                &&& u == t.at(u.stage)
                &&& u.stage matches GrepStage::Probing { base: b, run }
                &&& b == base
                &&& run.expression@ == q
                &&& filter_of(run) == filter_text(t.input)
                &&& run.bounds == bounds
                &&& run.tally@ == no_notes()
            },
        },
    }
}

/// What a search has noted before it searched any file.
pub open spec fn no_notes() -> Notes {
    Notes { filenames: seq![], content_lines: seq![], total_matches: 0 }
}

/// Why the glob that files have to match is none, if it is not.
pub open spec fn filter_failure(input: GrepSearchInput) -> Option<Seq<char>> {
    match filter_text(input) {
        Some(g) => match glob_build(g) {
            Err(m) => Some(m),
            Ok(_) => None,
        },
        None => None,
    }
}

/// How a search goes on with the files that wait, the next of them last: where there is
/// a workspace, the next file is held against it; where there is none, the next file
/// that passes the filters is read; and where none is left, the search reports.
pub open spec fn takes_next_file(
    t: GrepTask,
    run: Run,
    waiting: Seq<Vec<u8>>,
    next: GrepProgress,
) -> bool
    decreases waiting.len(),
{
    if waiting.len() == 0 {
        next matches Progress::Finished(Ok(output)) && is_grep_output(output, run.tally@, t.input)
    } else if run.bounds is Some {
        &&& next matches Progress::Waiting(u)
        &&& u == t.at(u.stage)
        &&& u.stage matches GrepStage::Checking { run: r, file, waiting: w }
        &&& r == run
        &&& file == waiting.last()
        &&& w@ == waiting.drop_last()
    } else if is_searched(t, run, waiting.last()@) {
        loads(t, run, waiting.last(), waiting.drop_last(), next)
    } else {
        takes_next_file(t, run, waiting.drop_last(), next)
    }
}

/// The file at `path` passes the filters of the search.
pub open spec fn is_searched(t: GrepTask, run: Run, path: Seq<u8>) -> bool {
    passes_filters(path, filter_of(run), string_option(t.input.file_type))
}

/// The search asks for the text of a file.
pub open spec fn loads(
    t: GrepTask,
    run: Run,
    file: Vec<u8>,
    waiting: Seq<Vec<u8>>,
    next: GrepProgress,
) -> bool {
    &&& next matches Progress::Waiting(u)
    &&& u == t.at(u.stage)
    &&& u.stage matches GrepStage::Loading { run: r, file: f, waiting: w }
    &&& r == run
    &&& f == file
    &&& w@ == waiting
}

/// How a search goes on once the current directory is known.
pub open spec fn is_based(
    t: GrepTask,
    base: Vec<u8>,
    workspace: Option<Vec<u8>>,
    next: GrepProgress,
) -> bool {
    match workspace {
        Some(root) => next == GrepProgress::Waiting(t.at(GrepStage::Bounding { base, root })),
        None => begins_run(t, base, None, next),
    }
}

/// How a search goes on after a reply.
pub open spec fn grep_goes_on(t: GrepTask, reply: Reply, next: GrepProgress) -> bool {
    match t.stage {
        GrepStage::Resolving { resolution, workspace } => match next {
            Progress::Waiting(u) => u == t.at(u.stage) && match u.stage {
                GrepStage::Resolving { resolution: r, workspace: w } => w == workspace
                    && resolution_goes_on(resolution, reply, ResolutionProgress::Waiting(r)),
                GrepStage::Based { given: Some(base), workspace: w } => w == workspace
                    && resolution_goes_on(
                    resolution,
                    reply,
                    ResolutionProgress::Finished(Ok(base)),
                ),
                _ => false,
            },
            Progress::Finished(Err(e)) => resolution_goes_on(
                resolution,
                reply,
                ResolutionProgress::Finished(Err(e)),
            ),
            Progress::Finished(Ok(_)) => false,
        },
        GrepStage::Based { given, workspace } => match reply {
            Reply::Path(current) => match given {
                Some(b) => is_based(t, b, workspace, next),
                None => is_based(t, current, workspace, next),
            },
            _ => next == GrepProgress::Finished(Err(FileError::Host)),
        },
        GrepStage::Bounding { base, root } => {
            let in_force = root_in_force(root@, reply_path(reply));
            if in_workspace(base@, in_force) {
                exists|w: Vec<u8>|
                    w@ == in_force && #[trigger] begins_run(t, base, Some(w), next)
            } else {
                next matches Progress::Finished(Err(e)) && is_escape(
                    e,
                    base@,
                    in_force,
                )
            }
        },
        GrepStage::Probing { base, run } => match reply {
            Reply::Flag(true) => takes_next_file(t, run, seq![base], next),
            Reply::Flag(false) => next == GrepProgress::Waiting(
                t.at(GrepStage::Listing { base, run }),
            ),
            _ => next == GrepProgress::Finished(Err(FileError::Host)),
        },
        GrepStage::Listing { base, run } => match reply {
            Reply::Entries(entries) => exists|waiting: Seq<Vec<u8>>|
                byte_texts(waiting) == files_of(entries@).reverse() && #[trigger] takes_next_file(
                    t,
                    run,
                    waiting,
                    next,
                ),
            _ => next == GrepProgress::Finished(Err(FileError::Host)),
        },
        GrepStage::Checking { run, file, waiting } => match reply {
            Reply::Path(lead) => if !let_pass(run.bounds, lead@) {
                next matches Progress::Finished(Err(e)) && refused(
                    e,
                    run.bounds,
                    lead@,
                )
            } else if is_searched(t, run, file@) {
                loads(t, run, file, waiting@, next)
            } else {
                takes_next_file(t, run, waiting@, next)
            },
            _ => next == GrepProgress::Finished(Err(FileError::Host)),
        },
        GrepStage::Loading { run, file, waiting } => match reply {
            Reply::Text(content) => exists|r: Run|
                {
                    &&& r == Run { tally: r.tally, ..run }
                    &&& r.tally@ == with_file(
                        run.tally@,
                        run.expression@,
                        lossy_text(file@),
                        content@,
                        t.input,
                    )
                    &&& #[trigger] takes_next_file(t, r, waiting@, next)
                },
            _ => takes_next_file(t, run, waiting@, next),
        },
    }
}

impl GrepTask {
    /// What the search asks for.
    pub open spec fn ask(self) -> Ask {
        match self.stage {
            GrepStage::Resolving { resolution, .. } => resolution.ask(),
            GrepStage::Based { .. } => Ask::CurrentDir,
            GrepStage::Bounding { root, .. } => Ask::Canonicalize(root@),
            GrepStage::Probing { base, .. } => Ask::IsFile(base@),
            GrepStage::Listing { base, .. } => Ask::WalkAll(base@),
            GrepStage::Checking { file, .. } => Ask::Canonicalize(file@),
            GrepStage::Loading { file, .. } => Ask::ReadText(file@),
        }
    }

    /// What the search asks for.
    pub fn request(&self) -> (r: Request<'_>)
        ensures
            r@ == self.ask(),
    {
        match &self.stage {
            GrepStage::Resolving { resolution, .. } => resolution.request(),
            GrepStage::Based { .. } => Request::CurrentDir,
            GrepStage::Bounding { root, .. } => Request::Canonicalize(root),
            GrepStage::Probing { base, .. } => Request::IsFile(base),
            GrepStage::Listing { base, .. } => Request::WalkAll(base),
            GrepStage::Checking { file, .. } => Request::Canonicalize(file),
            GrepStage::Loading { file, .. } => Request::ReadText(file),
        }
    }

    /// Begins to go through files.
    fn begin_run(
        input: GrepSearchInput,
        base: Vec<u8>,
        bounds: Option<Vec<u8>>,
    ) -> (next: GrepProgress)
        ensures
            forall|stage: GrepStage| #[trigger]
                begins_run(GrepTask { input, stage }, base, bounds, next),
    {
        let case_insensitive = match input.case_insensitive {
            Some(yes) => yes,
            None => false,
        };
        let multiline = match input.multiline {
            Some(yes) => yes,
            None => false,
        };
        let expression = match Expression::new(input.pattern.as_str(), case_insensitive, multiline) {
            Ok(expression) => expression,
            Err(message) => {
                return Progress::Finished(Err(FileError::InvalidPattern { message }));
            },
        };
        let filter = match &input.glob {
            Some(glob) => {
                let text = normalize_glob_pattern_text(glob.as_str(), HOST);
                match Glob::new(text.as_str()) {
                    Ok(glob) => Some(glob),
                    Err(message) => {
                        return Progress::Finished(Err(FileError::InvalidPattern { message }));
                    },
                }
            },
            None => None,
        };
        let tally = Tally {
            filenames: Vec::new(),
            content_lines: Vec::new(),
            total_matches: 0,
        };
        assert(tally@.filenames =~= no_notes().filenames);
        assert(tally@.content_lines =~= no_notes().content_lines);
        let stage = GrepStage::Probing { base, run: Run { expression, filter, bounds, tally } };
        Progress::Waiting(GrepTask { input, stage })
    }

    /// Goes on with the files that wait.
    fn take_next_file(
        input: GrepSearchInput,
        run: Run,
        waiting: Vec<Vec<u8>>,
    ) -> (next: GrepProgress)
        ensures
            forall|stage: GrepStage| #[trigger]
                takes_next_file(GrepTask { input, stage }, run, waiting@, next),
    {
        let guarded = run.bounds.is_some();
        let ghost all = waiting@;
        let mut rest = waiting;
        loop
            invariant
                guarded == (run.bounds is Some),
                all == waiting@,
                forall|stage: GrepStage, next: GrepProgress|
                    takes_next_file(
                        GrepTask { input, stage },
                        run,
                        rest@,
                        next,
                    ) ==> #[trigger] takes_next_file(
                        GrepTask { input, stage },
                        run,
                        all,
                        next,
                    ),
            decreases rest@.len(),
        {
            let ghost queue = rest@;
            let file = match rest.pop() {
                Some(file) => file,
                None => {
                    let Run { tally, .. } = run;
                    let output = build_grep_output(tally, &input);
                    return Progress::Finished(Ok(output));
                },
            };
            assert(queue.drop_last() =~= rest@);
            assert(queue.last() == file);
            if guarded {
                let stage = GrepStage::Checking { run, file, waiting: rest };
                return Progress::Waiting(GrepTask { input, stage });
            }
            let file_type = match &input.file_type {
                Some(t) => Some(t.as_str()),
                None => None,
            };
            let filter = match &run.filter {
                Some(g) => Some(g),
                None => None,
            };
            if matches_optional_filters(&file, filter, file_type) {
                let stage = GrepStage::Loading { run, file, waiting: rest };
                return Progress::Waiting(GrepTask { input, stage });
            }
        }
    }
}

impl GrepTask {
    /// Goes on after a reply.
    pub fn step(self, reply: Reply) -> (next: GrepProgress)
        ensures
            grep_goes_on(self, reply, next),
    {
        let ghost asked = self;
        let GrepTask { input, stage } = self;
        match stage {
            GrepStage::Resolving { resolution, workspace } => match resolution.step(reply) {
                Progress::Waiting(resolution) => {
                    let stage = GrepStage::Resolving { resolution, workspace };
                    Progress::Waiting(GrepTask { input, stage })
                },
                Progress::Finished(Ok(base)) => {
                    let stage = GrepStage::Based { given: Some(base), workspace };
                    Progress::Waiting(GrepTask { input, stage })
                },
                Progress::Finished(Err(e)) => Progress::Finished(Err(e)),
            },
            GrepStage::Based { given, workspace } => match reply {
                Reply::Path(current) => {
                    let base = match given {
                        Some(base) => base,
                        None => current,
                    };
                    match workspace {
                        Some(root) => {
                            let stage = GrepStage::Bounding { base, root };
                            Progress::Waiting(GrepTask { input, stage })
                        },
                        None => {
                            let next = GrepTask::begin_run(input, base, None);
                            assert(begins_run(asked, base, None, next));
                            next
                        },
                    }
                },
                _ => Progress::Finished(Err(FileError::Host)),
            },
            GrepStage::Bounding { base, root } => {
                let canonical = match reply {
                    Reply::Path(p) => Some(p),
                    _ => None,
                };
                let in_force = canonicalize_workspace_root(root.as_slice(), canonical);
                match validate_workspace_boundary(base.as_slice(), in_force.as_slice()) {
                    Err(e) => Progress::Finished(Err(e)),
                    Ok(()) => {
                        let next = GrepTask::begin_run(input, base, Some(in_force));
                        assert(begins_run(asked, base, Some(in_force), next));
                        next
                    },
                }
            },
            GrepStage::Probing { base, run } => match reply {
                Reply::Flag(is_file) => {
                    if is_file {
                        let mut waiting: Vec<Vec<u8>> = Vec::new();
                        waiting.push(base);
                        let ghost queue = waiting@;
                        assert(queue =~= seq![base]);
                        let next = GrepTask::take_next_file(input, run, waiting);
                        assert(takes_next_file(asked, run, queue, next));
                        next
                    } else {
                        let stage = GrepStage::Listing { base, run };
                        Progress::Waiting(GrepTask { input, stage })
                    }
                },
                _ => Progress::Finished(Err(FileError::Host)),
            },
            GrepStage::Listing { base, run } => match reply {
                Reply::Entries(entries) => {
                    let files = collect_search_files(entries);
                    let ghost wanted = byte_texts(files@);
                    let waiting = reversed(files);
                    let ghost queue = waiting@;
                    assert(byte_texts(queue) =~= wanted.reverse());
                    let next = GrepTask::take_next_file(input, run, waiting);
                    assert(takes_next_file(asked, run, queue, next));
                    next
                },
                _ => Progress::Finished(Err(FileError::Host)),
            },
            GrepStage::Checking { run, file, waiting } => match reply {
                Reply::Path(lead) => {
                    if let Err(e) = check_bounds(&run.bounds, &lead) {
                        return Progress::Finished(Err(e));
                    }
                    let file_type = match &input.file_type {
                        Some(t) => Some(t.as_str()),
                        None => None,
                    };
                    let filter = match &run.filter {
                        Some(g) => Some(g),
                        None => None,
                    };
                    if matches_optional_filters(&file, filter, file_type) {
                        let stage = GrepStage::Loading { run, file, waiting };
                        return Progress::Waiting(GrepTask { input, stage });
                    }
                    let ghost queue = waiting@;
                    let next = GrepTask::take_next_file(input, run, waiting);
                    assert(takes_next_file(asked, run, queue, next));
                    next
                },
                _ => Progress::Finished(Err(FileError::Host)),
            },
            GrepStage::Loading { run, file, waiting } => {
                let ghost queue = waiting@;
                let Run { expression, filter, bounds, tally } = run;
                let mut tally = tally;
                if let Reply::Text(content) = &reply {
                    let name = path_text(&file);
                    search_file(&mut tally, &expression, name.as_str(), content.as_str(), &input);
                }
                let run_now = Run { expression, filter, bounds, tally };
                let next = GrepTask::take_next_file(input, run_now, waiting);
                assert(takes_next_file(asked, run_now, queue, next));
                next
            },
        }
    }
}

/// How a search begins: the path to search is resolved where there is one, and else the
/// current directory is asked for.
pub open spec fn begins_grep_search(
    t: GrepTask,
    input: GrepSearchInput,
    workspace_root: Option<Seq<u8>>,
) -> bool {
    &&& t.input == input
    &&& match input.path {
        Some(p) => t.stage matches GrepStage::Resolving { resolution, workspace }
            && begins_resolution(resolution, encode_utf8(p@), false) && path_option(workspace)
            == workspace_root,
        None => t.stage matches GrepStage::Based { given: None, workspace } && path_option(
            workspace,
        ) == workspace_root,
    }
}

/// Begins a search, in a workspace where there is one.
pub fn grep_search_impl(input: GrepSearchInput, workspace: Option<Vec<u8>>) -> (t: GrepTask)
    ensures
        begins_grep_search(t, input, path_option(workspace)),
{
    let stage = match &input.path {
        Some(path) => GrepStage::Resolving { resolution: normalize_path(path.as_str()), workspace },
        None => GrepStage::Based { given: None, workspace },
    };
    GrepTask { input, stage }
}

/// Runs a regex search over workspace files with optional context lines.
pub fn grep_search(input: GrepSearchInput) -> (t: GrepTask)
    ensures
        begins_grep_search(t, input, None),
{
    grep_search_impl(input, None)
}

/// Searches file contents with workspace boundary enforcement.
pub fn grep_search_in_workspace(
    input: GrepSearchInput,
    workspace_root: &[u8],
) -> (t: GrepTask)
    ensures
        begins_grep_search(t, input, Some(workspace_root@)),
{
    let root = bytes_of(workspace_root, 0, workspace_root.len());
    assert(root@ =~= workspace_root@);
    grep_search_impl(input, Some(root))
}

/// A search goes by what it is asked for: the pattern as it stands, without regard to case
/// only where that is asked for, with a dot for newlines only where that is asked for, and
/// the glob for files as it stands.
pub proof fn law_search_goes_by_what_is_asked_for(input: GrepSearchInput)
    ensures
        query_of(input).pattern == input.pattern@,
        query_of(input).case_insensitive <==> input.case_insensitive == Some(true),
        query_of(input).dot_matches_new_line <==> input.multiline == Some(true),
        match input.glob {
            Some(g) => filter_text(input) == Some(g@),
            None => filter_text(input) is None,
        },
        match input.glob {
            Some(g) => match glob_build(g@) {
                Err(m) => filter_failure(input) == Some(m),
                Ok(_) => filter_failure(input) is None,
            },
            None => filter_failure(input) is None,
        },
        no_notes().filenames.len() == 0,
        no_notes().content_lines.len() == 0,
        no_notes().total_matches == 0,
{
}

/// The files that are searched below a directory are those of its entries that are files, in
/// their order.
pub proof fn law_files_of_walk_are_searched(a: Seq<WalkEntry>, b: Seq<WalkEntry>, e: WalkEntry)
    ensures
        files_of(Seq::<WalkEntry>::empty()) == Seq::<Seq<u8>>::empty(),
        files_of(a + b) == files_of(a) + files_of(b),
        files_of(seq![e]) == if e.is_file {
            seq![e.path@]
        } else {
            Seq::<Seq<u8>>::empty()
        },
    decreases b.len(),
{
    reveal_with_fuel(files_of, 2);
    assert(seq![e].drop_last() =~= Seq::<WalkEntry>::empty());
    assert(files_of(seq![e]) =~= if e.is_file {
        seq![e.path@]
    } else {
        Seq::<Seq<u8>>::empty()
    });
    if b.len() == 0 {
        assert(a + b =~= a);
        assert(files_of(a) + files_of(b) =~= files_of(a));
    } else {
        law_files_of_walk_are_searched(a, b.drop_last(), e);
        assert((a + b).drop_last() =~= a + b.drop_last());
        assert((a + b).last() == b.last());
        assert(files_of(a + b) =~= files_of(a) + files_of(b));
    }
}

} // verus!
