//! What comes of the searches: the result of each, from beginning to end, on a host
//! whose files stay as they are.

use vstd::prelude::*;
use vstd::utf8::*;

use crate::braces::expanded;
use crate::error::FileError;
use crate::globbing::{
    begins_glob_search, begins_globs, checks_next, glob_goes_on, search_text, takes_next_glob,
    GlobProgress, GlobStage, GlobTask, Search,
};
use crate::grep::{is_grep_output, mode_of, passes_filters, with_file, Notes};
use crate::grepping::{
    begins_grep_search, files_of, filter_failure, filter_of, filter_text, grep_goes_on, no_notes,
    query_of, takes_next_file, GrepProgress, GrepStage, GrepTask, Run,
};
use crate::host::{reply_text, Ask, Progress, Reply, SteadyHost};
use crate::lines::texts;
use crate::listing::{fresh, is_glob_output, matches_of, WalkEntry};
use crate::matchers::{glob_build, regex_build, Query};
use crate::outputs::{GlobSearchOutput, GrepSearchInput, GrepSearchOutput};
use crate::paths::{byte_texts, is_absolute};
use crate::resolve::{
    law_resolution_begins_at_path, law_resolution_leads_to_target, target, Resolution,
    ResolutionProgress,
};
use crate::text::{lossy_text, string_option};
use crate::workspace::{in_workspace, is_escape, path_option, root_in_force, walk_root};

verus! {

/// A host as a search finds it.
pub ghost struct Tree {
    pub names: SteadyHost,
    /// There is a file at a path.
    pub is_file: spec_fn(Seq<u8>) -> bool,
    /// The files at and below a path, where all can be listed.
    pub files: spec_fn(Seq<u8>) -> Option<Seq<Seq<u8>>>,
    /// The entries at and below a path, as far as they can be read. Those at and below
    /// directories that searches for files pass by may be left out.
    pub entries: spec_fn(Seq<u8>) -> Seq<WalkEntry>,
    /// The text of the file at a path.
    pub text: spec_fn(Seq<u8>) -> Option<Seq<char>>,
    /// The times of files.
    pub times: spec_fn(Seq<Seq<u8>>) -> Seq<Option<i128>>,
    /// How long the search takes.
    pub millis: u128,
}

impl Tree {
    /// The host gives this reply.
    pub open spec fn gives(self, ask: Ask, reply: Reply) -> bool {
        match ask {
            Ask::IsFile(p) => reply == Reply::Flag((self.is_file)(p)),
            Ask::WalkAll(p) => match reply {
                Reply::Entries(es) => (self.files)(p) == Some(files_of(es@)),
                _ => (self.files)(p) is None,
            },
            Ask::Walk(p) => reply matches Reply::Entries(es) && es@ == (self.entries)(p),
            Ask::ReadText(p) => reply_text(reply) == (self.text)(p),
            Ask::ModifiedTimes(ps) => reply matches Reply::Times(ts) && ts@ == (self.times)(ps)
                && ts@.len() == ps.len(),
            Ask::Elapsed => reply == Reply::Millis(self.millis),
            _ => self.names.gives(ask, reply),
        }
    }
}

/// What comes of a search through text.
pub type GrepOutcome = Result<GrepSearchOutput, FileError>;

/// What a search through text goes by.
pub ghost struct Terms {
    pub input: GrepSearchInput,
    pub query: Query,
    pub filter: Option<Seq<char>>,
    pub bounds: Option<Seq<u8>>,
}

impl Terms {
    /// What is noted once the file at `p` was searched, which it is where it passes the
    /// filters and can be read.
    pub open spec fn with_searched(self, notes: Notes, p: Seq<u8>, tree: Tree) -> Notes {
        let passes = passes_filters(
            p,
            self.filter,
            string_option(self.input.file_type),
        );
        match (tree.text)(p) {
            Some(content) if passes => with_file(
                notes,
                self.query,
                lossy_text(p),
                content,
                self.input,
            ),
            _ => notes,
        }
    }

    /// What comes of a search once `notes` were made, with the files `waiting` still to
    /// be searched, the next of them last. In a workspace, each is held against it first,
    /// whether it passes the filters or not.
    pub open spec fn comes_of_files(
        self,
        notes: Notes,
        waiting: Seq<Seq<u8>>,
        tree: Tree,
        r: GrepOutcome,
    ) -> bool
        decreases waiting.len(),
    {
        if waiting.len() == 0 {
            r matches Ok(output) && is_grep_output(output, notes, self.input)
        } else {
            let p = waiting.last();
            let noted = self.with_searched(notes, p, tree);
            match self.bounds {
                None => self.comes_of_files(noted, waiting.drop_last(), tree, r),
                Some(root) => match (tree.names.canonical)(p) {
                    None => r == GrepOutcome::Err(FileError::Host),
                    Some(lead) => if in_workspace(lead, root) {
                        self.comes_of_files(noted, waiting.drop_last(), tree, r)
                    } else {
                        r matches Err(e) && is_escape(e, lead, root)
                    },
                },
            }
        }
    }

    /// What comes of a search below `base`: a path that leads to a file is searched
    /// itself, any other is searched for files.
    pub open spec fn comes_of_base(self, base: Seq<u8>, tree: Tree, r: GrepOutcome) -> bool {
        if (tree.is_file)(base) {
            self.comes_of_files(no_notes(), seq![base], tree, r)
        } else {
            match (tree.files)(base) {
                None => r == GrepOutcome::Err(FileError::Host),
                Some(files) => self.comes_of_files(no_notes(), files.reverse(), tree, r),
            }
        }
    }
}

/// What comes of a search through text below `base`: it fails where the expression or
/// the glob that files have to match is none.
pub open spec fn comes_of_grep(
    input: GrepSearchInput,
    base: Seq<u8>,
    bounds: Option<Seq<u8>>,
    tree: Tree,
    r: GrepOutcome,
) -> bool {
    let query = query_of(input);
    match regex_build(query.pattern, query.case_insensitive, query.dot_matches_new_line) {
        Err(m) => r matches Err(FileError::InvalidPattern { message }) && message@ == m,
        Ok(_) => match filter_failure(input) {
            Some(m) => r matches Err(FileError::InvalidPattern { message }) && message@ == m,
            None => {
                let terms = Terms {
                    input,
                    query,
                    filter: filter_text(input),
                    bounds,
                };
                terms.comes_of_base(base, tree, r)
            },
        },
    }
}

/// What comes of a search through text that starts at `base`, in the workspace where
/// there is one.
pub open spec fn comes_of_grep_at(
    input: GrepSearchInput,
    base: Seq<u8>,
    workspace: Option<Seq<u8>>,
    tree: Tree,
    r: GrepOutcome,
) -> bool {
    match workspace {
        None => comes_of_grep(input, base, None, tree, r),
        Some(root) => {
            let in_force = root_in_force(root, (tree.names.canonical)(root));
            if in_workspace(base, in_force) {
                comes_of_grep(input, base, Some(in_force), tree, r)
            } else {
                r matches Err(e) && is_escape(e, base, in_force)
            }
        },
    }
}

/// Where a search starts: where its path leads, or the current directory where it has
/// none; and nowhere where the current directory is not known.
pub open spec fn start_of(names: SteadyHost, path: Option<Seq<char>>) -> Option<Seq<u8>> {
    match path {
        Some(p) => match target(names, encode_utf8(p), false) {
            Some(base) => if names.current_dir is Some {
                Some(base)
            } else {
                None
            },
            None => None,
        },
        None => names.current_dir,
    }
}

/// What comes of a search through text, from beginning to end.
pub open spec fn comes_of_grep_search(
    input: GrepSearchInput,
    workspace: Option<Seq<u8>>,
    tree: Tree,
    r: GrepOutcome,
) -> bool {
    match start_of(tree.names, string_option(input.path)) {
        None => r == GrepOutcome::Err(FileError::Host),
        Some(base) => comes_of_grep_at(input, base, workspace, tree, r),
    }
}

/// What a run goes by.
pub open spec fn terms_of(t: GrepTask, run: Run) -> Terms {
    Terms {
        input: t.input,
        query: run.expression@,
        filter: filter_of(run),
        bounds: path_option(run.bounds),
    }
}

/// Where a resolution has led, as a search goes on with it.
pub open spec fn led(r: Resolution, names: SteadyHost) -> Option<Seq<u8>> {
    match r.outcome(names) {
        Some(base) => if names.current_dir is Some {
            Some(base)
        } else {
            None
        },
        None => None,
    }
}

/// What comes of a search through text that has come to a stage.
pub open spec fn comes_of_grep_task(t: GrepTask, tree: Tree, r: GrepOutcome) -> bool {
    match t.stage {
        GrepStage::Resolving { resolution, workspace } => match led(resolution, tree.names) {
            None => r == GrepOutcome::Err(FileError::Host),
            Some(base) => comes_of_grep_at(
                t.input,
                base,
                path_option(workspace),
                tree,
                r,
            ),
        },
        GrepStage::Based { given, workspace } => match tree.names.current_dir {
            None => r == GrepOutcome::Err(FileError::Host),
            Some(current) => comes_of_grep_at(
                t.input,
                match given {
                    Some(base) => base@,
                    None => current,
                },
                path_option(workspace),
                tree,
                r,
            ),
        },
        GrepStage::Bounding { base, root } => comes_of_grep_at(
            t.input,
            base@,
            Some(root@),
            tree,
            r,
        ),
        GrepStage::Probing { base, run } => if (tree.is_file)(base@) {
            terms_of(t, run).comes_of_files(run.tally@, seq![base@], tree, r)
        } else {
            match (tree.files)(base@) {
                None => r == GrepOutcome::Err(FileError::Host),
                Some(files) => terms_of(t, run).comes_of_files(
                    run.tally@,
                    files.reverse(),
                    tree,
                    r,
                ),
            }
        },
        GrepStage::Listing { base, run } => match (tree.files)(base@) {
            None => r == GrepOutcome::Err(FileError::Host),
            Some(files) => terms_of(t, run).comes_of_files(run.tally@, files.reverse(), tree, r),
        },
        GrepStage::Checking { run, file, waiting } => terms_of(t, run).comes_of_files(
            run.tally@,
            byte_texts(waiting@).push(file@),
            tree,
            r,
        ),
        GrepStage::Loading { run, file, waiting } => terms_of(t, run).comes_of_files(
            match (tree.text)(file@) {
                Some(content) => with_file(
                    run.tally@,
                    run.expression@,
                    lossy_text(file@),
                    content,
                    t.input,
                ),
                None => run.tally@,
            },
            byte_texts(waiting@),
            tree,
            r,
        ),
    }
}

/// What holds of a search through text at every stage: the current directory is asked
/// for to resolve a relative path, and files are held against a workspace where there
/// is one.
pub open spec fn grep_is_sound(t: GrepTask) -> bool {
    match t.stage {
        GrepStage::Resolving { resolution: Resolution::Relative { path, .. }, .. } => !is_absolute(
            path@,
        ),
        GrepStage::Checking { run, .. } => run.bounds is Some,
        _ => true,
    }
}

/// With its next file, a search through text keeps to its outcome.
proof fn lemma_next_file_keeps_outcome(
    t: GrepTask,
    run: Run,
    waiting: Seq<Vec<u8>>,
    next: GrepProgress,
    tree: Tree,
)
    requires
        takes_next_file(t, run, waiting, next),
    ensures
        match next {
            Progress::Finished(r) => terms_of(t, run).comes_of_files(
                run.tally@,
                byte_texts(waiting),
                tree,
                r,
            ),
            Progress::Waiting(u) => grep_is_sound(u) && forall|r: GrepOutcome| #[trigger]
                comes_of_grep_task(u, tree, r) ==> terms_of(t, run).comes_of_files(
                    run.tally@,
                    byte_texts(waiting),
                    tree,
                    r,
                ),
        },
    decreases waiting.len(),
{
    let terms = terms_of(t, run);
    let ps = byte_texts(waiting);
    if waiting.len() > 0 {
        let rest = waiting.drop_last();
        assert(ps.drop_last() =~= byte_texts(rest));
        assert(ps.last() == waiting.last()@);
        if run.bounds is Some {
            assert(byte_texts(rest).push(waiting.last()@) =~= ps);
        } else if !passes_filters(ps.last(), terms.filter, string_option(t.input.file_type)) {
            lemma_next_file_keeps_outcome(t, run, rest, next, tree);
        }
    }
}

/// A search through text comes to what its beginning promises.
pub proof fn law_grep_search_begins_its_outcome(
    t: GrepTask,
    input: GrepSearchInput,
    workspace: Option<Seq<u8>>,
    tree: Tree,
)
    requires
        begins_grep_search(t, input, workspace),
    ensures
        grep_is_sound(t),
        forall|r: GrepOutcome| #[trigger]
            comes_of_grep_task(t, tree, r) ==> comes_of_grep_search(
                input,
                workspace,
                tree,
                r,
            ),
{
    if let GrepStage::Resolving { resolution, .. } = t.stage {
        law_resolution_begins_at_path(
            resolution,
            encode_utf8(input.path->Some_0@),
            false,
            tree.names,
        );
    }
}

/// With every reply of a steady host a search through text keeps to its outcome: when it
/// finishes, it is with what comes of it; as long as it waits, whatever comes of it later
/// is what comes of it now.
pub proof fn law_grep_search_keeps_to_its_outcome(
    t: GrepTask,
    reply: Reply,
    next: GrepProgress,
    tree: Tree,
)
    requires
        grep_is_sound(t),
        tree.gives(t.ask(), reply),
        grep_goes_on(t, reply, next),
    ensures
        match next {
            Progress::Finished(r) => comes_of_grep_task(t, tree, r),
            Progress::Waiting(u) => grep_is_sound(u) && forall|r: GrepOutcome| #[trigger]
                comes_of_grep_task(u, tree, r) ==> comes_of_grep_task(t, tree, r),
        },
{
    match t.stage {
        GrepStage::Resolving { resolution, .. } => {
            let p = match next {
                Progress::Waiting(u) => match u.stage {
                    GrepStage::Resolving { resolution: s, .. } => ResolutionProgress::Waiting(s),
                    GrepStage::Based { given, .. } => ResolutionProgress::Finished(
                        Ok(given->Some_0),
                    ),
                    _ => arbitrary(),
                },
                Progress::Finished(r) => ResolutionProgress::Finished(Err(r->Err_0)),
            };
            law_resolution_leads_to_target(resolution, reply, p, tree.names);
        },
        GrepStage::Probing { base, run } => {
            if (tree.is_file)(base@) {
                lemma_next_file_keeps_outcome(t, run, seq![base], next, tree);
                assert(byte_texts(seq![base]) =~= seq![base@]);
            }
        },
        GrepStage::Listing { base, run } => {
            if let Reply::Entries(es) = reply {
                let waiting = choose|waiting: Seq<Vec<u8>>|
                    byte_texts(waiting) == files_of(es@).reverse() && #[trigger] takes_next_file(
                        t,
                        run,
                        waiting,
                        next,
                    );
                lemma_next_file_keeps_outcome(t, run, waiting, next, tree);
            }
        },
        GrepStage::Checking { run, file, waiting } => {
            let ps = byte_texts(waiting@).push(file@);
            assert(ps.drop_last() =~= byte_texts(waiting@));
            if takes_next_file(t, run, waiting@, next) {
                lemma_next_file_keeps_outcome(t, run, waiting@, next, tree);
            }
        },
        GrepStage::Loading { run, file, waiting } => {
            if let Reply::Text(content) = reply {
                let s = choose|s: Run|
                    {
                        &&& s == Run { tally: s.tally, ..run }
                        &&& s.tally@ == with_file(
                            run.tally@,
                            run.expression@,
                            lossy_text(file@),
                            content@,
                            t.input,
                        )
                        &&& #[trigger] takes_next_file(t, s, waiting@, next)
                    };
                lemma_next_file_keeps_outcome(t, s, waiting@, next, tree);
            } else {
                lemma_next_file_keeps_outcome(t, run, waiting@, next, tree);
            }
        },
        _ => {},
    }
}

/// In a run, the host gives the reply that the `i`th task asks for, and the task goes on
/// to the next one.
pub open spec fn grep_goes_on_at(
    tasks: Seq<GrepTask>,
    replies: Seq<Reply>,
    r: GrepOutcome,
    tree: Tree,
    i: int,
) -> bool {
    let next = if i + 1 < tasks.len() {
        GrepProgress::Waiting(tasks[i + 1])
    } else {
        GrepProgress::Finished(r)
    };
    tree.gives(tasks[i].ask(), replies[i]) && grep_goes_on(tasks[i], replies[i], next)
}

/// A search through text runs through `tasks` on a host that gives `replies`, and comes to `r`.
pub open spec fn is_grep_run(
    tasks: Seq<GrepTask>,
    replies: Seq<Reply>,
    r: GrepOutcome,
    tree: Tree,
) -> bool {
    &&& tasks.len() > 0
    &&& replies.len() == tasks.len()
    &&& forall|i: int|
        0 <= i < tasks.len() ==> #[trigger] grep_goes_on_at(tasks, replies, r, tree, i)
}

/// What a run comes to is what comes of each of its tasks.
proof fn lemma_grep_run_keeps_outcome(
    tasks: Seq<GrepTask>,
    replies: Seq<Reply>,
    r: GrepOutcome,
    tree: Tree,
    i: int,
)
    requires
        is_grep_run(tasks, replies, r, tree),
        grep_is_sound(tasks[i]),
        0 <= i < tasks.len(),
    ensures
        comes_of_grep_task(tasks[i], tree, r),
    decreases tasks.len() - i,
{
    assert(grep_goes_on_at(tasks, replies, r, tree, i));
    if i + 1 < tasks.len() {
        law_grep_search_keeps_to_its_outcome(
            tasks[i],
            replies[i],
            GrepProgress::Waiting(tasks[i + 1]),
            tree,
        );
        lemma_grep_run_keeps_outcome(tasks, replies, r, tree, i + 1);
    } else {
        law_grep_search_keeps_to_its_outcome(tasks[i], replies[i], GrepProgress::Finished(r), tree);
    }
}

/// However a search through text runs, it comes to what comes of it.
pub proof fn law_grep_run_comes_to_outcome(
    input: GrepSearchInput,
    workspace: Option<Seq<u8>>,
    tasks: Seq<GrepTask>,
    replies: Seq<Reply>,
    r: GrepOutcome,
    tree: Tree,
)
    requires
        is_grep_run(tasks, replies, r, tree),
        begins_grep_search(tasks[0], input, workspace),
    ensures
        comes_of_grep_search(input, workspace, tree, r),
{
    law_grep_search_begins_its_outcome(tasks[0], input, workspace, tree);
    lemma_grep_run_keeps_outcome(tasks, replies, r, tree, 0);
}

/// What comes of a search for files.
pub type GlobOutcome = Result<GlobSearchOutput, FileError>;

/// What a search for files goes by.
pub ghost struct Reach {
    pub current: Seq<u8>,
    pub bounds: Option<Seq<u8>>,
}

impl Reach {
    /// What comes of a search that has found `found`, with the globs `pending` still to
    /// be searched for, the next of them last.
    pub open spec fn comes_of_globs(
        self,
        pending: Seq<Seq<char>>,
        found: Seq<Seq<u8>>,
        tree: Tree,
        r: GlobOutcome,
    ) -> bool
        decreases pending.len(), 0nat,
    {
        if pending.len() == 0 {
            r matches Ok(output) && is_glob_output(
                output,
                found,
                (tree.times)(found),
                tree.millis,
            )
        } else {
            let text = pending.last();
            match glob_build(text) {
                Err(m) => r matches Err(FileError::InvalidPattern { message }) && message@ == m,
                Ok(_) => {
                    let start = walk_root(encode_utf8(text), self.current);
                    let lead = match (tree.names.canonical)(start) {
                        Some(p) => p,
                        None => start,
                    };
                    let entries = (tree.entries)(start);
                    let found_now = fresh(entries, matches_of(entries, start, text), found);
                    match self.bounds {
                        None => self.comes_of_globs(
                            pending.drop_last(),
                            found + found_now,
                            tree,
                            r,
                        ),
                        Some(root) => if in_workspace(lead, root) {
                            self.comes_of_found(
                                pending.drop_last(),
                                found,
                                found_now.reverse(),
                                root,
                                tree,
                                r,
                            )
                        } else {
                            r matches Err(e) && is_escape(e, lead, root)
                        },
                    }
                },
            }
        }
    }

    /// What comes of a search in the workspace `root` that has found `found`, with the
    /// files `waiting` still to be held against the workspace, the next of them last.
    pub open spec fn comes_of_found(
        self,
        pending: Seq<Seq<char>>,
        found: Seq<Seq<u8>>,
        waiting: Seq<Seq<u8>>,
        root: Seq<u8>,
        tree: Tree,
        r: GlobOutcome,
    ) -> bool
        decreases pending.len(), waiting.len() + 1,
    {
        if waiting.len() == 0 {
            self.comes_of_globs(pending, found, tree, r)
        } else {
            let p = waiting.last();
            match (tree.names.canonical)(p) {
                None => r == GlobOutcome::Err(FileError::Host),
                Some(lead) => if in_workspace(lead, root) {
                    self.comes_of_found(
                        pending,
                        found.push(p),
                        waiting.drop_last(),
                        root,
                        tree,
                        r,
                    )
                } else {
                    r matches Err(e) && is_escape(e, lead, root)
                },
            }
        }
    }
}

/// What comes of a search for files that starts at `base`, in the workspace where there
/// is one.
pub open spec fn comes_of_glob_at(
    pattern: Seq<char>,
    base: Seq<u8>,
    current: Seq<u8>,
    workspace: Option<Seq<u8>>,
    tree: Tree,
    r: GlobOutcome,
) -> bool {
    let pending = expanded(search_text(pattern, base)).reverse();
    match workspace {
        None => Reach { current, bounds: None }.comes_of_globs(
            pending,
            seq![],
            tree,
            r,
        ),
        Some(root) => {
            let in_force = root_in_force(root, (tree.names.canonical)(root));
            if in_workspace(base, in_force) {
                Reach { current, bounds: Some(in_force) }.comes_of_globs(
                    pending,
                    seq![],
                    tree,
                    r,
                )
            } else {
                r matches Err(e) && is_escape(e, base, in_force)
            }
        },
    }
}

/// What comes of a search for files, from beginning to end.
pub open spec fn comes_of_glob_search(
    pattern: Seq<char>,
    path: Option<Seq<char>>,
    workspace: Option<Seq<u8>>,
    tree: Tree,
    r: GlobOutcome,
) -> bool {
    match start_of(tree.names, path) {
        None => r == GlobOutcome::Err(FileError::Host),
        Some(base) => comes_of_glob_at(
            pattern,
            base,
            tree.names.current_dir->Some_0,
            workspace,
            tree,
            r,
        ),
    }
}

/// What a search goes by.
pub open spec fn reach_of(t: GlobTask, search: Search) -> Reach {
    Reach {
        current: search.current@,
        bounds: path_option(search.bounds),
    }
}

/// What comes of a search for files that has come to a stage.
pub open spec fn comes_of_glob_task(t: GlobTask, tree: Tree, r: GlobOutcome) -> bool {
    match t.stage {
        GlobStage::Resolving { resolution, workspace } => match led(resolution, tree.names) {
            None => r == GlobOutcome::Err(FileError::Host),
            Some(base) => comes_of_glob_at(
                t.pattern@,
                base,
                tree.names.current_dir->Some_0,
                path_option(workspace),
                tree,
                r,
            ),
        },
        GlobStage::Based { given, workspace } => match tree.names.current_dir {
            None => r == GlobOutcome::Err(FileError::Host),
            Some(current) => comes_of_glob_at(
                t.pattern@,
                match given {
                    Some(base) => base@,
                    None => current,
                },
                current,
                path_option(workspace),
                tree,
                r,
            ),
        },
        GlobStage::Bounding { base, current, root } => comes_of_glob_at(
            t.pattern@,
            base@,
            current@,
            Some(root@),
            tree,
            r,
        ),
        GlobStage::Rooting { search, glob, start } => {
            let root = path_option(search.bounds)->Some_0;
            let lead = match (tree.names.canonical)(start@) {
                Some(p) => p,
                None => start@,
            };
            if in_workspace(lead, root) {
                comes_of_walk(t, search, glob@, start@, tree, r)
            } else {
                r matches Err(e) && is_escape(e, lead, root)
            }
        },
        GlobStage::Walking { search, glob, start } => comes_of_walk(
            t,
            search,
            glob@,
            start@,
            tree,
            r,
        ),
        GlobStage::Checking { search, candidate, waiting } => reach_of(t, search).comes_of_found(
            texts(search.pending@),
            byte_texts(search.found@),
            byte_texts(waiting@).push(candidate@),
            path_option(search.bounds)->Some_0,
            tree,
            r,
        ),
        GlobStage::Dating { found } => r matches Ok(output) && is_glob_output(
            output,
            byte_texts(found@),
            (tree.times)(byte_texts(found@)),
            tree.millis,
        ),
        GlobStage::Timing { output } => r == GlobOutcome::Ok(
            GlobSearchOutput { duration_ms: tree.millis, ..output },
        ),
    }
}

/// What comes of a search for files once the directory that a glob starts from is
/// walked.
pub open spec fn comes_of_walk(
    t: GlobTask,
    search: Search,
    glob: Seq<char>,
    start: Seq<u8>,
    tree: Tree,
    r: GlobOutcome,
) -> bool {
    let entries = (tree.entries)(start);
    let found = byte_texts(search.found@);
    let found_now = fresh(entries, matches_of(entries, start, glob), found);
    match path_option(search.bounds) {
        None => reach_of(t, search).comes_of_globs(
            texts(search.pending@),
            found + found_now,
            tree,
            r,
        ),
        Some(root) => reach_of(t, search).comes_of_found(
            texts(search.pending@),
            found,
            found_now.reverse(),
            root,
            tree,
            r,
        ),
    }
}

/// What holds of a search for files at every stage: the current directory is asked for to
/// resolve a relative path, and directories and files are held against a workspace where
/// there is one.
pub open spec fn glob_is_sound(t: GlobTask) -> bool {
    match t.stage {
        GlobStage::Resolving { resolution: Resolution::Relative { path, .. }, .. } => !is_absolute(
            path@,
        ),
        GlobStage::Rooting { search, .. } => search.bounds is Some,
        GlobStage::Checking { search, .. } => search.bounds is Some,
        _ => true,
    }
}

/// Going on with `next` leads to what comes of going through the globs `pending`.
spec fn leads_to_globs(
    reach: Reach,
    pending: Seq<Seq<char>>,
    found: Seq<Seq<u8>>,
    next: GlobProgress,
    tree: Tree,
) -> bool {
    match next {
        Progress::Finished(r) => reach.comes_of_globs(pending, found, tree, r),
        Progress::Waiting(u) => glob_is_sound(u) && forall|r: GlobOutcome| #[trigger]
            comes_of_glob_task(u, tree, r) ==> reach.comes_of_globs(pending, found, tree, r),
    }
}

/// With its next glob, a search for files keeps to its outcome.
proof fn lemma_next_glob_keeps_outcome(
    t: GlobTask,
    search: Search,
    next: GlobProgress,
    tree: Tree,
)
    requires
        takes_next_glob(t, search, next),
    ensures
        leads_to_globs(
            reach_of(t, search),
            texts(search.pending@),
            byte_texts(search.found@),
            next,
            tree,
        ),
{
    let pending = texts(search.pending@);
    if pending.len() > 0 {
        assert(pending.last() == search.pending@.last()@);
        assert(pending.drop_last() =~= texts(search.pending@.drop_last()));
    }
}

/// With the next file that it found, a search for files keeps to its outcome.
proof fn lemma_next_found_keeps_outcome(
    t: GlobTask,
    search: Search,
    waiting: Seq<Vec<u8>>,
    next: GlobProgress,
    tree: Tree,
)
    requires
        search.bounds is Some,
        checks_next(t, search, waiting, next),
    ensures
        match next {
            Progress::Finished(r) => reach_of(t, search).comes_of_found(
                texts(search.pending@),
                byte_texts(search.found@),
                byte_texts(waiting),
                path_option(search.bounds)->Some_0,
                tree,
                r,
            ),
            Progress::Waiting(u) => glob_is_sound(u) && forall|r: GlobOutcome| #[trigger]
                comes_of_glob_task(u, tree, r) ==> reach_of(t, search).comes_of_found(
                    texts(search.pending@),
                    byte_texts(search.found@),
                    byte_texts(waiting),
                    path_option(search.bounds)->Some_0,
                    tree,
                    r,
                ),
        },
{
    if waiting.len() == 0 {
        lemma_next_glob_keeps_outcome(t, search, next, tree);
    } else {
        assert(byte_texts(waiting.drop_last()).push(waiting.last()@) =~= byte_texts(waiting));
    }
}

/// When it begins to go through its globs, a search for files keeps to its outcome.
proof fn lemma_first_glob_keeps_outcome(t: GlobTask, next: GlobProgress, tree: Tree)
    ensures
        forall|base: Seq<u8>, current: Vec<u8>, bounds: Option<Vec<u8>>| #[trigger]
            begins_globs(t, base, current, bounds, next) ==> leads_to_globs(
                Reach { current: current@, bounds: path_option(bounds) },
                expanded(search_text(t.pattern@, base)).reverse(),
                seq![],
                next,
                tree,
            ),
{
    assert forall|base: Seq<u8>, current: Vec<u8>, bounds: Option<Vec<u8>>| #[trigger]
        begins_globs(t, base, current, bounds, next) implies leads_to_globs(
        Reach { current: current@, bounds: path_option(bounds) },
        expanded(search_text(t.pattern@, base)).reverse(),
        seq![],
        next,
        tree,
    ) by {
        let search = choose|search: Search|
            {
                &&& search.current == current
                &&& search.bounds == bounds
                &&& texts(search.pending@) == expanded(
                    search_text(t.pattern@, base),
                ).reverse()
                &&& search.found@.len() == 0
                &&& #[trigger] takes_next_glob(t, search, next)
            };
        lemma_next_glob_keeps_outcome(t, search, next, tree);
        assert(byte_texts(search.found@) =~= seq![]);
    }
}

/// A search for files comes to what its beginning promises.
pub proof fn law_glob_search_begins_its_outcome(
    t: GlobTask,
    pattern: Seq<char>,
    path: Option<Seq<char>>,
    workspace: Option<Seq<u8>>,
    tree: Tree,
)
    requires
        begins_glob_search(t, pattern, path, workspace),
    ensures
        glob_is_sound(t),
        forall|r: GlobOutcome| #[trigger]
            comes_of_glob_task(t, tree, r) ==> comes_of_glob_search(
                pattern,
                path,
                workspace,
                tree,
                r,
            ),
{
    if let GlobStage::Resolving { resolution, .. } = t.stage {
        law_resolution_begins_at_path(
            resolution,
            encode_utf8(path->Some_0),
            false,
            tree.names,
        );
    }
}

/// With every reply of a steady host a search for files keeps to its outcome: when it
/// finishes, it is with what comes of it; as long as it waits, whatever comes of it later
/// is what comes of it now.
pub proof fn law_glob_search_keeps_to_its_outcome(
    t: GlobTask,
    reply: Reply,
    next: GlobProgress,
    tree: Tree,
)
    requires
        glob_is_sound(t),
        tree.gives(t.ask(), reply),
        glob_goes_on(t, reply, next),
    ensures
        match next {
            Progress::Finished(r) => comes_of_glob_task(t, tree, r),
            Progress::Waiting(u) => glob_is_sound(u) && forall|r: GlobOutcome| #[trigger]
                comes_of_glob_task(u, tree, r) ==> comes_of_glob_task(t, tree, r),
        },
{
    match t.stage {
        GlobStage::Resolving { resolution, .. } => {
            let p = match next {
                Progress::Waiting(u) => match u.stage {
                    GlobStage::Resolving { resolution: s, .. } => ResolutionProgress::Waiting(s),
                    GlobStage::Based { given, .. } => ResolutionProgress::Finished(
                        Ok(given->Some_0),
                    ),
                    _ => arbitrary(),
                },
                Progress::Finished(r) => ResolutionProgress::Finished(Err(r->Err_0)),
            };
            law_resolution_leads_to_target(resolution, reply, p, tree.names);
        },
        GlobStage::Based { given, workspace } => {
            if workspace is None && reply is Path {
                lemma_first_glob_keeps_outcome(t, next, tree);
            }
        },
        GlobStage::Bounding { .. } => {
            lemma_first_glob_keeps_outcome(t, next, tree);
        },
        GlobStage::Walking { search, glob, start } => {
            let entries = (tree.entries)(start@);
            let found = byte_texts(search.found@);
            let found_now = fresh(entries, matches_of(entries, start@, glob@), found);
            if search.bounds is Some {
                let waiting = choose|waiting: Seq<Vec<u8>>|
                    byte_texts(waiting) == found_now.reverse() && #[trigger] checks_next(
                        t,
                        search,
                        waiting,
                        next,
                    );
                lemma_next_found_keeps_outcome(t, search, waiting, next, tree);
            } else {
                let s = choose|s: Search|
                    {
                        &&& s == Search { found: s.found, ..search }
                        &&& byte_texts(s.found@) == found + found_now
                        &&& #[trigger] takes_next_glob(t, s, next)
                    };
                lemma_next_glob_keeps_outcome(t, s, next, tree);
            }
        },
        GlobStage::Checking { search, candidate, waiting } => {
            let ps = byte_texts(waiting@).push(candidate@);
            assert(ps.drop_last() =~= byte_texts(waiting@));
            if let Reply::Path(lead) = reply {
                if in_workspace(lead@, search.bounds->Some_0@) {
                    let s = choose|s: Search|
                        {
                            &&& s == Search { found: s.found, ..search }
                            &&& s.found@ == search.found@.push(candidate)
                            &&& #[trigger] checks_next(t, s, waiting@, next)
                        };
                    assert(byte_texts(s.found@) =~= byte_texts(search.found@).push(candidate@));
                    lemma_next_found_keeps_outcome(t, s, waiting@, next, tree);
                }
            }
        },
        _ => {},
    }
}

/// In a run, the host gives the reply that the `i`th task asks for, and the task goes on
/// to the next one.
pub open spec fn glob_goes_on_at(
    tasks: Seq<GlobTask>,
    replies: Seq<Reply>,
    r: GlobOutcome,
    tree: Tree,
    i: int,
) -> bool {
    let next = if i + 1 < tasks.len() {
        GlobProgress::Waiting(tasks[i + 1])
    } else {
        GlobProgress::Finished(r)
    };
    tree.gives(tasks[i].ask(), replies[i]) && glob_goes_on(tasks[i], replies[i], next)
}

/// A search for files runs through `tasks` on a host that gives `replies`, and comes to `r`.
pub open spec fn is_glob_run(
    tasks: Seq<GlobTask>,
    replies: Seq<Reply>,
    r: GlobOutcome,
    tree: Tree,
) -> bool {
    &&& tasks.len() > 0
    &&& replies.len() == tasks.len()
    &&& forall|i: int|
        0 <= i < tasks.len() ==> #[trigger] glob_goes_on_at(tasks, replies, r, tree, i)
}

/// What a run comes to is what comes of each of its tasks.
proof fn lemma_glob_run_keeps_outcome(
    tasks: Seq<GlobTask>,
    replies: Seq<Reply>,
    r: GlobOutcome,
    tree: Tree,
    i: int,
)
    requires
        is_glob_run(tasks, replies, r, tree),
        glob_is_sound(tasks[i]),
        0 <= i < tasks.len(),
    ensures
        comes_of_glob_task(tasks[i], tree, r),
    decreases tasks.len() - i,
{
    assert(glob_goes_on_at(tasks, replies, r, tree, i));
    if i + 1 < tasks.len() {
        law_glob_search_keeps_to_its_outcome(
            tasks[i],
            replies[i],
            GlobProgress::Waiting(tasks[i + 1]),
            tree,
        );
        lemma_glob_run_keeps_outcome(tasks, replies, r, tree, i + 1);
    } else {
        law_glob_search_keeps_to_its_outcome(tasks[i], replies[i], GlobProgress::Finished(r), tree);
    }
}

/// However a search for files runs, it comes to what comes of it.
pub proof fn law_glob_run_comes_to_outcome(
    pattern: Seq<char>,
    path: Option<Seq<char>>,
    workspace: Option<Seq<u8>>,
    tasks: Seq<GlobTask>,
    replies: Seq<Reply>,
    r: GlobOutcome,
    tree: Tree,
)
    requires
        is_glob_run(tasks, replies, r, tree),
        begins_glob_search(tasks[0], pattern, path, workspace),
    ensures
        comes_of_glob_search(pattern, path, workspace, tree, r),
{
    law_glob_search_begins_its_outcome(tasks[0], pattern, path, workspace, tree);
    lemma_glob_run_keeps_outcome(tasks, replies, r, tree, 0);
}

/// Both searches look for the same in the same files, and take the same part of what they
/// find. How they report it may differ.
pub open spec fn ask_alike(a: GrepSearchInput, b: GrepSearchInput) -> bool {
    &&& a.pattern@ == b.pattern@
    &&& a.case_insensitive == b.case_insensitive
    &&& a.multiline == b.multiline
    &&& string_option(a.path) == string_option(b.path)
    &&& string_option(a.glob) == string_option(b.glob)
    &&& string_option(a.file_type) == string_option(b.file_type)
    &&& a.head_limit == b.head_limit
    &&& a.offset == b.offset
}

/// Both searches report the same files, or neither reports any.
spec fn report_same_files(
    a: GrepSearchInput,
    ra: GrepOutcome,
    b: GrepSearchInput,
    rb: GrepOutcome,
) -> bool {
    match (ra, rb) {
        (Ok(oa), Ok(ob)) => exists|na: Notes, nb: Notes|
            {
                &&& na.filenames == nb.filenames
                &&& #[trigger] is_grep_output(oa, na, a)
                &&& #[trigger] is_grep_output(ob, nb, b)
            },
        (Err(_), Err(_)) => true,
        _ => false,
    }
}

proof fn lemma_modes_note_same_files(
    ta: Terms,
    tb: Terms,
    na: Notes,
    nb: Notes,
    waiting: Seq<Seq<u8>>,
    tree: Tree,
    ra: GrepOutcome,
    rb: GrepOutcome,
)
    requires
        ask_alike(ta.input, tb.input),
        tb == (Terms { input: tb.input, ..ta }),
        mode_of(ta.input) != "count"@,
        mode_of(tb.input) != "count"@,
        na.filenames == nb.filenames,
        ta.comes_of_files(na, waiting, tree, ra),
        tb.comes_of_files(nb, waiting, tree, rb),
    ensures
        report_same_files(ta.input, ra, tb.input, rb),
    decreases waiting.len(),
{
    if waiting.len() == 0 {
        if let (Ok(oa), Ok(ob)) = (ra, rb) {
            assert(is_grep_output(oa, na, ta.input) && is_grep_output(ob, nb, tb.input));
        }
    } else {
        let p = waiting.last();
        let ma = ta.with_searched(na, p, tree);
        let mb = tb.with_searched(nb, p, tree);
        assert(ma.filenames == mb.filenames);
        let goes_on = match ta.bounds {
            None => true,
            Some(root) => match (tree.names.canonical)(p) {
                None => false,
                Some(lead) => in_workspace(lead, root),
            },
        };
        if goes_on {
            lemma_modes_note_same_files(ta, tb, ma, mb, waiting.drop_last(), tree, ra, rb);
        }
    }
}

/// Whatever a search through text reports of them, it reports the same files: two
/// searches that ask alike, neither of which counts, succeed or fail together, and where they succeed they name the same files and count no matches. Lines
/// come with the mode `content`, and with no other.
pub proof fn law_modes_report_same_files(
    a: GrepSearchInput,
    b: GrepSearchInput,
    workspace: Option<Seq<u8>>,
    tree: Tree,
    ra: GrepOutcome,
    rb: GrepOutcome,
)
    requires
        ask_alike(a, b),
        mode_of(a) != "count"@,
        mode_of(b) != "count"@,
        comes_of_grep_search(a, workspace, tree, ra),
        comes_of_grep_search(b, workspace, tree, rb),
    ensures
        ra is Ok <==> rb is Ok,
        (ra, rb) matches (Ok(oa), Ok(ob)) ==> {
            &&& texts(oa.filenames@) == texts(ob.filenames@)
            &&& oa.num_files == ob.num_files == ob.filenames@.len()
            &&& string_option(oa.mode) == Some(mode_of(a))
            &&& string_option(ob.mode) == Some(mode_of(b))
            &&& oa.num_matches is None && ob.num_matches is None
            &&& mode_of(a) == "content"@ <==> oa.content is Some
            &&& mode_of(a) == "content"@ <==> oa.num_lines is Some
            &&& mode_of(b) == "content"@ <==> ob.content is Some
            &&& mode_of(b) == "content"@ <==> ob.num_lines is Some
        },
{
    if let Some(base) = start_of(tree.names, string_option(a.path)) {
        let bounds = match workspace {
            None => None,
            Some(root) => Some(root_in_force(root, (tree.names.canonical)(root))),
        };
        let inside = bounds matches Some(root) ==> in_workspace(base, root);
        let q = query_of(a);
        let compiles = regex_build(q.pattern, q.case_insensitive, q.dot_matches_new_line) is Ok
            && filter_failure(a) is None;
        if inside && compiles {
            let filter = filter_text(a);
            let ta = Terms { input: a, query: q, filter, bounds };
            let tb = Terms { input: b, query: q, filter, bounds };
            let none = no_notes();
            if (tree.is_file)(base) {
                lemma_modes_note_same_files(ta, tb, none, none, seq![base], tree, ra, rb);
            } else if let Some(files) = (tree.files)(base) {
                lemma_modes_note_same_files(ta, tb, none, none, files.reverse(), tree, ra, rb);
            }
        }
    }
    if let (Ok(oa), Ok(ob)) = (ra, rb) {
        assert(texts(ob.filenames@).len() == ob.filenames@.len());
    }
}

/// The mode that reports lines and the mode that reports names, which is the one where
/// none is given, report the same files.
pub proof fn law_content_and_names_report_same_files(
    a: GrepSearchInput,
    b: GrepSearchInput,
    workspace: Option<Seq<u8>>,
    tree: Tree,
    ra: GrepOutcome,
    rb: GrepOutcome,
)
    requires
        ask_alike(a, b),
        string_option(a.output_mode) == Some("content"@),
        b.output_mode is None || string_option(b.output_mode) == Some("files_with_matches"@),
        comes_of_grep_search(a, workspace, tree, ra),
        comes_of_grep_search(b, workspace, tree, rb),
    ensures
        ra is Ok <==> rb is Ok,
        (ra, rb) matches (Ok(oa), Ok(ob)) ==> {
            &&& texts(oa.filenames@) == texts(ob.filenames@)
            &&& oa.num_files == ob.num_files == ob.filenames@.len()
            &&& string_option(ob.mode) == Some("files_with_matches"@)
            &&& ob.content is None && ob.num_lines is None
            &&& oa.content is Some && oa.num_lines is Some
            &&& oa.num_matches is None && ob.num_matches is None
        },
{
    reveal_strlit("content");
    reveal_strlit("count");
    reveal_strlit("files_with_matches");
    assert("content"@.len() != "count"@.len());
    assert("files_with_matches"@.len() != "count"@.len());
    assert("files_with_matches"@.len() != "content"@.len());
    law_modes_report_same_files(a, b, workspace, tree, ra, rb);
}

} // verus!
