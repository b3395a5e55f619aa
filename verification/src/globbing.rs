//! The search for files by name, with or without a workspace that it has to stay in.
//!
//! The search is a [`GlobTask`]. For each of the globs that the pattern stands for it
//! has the host walk below the directory that the glob starts from, and takes the files
//! that match.

use vstd::prelude::*;
use vstd::string::*;
use vstd::utf8::*;

use crate::braces::{expand_braces, expanded};
use crate::error::FileError;
use crate::host::{reply_path, Ask, Progress, Reply, Request};
use crate::lines::texts;
use crate::listing::{
    build_glob_output, fresh, is_glob_output, match_entries, matches_of, select_fresh,
};
use crate::matchers::{glob_build, Glob};
use crate::outputs::GlobSearchOutput;
use crate::paths::{byte_texts, bytes_of, is_absolute, join, path_is_absolute, path_join, HOST};
use crate::resolve::{
    begins_resolution, normalize_path, resolution_goes_on, Resolution, ResolutionProgress,
};
use crate::text::{lossy_text, path_text, text_option};
use crate::workspace::{
    canonicalize_workspace_root, derive_glob_walk_root, in_workspace, is_escape,
    normalize_glob_pattern_text, path_option, pattern_text, root_in_force,
    validate_workspace_boundary, walk_root,
};

verus! {

/// What a search has still to do, and what it has found.
#[derive(Debug)]
pub struct Search {
    /// The current directory.
    pub current: Vec<u8>,
    /// The root of the workspace that the search has to stay in, if there is one.
    pub bounds: Option<Vec<u8>>,
    /// The globs that were not searched for yet, the next of them last.
    pub pending: Vec<String>,
    /// The files that were found.
    pub found: Vec<Vec<u8>>,
}

/// How far a search is.
pub enum GlobStage {
    /// The directory to search is resolved.
    Resolving { resolution: Resolution, workspace: Option<Vec<u8>> },
    /// The current directory is asked for.
    Based { given: Option<Vec<u8>>, workspace: Option<Vec<u8>> },
    /// The root of the workspace is resolved.
    Bounding { base: Vec<u8>, current: Vec<u8>, root: Vec<u8> },
    /// The directory that a glob starts from is resolved, so that it can be held against
    /// the workspace.
    Rooting { search: Search, glob: Glob, start: Vec<u8> },
    /// The directory that a glob starts from is walked.
    Walking { search: Search, glob: Glob, start: Vec<u8> },
    /// A file that matches is resolved, so that it can be held against the workspace.
    /// Those that follow it wait, the next of them last.
    Checking { search: Search, candidate: Vec<u8>, waiting: Vec<Vec<u8>> },
    /// The times of the files that were found are asked for.
    Dating { found: Vec<Vec<u8>> },
    /// The duration of the search is asked for.
    Timing { output: GlobSearchOutput },
}

/// A search for files by name that waits for a reply of the host.
pub struct GlobTask {
    pub pattern: String,
    pub stage: GlobStage,
}

/// A search that waits for a reply, or what has come of it.
pub type GlobProgress = Progress<GlobTask, Result<GlobSearchOutput, FileError>>;

impl GlobTask {
    /// The search, now at another stage.
    pub open spec fn at(self, stage: GlobStage) -> GlobTask {
        GlobTask { stage, ..self }
    }
}

/// The text that is searched for, where the pattern is relative to `base`.
pub open spec fn search_text(pattern: Seq<char>, base: Seq<u8>) -> Seq<char> {
    let bytes = encode_utf8(pattern);
    pattern_text(
        if is_absolute(bytes) {
            pattern
        } else {
            lossy_text(join(base, bytes))
        },
        HOST,
    )
}

/// The globs that are searched for, in their order.
pub fn search_globs(pattern: &str, base: &Vec<u8>) -> (r: Vec<String>)
    ensures
        texts(r@) == expanded(search_text(pattern@, base@)),
        !is_absolute(encode_utf8(pattern@)) && valid_utf8(join(base@, encode_utf8(pattern@)))
            ==> search_text(pattern@, base@) == pattern_text(
            decode_utf8(join(base@, encode_utf8(pattern@))),
            HOST,
        ),
{
    let bytes = pattern.as_bytes();
    let text = if path_is_absolute(bytes) {
        pattern.to_owned()
    } else {
        let joined = path_join(base.as_slice(), bytes);
        path_text(&joined)
    };
    let search_pattern = normalize_glob_pattern_text(text.as_str(), HOST);
    expand_braces(search_pattern.as_str())
}

/// A list from its end to its beginning.
pub(crate) fn reversed<T>(list: Vec<T>) -> (r: Vec<T>)
    ensures
        r@ == list@.reverse(),
{
    let mut list = list;
    let mut r: Vec<T> = Vec::new();
    let ghost all = list@;
    while list.len() > 0
        invariant
            list@.len() <= all.len(),
            list@ == all.take(list@.len() as int),
            r@ == all.skip(list@.len() as int).reverse(),
        decreases list@.len(),
    {
        let ghost n = list@.len() as int;
        if let Some(last) = list.pop() {
            r.push(last);
            assert(r@ =~= all.skip(n - 1).reverse());
            assert(list@ =~= all.take(n - 1));
        }
    }
    assert(all.skip(0) =~= all);
    r
}

/// How a search goes on with the globs that are pending: it compiles the next of them
/// and turns to the directory that it starts from; where none is left, it asks for the
/// times of what it found.
pub open spec fn takes_next_glob(t: GlobTask, search: Search, next: GlobProgress) -> bool {
    if search.pending@.len() == 0 {
        next == GlobProgress::Waiting(t.at(GlobStage::Dating { found: search.found }))
    } else {
        let text = search.pending@.last()@;
        match glob_build(text) {
            Err(m) => next matches Progress::Finished(Err(FileError::InvalidPattern { message }))
                && message@ == m,
            Ok(_) => {
                &&& next matches Progress::Waiting(u)
                &&& u == t.at(u.stage)
                &&& match u.stage {
                    GlobStage::Rooting { search: s, glob, start } => search.bounds is Some
                        && starts_glob(search, s, glob, start),
                    GlobStage::Walking { search: s, glob, start } => search.bounds is None
                        && starts_glob(search, s, glob, start),
                    _ => false,
                }
            },
        }
    }
}

/// The search `s` is what `search` is once it took the next glob, which is `glob` and
/// starts from `start`.
pub open spec fn starts_glob(search: Search, s: Search, glob: Glob, start: Vec<u8>) -> bool {
    let text = search.pending@.last()@;
    &&& s.pending@ == search.pending@.drop_last()
    &&& s == Search { pending: s.pending, ..search }
    &&& glob@ == text
    &&& start@ == walk_root(encode_utf8(text), search.current@)
}

/// How a search goes on that found the files `waiting`, the next of them last, and has
/// to hold each against the workspace.
pub open spec fn checks_next(
    t: GlobTask,
    search: Search,
    waiting: Seq<Vec<u8>>,
    next: GlobProgress,
) -> bool {
    if waiting.len() == 0 {
        takes_next_glob(t, search, next)
    } else {
        &&& next matches Progress::Waiting(u)
        &&& u == t.at(u.stage)
        &&& u.stage matches GlobStage::Checking { search: s, candidate, waiting: w }
        &&& s == search
        &&& candidate == waiting.last()
        &&& w@ == waiting.drop_last()
    }
}

/// How a search begins to go through its globs.
pub open spec fn begins_globs(
    t: GlobTask,
    base: Seq<u8>,
    current: Vec<u8>,
    bounds: Option<Vec<u8>>,
    next: GlobProgress,
) -> bool {
    exists|search: Search|
        {
            &&& search.current == current
            &&& search.bounds == bounds
            &&& texts(search.pending@) == expanded(
                search_text(t.pattern@, base),
            ).reverse()
            &&& search.found@.len() == 0
            &&& #[trigger] takes_next_glob(t, search, next)
        }
}

/// A path is let pass: there is no workspace, or it lies in it.
pub open spec fn let_pass(bounds: Option<Vec<u8>>, path: Seq<u8>) -> bool {
    bounds matches Some(root) ==> in_workspace(path, root@)
}

/// The refusal of a path that does not lie in the workspace.
pub open spec fn refused(
    e: FileError,
    bounds: Option<Vec<u8>>,
    path: Seq<u8>,
) -> bool {
    bounds matches Some(root) && is_escape(e, path, root@)
}

/// Refuses a path that does not lie in the workspace, if there is one.
pub(crate) fn check_bounds(bounds: &Option<Vec<u8>>, path: &Vec<u8>) -> (r:
    Result<(), FileError>)
    ensures
        r is Ok <==> let_pass(*bounds, path@),
        r matches Err(e) ==> refused(e, *bounds, path@),
{
    match bounds {
        Some(root) => validate_workspace_boundary(path.as_slice(), root.as_slice()),
        None => Ok(()),
    }
}

/// How a search goes on once the current directory is known.
pub open spec fn is_based(
    t: GlobTask,
    base: Vec<u8>,
    current: Vec<u8>,
    workspace: Option<Vec<u8>>,
    next: GlobProgress,
) -> bool {
    match workspace {
        Some(root) => next == GlobProgress::Waiting(
            t.at(GlobStage::Bounding { base, current, root }),
        ),
        None => begins_globs(t, base@, current, None, next),
    }
}

/// How a search goes on once the entries below the directory that a glob starts from are
/// known.
pub open spec fn is_walked(
    t: GlobTask,
    search: Search,
    found_now: Seq<Seq<u8>>,
    next: GlobProgress,
) -> bool {
    match search.bounds {
        Some(_) => exists|waiting: Seq<Vec<u8>>|
            byte_texts(waiting) == found_now.reverse() && #[trigger] checks_next(
                t,
                search,
                waiting,
                next,
            ),
        None => exists|s: Search|
            {
                &&& s == Search { found: s.found, ..search }
                &&& byte_texts(s.found@) == byte_texts(search.found@) + found_now
                &&& #[trigger] takes_next_glob(t, s, next)
            },
    }
}

/// How a search goes on after a reply.
pub open spec fn glob_goes_on(t: GlobTask, reply: Reply, next: GlobProgress) -> bool {
    match t.stage {
        GlobStage::Resolving { resolution, workspace } => match next {
            Progress::Waiting(u) => u == t.at(u.stage) && match u.stage {
                GlobStage::Resolving { resolution: r, workspace: w } => w == workspace
                    && resolution_goes_on(resolution, reply, ResolutionProgress::Waiting(r)),
                GlobStage::Based { given: Some(base), workspace: w } => w == workspace
                    && resolution_goes_on(
                    resolution,
                    reply,
                    ResolutionProgress::Finished(Ok(base)),
                ),
                _ => false,
            },
            Progress::Finished(Err(e)) => resolution_goes_on(
                resolution,
                reply,
                ResolutionProgress::Finished(Err(e)),
            ),
            Progress::Finished(Ok(_)) => false,
        },
        GlobStage::Based { given, workspace } => match reply {
            Reply::Path(current) => match given {
                Some(b) => is_based(t, b, current, workspace, next),
                None => exists|b: Vec<u8>|
                    b@ == current@ && #[trigger] is_based(t, b, current, workspace, next),
            },
            _ => next == GlobProgress::Finished(Err(FileError::Host)),
        },
        GlobStage::Bounding { base, current, root } => {
            let in_force = root_in_force(root@, reply_path(reply));
            if in_workspace(base@, in_force) {
                exists|w: Vec<u8>|
                    w@ == in_force && #[trigger] begins_globs(t, base@, current, Some(w), next)
            } else {
                next matches Progress::Finished(Err(e)) && is_escape(
                    e,
                    base@,
                    in_force,
                )
            }
        },
        GlobStage::Rooting { search, glob, start } => {
            let lead = match reply {
                Reply::Path(p) => p@,
                _ => start@,
            };
            if let_pass(search.bounds, lead) {
                next == GlobProgress::Waiting(t.at(GlobStage::Walking { search, glob, start }))
            } else {
                next matches Progress::Finished(Err(e)) && refused(
                    e,
                    search.bounds,
                    lead,
                )
            }
        },
        GlobStage::Walking { search, glob, start } => match reply {
            Reply::Entries(entries) => is_walked(
                t,
                search,
                fresh(
                    entries@,
                    matches_of(entries@, start@, glob@),
                    byte_texts(search.found@),
                ),
                next,
            ),
            _ => next == GlobProgress::Finished(Err(FileError::Host)),
        },
        GlobStage::Checking { search, candidate, waiting } => match reply {
            Reply::Path(lead) => if let_pass(search.bounds, lead@) {
                exists|s: Search|
                    {
                        &&& s == Search { found: s.found, ..search }
                        &&& s.found@ == search.found@.push(candidate)
                        &&& #[trigger] checks_next(t, s, waiting@, next)
                    }
            } else {
                next matches Progress::Finished(Err(e)) && refused(
                    e,
                    search.bounds,
                    lead@,
                )
            },
            _ => next == GlobProgress::Finished(Err(FileError::Host)),
        },
        GlobStage::Dating { found } => match reply {
            Reply::Times(times) if times@.len() == found@.len() => {
                &&& next matches Progress::Waiting(u)
                &&& u == t.at(u.stage)
                &&& u.stage matches GlobStage::Timing { output }
                &&& is_glob_output(output, byte_texts(found@), times@, 0)
            },
            _ => next == GlobProgress::Finished(Err(FileError::Host)),
        },
        GlobStage::Timing { output } => match reply {
            Reply::Millis(duration_ms) => next == GlobProgress::Finished(
                Ok(GlobSearchOutput { duration_ms, ..output }),
            ),
            _ => next == GlobProgress::Finished(Err(FileError::Host)),
        },
    }
}

impl GlobTask {
    /// What the search asks for.
    pub open spec fn ask(self) -> Ask {
        match self.stage {
            GlobStage::Resolving { resolution, .. } => resolution.ask(),
            GlobStage::Based { .. } => Ask::CurrentDir,
            GlobStage::Bounding { root, .. } => Ask::Canonicalize(root@),
            GlobStage::Rooting { start, .. } => Ask::Canonicalize(start@),
            GlobStage::Walking { start, .. } => Ask::Walk(start@),
            GlobStage::Checking { candidate, .. } => Ask::Canonicalize(candidate@),
            GlobStage::Dating { found } => Ask::ModifiedTimes(byte_texts(found@)),
            GlobStage::Timing { .. } => Ask::Elapsed,
        }
    }

    /// What the search asks for.
    pub fn request(&self) -> (r: Request<'_>)
        ensures
            r@ == self.ask(),
    {
        match &self.stage {
            GlobStage::Resolving { resolution, .. } => resolution.request(),
            GlobStage::Based { .. } => Request::CurrentDir,
            GlobStage::Bounding { root, .. } => Request::Canonicalize(root),
            GlobStage::Rooting { start, .. } => Request::Canonicalize(start),
            GlobStage::Walking { start, .. } => Request::Walk(start),
            GlobStage::Checking { candidate, .. } => Request::Canonicalize(candidate),
            GlobStage::Dating { found } => Request::ModifiedTimes(found),
            GlobStage::Timing { .. } => Request::Elapsed,
        }
    }

    /// Goes on with the globs that are pending.
    fn take_next_glob(pattern: String, search: Search) -> (next: GlobProgress)
        ensures
            forall|stage: GlobStage| #[trigger]
                takes_next_glob(GlobTask { pattern, stage }, search, next),
    {
        let Search { current, bounds, pending, found } = search;
        let mut pending = pending;
        let text = match pending.pop() {
            Some(text) => text,
            None => {
                let stage = GlobStage::Dating { found };
                return Progress::Waiting(GlobTask { pattern, stage });
            },
        };
        match Glob::new(text.as_str()) {
            Err(message) => Progress::Finished(Err(FileError::InvalidPattern { message })),
            Ok(glob) => {
                let start = derive_glob_walk_root(text.as_str(), current.as_slice());
                let guarded = bounds.is_some();
                let rest = Search { current, bounds, pending, found };
                assert(starts_glob(search, rest, glob, start));
                let stage = if guarded {
                    GlobStage::Rooting { search: rest, glob, start }
                } else {
                    GlobStage::Walking { search: rest, glob, start }
                };
                Progress::Waiting(GlobTask { pattern, stage })
            },
        }
    }

    /// Goes on with the files that wait to be held against the workspace.
    fn check_next(
        pattern: String,
        search: Search,
        waiting: Vec<Vec<u8>>,
    ) -> (next: GlobProgress)
        ensures
            forall|stage: GlobStage| #[trigger]
                checks_next(GlobTask { pattern, stage }, search, waiting@, next),
    {
        let ghost all = waiting@;
        let mut waiting = waiting;
        match waiting.pop() {
            Some(candidate) => {
                let stage = GlobStage::Checking { search, candidate, waiting };
                Progress::Waiting(GlobTask { pattern, stage })
            },
            None => {
                let next = GlobTask::take_next_glob(pattern, search);
                assert forall|stage: GlobStage| #[trigger]
                    checks_next(GlobTask { pattern, stage }, search, all, next) by {
                    assert(takes_next_glob(
                        GlobTask { pattern, stage },
                        search,
                        next,
                    ));
                }
                next
            },
        }
    }

    /// Begins to go through the globs.
    fn begin_globs(
        pattern: String,
        base: Vec<u8>,
        current: Vec<u8>,
        bounds: Option<Vec<u8>>,
    ) -> (next: GlobProgress)
        ensures
            forall|stage: GlobStage| #[trigger]
                begins_globs(GlobTask { pattern, stage }, base@, current, bounds, next),
    {
        let globs = search_globs(pattern.as_str(), &base);
        let ghost wanted = texts(globs@);
        let pending = reversed(globs);
        assert(texts(pending@) =~= wanted.reverse());
        let search = Search { current, bounds, pending, found: Vec::new() };
        let next = GlobTask::take_next_glob(pattern, search);
        assert forall|stage: GlobStage| #[trigger]
            begins_globs(
                GlobTask { pattern, stage },
                base@,
                current,
                bounds,
                next,
            ) by {
            assert(takes_next_glob(GlobTask { pattern, stage }, search, next));
        }
        next
    }

    /// Goes on once the entries below the directory that a glob starts from are known.
    fn take_found(pattern: String, search: Search, found_now: Vec<Vec<u8>>) -> (next:
        GlobProgress)
        ensures
            forall|stage: GlobStage| #[trigger]
                is_walked(
                    GlobTask { pattern, stage },
                    search,
                    byte_texts(found_now@),
                    next,
                ),
    {
        let ghost new_paths = byte_texts(found_now@);
        if search.bounds.is_some() {
            let waiting = reversed(found_now);
            let ghost queue = waiting@;
            assert(byte_texts(queue) =~= new_paths.reverse());
            let next = GlobTask::check_next(pattern, search, waiting);
            assert forall|stage: GlobStage| #[trigger]
                is_walked(
                    GlobTask { pattern, stage },
                    search,
                    new_paths,
                    next,
                ) by {
                assert(checks_next(GlobTask { pattern, stage }, search, queue, next));
            }
            next
        } else {
            let Search { current, bounds, pending, found } = search;
            let mut found = found;
            let mut found_now = found_now;
            let ghost before = found@;
            found.append(&mut found_now);
            assert(byte_texts(found@) =~= byte_texts(before) + new_paths);
            let search_now = Search { current, bounds, pending, found };
            let next = GlobTask::take_next_glob(pattern, search_now);
            assert forall|stage: GlobStage| #[trigger]
                is_walked(
                    GlobTask { pattern, stage },
                    search,
                    new_paths,
                    next,
                ) by {
                assert(takes_next_glob(
                    GlobTask { pattern, stage },
                    search_now,
                    next,
                ));
            }
            next
        }
    }

    /// Goes on after a reply.
    pub fn step(self, reply: Reply) -> (next: GlobProgress)
        ensures
            glob_goes_on(self, reply, next),
    {
        let ghost asked = self;
        let GlobTask { pattern, stage } = self;
        match stage {
            GlobStage::Resolving { resolution, workspace } => match resolution.step(reply) {
                Progress::Waiting(resolution) => {
                    let stage = GlobStage::Resolving { resolution, workspace };
                    Progress::Waiting(GlobTask { pattern, stage })
                },
                Progress::Finished(Ok(base)) => {
                    let stage = GlobStage::Based { given: Some(base), workspace };
                    Progress::Waiting(GlobTask { pattern, stage })
                },
                Progress::Finished(Err(e)) => Progress::Finished(Err(e)),
            },
            GlobStage::Based { given, workspace } => match reply {
                Reply::Path(current) => {
                    let base = match given {
                        Some(base) => base,
                        None => bytes_of(current.as_slice(), 0, current.len()),
                    };
                    assert(given is None ==> base@ =~= current@);
                    match workspace {
                        Some(root) => {
                            let stage = GlobStage::Bounding { base, current, root };
                            let next = Progress::Waiting(GlobTask { pattern, stage });
                            assert(is_based(asked, base, current, workspace, next));
                            next
                        },
                        None => {
                            let next = GlobTask::begin_globs(
                                pattern,
                                base,
                                current,
                                None,
                            );
                            assert(begins_globs(asked, base@, current, None, next));
                            assert(is_based(asked, base, current, workspace, next));
                            next
                        },
                    }
                },
                _ => Progress::Finished(Err(FileError::Host)),
            },
            GlobStage::Bounding { base, current, root } => {
                let canonical = match reply {
                    Reply::Path(p) => Some(p),
                    _ => None,
                };
                let in_force = canonicalize_workspace_root(root.as_slice(), canonical);
                match validate_workspace_boundary(base.as_slice(), in_force.as_slice()) {
                    Err(e) => Progress::Finished(Err(e)),
                    Ok(()) => {
                        let next = GlobTask::begin_globs(
                            pattern,
                            base,
                            current,
                            Some(in_force),
                        );
                        assert(begins_globs(asked, base@, current, Some(in_force), next));
                        next
                    },
                }
            },
            GlobStage::Rooting { search, glob, start } => {
                let checked = match &reply {
                    Reply::Path(p) => check_bounds(&search.bounds, p),
                    _ => check_bounds(&search.bounds, &start),
                };
                match checked {
                    Err(e) => Progress::Finished(Err(e)),
                    Ok(()) => {
                        let stage = GlobStage::Walking { search, glob, start };
                        Progress::Waiting(GlobTask { pattern, stage })
                    },
                }
            },
            GlobStage::Walking { search, glob, start } => match reply {
                Reply::Entries(entries) => {
                    let matched = match_entries(&glob, &entries, &start);
                    let found_now = select_fresh(&entries, &matched, &search.found);
                    let ghost new_paths = byte_texts(found_now@);
                    let next = GlobTask::take_found(pattern, search, found_now);
                    assert(is_walked(asked, search, new_paths, next));
                    next
                },
                _ => Progress::Finished(Err(FileError::Host)),
            },
            GlobStage::Checking { search, candidate, waiting } => match reply {
                Reply::Path(lead) => match check_bounds(&search.bounds, &lead) {
                    Err(e) => Progress::Finished(Err(e)),
                    Ok(()) => {
                        let Search { current, bounds, pending, found } = search;
                        let mut found = found;
                        found.push(candidate);
                        let ghost queue = waiting@;
                        let search_now = Search { current, bounds, pending, found };
                        let next = GlobTask::check_next(pattern, search_now, waiting);
                        assert(checks_next(asked, search_now, queue, next));
                        next
                    },
                },
                _ => Progress::Finished(Err(FileError::Host)),
            },
            GlobStage::Dating { found } => match reply {
                Reply::Times(times) => {
                    if times.len() != found.len() {
                        return Progress::Finished(Err(FileError::Host));
                    }
                    let output = build_glob_output(&found, &times, 0);
                    let stage = GlobStage::Timing { output };
                    Progress::Waiting(GlobTask { pattern, stage })
                },
                _ => Progress::Finished(Err(FileError::Host)),
            },
            GlobStage::Timing { output } => match reply {
                Reply::Millis(duration_ms) => {
                    let GlobSearchOutput { num_files, filenames, truncated, .. } = output;
                    Progress::Finished(
                        Ok(GlobSearchOutput { duration_ms, num_files, filenames, truncated }),
                    )
                },
                _ => Progress::Finished(Err(FileError::Host)),
            },
        }
    }
}

/// How a search begins: the path to search is resolved where there is one, and else the
/// current directory is asked for.
pub open spec fn begins_glob_search(
    t: GlobTask,
    pattern: Seq<char>,
    path: Option<Seq<char>>,
    workspace_root: Option<Seq<u8>>,
) -> bool {
    &&& t.pattern@ == pattern
    &&& match path {
        Some(p) => t.stage matches GlobStage::Resolving { resolution, workspace }
            && begins_resolution(resolution, encode_utf8(p), false) && path_option(workspace)
            == workspace_root,
        None => t.stage matches GlobStage::Based { given: None, workspace } && path_option(workspace)
            == workspace_root,
    }
}

/// Begins a search, in a workspace where there is one.
pub fn glob_search_impl(
    pattern: &str,
    path: Option<&str>,
    workspace: Option<Vec<u8>>,
) -> (t: GlobTask)
    ensures
        begins_glob_search(t, pattern@, text_option(path), path_option(workspace)),
{
    let stage = match path {
        Some(path) => GlobStage::Resolving { resolution: normalize_path(path), workspace },
        None => GlobStage::Based { given: None, workspace },
    };
    GlobTask { pattern: pattern.to_owned(), stage }
}

/// Expands a glob pattern and returns matching filenames.
pub fn glob_search(pattern: &str, path: Option<&str>) -> (t: GlobTask)
    ensures
        begins_glob_search(t, pattern@, text_option(path), None),
{
    glob_search_impl(pattern, path, None)
}

/// Expands a glob pattern with workspace boundary enforcement.
pub fn glob_search_in_workspace(
    pattern: &str,
    path: Option<&str>,
    workspace_root: &[u8],
) -> (t: GlobTask)
    ensures
        begins_glob_search(
            t,
            pattern@,
            text_option(path),
            Some(workspace_root@),
        ),
{
    let root = bytes_of(workspace_root, 0, workspace_root.len());
    assert(root@ =~= workspace_root@);
    glob_search_impl(pattern, path, Some(root))
}

} // verus!
