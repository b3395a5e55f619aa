//! What holds of the searches over all of their course: that they come to an end, and
//! that a search in a workspace stays in it.

use vstd::prelude::*;

use crate::globbing::{
    begins_glob_search, begins_globs, checks_next, glob_goes_on, takes_next_glob, GlobProgress,
    GlobStage, GlobTask, Search,
};
use crate::grepping::{
    begins_grep_search, grep_goes_on, takes_next_file, GrepProgress, GrepStage, GrepTask, Run,
};
use crate::host::{Ask, Progress, Reply, SteadyHost};
use crate::lines::texts;
use crate::listing::{is_glob_output, law_ranking_is_stable_order, listed, ranking};
use crate::outputs::{GlobSearchOutput, GrepSearchInput};
use crate::paths::{byte_texts, HOST};
use crate::text::lossy_text;
use crate::workspace::{in_workspace, path_option, pattern_text, root_in_force};

verus! {

/// The root that a steady host has a search held against.
pub open spec fn steady_root(root: Seq<u8>, host: SteadyHost) -> Seq<u8> {
    root_in_force(root, (host.canonical)(root))
}

/// The path exists on a steady host, and leads into the workspace.
pub open spec fn leads_inside(
    path: Seq<u8>,
    root: Seq<u8>,
    host: SteadyHost,
) -> bool {
    (host.canonical)(path) matches Some(lead) && in_workspace(
        lead,
        steady_root(root, host),
    )
}

/// All of the paths lead into the workspace.
pub open spec fn all_lead_inside(
    paths: Seq<Vec<u8>>,
    root: Seq<u8>,
    host: SteadyHost,
) -> bool {
    forall|i: int| 0 <= i < paths.len() ==> leads_inside((#[trigger] paths[i])@, root, host)
}

/// The directory leads into the workspace, or it does not exist and lies there by name.
pub open spec fn starts_inside(
    start: Seq<u8>,
    root: Seq<u8>,
    host: SteadyHost,
) -> bool {
    let lead = match (host.canonical)(start) {
        Some(p) => p,
        None => start,
    };
    in_workspace(lead, steady_root(root, host))
}

/// What a search goes by and has found is confined to the workspace.
pub open spec fn search_is_confined(
    search: Search,
    root: Seq<u8>,
    host: SteadyHost,
) -> bool {
    &&& path_option(search.bounds) == Some(steady_root(root, host))
    &&& all_lead_inside(search.found@, root, host)
}

/// The search for files is confined to the workspace `root`: it is held against it, and
/// what it walks and what it has found leads into it.
pub open spec fn glob_is_confined(t: GlobTask, root: Seq<u8>, host: SteadyHost) -> bool {
    match t.stage {
        GlobStage::Resolving { workspace, .. } => path_option(workspace) == Some(root),
        GlobStage::Based { workspace, .. } => path_option(workspace) == Some(root),
        GlobStage::Bounding { root: w, .. } => w@ == root,
        GlobStage::Rooting { search, .. } => search_is_confined(search, root, host),
        GlobStage::Walking { search, start, .. } => search_is_confined(
            search,
            root,
            host,
        ) && starts_inside(start@, root, host),
        GlobStage::Checking { search, .. } => search_is_confined(search, root, host),
        GlobStage::Dating { found } => all_lead_inside(found@, root, host),
        GlobStage::Timing { output } => names_lead_inside(output, root, host),
    }
}

/// `name` is the name of a file that leads into the workspace.
pub open spec fn names_inside(
    name: Seq<char>,
    root: Seq<u8>,
    host: SteadyHost,
) -> bool {
    exists|p: Seq<u8>| #[trigger] leads_inside(p, root, host) && name == pattern_text(
        lossy_text(p),
        HOST,
    )
}

/// Every file that is listed leads into the workspace.
pub open spec fn names_lead_inside(
    output: GlobSearchOutput,
    root: Seq<u8>,
    host: SteadyHost,
) -> bool {
    forall|i: int|
        0 <= i < output.filenames@.len() ==> names_inside(
            (#[trigger] output.filenames@[i])@,
            root,
            host,
        )
}

/// Where the files that were found lead into the workspace, so do those that are listed.
proof fn lemma_listing_leads_inside(
    output: GlobSearchOutput,
    found: Seq<Vec<u8>>,
    times: Seq<Option<i128>>,
    millis: u128,
    root: Seq<u8>,
    host: SteadyHost,
)
    requires
        all_lead_inside(found, root, host),
        times.len() == found.len(),
        is_glob_output(output, byte_texts(found), times, millis),
    ensures
        names_lead_inside(output, root, host),
{
    let paths = byte_texts(found);
    law_ranking_is_stable_order(times);
    assert forall|i: int| 0 <= i < output.filenames@.len() implies names_inside(
        (#[trigger] output.filenames@[i])@,
        root,
        host,
    ) by {
        assert(texts(output.filenames@).len() == listed(paths, times).len());
        assert(i < times.len());
        let k = ranking(times)[i];
        assert(texts(output.filenames@)[i] == listed(paths, times)[i]);
        assert(paths[k] == found[k]@);
        assert(leads_inside(found[k]@, root, host));
    }
}

proof fn lemma_next_glob_is_confined(
    t: GlobTask,
    search: Search,
    next: GlobProgress,
    root: Seq<u8>,
    host: SteadyHost,
)
    requires
        takes_next_glob(t, search, next),
        search_is_confined(search, root, host),
    ensures
        next matches Progress::Waiting(u) ==> glob_is_confined(u, root, host),
{
}

/// A search for files in a workspace begins confined to it.
pub proof fn law_glob_search_begins_confined(
    t: GlobTask,
    pattern: Seq<char>,
    path: Option<Seq<char>>,
    root: Seq<u8>,
    host: SteadyHost,
)
    requires
        begins_glob_search(t, pattern, path, Some(root)),
    ensures
        glob_is_confined(t, root, host),
{
}

/// On a steady host, a search for files in a workspace stays confined to it, whatever
/// its entries hold, and so every file that it lists in the end leads into it.
pub proof fn law_glob_search_stays_confined(
    t: GlobTask,
    reply: Reply,
    next: GlobProgress,
    root: Seq<u8>,
    host: SteadyHost,
)
    requires
        glob_is_confined(t, root, host),
        host.gives(t.ask(), reply),
        glob_goes_on(t, reply, next),
    ensures
        match next {
            Progress::Waiting(u) => glob_is_confined(u, root, host),
            Progress::Finished(Ok(output)) => names_lead_inside(output, root, host),
            Progress::Finished(Err(_)) => true,
        },
{
    match t.stage {
        GlobStage::Dating { found } => {
            if let (Progress::Waiting(u), Reply::Times(times)) = (next, reply) {
                lemma_listing_leads_inside(
                    u.stage->Timing_output,
                    found@,
                    times@,
                    0,
                    root,
                    host,
                );
            }
        },
        GlobStage::Timing { output } => {
            if let Progress::Finished(Ok(o)) = next {
                assert(o.filenames == output.filenames);
            }
        },
        GlobStage::Bounding { base, current, .. } => {
            let in_force = steady_root(root, host);
            if in_workspace(base@, in_force) {
                let w = choose|w: Vec<u8>|
                    w@ == in_force && #[trigger] begins_globs(t, base@, current, Some(w), next);
                let search = choose|search: Search|
                    {
                        &&& search.current == current
                        &&& search.bounds == Some(w)
                        &&& search.found@.len() == 0
                        &&& #[trigger] takes_next_glob(t, search, next)
                    };
                lemma_next_glob_is_confined(t, search, next, root, host);
            }
        },
        GlobStage::Walking { search, .. } => {
            if let Reply::Entries(_) = reply {
                let waiting = choose|waiting: Seq<Vec<u8>>| #[trigger]
                    checks_next(t, search, waiting, next);
                if waiting.len() == 0 {
                    lemma_next_glob_is_confined(t, search, next, root, host);
                }
            }
        },
        GlobStage::Checking { search, candidate, waiting } => {
            if next is Waiting {
                let s = choose|s: Search|
                    {
                        &&& s == Search { found: s.found, ..search }
                        &&& s.found@ == search.found@.push(candidate)
                        &&& #[trigger] checks_next(t, s, waiting@, next)
                    };
                assert(leads_inside(candidate@, root, host));
                assert(search_is_confined(s, root, host));
                if waiting@.len() == 0 {
                    lemma_next_glob_is_confined(t, s, next, root, host);
                }
            }
        },
        _ => {},
    }
}

/// What a search for files in a workspace has the host walk leads into the workspace,
/// as far as it exists, and so does each file that it has found. Before the base of the
/// search was held against the workspace, it only looks up names.
pub proof fn law_glob_search_touches_only_inside(t: GlobTask, root: Seq<u8>, host: SteadyHost)
    requires
        glob_is_confined(t, root, host),
    ensures
        match t.ask() {
            Ask::Walk(p) => starts_inside(p, root, host),
            Ask::ModifiedTimes(ps) => forall|i: int|
                0 <= i < ps.len() ==> leads_inside(#[trigger] ps[i], root, host),
            Ask::Elapsed => true,
            ask => ask.is_lookup(),
        },
{
    if let GlobStage::Dating { found } = t.stage {
        let ps = byte_texts(found@);
        assert forall|i: int| 0 <= i < ps.len() implies leads_inside(
            #[trigger] ps[i],
            root,
            host,
        ) by {
            assert(ps[i] == found@[i]@);
        }
    }
}

/// How far a search is from its end, in the order in which it counts: the phase, what is
/// pending, the stage, and what waits.
pub type Distance = (nat, nat, nat, nat);

/// `a` is less than `b` in the first place in which they differ.
pub open spec fn is_nearer(a: Distance, b: Distance) -> bool {
    a.0 < b.0 || (a.0 == b.0 && (a.1 < b.1 || (a.1 == b.1 && (a.2 < b.2 || (a.2 == b.2 && a.3
        < b.3)))))
}

/// How far a search for files is from its end.
pub open spec fn glob_distance(t: GlobTask) -> Distance {
    match t.stage {
        GlobStage::Resolving { resolution, .. } => (2, 0, 2 + resolution.replies_left(), 0),
        GlobStage::Based { .. } => (2, 0, 2, 0),
        GlobStage::Bounding { .. } => (2, 0, 1, 0),
        GlobStage::Rooting { search, .. } => (1, search.pending@.len(), 3, 0),
        GlobStage::Walking { search, .. } => (1, search.pending@.len(), 2, 0),
        GlobStage::Checking { search, waiting, .. } => (
            1,
            search.pending@.len(),
            1,
            waiting@.len(),
        ),
        GlobStage::Dating { .. } => (0, 0, 2, 0),
        GlobStage::Timing { .. } => (0, 0, 1, 0),
    }
}

/// A search for files comes to an end: each reply brings it nearer to it.
pub proof fn law_glob_search_comes_to_end(t: GlobTask, reply: Reply, next: GlobProgress)
    requires
        glob_goes_on(t, reply, next),
    ensures
        next matches Progress::Waiting(u) ==> is_nearer(glob_distance(u), glob_distance(t)),
{
}

/// What a search through text goes by is confined to the workspace.
pub open spec fn run_is_confined(
    run: Run,
    root: Seq<u8>,
    host: SteadyHost,
) -> bool {
    path_option(run.bounds) == Some(steady_root(root, host))
}

/// The search through text is confined to the workspace `root`: it is held against it,
/// and the path that it lists and the file that it reads leads into it.
pub open spec fn grep_is_confined(t: GrepTask, root: Seq<u8>, host: SteadyHost) -> bool {
    match t.stage {
        GrepStage::Resolving { workspace, .. } => path_option(workspace) == Some(root),
        GrepStage::Based { workspace, .. } => path_option(workspace) == Some(root),
        GrepStage::Bounding { root: w, .. } => w@ == root,
        GrepStage::Probing { base, run } => run_is_confined(run, root, host)
            && in_workspace(base@, steady_root(root, host)),
        GrepStage::Listing { base, run } => run_is_confined(run, root, host)
            && in_workspace(base@, steady_root(root, host)),
        GrepStage::Checking { run, .. } => run_is_confined(run, root, host),
        GrepStage::Loading { run, file, .. } => run_is_confined(run, root, host)
            && leads_inside(file@, root, host),
    }
}

/// A search through text in a workspace begins confined to it.
pub proof fn law_grep_search_begins_confined(
    t: GrepTask,
    input: GrepSearchInput,
    root: Seq<u8>,
    host: SteadyHost,
)
    requires
        begins_grep_search(t, input, Some(root)),
    ensures
        grep_is_confined(t, root, host),
{
}

/// On a steady host, a search through text in a workspace stays confined to it, whatever
/// the files are that the host lists.
pub proof fn law_grep_search_stays_confined(
    t: GrepTask,
    reply: Reply,
    next: GrepProgress,
    root: Seq<u8>,
    host: SteadyHost,
)
    requires
        grep_is_confined(t, root, host),
        host.gives(t.ask(), reply),
        grep_goes_on(t, reply, next),
    ensures
        next matches Progress::Waiting(u) ==> grep_is_confined(u, root, host),
{
}

/// What a search through text in a workspace lists lies in the workspace, and what it
/// reads leads into it. Before its base was held against the workspace, it only looks
/// up names.
pub proof fn law_grep_search_touches_only_inside(t: GrepTask, root: Seq<u8>, host: SteadyHost)
    requires
        grep_is_confined(t, root, host),
    ensures
        match t.ask() {
            Ask::IsFile(p) => in_workspace(p, steady_root(root, host)),
            Ask::WalkAll(p) => in_workspace(p, steady_root(root, host)),
            Ask::ReadText(p) => leads_inside(p, root, host),
            ask => ask.is_lookup(),
        },
{
}

/// How far a search through text is from its end.
pub open spec fn grep_distance(t: GrepTask) -> Distance {
    match t.stage {
        GrepStage::Resolving { resolution, .. } => (3, 0, 2 + resolution.replies_left(), 0),
        GrepStage::Based { .. } => (3, 0, 2, 0),
        GrepStage::Bounding { .. } => (3, 0, 1, 0),
        GrepStage::Probing { .. } => (2, 0, 0, 0),
        GrepStage::Listing { .. } => (1, 0, 0, 0),
        GrepStage::Checking { waiting, .. } => (0, waiting@.len(), 2, 0),
        GrepStage::Loading { waiting, .. } => (0, waiting@.len(), 1, 0),
    }
}

/// With its next file, a search through text turns to one of those that wait.
proof fn lemma_next_file_waited(
    t: GrepTask,
    run: Run,
    waiting: Seq<Vec<u8>>,
    next: GrepProgress,
)
    requires
        takes_next_file(t, run, waiting, next),
    ensures
        next matches Progress::Waiting(u) ==> match u.stage {
            GrepStage::Checking { waiting: w, .. } => w@.len() < waiting.len(),
            GrepStage::Loading { waiting: w, .. } => w@.len() < waiting.len(),
            _ => false,
        },
    decreases waiting.len(),
{
    if waiting.len() > 0 && run.bounds is None {
        if takes_next_file(t, run, waiting.drop_last(), next) {
            lemma_next_file_waited(t, run, waiting.drop_last(), next);
        }
    }
}

/// A search through text comes to an end: each reply brings it nearer to it.
pub proof fn law_grep_search_comes_to_end(t: GrepTask, reply: Reply, next: GrepProgress)
    requires
        grep_goes_on(t, reply, next),
    ensures
        next matches Progress::Waiting(u) ==> is_nearer(grep_distance(u), grep_distance(t)),
{
    assert forall|run: Run, waiting: Seq<Vec<u8>>| #[trigger]
        takes_next_file(t, run, waiting, next) implies (next matches Progress::Waiting(u)
        ==> match u.stage {
        GrepStage::Checking { waiting: w, .. } => w@.len() < waiting.len(),
        GrepStage::Loading { waiting: w, .. } => w@.len() < waiting.len(),
        _ => false,
    }) by {
        lemma_next_file_waited(t, run, waiting, next);
    }
}

} // verus!
