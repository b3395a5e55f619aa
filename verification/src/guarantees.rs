//! What holds of the operations on single files over all of their course: that they
//! come to an end, that nothing is touched before the path was held against the
//! workspace, and that what is touched lies in it.

use vstd::prelude::*;
use vstd::utf8::*;

use crate::confinement::{is_nearer, steady_root, Distance};
use crate::error::{ErrorKind, FileError, MAX_WRITE_SIZE};
use crate::files::{
    begins_free, begins_guarded, bounds_of, file_goes_on, law_none_strays, stays_within, stray,
    Clearance, FileProgress, FileTask, Plan, Stage,
};
use crate::host::{Progress, Reply, SteadyHost};
use crate::paths::{byte_texts, is_absolute, join};
use crate::resolve::{
    law_resolution_begins_at_path, law_resolution_leads_to_target, resolution_goes_on, target,
    Resolution, ResolutionProgress,
};
use crate::text::byte_len;
use crate::trace::{
    all_grounded, begins_trace, climbed, is_grounded, is_lead, is_resolved, landing_of, landing_on,
    law_path_lands_on_ground, law_trace_comes_to_end, law_trace_follows_resolution,
    law_trace_leads_on, trace_goes_on, Landing, Trace, TraceProgress,
};
use crate::workspace::{in_workspace, is_escape};

verus! {

/// The path that the operation touches at a stage, if it touches any.
pub open spec fn touched(stage: Stage) -> Option<Seq<u8>> {
    match stage {
        Stage::Sizing { path } => Some(path@),
        Stage::Probing { path } => Some(path@),
        Stage::Loading { path } => Some(path@),
        Stage::MakingDir { path, .. } => Some(path@),
        Stage::Saving { path, .. } => Some(path@),
        _ => None,
    }
}

/// The text that the operation is about to save at a stage, if it is.
pub open spec fn saved(stage: Stage) -> Option<Seq<char>> {
    match stage {
        Stage::MakingDir { content, .. } => Some(content@),
        Stage::Saving { content, .. } => Some(content@),
        _ => None,
    }
}

/// The path of the operation was not held against the workspace yet.
pub open spec fn is_early(stage: Stage) -> bool {
    stage is Guarding || stage is Bounding || stage is Rooting || stage is Tracing
}

/// What holds of an operation whose path waits to be traced, or is: there may be no file
/// there, and the path lies in the workspace by its name.
pub open spec fn is_traced_soundly(t: FileTask) -> bool {
    match t.stage {
        Stage::Bounding { trace, .. } => trace matches Some(s) ==> t.operation is Write
            && s.is_bounded(),
        Stage::Rooting { path, trace, root, way } => t.operation is Write && trace.is_bounded()
            && way.is_bounded() && in_workspace(path@, root@),
        Stage::Tracing { path, trace, root, .. } => t.operation is Write && trace.is_bounded()
            && in_workspace(path@, root@),
        _ => true,
    }
}

/// What holds of an operation at every stage: its path waits to be held against the
/// workspace as long as it does, a file that is touched in a workspace is inside, and
/// what is about to be saved is within the limit, but for an edit, which has none.
pub open spec fn sound(t: FileTask) -> bool {
    &&& t.clearance is Pending <==> is_early(t.stage)
    &&& t.clearance matches Clearance::Inside { root } ==> t.stage !is Locating && (touched(
        t.stage,
    ) matches Some(p) ==> in_workspace(p, root@))
    &&& saved(t.stage) matches Some(text) ==> t.operation is Edit || byte_len(text)
        <= MAX_WRITE_SIZE
    &&& is_traced_soundly(t)
}

/// How far an operation is from its end.
pub open spec fn distance(t: FileTask) -> Distance {
    match t.stage {
        Stage::Guarding { resolution, .. } => (10, 0, resolution.replies_left(), 0),
        Stage::Bounding { .. } => (9, 0, 0, 0),
        Stage::Rooting { way, .. } => (8, way.distance().0, way.distance().1, way.distance().2),
        Stage::Tracing { trace, .. } => (
            7,
            trace.distance().0,
            trace.distance().1,
            trace.distance().2,
        ),
        Stage::Locating { resolution } => (6, 0, resolution.replies_left(), 0),
        Stage::Sizing { .. } => (5, 0, 0, 0),
        Stage::Probing { .. } => (4, 0, 0, 0),
        Stage::Loading { .. } => (3, 0, 0, 0),
        Stage::MakingDir { .. } => (2, 0, 0, 0),
        Stage::Saving { .. } => (1, 0, 0, 0),
    }
}

/// An operation begins sound, and in a workspace it begins with its path waiting to be
/// held against it.
pub proof fn law_operation_begins_sound(
    plan: Plan,
    path: Seq<char>,
    root: Seq<u8>,
    next: FileProgress,
)
    ensures
        begins_free(plan, path, next) ==> match next {
            Progress::Waiting(t) => sound(t) && t.clearance is Free,
            Progress::Finished(r) => r is Err,
        },
        begins_guarded(plan, path, root, next) ==> match next {
            Progress::Waiting(t) => sound(t) && t.clearance is Pending,
            Progress::Finished(_) => false,
        },
{
}

/// However a trace goes on, it comes nearer to its end.
proof fn lemma_trace_comes_nearer(t: Trace, reply: Reply)
    requires
        t.is_bounded(),
    ensures
        forall|p: TraceProgress| #[trigger]
            trace_goes_on(t, reply, p) && p is Waiting ==> p->Waiting_0.is_bounded() && is_nearer(
                (0, p->Waiting_0.distance().0, p->Waiting_0.distance().1, p->Waiting_0.distance().2),
                (0, t.distance().0, t.distance().1, t.distance().2),
            ),
{
    assert forall|p: TraceProgress| #[trigger] trace_goes_on(t, reply, p) && p is Waiting implies p->Waiting_0.is_bounded()
        && is_nearer(
        (0, p->Waiting_0.distance().0, p->Waiting_0.distance().1, p->Waiting_0.distance().2),
        (0, t.distance().0, t.distance().1, t.distance().2),
    ) by {
        law_trace_comes_to_end(t, reply, p);
    }
}

/// An operation stays sound, comes nearer to its end with every reply, and keeps what it
/// is to do; and the only way for its path to be cleared is to be found inside.
pub proof fn law_operation_stays_sound(t: FileTask, reply: Reply, next: FileProgress)
    requires
        sound(t),
        file_goes_on(t, reply, next),
    ensures
        next matches Progress::Waiting(u) ==> {
            &&& sound(u)
            &&& is_nearer(distance(u), distance(t))
            &&& u.operation == t.operation
            &&& u.path == t.path
            &&& t.clearance !is Pending ==> u.clearance == t.clearance
            &&& t.clearance is Pending ==> u.clearance !is Free
        },
{
    match t.stage {
        Stage::Rooting { way, .. } => {
            lemma_trace_comes_nearer(way, reply);
        },
        Stage::Tracing { trace, .. } => {
            lemma_trace_comes_nearer(trace, reply);
        },
        _ => {},
    }
}

/// As long as the path was not held against the workspace, an operation only looks up
/// names. What it does to a file, it does after the path was found inside.
pub proof fn law_nothing_is_touched_before_clearance(t: FileTask)
    requires
        sound(t),
    ensures
        t.clearance is Pending ==> t.ask().is_lookup(),
        !t.ask().is_lookup() ==> t.clearance !is Pending,
        touched(t.stage) is Some <==> !t.ask().is_lookup(),
{
}

/// The file that an operation in a workspace touches lies in the workspace, by the name
/// that it is touched under, whatever the host replies.
pub proof fn law_touched_name_lies_in_workspace(t: FileTask)
    requires
        sound(t),
    ensures
        touched(t.stage) matches Some(p) ==> match t.clearance {
            Clearance::Inside { root } => in_workspace(p, root@),
            Clearance::Free => true,
            Clearance::Pending => false,
        },
{
}

/// The path that an operation comes to on a steady host, if any.
pub open spec fn destination(t: FileTask, host: SteadyHost) -> Option<Seq<u8>> {
    target(host, encode_utf8(t.path@), t.operation.may_create())
}

/// Where the path of an operation leads on a steady host where it need not exist, and does
/// not.
pub open spec fn landing(plan: Plan, path: Seq<char>, host: SteadyHost) -> Option<Landing> {
    if plan is Write {
        landing_of(host, encode_utf8(path))
    } else {
        None
    }
}

/// The bounds of the workspace `root` on a steady host, for what does not exist.
pub open spec fn steady_bounds(root: Seq<u8>, host: SteadyHost) -> Seq<u8> {
    match (host.canonical)(root) {
        Some(_) => steady_root(root, host),
        None => bounds_of(steady_root(root, host), climbed(host, root, seq![])),
    }
}

/// Where the path leads, and all that is missing on the way, stays within the workspace
/// `root` on a steady host.
pub open spec fn lands_within(l: Landing, root: Seq<u8>, host: SteadyHost) -> bool {
    l matches Landing::At(end, met) && stray(
        seq![end] + met,
        steady_bounds(root, host),
        (host.canonical)(root) is Some,
    ) is None
}

/// On a steady host, the path of an operation lies in the workspace `root`, and leads into
/// it.
pub open spec fn is_inside(plan: Plan, path: Seq<char>, root: Seq<u8>, host: SteadyHost) -> bool {
    &&& target(host, encode_utf8(path), plan is Write) matches Some(p) && in_workspace(
        p,
        steady_root(root, host),
    )
    &&& landing(plan, path, host) matches Some(l) ==> lands_within(l, root, host)
}

/// A resolution that leads to `want`.
pub open spec fn resolves_to(r: Resolution, want: Option<Seq<u8>>, host: SteadyHost) -> bool {
    &&& r.outcome(host) == want
    &&& r matches Resolution::Relative { path, .. } ==> !is_absolute(path@)
}

/// The operation has found what a steady host replies.
pub open spec fn follows(t: FileTask, host: SteadyHost) -> bool {
    let lands = landing(t.operation@, t.path@, host);
    match t.stage {
        Stage::Guarding { resolution, .. } => resolves_to(resolution, destination(t, host), host)
            && (t.operation is Write ==> landing_on(resolution, host) == lands),
        Stage::Bounding { path, trace, .. } => destination(t, host) == Some(path@) && match trace {
            Some(s) => lands == Some(s.outcome(host)),
            None => lands is None,
        },
        Stage::Rooting { path, trace, .. } => destination(t, host) == Some(path@) && lands == Some(
            trace.outcome(host),
        ),
        Stage::Tracing { path, trace, .. } => destination(t, host) == Some(path@) && lands == Some(
            trace.outcome(host),
        ),
        Stage::Locating { resolution } => t.clearance is Free && resolves_to(
            resolution,
            destination(t, host),
            host,
        ),
        _ => touched(t.stage) == destination(t, host),
    }
}

/// The operation is held against the workspace `root` on a steady host: it will be, or its
/// path was found to lead into it.
pub open spec fn is_held(t: FileTask, root: Seq<u8>, host: SteadyHost) -> bool {
    let in_force = steady_root(root, host);
    match t.stage {
        Stage::Guarding { root: w, .. } => w@ == root,
        Stage::Bounding { root: w, .. } => w@ == root,
        Stage::Rooting { path, root: w, way, .. } => {
            &&& w@ == in_force && in_workspace(path@, w@)
            &&& (host.canonical)(root) is None && way.outcome(host) == climbed(host, root, seq![])
        },
        Stage::Tracing { path, root: w, bounds, known, .. } => {
            &&& w@ == in_force && in_workspace(path@, w@)
            &&& bounds@ == steady_bounds(root, host)
            &&& known == ((host.canonical)(root) is Some)
        },
        Stage::Locating { .. } => false,
        _ => t.clearance is Inside && is_inside(t.operation@, t.path@, root, host),
    }
}

/// On a steady host an operation begins by following its path, and in a workspace it is
/// held against it.
pub proof fn law_operation_begins_at_path(
    plan: Plan,
    path: Seq<char>,
    root: Seq<u8>,
    next: FileProgress,
    host: SteadyHost,
)
    requires
        begins_free(plan, path, next) || begins_guarded(plan, path, root, next),
    ensures
        next matches Progress::Waiting(t) ==> follows(t, host),
        begins_guarded(plan, path, root, next) ==> (next matches Progress::Waiting(t)
            ==> is_held(t, root, host)),
{
    if let Progress::Waiting(t) = next {
        match t.stage {
            Stage::Guarding { resolution, .. } => {
                law_resolution_begins_at_path(resolution, encode_utf8(path), plan is Write, host);
            },
            Stage::Locating { resolution } => {
                law_resolution_begins_at_path(resolution, encode_utf8(path), plan is Write, host);
            },
            _ => {},
        }
    }
}

/// However a resolution goes on with a steady host, it leads where it did.
pub proof fn lemma_resolution_keeps_outcome(r: Resolution, reply: Reply, host: SteadyHost)
    requires
        host.gives(r.ask(), reply),
        r matches Resolution::Relative { path, .. } ==> !is_absolute(path@),
    ensures
        forall|p: ResolutionProgress| #[trigger]
            resolution_goes_on(r, reply, p) ==> match p {
                Progress::Waiting(s) => s.outcome(host) == r.outcome(host) && s !is Relative,
                Progress::Finished(Ok(path)) => r.outcome(host) == Some(path@),
                Progress::Finished(Err(e)) => e == FileError::Host && r.outcome(host) is None,
            },
{
    assert forall|p: ResolutionProgress| #[trigger] resolution_goes_on(r, reply, p) implies match p {
        Progress::Waiting(s) => s.outcome(host) == r.outcome(host) && s !is Relative,
        Progress::Finished(Ok(path)) => r.outcome(host) == Some(path@),
        Progress::Finished(Err(e)) => e == FileError::Host && r.outcome(host) is None,
    } by {
        law_resolution_leads_to_target(r, reply, p, host);
    }
}

/// However a trace goes on with a steady host, it leads where it did.
pub proof fn lemma_trace_keeps_outcome(t: Trace, reply: Reply, host: SteadyHost)
    requires
        host.gives(t.ask(), reply),
    ensures
        forall|p: TraceProgress| #[trigger]
            trace_goes_on(t, reply, p) ==> match p {
                Progress::Waiting(u) => u.outcome(host) == t.outcome(host),
                Progress::Finished(l) => l@ == t.outcome(host),
            },
{
    assert forall|p: TraceProgress| #[trigger] trace_goes_on(t, reply, p) implies match p {
        Progress::Waiting(u) => u.outcome(host) == t.outcome(host),
        Progress::Finished(l) => l@ == t.outcome(host),
    } by {
        law_trace_leads_on(t, reply, p, host);
    }
}

/// However a resolution goes on with a steady host, its path leads where it did, and the
/// trace that begins at its end leads there.
pub proof fn lemma_resolution_keeps_landing(r: Resolution, reply: Reply, host: SteadyHost)
    requires
        host.gives(r.ask(), reply),
        r matches Resolution::Relative { path, .. } ==> !is_absolute(path@),
    ensures
        forall|p: ResolutionProgress| #[trigger]
            resolution_goes_on(r, reply, p) ==> match p {
                Progress::Waiting(s) => landing_on(s, host) == landing_on(r, host),
                Progress::Finished(Ok(path)) => forall|t: Option<Trace>| #[trigger]
                    begins_trace(r, reply, path@, t) ==> match t {
                        None => landing_on(r, host) is None,
                        Some(u) => landing_on(r, host) == Some(u.outcome(host)),
                    },
                Progress::Finished(Err(_)) => true,
            },
{
    assert forall|p: ResolutionProgress| #[trigger] resolution_goes_on(r, reply, p) implies match p {
        Progress::Waiting(s) => landing_on(s, host) == landing_on(r, host),
        Progress::Finished(Ok(path)) => forall|t: Option<Trace>| #[trigger]
            begins_trace(r, reply, path@, t) ==> match t {
                None => landing_on(r, host) is None,
                Some(u) => landing_on(r, host) == Some(u.outcome(host)),
            },
        Progress::Finished(Err(_)) => true,
    } by {
        law_trace_follows_resolution(r, reply, p, host);
    }
}

/// On a steady host an operation follows its path: what was held against the workspace
/// and what is touched is where the path leads.
pub proof fn law_operation_follows_path(
    t: FileTask,
    reply: Reply,
    next: FileProgress,
    host: SteadyHost,
)
    requires
        follows(t, host),
        host.gives(t.ask(), reply),
        file_goes_on(t, reply, next),
    ensures
        next matches Progress::Waiting(u) ==> follows(u, host),
{
    match t.stage {
        Stage::Guarding { resolution, .. } => {
            lemma_resolution_keeps_outcome(resolution, reply, host);
            lemma_resolution_keeps_landing(resolution, reply, host);
        },
        Stage::Tracing { trace, .. } => {
            lemma_trace_keeps_outcome(trace, reply, host);
        },
        Stage::Locating { resolution } => {
            lemma_resolution_keeps_outcome(resolution, reply, host);
        },
        _ => {},
    }
}

/// On a steady host an operation that is held against a workspace stays so.
pub proof fn law_operation_stays_held(
    t: FileTask,
    reply: Reply,
    next: FileProgress,
    root: Seq<u8>,
    host: SteadyHost,
)
    requires
        follows(t, host),
        is_held(t, root, host),
        host.gives(t.ask(), reply),
        file_goes_on(t, reply, next),
    ensures
        next matches Progress::Waiting(u) ==> is_held(u, root, host),
{
    match t.stage {
        Stage::Bounding { trace, .. } => {
            if let Progress::Waiting(u) = next {
                if let Stage::Rooting { way, .. } = u.stage {
                    if let Trace::Climbing { rest, .. } = way {
                        assert(byte_texts(rest@) =~= seq![]);
                    }
                }
            }
        },
        Stage::Rooting { way, .. } => {
            lemma_trace_keeps_outcome(way, reply, host);
        },
        Stage::Tracing { trace, .. } => {
            lemma_trace_keeps_outcome(trace, reply, host);
        },
        _ => {},
    }
}

/// On a steady host, what an operation in a workspace touches lies in the workspace by its
/// name, and leads into it: it is a path that was resolved, or, where it does not exist,
/// where it leads and all that has to be made on the way are paths that were resolved with
/// names put below them that go down, and stay within the workspace.
pub proof fn law_touched_file_lies_in_workspace(t: FileTask, root: Seq<u8>, host: SteadyHost)
    requires
        follows(t, host),
        is_held(t, root, host),
    ensures
        touched(t.stage) matches Some(p) ==> ({
            let bytes = encode_utf8(t.path@);
            &&& destination(t, host) == Some(p)
            &&& in_workspace(p, steady_root(root, host))
            &&& match landing(t.operation@, t.path@, host) {
                None => is_resolved(p, host),
                Some(l) => {
                    &&& l matches Landing::At(end, met)
                    &&& is_grounded(end, host) && all_grounded(met, host)
                    &&& stays_within(
                        end,
                        steady_bounds(root, host),
                        (host.canonical)(root) is Some,
                    )
                    &&& forall|i: int|
                        0 <= i < met.len() ==> stays_within(
                            #[trigger] met[i],
                            steady_bounds(root, host),
                            (host.canonical)(root) is Some,
                        )
                },
            }
        }),
{
    if let Some(p) = touched(t.stage) {
        let bytes = encode_utf8(t.path@);
        let candidate = if is_absolute(bytes) {
            bytes
        } else {
            join(host.current_dir->Some_0, bytes)
        };
        match landing(t.operation@, t.path@, host) {
            None => {
                assert(is_lead(host, candidate, p));
            },
            Some(l) => {
                law_path_lands_on_ground(host, bytes);
                if let Landing::At(end, met) = l {
                    let all = seq![end] + met;
                    law_none_strays(all, steady_bounds(root, host), (host.canonical)(root) is Some);
                    assert(all[0] == end);
                    assert forall|i: int| 0 <= i < met.len() implies #[trigger] met[i] == all[i + 1] by {}
                }
            },
        }
    }
}

/// On a steady host, an operation in a workspace whose path does not lie in it, or does not
/// lead into it, is refused for want of permission; and one whose path comes to nothing
/// fails with the host.
pub proof fn law_escape_is_refused(
    t: FileTask,
    reply: Reply,
    next: FileProgress,
    root: Seq<u8>,
    host: SteadyHost,
)
    requires
        follows(t, host),
        is_held(t, root, host),
        host.gives(t.ask(), reply),
        file_goes_on(t, reply, next),
        is_early(t.stage),
    ensures
        next matches Progress::Waiting(u) ==> is_early(u.stage) || is_inside(
            t.operation@,
            t.path@,
            root,
            host,
        ),
        next matches Progress::Finished(r) ==> r is Err,
        next matches Progress::Finished(Err(e)) ==> match destination(t, host) {
            None => e == FileError::Host,
            Some(p) => {
                &&& !in_workspace(p, steady_root(root, host)) ==> e.spec_kind()
                    == ErrorKind::PermissionDenied && is_escape(e, p, steady_root(root, host))
                &&& landing(t.operation@, t.path@, host) is Some && landing(
                    t.operation@,
                    t.path@,
                    host,
                )->Some_0 is At && !is_inside(t.operation@, t.path@, root, host)
                    ==> e.spec_kind() == ErrorKind::PermissionDenied
            },
        },
{
    match t.stage {
        Stage::Guarding { resolution, .. } => {
            lemma_resolution_keeps_outcome(resolution, reply, host);
        },
        Stage::Rooting { way, .. } => {
            lemma_trace_keeps_outcome(way, reply, host);
        },
        Stage::Tracing { trace, .. } => {
            lemma_trace_keeps_outcome(trace, reply, host);
        },
        _ => {},
    }
}

} // verus!
