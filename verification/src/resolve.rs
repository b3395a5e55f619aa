//! Where a path leads: resolving the paths that operations are given.

use vstd::prelude::*;
use vstd::string::*;
use vstd::utf8::*;

use crate::error::FileError;
use crate::host::{Ask, Progress, Reply, Request, SteadyHost};
use crate::paths::{
    bytes_of, components, file_name, is_absolute, join, law_file_name_is_name,
    law_join_appends_name, parent, path_file_name, path_is_absolute, path_join, path_parent,
};

verus! {

/// A path that is being resolved.
#[derive(Debug)]
pub enum Resolution {
    /// The path is relative, and what it is relative to is asked for.
    Relative { path: Vec<u8>, may_be_missing: bool },
    /// Where the candidate leads is asked for.
    Candidate { path: Vec<u8>, may_be_missing: bool },
    /// The candidate is missing, and where its parent leads is asked for.
    Missing { parent: Vec<u8>, name: Vec<u8> },
}

/// A resolution that waits for a reply, or the path that it has led to.
pub type ResolutionProgress = Progress<Resolution, Result<Vec<u8>, FileError>>;

/// How the resolution of `path` begins.
pub open spec fn begins_resolution(r: Resolution, path: Seq<u8>, may_be_missing: bool) -> bool {
    if is_absolute(path) {
        r matches Resolution::Candidate { path: p, may_be_missing: m } && p@ == path && m
            == may_be_missing
    } else {
        r matches Resolution::Relative { path: p, may_be_missing: m } && p@ == path && m
            == may_be_missing
    }
}

/// How a resolution goes on after a reply.
pub open spec fn resolution_goes_on(r: Resolution, reply: Reply, next: ResolutionProgress) -> bool {
    match r {
        Resolution::Relative { path, may_be_missing } => match reply {
            Reply::Path(dir) => next matches Progress::Waiting(
                Resolution::Candidate { path: p, may_be_missing: m },
            ) && p@ == join(dir@, path@) && m == may_be_missing,
            _ => next == ResolutionProgress::Finished(Err(FileError::Host)),
        },
        Resolution::Candidate { path, may_be_missing } => match reply {
            Reply::Path(p) => next == ResolutionProgress::Finished(Ok(p)),
            _ => if !may_be_missing {
                next == ResolutionProgress::Finished(Err(FileError::Host))
            } else {
                match (parent(path@), file_name(path@)) {
                    (Some(above), Some(last)) => next matches Progress::Waiting(
                        Resolution::Missing { parent: q, name: n },
                    ) && q@ == above && n@ == last,
                    _ => next == ResolutionProgress::Finished(Ok(path)),
                }
            },
        },
        Resolution::Missing { parent: above, name } => {
            let dir = match reply {
                Reply::Path(p) => p@,
                _ => above@,
            };
            next matches Progress::Finished(Ok(p)) && p@ == join(dir, name@)
        },
    }
}

/// Begins to resolve a path that has to exist.
pub fn normalize_path(path: &str) -> (r: Resolution)
    ensures
        begins_resolution(r, encode_utf8(path@), false),
{
    Resolution::new(path, false)
}

/// Begins to resolve a path that need not exist.
pub fn normalize_path_allow_missing(path: &str) -> (r: Resolution)
    ensures
        begins_resolution(r, encode_utf8(path@), true),
{
    Resolution::new(path, true)
}

impl Resolution {
    /// Begins to resolve a path.
    fn new(path: &str, may_be_missing: bool) -> (r: Resolution)
        ensures
            begins_resolution(r, encode_utf8(path@), may_be_missing),
    {
        let bytes = path.as_bytes();
        let owned = bytes_of(bytes, 0, bytes.len());
        assert(owned@ =~= bytes@);
        if path_is_absolute(bytes) {
            Resolution::Candidate { path: owned, may_be_missing }
        } else {
            Resolution::Relative { path: owned, may_be_missing }
        }
    }

    /// What the resolution asks for.
    pub open spec fn ask(self) -> Ask {
        match self {
            Resolution::Relative { .. } => Ask::CurrentDir,
            Resolution::Candidate { path, .. } => Ask::Canonicalize(path@),
            Resolution::Missing { parent, .. } => Ask::Canonicalize(parent@),
        }
    }

    /// What the resolution asks for.
    pub fn request(&self) -> (r: Request<'_>)
        ensures
            r@ == self.ask(),
    {
        match self {
            Resolution::Relative { .. } => Request::CurrentDir,
            Resolution::Candidate { path, .. } => Request::Canonicalize(path),
            Resolution::Missing { parent, .. } => Request::Canonicalize(parent),
        }
    }

    /// Goes on after a reply.
    pub fn step(self, reply: Reply) -> (next: ResolutionProgress)
        ensures
            resolution_goes_on(self, reply, next),
    {
        match self {
            Resolution::Relative { path, may_be_missing } => match reply {
                Reply::Path(dir) => {
                    let candidate = path_join(dir.as_slice(), path.as_slice());
                    Progress::Waiting(Resolution::Candidate { path: candidate, may_be_missing })
                },
                _ => Progress::Finished(Err(FileError::Host)),
            },
            Resolution::Candidate { path, may_be_missing } => match reply {
                Reply::Path(p) => Progress::Finished(Ok(p)),
                _ => {
                    if !may_be_missing {
                        return Progress::Finished(Err(FileError::Host));
                    }
                    match (path_parent(path.as_slice()), path_file_name(path.as_slice())) {
                        (Some(parent), Some(name)) => Progress::Waiting(
                            Resolution::Missing { parent, name },
                        ),
                        _ => Progress::Finished(Ok(path)),
                    }
                },
            },
            Resolution::Missing { parent, name } => {
                let dir = match reply {
                    Reply::Path(p) => p,
                    _ => parent,
                };
                Progress::Finished(Ok(path_join(dir.as_slice(), name.as_slice())))
            },
        }
    }

    /// How many replies the resolution waits for at most.
    pub open spec fn replies_left(self) -> nat {
        match self {
            Resolution::Relative { .. } => 3,
            Resolution::Candidate { .. } => 2,
            Resolution::Missing { .. } => 1,
        }
    }

    /// Where the resolution leads on a steady host, if anywhere.
    pub open spec fn outcome(self, host: SteadyHost) -> Option<Seq<u8>> {
        match self {
            Resolution::Relative { path, may_be_missing } => target(host, path@, may_be_missing),
            Resolution::Candidate { path, may_be_missing } => led_to(host, path@, may_be_missing),
            Resolution::Missing { parent, name } => Some(beside(host, parent@, name@)),
        }
    }
}

/// Where the missing file `name` below `parent` is taken to be.
pub open spec fn beside(host: SteadyHost, parent: Seq<u8>, name: Seq<u8>) -> Seq<u8> {
    match (host.canonical)(parent) {
        Some(p) => join(p, name),
        None => join(parent, name),
    }
}

/// Where `candidate` leads on a steady host, if anywhere.
pub open spec fn led_to(host: SteadyHost, candidate: Seq<u8>, may_be_missing: bool) -> Option<
    Seq<u8>,
> {
    match (host.canonical)(candidate) {
        Some(p) => Some(p),
        None => if !may_be_missing {
            None
        } else {
            match (parent(candidate), file_name(candidate)) {
                (Some(above), Some(last)) => Some(beside(host, above, last)),
                _ => Some(candidate),
            }
        },
    }
}

/// Where `path` leads on a steady host, if anywhere.
pub open spec fn target(host: SteadyHost, path: Seq<u8>, may_be_missing: bool) -> Option<Seq<u8>> {
    if is_absolute(path) {
        led_to(host, path, may_be_missing)
    } else {
        match host.current_dir {
            Some(dir) => led_to(host, join(dir, path), may_be_missing),
            None => None,
        }
    }
}

/// A file that is missing is taken to lie right in the directory that its parent leads
/// to.
pub proof fn law_missing_file_lies_in_directory(host: SteadyHost, candidate: Seq<u8>)
    requires
        (host.canonical)(candidate) is None,
    ensures
        (parent(candidate), file_name(candidate)) matches (Some(above), Some(last)) ==> {
            let dir = match (host.canonical)(above) {
                Some(p) => p,
                None => above,
            };
            led_to(host, candidate, true) matches Some(p) && components(p) == components(dir).push(
                last,
            )
        },
{
    law_file_name_is_name(candidate);
    if let (Some(above), Some(last)) = (parent(candidate), file_name(candidate)) {
        let dir = match (host.canonical)(above) {
            Some(p) => p,
            None => above,
        };
        law_join_appends_name(dir, last);
    }
}

/// On a steady host a resolution leads where the path leads, whatever its state, and it
/// gets there after finitely many replies.
pub proof fn law_resolution_leads_to_target(
    r: Resolution,
    reply: Reply,
    next: ResolutionProgress,
    host: SteadyHost,
)
    requires
        resolution_goes_on(r, reply, next),
        host.gives(r.ask(), reply),
        r matches Resolution::Relative { path, .. } ==> !is_absolute(path@),
    ensures
        match next {
            Progress::Waiting(s) => s.outcome(host) == r.outcome(host) && s.replies_left()
                < r.replies_left() && s !is Relative,
            Progress::Finished(Ok(p)) => r.outcome(host) == Some(p@),
            Progress::Finished(Err(e)) => e == FileError::Host && r.outcome(host) is None,
        },
{
}

/// On a steady host the resolution of a path leads where the path leads.
pub proof fn law_resolution_begins_at_path(
    r: Resolution,
    path: Seq<u8>,
    may_be_missing: bool,
    host: SteadyHost,
)
    requires
        begins_resolution(r, path, may_be_missing),
    ensures
        r.outcome(host) == target(host, path, may_be_missing),
        r matches Resolution::Relative { path, .. } ==> !is_absolute(path@),
{
}

/// A path is resolved from where it is taken from: an absolute path by itself, and any other
/// from the current directory. It leads where the host says; and where the host does not
/// know it, and it need not exist, to its name in its directory, or where the host says that
/// directory leads.
pub proof fn law_path_leads_where_host_says(host: SteadyHost, path: Seq<u8>, may_be_missing: bool)
    ensures
        path.len() > 0 && path[0] == 47 ==> target(host, path, may_be_missing) == led_to(
            host,
            path,
            may_be_missing,
        ),
        !(path.len() > 0 && path[0] == 47) ==> target(host, path, may_be_missing)
            == match host.current_dir {
            Some(dir) => led_to(host, join(dir, path), may_be_missing),
            None => None,
        },
        match (host.canonical)(path) {
            Some(p) => led_to(host, path, may_be_missing) == Some(p),
            None => if !may_be_missing {
                led_to(host, path, may_be_missing) is None
            } else {
                led_to(host, path, may_be_missing) == Some(
                    match (parent(path), file_name(path)) {
                        (Some(above), Some(name)) => match (host.canonical)(above) {
                            Some(dir) => join(dir, name),
                            None => join(above, name),
                        },
                        _ => path,
                    },
                )
            },
        },
{
}

} // verus!
