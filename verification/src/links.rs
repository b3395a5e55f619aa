//! Symbolic links that lead out of a workspace.

use vstd::prelude::*;

use crate::error::FileError;
use crate::host::{reply_path, Ask, Progress, Reply, Request};
use crate::paths::{bytes_of, components, path_starts_with, starts_with};
use crate::workspace::{in_workspace, law_path_inside_starts_with_root, root_in_force};

verus! {

/// How far the check of a link is.
#[derive(Debug)]
pub enum LinkTask {
    /// Whether there is a link at the path is asked for.
    Probing { path: Vec<u8>, root: Vec<u8> },
    /// Where the link leads is asked for.
    Following { path: Vec<u8>, root: Vec<u8> },
    /// Where the root of the workspace leads is asked for.
    Bounding { resolved: Vec<u8>, root: Vec<u8> },
}

/// A check that waits for a reply, or what has come of it.
pub type LinkProgress = Progress<LinkTask, Result<bool, FileError>>;

/// How the check goes on after a reply. A path at which there is no link is no escape;
/// a link is one where it does not lead into the workspace.
pub open spec fn link_goes_on(t: LinkTask, reply: Reply, next: LinkProgress) -> bool {
    match t {
        LinkTask::Probing { path, root } => match reply {
            Reply::Flag(true) => next == LinkProgress::Waiting(LinkTask::Following { path, root }),
            Reply::Flag(false) => next == LinkProgress::Finished(Ok(false)),
            _ => next == LinkProgress::Finished(Err(FileError::Host)),
        },
        LinkTask::Following { path, root } => match reply {
            Reply::Path(resolved) => next == LinkProgress::Waiting(
                LinkTask::Bounding { resolved, root },
            ),
            _ => next == LinkProgress::Finished(Err(FileError::Host)),
        },
        LinkTask::Bounding { resolved, root } => {
            let in_force = match reply {
                Reply::Path(p) => p@,
                _ => root@,
            };
            next == LinkProgress::Finished(Ok(!starts_with(resolved@, in_force)))
        },
    }
}

/// Checks whether a path is a symlink that resolves outside the workspace.
pub fn is_symlink_escape(path: &[u8], workspace_root: &[u8]) -> (t: LinkTask)
    ensures
        t matches LinkTask::Probing { path: p, root: w } && p@ == path@ && w@ == workspace_root@,
{
    let path_copy = bytes_of(path, 0, path.len());
    let root = bytes_of(workspace_root, 0, workspace_root.len());
    assert(path_copy@ =~= path@);
    assert(root@ =~= workspace_root@);
    LinkTask::Probing { path: path_copy, root }
}

impl LinkTask {
    /// What the check asks for.
    pub open spec fn ask(self) -> Ask {
        match self {
            LinkTask::Probing { path, .. } => Ask::IsSymlink(path@),
            LinkTask::Following { path, .. } => Ask::Canonicalize(path@),
            LinkTask::Bounding { root, .. } => Ask::Canonicalize(root@),
        }
    }

    /// What the check asks for.
    pub fn request(&self) -> (r: Request<'_>)
        ensures
            r@ == self.ask(),
    {
        match self {
            LinkTask::Probing { path, .. } => Request::IsSymlink(path),
            LinkTask::Following { path, .. } => Request::Canonicalize(path),
            LinkTask::Bounding { root, .. } => Request::Canonicalize(root),
        }
    }

    /// Goes on after a reply.
    pub fn step(self, reply: Reply) -> (next: LinkProgress)
        ensures
            link_goes_on(self, reply, next),
    {
        match self {
            LinkTask::Probing { path, root } => match reply {
                Reply::Flag(is_link) => {
                    if is_link {
                        Progress::Waiting(LinkTask::Following { path, root })
                    } else {
                        Progress::Finished(Ok(false))
                    }
                },
                _ => Progress::Finished(Err(FileError::Host)),
            },
            LinkTask::Following { path: _, root } => match reply {
                Reply::Path(resolved) => Progress::Waiting(LinkTask::Bounding { resolved, root }),
                _ => Progress::Finished(Err(FileError::Host)),
            },
            LinkTask::Bounding { resolved, root } => {
                let inside = match &reply {
                    Reply::Path(p) => path_starts_with(resolved.as_slice(), p.as_slice()),
                    _ => path_starts_with(resolved.as_slice(), root.as_slice()),
                };
                Progress::Finished(Ok(!inside))
            },
        }
    }
}

/// What the check of a link says, and what an operation in the workspace goes by, are
/// the same: a link is an escape exactly where what it leads to does not lie in the
/// workspace.
pub proof fn law_link_check_agrees_with_boundary(
    resolved: Vec<u8>,
    root: Vec<u8>,
    reply: Reply,
    next: LinkProgress,
)
    requires
        link_goes_on(LinkTask::Bounding { resolved, root }, reply, next),
    ensures
        next == LinkProgress::Finished(
            Ok(
                !in_workspace(
                    resolved@,
                    root_in_force(root@, reply_path(reply)),
                ),
            ),
        ),
{
}

/// The check of a link asks whether there is one, where it leads, and where the root of the
/// workspace leads; and calls it an escape where what it leads to does not start with the
/// components of the root, or of the root as it was given where that leads nowhere.
pub proof fn law_link_escapes_where_it_leads_out(t: LinkTask, reply: Reply, next: LinkProgress)
    requires
        link_goes_on(t, reply, next),
    ensures
        t matches LinkTask::Probing { path, root } ==> t.ask() == Ask::IsSymlink(path@)
            && match reply {
            Reply::Flag(is_link) => if is_link {
                next == LinkProgress::Waiting(LinkTask::Following { path, root })
            } else {
                next == LinkProgress::Finished(Ok(false))
            },
            _ => next == LinkProgress::Finished(Err(FileError::Host)),
        },
        t matches LinkTask::Following { path, root } ==> t.ask() == Ask::Canonicalize(path@)
            && match reply {
            Reply::Path(resolved) => next == LinkProgress::Waiting(
                LinkTask::Bounding { resolved, root },
            ),
            _ => next == LinkProgress::Finished(Err(FileError::Host)),
        },
        t matches LinkTask::Bounding { resolved, root } ==> t.ask() == Ask::Canonicalize(root@) && ({
            let r = components(
                match reply {
                    Reply::Path(p) => p@,
                    _ => root@,
                },
            );
            let p = components(resolved@);
            next == LinkProgress::Finished(
                Ok(
                    !(r.len() <= p.len() && forall|i: int|
                        0 <= i < r.len() ==> #[trigger] p[i] == r[i]),
                ),
            )
        }),
{
    if let LinkTask::Bounding { resolved, root } = t {
        let w = match reply {
            Reply::Path(p) => p@,
            _ => root@,
        };
        law_path_inside_starts_with_root(resolved@, w);
    }
}

} // verus!
