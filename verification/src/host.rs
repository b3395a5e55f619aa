//! What the library asks of the host, and what the host replies.
//!
//! The library does no input or output of its own. An operation is a value that says
//! what it needs next, takes the reply, and either needs something else or is done.

use vstd::prelude::*;

use crate::listing::WalkEntry;

verus! {

/// What an operation needs of the host.
#[derive(Debug)]
pub enum Request<'a> {
    /// The current directory.
    CurrentDir,
    /// The absolute path of an existing file, free of symbolic links.
    Canonicalize(&'a Vec<u8>),
    /// The size of a file in bytes.
    FileSize(&'a Vec<u8>),
    /// What a first read of a file gives, of at most that many bytes.
    ReadHead(&'a Vec<u8>, usize),
    /// The text of a file that is UTF-8.
    ReadText(&'a Vec<u8>),
    /// That a directory and those above it exist.
    CreateDirs(&'a Vec<u8>),
    /// That a file holds a text and nothing else.
    WriteText(&'a Vec<u8>, &'a String),
    /// Whether there is a symbolic link at a path, itself not followed.
    IsSymlink(&'a Vec<u8>),
    /// Where the symbolic link at a path points, as the link has it.
    ReadLink(&'a Vec<u8>),
    /// Whether there is a file at a path.
    IsFile(&'a Vec<u8>),
    /// The entries at and below a path, as far as they can be read. Those at and below
    /// directories that searches for files pass by may be left out: the search leaves them
    /// out in any case.
    Walk(&'a Vec<u8>),
    /// All entries at and below a path.
    WalkAll(&'a Vec<u8>),
    /// The times at which files were modified, as far as they are known.
    ModifiedTimes(&'a Vec<Vec<u8>>),
    /// The milliseconds since the operation began.
    Elapsed,
}

/// What the host replies. A reply that is not of the kind that was asked for counts as
/// a failure.
#[derive(Debug)]
pub enum Reply {
    /// The host could not do what was asked.
    Failed,
    /// What was asked is done.
    Done,
    Path(Vec<u8>),
    Size(u64),
    Bytes(Vec<u8>),
    Text(String),
    Flag(bool),
    Entries(Vec<WalkEntry>),
    Times(Vec<Option<i128>>),
    Millis(u128),
}

/// A request, with what it speaks of taken by value.
pub ghost enum Ask {
    CurrentDir,
    Canonicalize(Seq<u8>),
    FileSize(Seq<u8>),
    ReadHead(Seq<u8>, int),
    ReadText(Seq<u8>),
    CreateDirs(Seq<u8>),
    WriteText(Seq<u8>, Seq<char>),
    IsSymlink(Seq<u8>),
    ReadLink(Seq<u8>),
    IsFile(Seq<u8>),
    Walk(Seq<u8>),
    WalkAll(Seq<u8>),
    ModifiedTimes(Seq<Seq<u8>>),
    Elapsed,
}

impl<'a> View for Request<'a> {
    type V = Ask;

    open spec fn view(&self) -> Ask {
        match *self {
            Request::CurrentDir => Ask::CurrentDir,
            Request::Canonicalize(p) => Ask::Canonicalize(p@),
            Request::FileSize(p) => Ask::FileSize(p@),
            Request::ReadHead(p, n) => Ask::ReadHead(p@, n as int),
            Request::ReadText(p) => Ask::ReadText(p@),
            Request::CreateDirs(p) => Ask::CreateDirs(p@),
            Request::WriteText(p, t) => Ask::WriteText(p@, t@),
            Request::IsSymlink(p) => Ask::IsSymlink(p@),
            Request::ReadLink(p) => Ask::ReadLink(p@),
            Request::IsFile(p) => Ask::IsFile(p@),
            Request::Walk(p) => Ask::Walk(p@),
            Request::WalkAll(p) => Ask::WalkAll(p@),
            Request::ModifiedTimes(ps) => Ask::ModifiedTimes(crate::paths::byte_texts(ps@)),
            Request::Elapsed => Ask::Elapsed,
        }
    }
}

impl Ask {
    /// The request only looks up names: it neither reads nor writes what a file holds,
    /// nor does it list a directory.
    pub open spec fn is_lookup(self) -> bool {
        self is CurrentDir || self is Canonicalize || self is IsSymlink || self is ReadLink
    }
}

/// How far an operation is: it waits for a reply, or it has finished.
#[derive(Debug)]
pub enum Progress<S, T> {
    Waiting(S),
    Finished(T),
}

/// The path of a reply.
pub open spec fn reply_path(reply: Reply) -> Option<Seq<u8>> {
    match reply {
        Reply::Path(p) => Some(p@),
        _ => None,
    }
}

/// The text of a reply.
pub open spec fn reply_text(reply: Reply) -> Option<Seq<char>> {
    match reply {
        Reply::Text(t) => Some(t@),
        _ => None,
    }
}

/// A host whose directories stay as they are: the same question about a name gets the
/// same reply every time.
pub ghost struct SteadyHost {
    pub current_dir: Option<Seq<u8>>,
    pub canonical: spec_fn(Seq<u8>) -> Option<Seq<u8>>,
    pub link: spec_fn(Seq<u8>) -> Option<Seq<u8>>,
}

impl SteadyHost {
    /// The host may give this reply.
    pub open spec fn gives(self, ask: Ask, reply: Reply) -> bool {
        match ask {
            Ask::CurrentDir => reply_path(reply) == self.current_dir,
            Ask::Canonicalize(p) => reply_path(reply) == (self.canonical)(p),
            Ask::ReadLink(p) => reply_path(reply) == (self.link)(p),
            _ => true,
        }
    }
}

} // verus!
