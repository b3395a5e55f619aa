//! The operations, run against a host in memory.

use std::collections::BTreeMap;

use file_ops::error::{ErrorKind, FileError, MAX_READ_SIZE, MAX_WRITE_SIZE};
use file_ops::files::{
    annotate_markdown, annotate_markdown_in_workspace, edit_file, edit_file_in_workspace,
    read_file, read_file_in_workspace, write_file, write_file_in_workspace, FileOutput,
    FileProgress,
};
use file_ops::globbing::{glob_search, glob_search_in_workspace, GlobTask};
use file_ops::grepping::{
    grep_search, grep_search_impl, grep_search_in_workspace, GrepTask,
};
use file_ops::host::{Progress, Reply, Request};
use file_ops::links::{is_symlink_escape, LinkTask};
use file_ops::listing::WalkEntry;
use file_ops::outputs::{
    AnnotateMarkdownOutput, EditFileOutput, GlobSearchOutput, GrepSearchInput, GrepSearchOutput,
    ReadFileOutput, WriteFileOutput,
};
use file_ops::workspace::should_skip_glob_dir;

enum Node {
    Dir,
    File { bytes: Vec<u8>, time: i128 },
    Link(String),
}

struct MemoryHost {
    current: Option<String>,
    nodes: BTreeMap<String, Node>,
    clock: i128,
    log: Vec<String>,
    /// Walks leave out the directories that searches for files pass by.
    prunes: bool,
}

fn text_of(path: &[u8]) -> String {
    String::from_utf8(path.to_vec()).expect("paths of these tests are UTF-8")
}

impl MemoryHost {
    fn new() -> MemoryHost {
        let mut host = MemoryHost {
            current: Some("/home/me".to_owned()),
            nodes: BTreeMap::new(),
            clock: 0,
            log: Vec::new(),
            prunes: true,
        };
        host.make_dirs("/tmp");
        host.make_dirs("/home/me");
        host
    }

    fn make_dirs(&mut self, path: &str) {
        let mut at = String::new();
        for part in path.split('/').filter(|p| !p.is_empty()) {
            at = format!("{at}/{part}");
            self.nodes.entry(at.clone()).or_insert(Node::Dir);
        }
    }

    fn put(&mut self, path: &str, bytes: &[u8]) {
        self.clock += 1;
        let time = self.clock;
        self.nodes.insert(path.to_owned(), Node::File { bytes: bytes.to_vec(), time });
    }

    fn link(&mut self, path: &str, target: &str) {
        self.nodes.insert(path.to_owned(), Node::Link(target.to_owned()));
    }

    /// Makes the directories that are missing on a path. A link that leads nowhere is in
    /// the way.
    fn create_dirs(&mut self, path: &str) -> bool {
        let mut at = String::new();
        for part in path.split('/').filter(|p| !p.is_empty() && *p != ".") {
            let entry = if part == ".." {
                at.rsplit_once('/').unwrap_or_default().0.to_owned()
            } else {
                format!("{at}/{part}")
            };
            if !entry.is_empty() && !self.nodes.contains_key(&entry) {
                self.nodes.insert(entry.clone(), Node::Dir);
            }
            at = match self.resolve(&entry) {
                Some(real) => real.trim_end_matches('/').to_owned(),
                None => return false,
            };
            if matches!(self.nodes.get(&at), Some(Node::File { .. })) {
                return false;
            }
        }
        true
    }

    /// The file that is written to at a path, through the links that stand there. Its
    /// directory has to exist.
    fn write_place(&self, path: &str) -> Option<String> {
        let mut path = path.to_owned();
        for _ in 0..16 {
            let (dir, name) = path.rsplit_once('/').unwrap_or_default();
            let dir = self.resolve(dir)?.trim_end_matches('/').to_owned();
            if !dir.is_empty() && !matches!(self.nodes.get(&dir), Some(Node::Dir)) {
                return None;
            }
            let entry = format!("{dir}/{name}");
            match self.nodes.get(&entry) {
                Some(Node::Link(target)) if target.starts_with('/') => path = target.clone(),
                Some(Node::Link(target)) => path = format!("{dir}/{target}"),
                Some(Node::Dir) => return None,
                _ if name == ".." => return None,
                _ => return Some(entry),
            }
        }
        None
    }

    /// What stands at a path, itself not followed.
    fn entry(&self, path: &str) -> Option<&Node> {
        let (dir, name) = path.rsplit_once('/').unwrap_or_default();
        let real = self.resolve(dir)?;
        self.nodes.get(&format!("{}/{name}", real.trim_end_matches('/')))
    }

    fn resolve(&self, path: &str) -> Option<String> {
        let mut rest: Vec<String> = path
            .split('/')
            .filter(|p| !p.is_empty() && *p != ".")
            .map(|p| p.to_owned())
            .rev()
            .collect();
        let mut at: Vec<String> = Vec::new();
        let mut hops = 0;
        while let Some(part) = rest.pop() {
            if part == ".." {
                at.pop();
                continue;
            }
            at.push(part);
            match self.nodes.get(&format!("/{}", at.join("/"))) {
                None => return None,
                Some(Node::Link(target)) => {
                    hops += 1;
                    if hops > 16 {
                        return None;
                    }
                    at.pop();
                    if target.starts_with('/') {
                        at.clear();
                    }
                    for p in target.split('/').filter(|p| !p.is_empty() && *p != ".").rev() {
                        rest.push(p.to_owned());
                    }
                }
                Some(Node::File { .. }) if !rest.is_empty() => return None,
                Some(_) => {}
            }
        }
        Some(format!("/{}", at.join("/")))
    }

    fn file(&self, path: &[u8]) -> Option<(&Vec<u8>, i128)> {
        let real = self.resolve(&text_of(path))?;
        match self.nodes.get(&real) {
            Some(Node::File { bytes, time }) => Some((bytes, *time)),
            _ => None,
        }
    }

    fn content(&self, path: &str) -> String {
        let (bytes, _) = self.file(path.as_bytes()).expect("there is a file");
        String::from_utf8(bytes.clone()).expect("the file is text")
    }

    fn walk(&self, start: &str, prune: bool) -> Vec<WalkEntry> {
        let mut entries = Vec::new();
        let mut pruned: Vec<String> = Vec::new();
        for (path, node) in &self.nodes {
            let below = path == start || path.starts_with(&format!("{}/", start.trim_end_matches('/')));
            if !below || pruned.iter().any(|p| path.starts_with(p.as_str())) {
                continue;
            }
            let name = path.rsplit('/').next().unwrap_or("");
            if prune && should_skip_glob_dir(matches!(node, Node::Dir), name.as_bytes()) {
                pruned.push(format!("{path}/"));
                continue;
            }
            entries.push(WalkEntry {
                path: path.as_bytes().to_vec(),
                is_file: matches!(node, Node::File { .. }),
                is_dir: matches!(node, Node::Dir),
            });
        }
        entries
    }

    fn answer(&mut self, request: Request<'_>) -> Reply {
        match request {
            Request::CurrentDir => match &self.current {
                Some(dir) => Reply::Path(dir.as_bytes().to_vec()),
                None => Reply::Failed,
            },
            Request::Canonicalize(p) => match self.resolve(&text_of(p)) {
                Some(real) => Reply::Path(real.into_bytes()),
                None => Reply::Failed,
            },
            Request::FileSize(p) => match self.file(p) {
                Some((bytes, _)) => Reply::Size(bytes.len() as u64),
                None => Reply::Failed,
            },
            Request::ReadHead(p, n) => {
                self.log.push(format!("head {}", text_of(p)));
                match self.file(p) {
                    Some((bytes, _)) => Reply::Bytes(bytes.iter().copied().take(n).collect()),
                    None => Reply::Failed,
                }
            }
            Request::ReadText(p) => {
                self.log.push(format!("read {}", text_of(p)));
                match self.file(p) {
                    Some((bytes, _)) => match String::from_utf8(bytes.clone()) {
                        Ok(text) => Reply::Text(text),
                        Err(_) => Reply::Failed,
                    },
                    None => Reply::Failed,
                }
            }
            Request::CreateDirs(p) => {
                self.log.push(format!("mkdir {}", text_of(p)));
                if self.create_dirs(&text_of(p)) {
                    Reply::Done
                } else {
                    Reply::Failed
                }
            }
            Request::WriteText(p, text) => {
                self.log.push(format!("write {}", text_of(p)));
                match self.write_place(&text_of(p)) {
                    Some(place) => {
                        self.put(&place, text.as_bytes());
                        Reply::Done
                    }
                    None => Reply::Failed,
                }
            }
            Request::IsSymlink(p) => match self.entry(&text_of(p)) {
                Some(node) => Reply::Flag(matches!(node, Node::Link(_))),
                None => Reply::Failed,
            },
            Request::ReadLink(p) => match self.entry(&text_of(p)) {
                Some(Node::Link(target)) => Reply::Path(target.clone().into_bytes()),
                _ => Reply::Failed,
            },
            Request::IsFile(p) => Reply::Flag(self.file(p).is_some()),
            Request::Walk(p) => {
                self.log.push(format!("walk {}", text_of(p)));
                Reply::Entries(self.walk(&text_of(p), self.prunes))
            }
            Request::WalkAll(p) => {
                self.log.push(format!("list {}", text_of(p)));
                let start = text_of(p);
                if self.resolve(&start).is_some() {
                    Reply::Entries(self.walk(&start, false))
                } else {
                    Reply::Failed
                }
            }
            Request::ModifiedTimes(ps) => {
                Reply::Times(ps.iter().map(|p| self.file(p).map(|(_, time)| time)).collect())
            }
            Request::Elapsed => Reply::Millis(7),
        }
    }

    fn run(&mut self, progress: FileProgress) -> Result<FileOutput, FileError> {
        let mut progress = progress;
        loop {
            match progress {
                Progress::Waiting(task) => {
                    let reply = self.answer(task.request());
                    progress = task.step(reply);
                }
                Progress::Finished(result) => return result,
            }
        }
    }

    fn glob(&mut self, task: GlobTask) -> Result<GlobSearchOutput, FileError> {
        let mut task = task;
        loop {
            let reply = self.answer(task.request());
            match task.step(reply) {
                Progress::Waiting(next) => task = next,
                Progress::Finished(result) => return result,
            }
        }
    }

    fn grep(&mut self, task: GrepTask) -> Result<GrepSearchOutput, FileError> {
        let mut task = task;
        loop {
            let reply = self.answer(task.request());
            match task.step(reply) {
                Progress::Waiting(next) => task = next,
                Progress::Finished(result) => return result,
            }
        }
    }

    fn check_link(&mut self, task: LinkTask) -> Result<bool, FileError> {
        let mut task = task;
        loop {
            let reply = self.answer(task.request());
            match task.step(reply) {
                Progress::Waiting(next) => task = next,
                Progress::Finished(result) => return result,
            }
        }
    }

    fn read(&mut self, progress: FileProgress) -> Result<ReadFileOutput, FileError> {
        match self.run(progress)? {
            FileOutput::Read(output) => Ok(output),
            other => panic!("not a read: {other:?}"),
        }
    }

    fn write(&mut self, progress: FileProgress) -> Result<WriteFileOutput, FileError> {
        match self.run(progress)? {
            FileOutput::Write(output) => Ok(output),
            other => panic!("not a write: {other:?}"),
        }
    }

    fn edit(&mut self, progress: FileProgress) -> Result<EditFileOutput, FileError> {
        match self.run(progress)? {
            FileOutput::Edit(output) => Ok(output),
            other => panic!("not an edit: {other:?}"),
        }
    }

    fn annotate(&mut self, progress: FileProgress) -> Result<AnnotateMarkdownOutput, FileError> {
        match self.run(progress)? {
            FileOutput::Annotate(output) => Ok(output),
            other => panic!("not an annotation: {other:?}"),
        }
    }
}

fn query(pattern: &str, path: &str) -> GrepSearchInput {
    GrepSearchInput {
        pattern: pattern.to_owned(),
        path: Some(path.to_owned()),
        glob: None,
        output_mode: None,
        before: None,
        after: None,
        context_short: None,
        context: None,
        line_numbers: None,
        case_insensitive: None,
        file_type: None,
        head_limit: None,
        offset: None,
        multiline: None,
    }
}

#[test]
fn reads_and_writes_files() {
    let mut host = MemoryHost::new();
    let path = "/tmp/read-write.txt";
    let write_output = host
        .write(write_file(path, "one\ntwo\nthree"))
        .expect("write should succeed");
    assert_eq!(write_output.kind, "create");

    let read_output = host
        .read(read_file(path, Some(1), Some(1)))
        .expect("read should succeed");
    assert_eq!(read_output.file.content, "two");
}

#[test]
fn edits_file_contents() {
    let mut host = MemoryHost::new();
    let path = "/tmp/edit.txt";
    host.write(write_file(path, "alpha beta alpha"))
        .expect("initial write should succeed");
    let output = host
        .edit(edit_file(path, "alpha", "omega", true))
        .expect("edit should succeed");
    assert!(output.replace_all);
    assert_eq!(host.content(path), "omega beta omega");
}

#[test]
fn rejects_binary_files() {
    let mut host = MemoryHost::new();
    let path = "/tmp/binary-test.bin";
    host.put(path, b"\x00\x01\x02\x03binary content");
    let result = host.read(read_file(path, None, None));
    assert!(result.is_err());
    let error = result.unwrap_err();
    assert_eq!(error.kind(), ErrorKind::InvalidData);
    assert!(error.message().contains("binary"));
}

#[test]
fn rejects_oversized_writes() {
    let mut host = MemoryHost::new();
    let path = "/tmp/oversize-write.txt";
    let huge = "x".repeat(MAX_WRITE_SIZE + 1);
    let result = host.write(write_file(path, &huge));
    assert!(result.is_err());
    let error = result.unwrap_err();
    assert_eq!(error.kind(), ErrorKind::InvalidData);
    assert!(error.message().contains("too large"));
    assert!(host.log.is_empty());
}

#[test]
fn enforces_workspace_boundary() {
    let mut host = MemoryHost::new();
    let workspace = "/tmp/workspace-boundary";
    host.make_dirs(workspace);
    let inside = "/tmp/workspace-boundary/inside.txt";
    host.write(write_file(inside, "safe content"))
        .expect("write inside workspace should succeed");

    let result = host.read(read_file_in_workspace(
        inside,
        None,
        None,
        workspace.as_bytes(),
    ));
    assert!(result.is_ok());

    let outside = "/tmp/outside-boundary.txt";
    host.write(write_file(outside, "unsafe content"))
        .expect("write outside should succeed");
    host.log.clear();
    let result = host.read(read_file_in_workspace(
        outside,
        None,
        None,
        workspace.as_bytes(),
    ));
    assert!(result.is_err());
    let error = result.unwrap_err();
    assert_eq!(error.kind(), ErrorKind::PermissionDenied);
    assert!(error.message().contains("escapes workspace"));
    assert!(host.log.is_empty());
}

#[test]
fn detects_symlink_escape() {
    let mut host = MemoryHost::new();
    let workspace = "/tmp/symlink-workspace";
    host.make_dirs(workspace);
    let outside = "/tmp/symlink-target.txt";
    host.put(outside, b"target content");

    let link_path = "/tmp/symlink-workspace/escape-link.txt";
    host.link(link_path, outside);
    assert!(host
        .check_link(is_symlink_escape(link_path.as_bytes(), workspace.as_bytes()))
        .expect("check should succeed"));

    let normal = "/tmp/symlink-workspace/normal.txt";
    host.put(normal, b"normal content");
    assert!(!host
        .check_link(is_symlink_escape(normal.as_bytes(), workspace.as_bytes()))
        .expect("check should succeed"));
}

#[test]
fn workspace_read_rejects_symlink_escape_regression_3007_class() {
    let mut host = MemoryHost::new();
    let workspace = "/tmp/workspace-read-symlink-escape";
    let outside = "/tmp/workspace-read-symlink-target";
    host.make_dirs(workspace);
    host.make_dirs(outside);
    let outside_file = "/tmp/workspace-read-symlink-target/secret.txt";
    host.put(outside_file, b"outside secret");

    let link_path = "/tmp/workspace-read-symlink-escape/linked-secret.txt";
    host.link(link_path, outside_file);

    let result = host.read(read_file_in_workspace(
        link_path,
        None,
        None,
        workspace.as_bytes(),
    ));

    assert!(result.is_err(), "symlink escape must be rejected");
    let error = result.unwrap_err();
    assert_eq!(error.kind(), ErrorKind::PermissionDenied);
    assert!(
        error.message().contains("escapes workspace"),
        "error should explain workspace escape: {error:?}"
    );
}

#[test]
fn workspace_write_rejects_parent_symlink_escape_regression_3007_class() {
    let mut host = MemoryHost::new();
    let workspace = "/tmp/workspace-write-symlink-escape";
    let outside = "/tmp/workspace-write-symlink-target";
    host.make_dirs(workspace);
    host.make_dirs(outside);

    let link_dir = "/tmp/workspace-write-symlink-escape/linked-outside";
    host.link(link_dir, outside);
    let escaped_child = "/tmp/workspace-write-symlink-escape/linked-outside/created.txt";

    let result = host.write(write_file_in_workspace(
        escaped_child,
        "must not escape",
        workspace.as_bytes(),
    ));

    assert!(result.is_err(), "parent symlink escape must be rejected");
    let error = result.unwrap_err();
    assert_eq!(error.kind(), ErrorKind::PermissionDenied);
    assert!(
        error.message().contains("escapes workspace"),
        "error should explain workspace escape: {error:?}"
    );
    assert!(
        !host.nodes.contains_key("/tmp/workspace-write-symlink-target/created.txt"),
        "write should not create through an escaping symlink"
    );
}

#[test]
fn globs_and_greps_directory() {
    let mut host = MemoryHost::new();
    let dir = "/tmp/search-dir";
    host.make_dirs(dir);
    host.write(write_file(
        "/tmp/search-dir/demo.rs",
        "fn main() {\n println!(\"hello\");\n}\n",
    ))
    .expect("file write should succeed");

    let globbed = host
        .glob(glob_search("**/*.rs", Some(dir)))
        .expect("glob should succeed");
    assert_eq!(globbed.num_files, 1);

    let grep_output = host
        .grep(grep_search(
            GrepSearchInput {
                pattern: String::from("hello"),
                path: Some(dir.to_owned()),
                glob: Some(String::from("**/*.rs")),
                output_mode: Some(String::from("content")),
                before: None,
                after: None,
                context_short: None,
                context: None,
                line_numbers: Some(true),
                case_insensitive: Some(false),
                file_type: None,
                head_limit: Some(10),
                offset: Some(0),
                multiline: Some(false),
            },
        ))
        .expect("grep should succeed");
    assert!(grep_output.content.unwrap_or_default().contains("hello"));
}

#[test]
fn glob_search_with_braces_finds_files() {
    let mut host = MemoryHost::new();
    let dir = "/tmp/glob-braces";
    host.make_dirs(dir);
    host.put("/tmp/glob-braces/a.rs", b"fn main() {}");
    host.put("/tmp/glob-braces/b.toml", b"[package]");
    host.put("/tmp/glob-braces/c.txt", b"hello");

    let result = host
        .glob(glob_search("*.{rs,toml}", Some(dir)))
        .expect("glob should succeed");
    assert_eq!(result.num_files, 2, "should match .rs and .toml but not .txt");
}

#[test]
fn glob_search_skips_common_heavy_directories() {
    let mut host = MemoryHost::new();
    let dir = "/tmp/glob-ignored-dirs";
    for below in ["src", "docs", "node_modules/pkg", ".build/checkouts/pkg", "target/debug/deps"] {
        host.make_dirs(&format!("{dir}/{below}"));
    }
    host.put(&format!("{dir}/src/AGENTS.md"), b"src");
    host.put(&format!("{dir}/docs/AGENTS.md"), b"docs");
    host.put(&format!("{dir}/node_modules/pkg/AGENTS.md"), b"node_modules");
    host.put(&format!("{dir}/.build/checkouts/pkg/AGENTS.md"), b".build");
    host.put(&format!("{dir}/target/debug/deps/AGENTS.md"), b"target");

    let result = host
        .glob(glob_search("**/AGENTS.md", Some(dir)))
        .expect("glob should succeed");

    assert_eq!(result.num_files, 2, "ignored dirs should be pruned");
    assert!(result
        .filenames
        .iter()
        .any(|path| path.ends_with("src/AGENTS.md")));
    assert!(result
        .filenames
        .iter()
        .any(|path| path.ends_with("docs/AGENTS.md")));
    assert!(!result
        .filenames
        .iter()
        .any(|path| path.contains("node_modules")
            || path.contains(".build")
            || path.contains("/target/")));
}

#[test]
fn relative_paths_are_taken_from_the_current_directory() {
    let mut host = MemoryHost::new();
    host.put("/home/me/notes.txt", b"a\nb");
    let output = host.read(read_file("notes.txt", None, None)).expect("read should succeed");
    assert_eq!(output.file.file_path, "/home/me/notes.txt");
    assert_eq!(output.file.content, "a\nb");
    host.current = None;
    assert_eq!(host.read(read_file("notes.txt", None, None)), Err(FileError::Host));
    assert!(host.read(read_file("/home/me/notes.txt", None, None)).is_ok());
}

#[test]
fn reads_fail_with_the_host() {
    let mut host = MemoryHost::new();
    assert_eq!(host.read(read_file("/tmp/missing", None, None)), Err(FileError::Host));
    host.put("/tmp/odd.txt", b"caf\xe9");
    assert_eq!(host.read(read_file("/tmp/odd.txt", None, None)), Err(FileError::Host));
}

#[test]
fn oversized_files_are_not_read() {
    let mut host = MemoryHost::new();
    let size: usize = MAX_READ_SIZE as usize;
    host.put("/tmp/large.txt", &vec![b'x'; size + 1]);
    assert_eq!(
        host.read(read_file("/tmp/large.txt", None, None)),
        Err(FileError::FileTooLarge { size: MAX_READ_SIZE + 1 })
    );
    assert!(host.log.is_empty());
    host.put("/tmp/large.txt", &vec![b'x'; size]);
    assert!(host.read(read_file("/tmp/large.txt", None, Some(0))).is_ok());
}

#[test]
fn a_zero_byte_behind_the_first_bytes_is_not_seen() {
    let mut host = MemoryHost::new();
    let mut bytes = vec![b'x'; 8192];
    bytes.push(0);
    host.put("/tmp/late.txt", &bytes);
    assert!(host.read(read_file("/tmp/late.txt", None, None)).is_ok());
    bytes[8191] = 0;
    host.put("/tmp/late.txt", &bytes);
    assert_eq!(host.read(read_file("/tmp/late.txt", None, None)), Err(FileError::BinaryFile));
}

#[test]
fn writes_make_directories_and_keep_styles() {
    let mut host = MemoryHost::new();
    let output = host
        .write(write_file("/tmp/new/deep/file.txt", "a\r\nb"))
        .expect("write should succeed");
    assert_eq!(output.kind, "create");
    assert_eq!(output.original_file, None);
    assert_eq!(host.content("/tmp/new/deep/file.txt"), "a\r\nb");
    assert_eq!(
        host.log,
        vec![
            "read /tmp/new/deep/file.txt",
            "mkdir /tmp/new/deep",
            "write /tmp/new/deep/file.txt"
        ]
    );

    let output = host
        .write(write_file("/tmp/new/deep/file.txt", "x\ny\n"))
        .expect("write should succeed");
    assert_eq!(output.kind, "update");
    assert_eq!(output.content, "x\r\ny\r\n");
    assert_eq!(output.original_file, Some("a\r\nb".to_owned()));
    assert_eq!(host.content("/tmp/new/deep/file.txt"), "x\r\ny\r\n");

    let back = host
        .read(read_file("/tmp/new/deep/file.txt", None, None))
        .expect("read should succeed");
    assert_eq!(back.file.content, "x\ny");
    assert_eq!(back.file.total_lines, 2);
}

#[test]
fn styled_content_can_be_too_large() {
    let mut host = MemoryHost::new();
    host.put("/tmp/crlf.txt", b"a\r\nb");
    let content = "\n".repeat(MAX_WRITE_SIZE);
    assert_eq!(
        host.write(write_file("/tmp/crlf.txt", &content)),
        Err(FileError::StyledContentTooLarge { size: 2 * MAX_WRITE_SIZE })
    );
    assert_eq!(host.content("/tmp/crlf.txt"), "a\r\nb");
}

#[test]
fn a_write_to_a_directory_fails_with_the_host() {
    let mut host = MemoryHost::new();
    assert_eq!(host.write(write_file("/tmp", "x")), Err(FileError::Host));
}

#[test]
fn edits_are_refused_after_the_file_was_found() {
    let mut host = MemoryHost::new();
    assert_eq!(host.edit(edit_file("/tmp/none", "a", "a", false)), Err(FileError::Host));
    host.put("/tmp/e.txt", b"abc");
    assert_eq!(
        host.edit(edit_file("/tmp/e.txt", "a", "a", false)),
        Err(FileError::SameStrings)
    );
    assert_eq!(
        host.edit(edit_file("/tmp/e.txt", "", "x", false)),
        Err(FileError::EmptyOldString)
    );
    assert_eq!(
        host.edit(edit_file("/tmp/e.txt", "z", "x", false)),
        Err(FileError::OldStringNotFound)
    );
    assert_eq!(host.content("/tmp/e.txt"), "abc");
    let output = host
        .edit(edit_file("/tmp/e.txt", "b", "B", false))
        .expect("edit should succeed");
    assert_eq!(output.file_path, "/tmp/e.txt");
    assert_eq!(output.original_file, "abc");
    assert_eq!(host.content("/tmp/e.txt"), "aBc");
}

#[test]
fn annotations_are_for_markdown_files() {
    let mut host = MemoryHost::new();
    host.put("/tmp/a.txt", b"x");
    assert_eq!(
        host.annotate(annotate_markdown("/tmp/a.txt", "n", None, None)),
        Err(FileError::NotMarkdown)
    );
    assert!(host.log.is_empty());
    host.put("/tmp/a.md", b"x\ny\n");
    let output = host
        .annotate(annotate_markdown("/tmp/a.md", "note", Some("x"), Some("before")))
        .expect("annotation should succeed");
    assert_eq!(output.position, "before");
    assert_eq!(output.anchor, Some("x".to_owned()));
    assert_eq!(output.annotation, "note");
    assert_eq!(
        host.content("/tmp/a.md"),
        "<mark style=\"background:#d3f8b6;\">note</mark>\nx\ny\n"
    );
    assert_eq!(
        host.annotate(annotate_markdown("/tmp/a.md", "note", Some("none"), None)),
        Err(FileError::AnchorNotFound)
    );
}

#[test]
fn annotated_files_can_be_too_large() {
    let mut host = MemoryHost::new();
    host.put("/tmp/big.md", &vec![b'x'; MAX_WRITE_SIZE]);
    let error = host
        .annotate(annotate_markdown("/tmp/big.md", "n", None, None))
        .unwrap_err();
    assert_eq!(
        error,
        FileError::AnnotatedFileTooLarge { size: MAX_WRITE_SIZE + 2 + 34 + 1 + 7 + 1 }
    );
}

#[test]
fn every_operation_stays_in_its_workspace() {
    let mut host = MemoryHost::new();
    host.make_dirs("/work");
    host.put("/work/in.md", b"one two");
    host.put("/tmp/out.md", b"one two");
    host.link("/work/link.md", "/tmp/out.md");
    let root = b"/work";
    for path in ["/tmp/out.md", "/work/link.md", "/work/../tmp/out.md", "../../tmp/out.md"] {
        let progress = [
            read_file_in_workspace(path, None, None, root),
            write_file_in_workspace(path, "x", root),
            edit_file_in_workspace(path, "one", "1", false, root),
            annotate_markdown_in_workspace(path, "n", None, None, root),
        ];
        for p in progress {
            let error = host.run(p).unwrap_err();
            assert_eq!(error.kind(), ErrorKind::PermissionDenied);
            assert_eq!(error.message(), "path /tmp/out.md escapes workspace boundary /work");
        }
    }
    assert!(host.log.is_empty());
    assert_eq!(host.content("/tmp/out.md"), "one two");

    let path = "/work/in.md";
    host.edit(edit_file_in_workspace(path, "one", "1", false, root))
        .expect("edit inside should succeed");
    host.annotate(annotate_markdown_in_workspace(path, "n", None, None, root))
        .expect("annotation inside should succeed");
    assert_eq!(
        host.content(path),
        "1 two\n\n<mark style=\"background:#d3f8b6;\">n</mark>\n"
    );
    host.write(write_file_in_workspace("/work/new.txt", "x", root))
        .expect("write inside should succeed");
    assert_eq!(host.content("/work/new.txt"), "x");
}

#[test]
fn a_workspace_may_be_given_by_a_link() {
    let mut host = MemoryHost::new();
    host.make_dirs("/real/work");
    host.put("/real/work/a.txt", b"a");
    host.link("/work", "/real/work");
    let output = host
        .read(read_file_in_workspace("/work/a.txt", None, None, b"/work"))
        .expect("read should succeed");
    assert_eq!(output.file.file_path, "/real/work/a.txt");
}

#[test]
fn found_files_are_listed_newest_first() {
    let mut host = MemoryHost::new();
    host.make_dirs("/src");
    host.put("/src/old.rs", b"");
    host.put("/src/mid.rs", b"");
    host.put("/src/new.rs", b"");
    let output = host
        .glob(glob_search("/src/*.rs", None))
        .expect("glob should succeed");
    assert_eq!(output.filenames, vec!["/src/new.rs", "/src/mid.rs", "/src/old.rs"]);
    assert_eq!(output.duration_ms, 7);
    assert!(!output.truncated);
    let output = host
        .glob(glob_search("{old,*}.rs", Some("/src")))
        .expect("glob should succeed");
    assert_eq!(output.filenames, vec!["/src/new.rs", "/src/mid.rs", "/src/old.rs"]);
}

#[test]
fn at_most_a_hundred_files_are_listed() {
    let mut host = MemoryHost::new();
    host.make_dirs("/many");
    for i in 0..101 {
        host.put(&format!("/many/{i:03}.txt"), b"");
    }
    let output = host
        .glob(glob_search("*.txt", Some("/many")))
        .expect("glob should succeed");
    assert_eq!(output.num_files, 100);
    assert!(output.truncated);
    assert_eq!(output.filenames[0], "/many/100.txt");
    assert_eq!(output.filenames[99], "/many/001.txt");
}

#[test]
fn invalid_patterns_are_refused() {
    let mut host = MemoryHost::new();
    let error = host.glob(glob_search("a***", None)).unwrap_err();
    assert_eq!(error.kind(), ErrorKind::InvalidInput);
    assert_eq!(
        error.message(),
        "Pattern syntax error near position 12: wildcards are either regular `*` or recursive `**`"
    );
    let error = host.grep(grep_search(query("(", "/tmp"))).unwrap_err();
    assert_eq!(error.kind(), ErrorKind::InvalidInput);
    assert!(error.message().contains("unclosed group"));
    let mut input = query("x", "/tmp");
    input.glob = Some("a***".to_owned());
    let error = host.grep(grep_search(input)).unwrap_err();
    assert_eq!(error.kind(), ErrorKind::InvalidInput);
    assert!(error.message().contains("wildcards"));
}

#[test]
fn searches_need_a_current_directory() {
    let mut host = MemoryHost::new();
    host.current = None;
    assert_eq!(
        host.glob(glob_search("*.rs", Some("/tmp"))),
        Err(FileError::Host)
    );
    assert_eq!(
        host.grep(grep_search(query("x", "/tmp"))),
        Err(FileError::Host)
    );
}

#[test]
fn searches_stay_in_their_workspace() {
    let mut host = MemoryHost::new();
    host.make_dirs("/work/sub");
    host.put("/work/a.txt", b"needle");
    host.put("/tmp/b.txt", b"needle");
    host.link("/work/out", "/tmp");
    let root = b"/work";
    let refused = |error: FileError| {
        assert_eq!(error.kind(), ErrorKind::PermissionDenied);
        assert!(error.message().contains("escapes workspace"));
    };
    refused(
        host.glob(glob_search_in_workspace("*.txt", Some("/tmp"), root))
            .unwrap_err(),
    );
    refused(
        host.glob(glob_search_in_workspace("/tmp/*.txt", Some("/work"), root))
            .unwrap_err(),
    );
    refused(
        host.glob(glob_search_in_workspace("out/*.txt", Some("/work"), root))
            .unwrap_err(),
    );
    refused(
        host.grep(grep_search_in_workspace(query("needle", "/tmp"), root))
            .unwrap_err(),
    );
    assert!(host.log.is_empty());
    let output = host
        .glob(glob_search_in_workspace("**/*.txt", Some("/work"), root))
        .expect("glob inside should succeed");
    assert_eq!(output.filenames, vec!["/work/a.txt"]);
    let output = host
        .grep(grep_search_in_workspace(query("needle", "/work"), root))
        .expect("grep inside should succeed");
    assert_eq!(output.filenames, vec!["/work/a.txt"]);
}

#[test]
fn greps_report_names_counts_or_lines() {
    let mut host = MemoryHost::new();
    host.make_dirs("/g");
    host.put("/g/a.txt", b"x1 x2\ny\nx3\nz\nw");
    host.put("/g/b.rs", b"X\ny");
    host.put("/g/c.bin", b"x\xff");
    host.put("/g/d.txt", b"none");

    let names = host.grep(grep_search(query("x", "/g"))).unwrap();
    assert_eq!(names.mode, Some("files_with_matches".to_owned()));
    assert_eq!(names.filenames, vec!["/g/a.txt"]);
    assert_eq!((names.num_files, names.num_matches, names.num_lines), (1, None, None));
    assert_eq!((names.content, names.applied_limit, names.applied_offset), (None, None, None));

    let mut input = query("x", "/g");
    input.output_mode = Some("count".to_owned());
    input.case_insensitive = Some(true);
    let count = host.grep(grep_search(input)).unwrap();
    assert_eq!(count.filenames, vec!["/g/a.txt", "/g/b.rs"]);
    assert_eq!(count.num_matches, Some(4));

    let mut input = query("x", "/g");
    input.output_mode = Some("content".to_owned());
    input.after = Some(1);
    let lines = host.grep(grep_search(input)).unwrap();
    assert_eq!(
        lines.content,
        Some("/g/a.txt:1:x1 x2\n/g/a.txt:2:y\n/g/a.txt:3:x3\n/g/a.txt:4:z".to_owned())
    );
    assert_eq!(lines.num_lines, Some(4));

    let mut input = query("x3", "/g");
    input.output_mode = Some("content".to_owned());
    input.context = Some(1);
    input.before = Some(usize::MAX);
    input.line_numbers = Some(false);
    let lines = host.grep(grep_search(input)).unwrap();
    assert_eq!(
        lines.content,
        Some("/g/a.txt:x1 x2\n/g/a.txt:y\n/g/a.txt:x3\n/g/a.txt:z".to_owned())
    );
}

#[test]
fn greps_go_by_their_filters() {
    let mut host = MemoryHost::new();
    host.make_dirs("/g/sub");
    host.put("/g/a.txt", b"x");
    host.put("/g/sub/b.rs", b"x");
    let mut input = query("x", "/g");
    input.file_type = Some("rs".to_owned());
    let output = host.grep(grep_search(input)).unwrap();
    assert_eq!(output.filenames, vec!["/g/sub/b.rs"]);
    let mut input = query("x", "/g");
    input.glob = Some("**/*.txt".to_owned());
    let output = host.grep(grep_search(input)).unwrap();
    assert_eq!(output.filenames, vec!["/g/a.txt"]);
    let output = host
        .grep(grep_search(query("x", "/g/a.txt")))
        .unwrap();
    assert_eq!(output.filenames, vec!["/g/a.txt"]);
    let mut input = query("a.b", "/g");
    input.multiline = Some(true);
    input.output_mode = Some("count".to_owned());
    host.put("/g/m.txt", b"a\nb");
    let output = host.grep(grep_search(input)).unwrap();
    assert_eq!(output.num_matches, Some(1));
    let mut input = query("a.b", "/g");
    input.output_mode = Some("count".to_owned());
    let output = host.grep(grep_search(input)).unwrap();
    assert_eq!(output.num_matches, Some(0));
}

#[test]
fn links_that_cannot_be_followed_fail_with_the_host() {
    let mut host = MemoryHost::new();
    host.link("/tmp/dangling", "/nowhere");
    assert_eq!(
        host.check_link(is_symlink_escape(b"/tmp/dangling", b"/tmp")),
        Err(FileError::Host)
    );
    assert_eq!(
        host.check_link(is_symlink_escape(b"/tmp/missing", b"/tmp")),
        Err(FileError::Host)
    );
    host.put("/tmp/t", b"");
    host.link("/tmp/near", "/tmp/t");
    assert_eq!(host.check_link(is_symlink_escape(b"/tmp/near", b"/tmp")), Ok(false));
    assert_eq!(host.check_link(is_symlink_escape(b"/tmp/near", b"/gone")), Ok(true));
}

#[test]
fn workspace_writes_do_not_go_through_links_that_lead_out() {
    let mut host = MemoryHost::new();
    host.make_dirs("/tmp/ws");
    host.make_dirs("/tmp/out");
    host.link("/tmp/ws/linked-outside", "/tmp/out");
    let root = b"/tmp/ws";
    for path in [
        "/tmp/ws/linked-outside/created.txt",
        "/tmp/ws/linked-outside/newdir/created.txt",
        "/tmp/ws/linked-outside/newdir/deeper/created.txt",
        "/tmp/ws/./linked-outside//newdir/created.txt",
        "../../tmp/ws/linked-outside/newdir/created.txt",
    ] {
        let error = host
            .write(write_file_in_workspace(path, "x", root))
            .unwrap_err();
        assert_eq!(error.kind(), ErrorKind::PermissionDenied);
        assert!(error.message().contains("escapes workspace boundary /tmp/ws"));
    }
    assert!(host.log.is_empty());
    assert!(!host.nodes.keys().any(|path| path.starts_with("/tmp/out/")));
}

#[test]
fn workspace_writes_go_through_links_that_stay_inside() {
    let mut host = MemoryHost::new();
    host.make_dirs("/tmp/ws/real");
    host.link("/tmp/ws/alias", "/tmp/ws/real");
    let root = b"/tmp/ws";
    let output = host
        .write(write_file_in_workspace("/tmp/ws/alias/new/a.txt", "a", root))
        .expect("write inside should succeed");
    assert_eq!(output.kind, "create");
    assert_eq!(output.file_path, "/tmp/ws/alias/new/a.txt");
    assert!(host.nodes.contains_key("/tmp/ws/real/new/a.txt"));
    let output = host
        .write(write_file_in_workspace("/tmp/ws/alias/b.txt", "b", root))
        .expect("write inside should succeed");
    assert_eq!(output.file_path, "/tmp/ws/real/b.txt");
    let output = host
        .write(write_file_in_workspace("/tmp/ws/one/two/b.txt", "b", root))
        .expect("write inside should succeed");
    assert_eq!(output.file_path, "/tmp/ws/one/two/b.txt");
    assert_eq!(host.content("/tmp/ws/one/two/b.txt"), "b");
}

#[test]
fn workspace_writes_do_not_climb_out_from_what_is_missing() {
    let mut host = MemoryHost::new();
    host.make_dirs("/tmp/ws");
    host.make_dirs("/tmp/out");
    host.link("/tmp/ws/linked-outside", "/tmp/out");
    let root = b"/tmp/ws";
    for path in [
        "/tmp/ws/missing/../../out/a.txt",
        "/tmp/ws/missing/../linked-outside/a.txt",
        "/tmp/ws/../made/../ws/a.txt",
    ] {
        let error = host.write(write_file_in_workspace(path, "x", root)).unwrap_err();
        assert_eq!(error.kind(), ErrorKind::PermissionDenied);
        assert!(error.message().contains("escapes workspace boundary /tmp/ws"));
    }
    assert!(host.log.is_empty());
    assert!(!host.nodes.contains_key("/tmp/ws/missing"));
    assert!(!host.nodes.contains_key("/tmp/made"));
    assert!(!host.nodes.keys().any(|path| path.starts_with("/tmp/out/")));
}

#[test]
fn workspace_writes_climb_from_what_is_missing_and_stay_inside() {
    let mut host = MemoryHost::new();
    host.make_dirs("/tmp/ws");
    let root = b"/tmp/ws";
    let path = "/tmp/ws/no/../a.txt";
    let output = host
        .write(write_file_in_workspace(path, "a", root))
        .expect("write inside should succeed");
    assert_eq!(output.kind, "create");
    assert_eq!(output.file_path, path);
    assert_eq!(host.content("/tmp/ws/a.txt"), "a");
    assert!(host.nodes.contains_key("/tmp/ws/no"));
    assert_eq!(
        host.write(write_file_in_workspace("/tmp/ws/none/..", "a", root)),
        Err(FileError::Host)
    );
}

#[test]
fn workspace_writes_do_not_go_through_links_to_what_is_missing_outside() {
    let mut host = MemoryHost::new();
    host.make_dirs("/tmp/ws");
    host.make_dirs("/tmp/out");
    host.link("/tmp/ws/gone.txt", "/tmp/out/new.txt");
    host.link("/tmp/ws/back.txt", "../out/new.txt");
    host.link("/tmp/ws/chain.txt", "gone.txt");
    host.link("/tmp/ws/gone", "/tmp/out/new");
    let root = b"/tmp/ws";
    for path in [
        "/tmp/ws/gone.txt",
        "/tmp/ws/back.txt",
        "/tmp/ws/chain.txt",
        "/tmp/ws/gone/a.txt",
        "/tmp/ws/gone/deep/a.txt",
    ] {
        let error = host.write(write_file_in_workspace(path, "x", root)).unwrap_err();
        assert_eq!(error.kind(), ErrorKind::PermissionDenied);
        assert!(error.message().contains("escapes workspace boundary /tmp/ws"));
    }
    assert!(host.log.is_empty());
    assert!(!host.nodes.keys().any(|path| path.starts_with("/tmp/out/")));
}

#[test]
fn workspace_writes_go_through_links_to_what_is_missing_inside() {
    let mut host = MemoryHost::new();
    host.make_dirs("/tmp/ws/sub");
    host.link("/tmp/ws/later.txt", "/tmp/ws/new.txt");
    host.link("/tmp/ws/sub/up.txt", "../other.txt");
    host.link("/tmp/ws/soon", "/tmp/ws/made");
    let root = b"/tmp/ws";
    let output = host
        .write(write_file_in_workspace("/tmp/ws/later.txt", "a", root))
        .expect("write inside should succeed");
    assert_eq!(output.file_path, "/tmp/ws/later.txt");
    assert_eq!(host.content("/tmp/ws/new.txt"), "a");
    host.write(write_file_in_workspace("/tmp/ws/sub/up.txt", "b", root))
        .expect("write inside should succeed");
    assert_eq!(host.content("/tmp/ws/other.txt"), "b");
    assert_eq!(
        host.write(write_file_in_workspace("/tmp/ws/soon/a.txt", "c", root)),
        Err(FileError::Host)
    );
    assert!(!host.nodes.contains_key("/tmp/ws/made"));
}

#[test]
fn workspace_writes_fail_where_links_lead_nowhere() {
    let mut host = MemoryHost::new();
    host.make_dirs("/tmp/ws");
    host.link("/tmp/ws/a", "/tmp/ws/b");
    host.link("/tmp/ws/b", "/tmp/ws/a");
    let root = b"/tmp/ws";
    assert_eq!(
        host.write(write_file_in_workspace("/tmp/ws/a", "x", root)),
        Err(FileError::Host)
    );
    let huge = "x".repeat(MAX_WRITE_SIZE + 1);
    assert_eq!(
        host.write(write_file_in_workspace("/tmp/ws/a", &huge, root)),
        Err(FileError::ContentTooLarge { size: MAX_WRITE_SIZE + 1 })
    );
}

#[test]
fn new_directories_lie_in_the_workspace_by_their_names() {
    let mut host = MemoryHost::new();
    host.make_dirs("/real/work");
    host.link("/work", "/real/work");
    let output = host
        .write(write_file_in_workspace("/work/a.txt", "a", b"/work"))
        .expect("write inside should succeed");
    assert_eq!(output.file_path, "/real/work/a.txt");
    let error = host
        .write(write_file_in_workspace("/work/new/deep/a.txt", "a", b"/work"))
        .unwrap_err();
    assert_eq!(error.kind(), ErrorKind::PermissionDenied);
    assert_eq!(
        error.message(),
        "path /work/new/deep/a.txt escapes workspace boundary /real/work"
    );
    host.write(write_file_in_workspace("/real/work/new/deep/a.txt", "a", b"/work"))
        .expect("write inside should succeed");
}

#[test]
fn a_workspace_that_does_not_exist_can_be_written_to() {
    let mut host = MemoryHost::new();
    host.write(write_file_in_workspace("/fresh/a.txt", "a", b"/fresh"))
        .expect("write inside should succeed");
    assert_eq!(host.content("/fresh/a.txt"), "a");
    let error = host
        .write(write_file_in_workspace("/other/a.txt", "a", b"/unknown"))
        .unwrap_err();
    assert_eq!(error.kind(), ErrorKind::PermissionDenied);
    assert!(!host.nodes.contains_key("/other"));
    let error = host
        .write(write_file_in_workspace("/later/../b.txt", "b", b"/later"))
        .unwrap_err();
    assert_eq!(error.kind(), ErrorKind::PermissionDenied);
    host.make_dirs("/real");
    host.link("/short", "/real");
    host.write(write_file_in_workspace("/short/deep/ws/a.txt", "a", b"/short/deep/ws"))
        .expect("write inside should succeed");
    assert!(host.nodes.contains_key("/real/deep/ws/a.txt"));
}

#[test]
fn reads_give_back_what_was_written() {
    let mut host = MemoryHost::new();
    host.make_dirs("/work");
    for content in ["", "one", "one\ntwo\n", "a\r\nb\r\n", "\u{feff}x\ny", "日本\n\nü"] {
        let path = "/work/new/kept.txt";
        let written = host
            .write(write_file_in_workspace(path, content, b"/work"))
            .expect("write should succeed");
        assert_eq!(host.content(path), written.content);
        let back = host
            .read(read_file_in_workspace(path, None, None, b"/work"))
            .expect("read should succeed");
        let lines: Vec<&str> = written.content.lines().collect();
        assert_eq!(back.file.content, lines.join("\n"));
        assert_eq!(back.file.total_lines, lines.len());
        host.nodes.remove(path);
    }
}

#[test]
fn ignored_directories_are_left_out_whatever_the_host_lists() {
    let mut host = MemoryHost::new();
    host.make_dirs("/src/node_modules/pkg");
    host.make_dirs("/src/lib");
    host.make_dirs("/src/target");
    host.put("/src/node_modules/pkg/a.txt", b"");
    host.put("/src/target/b.txt", b"");
    host.put("/src/lib/c.txt", b"");
    host.put("/src/lib/dist", b"a file by that name");
    for prunes in [true, false] {
        host.prunes = prunes;
        let output = host
            .glob(glob_search("**/*", Some("/src")))
            .expect("glob should succeed");
        assert_eq!(output.filenames, vec!["/src/lib/dist", "/src/lib/c.txt"]);
        let output = host
            .glob(glob_search("*.txt", Some("/src/target")))
            .expect("glob should succeed");
        assert!(output.filenames.is_empty());
    }
}

#[test]
fn workspace_searches_list_what_free_ones_list() {
    let mut host = MemoryHost::new();
    host.make_dirs("/work/sub");
    for name in ["a.rs", "b.txt", "sub/c.rs", "sub/d.md"] {
        host.put(&format!("/work/{name}"), b"");
    }
    for pattern in ["*.rs", "**/*.{rs,md}", "sub/*", "/work/*.txt", "{sub,.}/*.rs", "none"] {
        let free = host
            .glob(glob_search(pattern, Some("/work")))
            .expect("glob should succeed");
        let confined = host
            .glob(glob_search_in_workspace(pattern, Some("/work"), b"/work"))
            .expect("glob should succeed");
        assert_eq!(confined, free);
    }
}

#[test]
fn workspace_text_searches_report_what_free_ones_report() {
    let mut host = MemoryHost::new();
    host.make_dirs("/work/sub");
    host.put("/work/a.txt", b"x\ny");
    host.put("/work/sub/b.rs", b"x x");
    for mode in ["content", "count", "files_with_matches"] {
        let mut input = query("x", "/work");
        input.output_mode = Some(mode.to_owned());
        let free = host.grep(grep_search_impl(input.clone(), None)).unwrap();
        let confined =
            host.grep(grep_search_impl(input, Some(b"/work".to_vec()))).unwrap();
        assert_eq!(confined, free);
        assert_eq!(free.filenames, vec!["/work/a.txt", "/work/sub/b.rs"]);
    }
    host.put("/tmp/out.txt", b"x");
    assert_eq!(
        host.grep(grep_search_in_workspace(query("x", "/tmp/out.txt"), b"/work"))
            .unwrap_err()
            .kind(),
        ErrorKind::PermissionDenied
    );
}

#[test]
fn patterns_that_climb_out_of_the_workspace_are_refused() {
    let mut host = MemoryHost::new();
    host.make_dirs("/work/sub");
    host.put("/secret.txt", b"");
    for pattern in ["../*", "../*.txt", "sub/../../*", "{*.rs,../*}"] {
        let error = host
            .glob(glob_search_in_workspace(pattern, Some("/work"), b"/work"))
            .unwrap_err();
        assert_eq!(error.kind(), ErrorKind::PermissionDenied);
        assert!(error.message().contains("escapes workspace"));
    }
    assert!(host.log.iter().all(|line| line == "walk /work"));
}

#[test]
fn lines_and_names_are_of_the_same_files() {
    let mut host = MemoryHost::new();
    host.make_dirs("/g");
    host.put("/g/a.txt", b"x\ny");
    host.put("/g/b.txt", b"y");
    host.put("/g/c.rs", b"x x\nx");
    let mut input = query("x", "/g");
    input.output_mode = Some("content".to_owned());
    let lines = host.grep(grep_search(input)).unwrap();
    let names = host.grep(grep_search(query("x", "/g"))).unwrap();
    assert_eq!(names.filenames, vec!["/g/a.txt", "/g/c.rs"]);
    assert_eq!(lines.filenames, names.filenames);
    assert_eq!(lines.num_files, names.num_files);
}
