# file_ops

File operations for an assistant that works in a directory of source files: reading a
window of lines, writing, editing by string replacement, annotating Markdown, and
searching by file name or by text. Each of them can be confined to a workspace.

The library is written in Rust and verified with Verus. It does no input or output: an
operation is a value that says what it needs of the host next, takes the reply, and goes
on. What it does with each reply is stated in its contract and proved.

## Layout

- `src/` is the verified library.
  - Text: `text`, `search`, `lines`, `endings`, `offsets`, `edit`, `patch`, `block`,
    `annotate`, `braces`.
  - Paths, as strings of bytes: `paths`, `workspace`.
  - Patterns: `matchers` wraps the `glob` and `regex` crates.
  - Searches: `grep` and `listing` hold the parts that need no host.
  - Operations: `host` (requests and replies), `resolve`, `trace`, `files`,
    `globbing`, `grepping`, `links`; what they report: `outputs`, `reports`, `error`.
  - What holds of whole operations: `guarantees` and `outcomes` for those on single
    files, `confinement`, `scope` and `findings` for searches, `style` for text that is
    written in the style of the text it replaces.
- `tests/` runs the library, with a host in memory where one is needed.
- `app/` runs the operations on the real file system and writes results as JSON.

## Workspaces

An operation in a workspace resolves its path before it touches anything, and is refused
where that does not lie in the workspace. A file that is to be written need not exist:
then it is found out where its path leads, through links and up and down again, and the
write is refused where that, or a directory that has to be made on the way, lies outside.

## Paths

Paths are taken as the bytes that the host gives them, and are split as POSIX does: at
`/`, with repeated separators and `.` counting for nothing. The library is for hosts with
such paths: it has no rules for drive letters and the other prefixes of Windows paths.
What is done to the text of a path or a pattern on Windows, before it is split, is there
(`normalize_windows_extended_path`, `normalize_glob_pattern_text`), for the platform that
it is asked for.
