//! What the operations on single files report.

use vstd::prelude::*;
use vstd::string::*;
use vstd::utf8::*;

use crate::lines::{join_range, joined, lines, split_lines};
use crate::outputs::{
    AnnotateMarkdownOutput, EditFileOutput, ReadFileOutput, TextFilePayload, WriteFileOutput,
};
use crate::patch::{is_patch, make_patch};
use crate::text::{lossy_text, path_text, string_option};

verus! {

/// The number of bytes of a file that are looked at to tell whether it is text.
pub const PROBE_SIZE: usize = 8192;

/// The bytes hold a zero byte, so they are not those of a text.
pub open spec fn looks_binary(bytes: Seq<u8>) -> bool {
    bytes.contains(0)
}

/// Whether the first bytes of a file hold a zero byte, so that they are not those of a
/// text.
pub fn is_binary_file(head: &Vec<u8>) -> (r: bool)
    ensures
        r == looks_binary(head@),
{
    let mut i: usize = 0;
    while i < head.len()
        invariant
            i <= head@.len(),
            forall|j: int| 0 <= j < i ==> head@[j] != 0,
        decreases head@.len() - i,
    {
        if head[i] == 0 {
            return true;
        }
        i += 1;
    }
    false
}

/// The first line of a window that starts `offset` lines into `count` lines.
pub open spec fn first_line(count: int, offset: Option<usize>) -> int {
    match offset {
        Some(n) => if n < count {
            n as int
        } else {
            count
        },
        None => 0,
    }
}

/// The line behind the last of a window of at most `limit` lines.
pub open spec fn last_line(count: int, offset: Option<usize>, limit: Option<usize>) -> int {
    let start = first_line(count, offset);
    match limit {
        Some(n) => if start + n < count {
            start + n
        } else {
            count
        },
        None => count,
    }
}

/// The lines of `content` in the window.
pub open spec fn window(content: Seq<char>, offset: Option<usize>, limit: Option<usize>) -> Seq<
    Seq<char>,
> {
    let count = lines(content).len() as int;
    lines(content).subrange(first_line(count, offset), last_line(count, offset, limit))
}

/// A file can be read window by window: without bounds a window is all of the lines, and
/// what a window leaves out, the window that starts behind it holds.
pub proof fn law_windows_join(content: Seq<char>, offset: usize, limit: usize)
    requires
        offset + limit <= usize::MAX,
    ensures
        window(content, None, None) == lines(content),
        window(content, Some(offset), Some(limit)) + window(
            content,
            Some((offset + limit) as usize),
            None,
        ) == window(content, Some(offset), None),
{
    assert(window(content, None, None) =~= lines(content));
    assert(window(content, Some(offset), Some(limit)) + window(
        content,
        Some((offset + limit) as usize),
        None,
    ) =~= window(content, Some(offset), None));
}

/// What is reported of reading `content` from the file at `path`: the lines in the
/// window, joined, and where the window lies.
pub open spec fn is_read_output(
    output: ReadFileOutput,
    path: Seq<u8>,
    content: Seq<char>,
    offset: Option<usize>,
    limit: Option<usize>,
) -> bool {
    let count = lines(content).len() as int;
    &&& output.kind@ == "text"@
    &&& output.file.file_path@ == lossy_text(path)
    &&& output.file.content@ == joined(window(content, offset, limit), "\n"@)
    &&& output.file.num_lines == window(content, offset, limit).len()
    &&& output.file.start_line == if first_line(count, offset) < usize::MAX {
        first_line(count, offset) + 1
    } else {
        usize::MAX as int
    }
    &&& output.file.total_lines == count
}

/// The report of reading `content` from the file at `path`.
pub fn build_read_output(
    path: &Vec<u8>,
    content: &str,
    offset: Option<usize>,
    limit: Option<usize>,
) -> (r: ReadFileOutput)
    ensures
        is_read_output(r, path@, content@, offset, limit),
        valid_utf8(path@) ==> r.file.file_path@ == decode_utf8(path@),
{
    let all = split_lines(content);
    let count: usize = all.len();
    let start: usize = match offset {
        Some(n) => if n < count {
            n
        } else {
            count
        },
        None => 0,
    };
    let end: usize = match limit {
        Some(n) => if n < count - start {
            start + n
        } else {
            count
        },
        None => count,
    };
    let selected = join_range(&all, start, end, "\n");
    ReadFileOutput {
        kind: "text".to_owned(),
        file: TextFilePayload {
            file_path: path_text(path),
            content: selected,
            num_lines: end - start,
            start_line: start.saturating_add(1),
            total_lines: count,
        },
    }
}

/// The text of a file before a write, which is empty where there was none.
pub open spec fn text_before(original: Option<Seq<char>>) -> Seq<char> {
    match original {
        Some(t) => t,
        None => ""@,
    }
}

/// What is reported of writing `content` to the file at `path`, which held `original`.
pub open spec fn is_write_output(
    output: WriteFileOutput,
    path: Seq<u8>,
    original: Option<Seq<char>>,
    content: Seq<char>,
) -> bool {
    &&& output.kind@ == if original is Some {
        "update"@
    } else {
        "create"@
    }
    &&& output.file_path@ == lossy_text(path)
    &&& output.content@ == content
    &&& is_patch(output.structured_patch@, text_before(original), content)
    &&& string_option(output.original_file) == original
    &&& output.git_diff is None
}

/// The report of writing `content` to the file at `path`, which held `original_file`.
pub fn build_write_output(path: &Vec<u8>, original_file: Option<String>, content: &str) -> (r:
    WriteFileOutput)
    ensures
        is_write_output(r, path@, string_option(original_file), content@),
        valid_utf8(path@) ==> r.file_path@ == decode_utf8(path@),
{
    let kind = match &original_file {
        Some(_) => "update".to_owned(),
        None => "create".to_owned(),
    };
    let structured_patch = match &original_file {
        Some(text) => make_patch(text.as_str(), content),
        None => make_patch("", content),
    };
    WriteFileOutput {
        kind,
        file_path: path_text(path),
        content: content.to_owned(),
        structured_patch,
        original_file,
        git_diff: None,
    }
}

/// What is reported of an edit that left `updated` in the file at `path`, which held
/// `original`.
pub open spec fn is_edit_output(
    output: EditFileOutput,
    path: Seq<u8>,
    old_string: Seq<char>,
    new_string: Seq<char>,
    replace_all: bool,
    original: Seq<char>,
    updated: Seq<char>,
) -> bool {
    &&& output.file_path@ == lossy_text(path)
    &&& output.old_string@ == old_string
    &&& output.new_string@ == new_string
    &&& output.original_file@ == original
    &&& is_patch(output.structured_patch@, original, updated)
    &&& !output.user_modified
    &&& output.replace_all == replace_all
    &&& output.git_diff is None
}

/// The report of an edit that left `updated` in the file at `path`, which held
/// `original_file`.
pub fn build_edit_output(
    path: &Vec<u8>,
    old_string: &str,
    new_string: &str,
    replace_all: bool,
    original_file: String,
    updated: &str,
) -> (r: EditFileOutput)
    ensures
        is_edit_output(
            r,
            path@,
            old_string@,
            new_string@,
            replace_all,
            original_file@,
            updated@,
        ),
        valid_utf8(path@) ==> r.file_path@ == decode_utf8(path@),
{
    let structured_patch = make_patch(original_file.as_str(), updated);
    EditFileOutput {
        file_path: path_text(path),
        old_string: old_string.to_owned(),
        new_string: new_string.to_owned(),
        original_file,
        structured_patch,
        user_modified: false,
        replace_all,
        git_diff: None,
    }
}

/// What is reported of an annotation that left `updated` in the file at `path`, which
/// held `original`.
pub open spec fn is_annotate_output(
    output: AnnotateMarkdownOutput,
    path: Seq<u8>,
    annotation: Seq<char>,
    anchor: Option<Seq<char>>,
    position: Seq<char>,
    original: Seq<char>,
    updated: Seq<char>,
) -> bool {
    &&& output.file_path@ == lossy_text(path)
    &&& output.annotation@ == annotation
    &&& string_option(output.anchor) == anchor
    &&& output.position@ == position
    &&& output.original_file@ == original
    &&& is_patch(output.structured_patch@, original, updated)
    &&& output.git_diff is None
}

/// The report of an annotation that left `updated` in the file at `path`, which held
/// `original_file`.
pub fn build_annotate_output(
    path: &Vec<u8>,
    annotation: String,
    anchor: Option<String>,
    position: &str,
    original_file: String,
    updated: &str,
) -> (r: AnnotateMarkdownOutput)
    ensures
        is_annotate_output(
            r,
            path@,
            annotation@,
            string_option(anchor),
            position@,
            original_file@,
            updated@,
        ),
        valid_utf8(path@) ==> r.file_path@ == decode_utf8(path@),
{
    let structured_patch = make_patch(original_file.as_str(), updated);
    AnnotateMarkdownOutput {
        file_path: path_text(path),
        annotation,
        anchor,
        position: position.to_owned(),
        original_file,
        structured_patch,
        git_diff: None,
    }
}

/// The lines `from..to` of `count` are those from the offset `o` on, and of these no more
/// than the limit, where there is one.
pub open spec fn are_lines_in_window(
    from: int,
    to: int,
    count: int,
    o: int,
    limit: Option<usize>,
) -> bool {
    &&& 0 <= from <= to <= count
    &&& forall|i: int|
        #![trigger in_lines(from, to, i)]
        in_lines(from, to, i) <==> (o <= i < count && (limit matches Some(n) ==> i < o + n))
}

/// The offset that is asked for, which is zero where none is.
pub open spec fn asked_offset(offset: Option<usize>) -> int {
    match offset {
        Some(n) => n as int,
        None => 0,
    }
}

/// `from <= i < to`.
pub open spec fn in_lines(from: int, to: int, i: int) -> bool {
    from <= i < to
}

/// The lines that a read reports are those from the offset on, counted from zero, and of
/// these no more than the limit: line `i` is among them just where `i` is not before the
/// offset, and less than the limit behind it where there is one. No offset is an offset of
/// zero. They come in their order, joined by newlines.
pub proof fn law_read_reports_lines_in_window(
    output: ReadFileOutput,
    path: Seq<u8>,
    content: Seq<char>,
    offset: Option<usize>,
    limit: Option<usize>,
)
    requires
        is_read_output(output, path, content, offset, limit),
    ensures
        ({
            let all = lines(content);
            let o = asked_offset(offset);
            exists|from: int, to: int|
                {
                    &&& #[trigger] are_lines_in_window(from, to, all.len() as int, o, limit)
                    &&& output.file.content@ == joined(all.subrange(from, to), seq!['\n'])
                    &&& output.file.num_lines == to - from
                    &&& from == if o < all.len() {
                        o
                    } else {
                        all.len() as int
                    }
                    &&& limit matches Some(n) ==> to - from <= n
                    &&& from < usize::MAX ==> output.file.start_line == from + 1
                }
        }),
        output.file.total_lines == lines(content).len(),
        output.file.file_path@ == lossy_text(path),
        output.kind@ == seq!['t', 'e', 'x', 't'],
{
    let all = lines(content);
    let count = all.len() as int;
    let o = asked_offset(offset);
    let from = first_line(count, offset);
    let to = last_line(count, offset, limit);
    reveal_strlit("\n");
    reveal_strlit("text");
    assert("\n"@ =~= seq!['\n']);
    assert("text"@ =~= seq!['t', 'e', 'x', 't']);
    assert(are_lines_in_window(from, to, count, o, limit));
}

/// A file counts as binary just where one of the bytes that were looked at is zero.
pub proof fn law_binary_file_has_zero_byte(bytes: Seq<u8>)
    ensures
        looks_binary(bytes) <==> exists|i: int| 0 <= i < bytes.len() && #[trigger] bytes[i] == 0,
{
}

/// What a write reports of its file is what became of it: that it is new just where there
/// was none, the text that was there, the text that is there now, and how the one leads to
/// the other.
pub proof fn law_write_reports_what_was_written(
    output: WriteFileOutput,
    path: Seq<u8>,
    original: Option<Seq<char>>,
    content: Seq<char>,
)
    requires
        is_write_output(output, path, original, content),
    ensures
        output.content@ == content,
        output.file_path@ == lossy_text(path),
        match original {
            None => {
                &&& output.kind@ == seq!['c', 'r', 'e', 'a', 't', 'e']
                &&& output.original_file is None
                &&& is_patch(output.structured_patch@, Seq::<char>::empty(), content)
            },
            Some(text) => {
                &&& output.kind@ == seq!['u', 'p', 'd', 'a', 't', 'e']
                &&& output.original_file matches Some(f) && f@ == text
                &&& is_patch(output.structured_patch@, text, content)
            },
        },
        output.git_diff is None,
{
    reveal_strlit("create");
    reveal_strlit("update");
    reveal_strlit("");
    assert("create"@ =~= seq!['c', 'r', 'e', 'a', 't', 'e']);
    assert("update"@ =~= seq!['u', 'p', 'd', 'a', 't', 'e']);
    assert(""@ =~= Seq::<char>::empty());
}

/// What an edit reports is what was asked for, what was there, and how that leads to what is
/// there now.
pub proof fn law_edit_reports_what_was_asked_for(
    output: EditFileOutput,
    path: Seq<u8>,
    old_string: Seq<char>,
    new_string: Seq<char>,
    replace_all: bool,
    original: Seq<char>,
    updated: Seq<char>,
)
    requires
        is_edit_output(output, path, old_string, new_string, replace_all, original, updated),
    ensures
        output.file_path@ == lossy_text(path),
        output.old_string@ == old_string,
        output.new_string@ == new_string,
        output.original_file@ == original,
        is_patch(output.structured_patch@, original, updated),
        output.replace_all == replace_all,
        !output.user_modified,
        output.git_diff is None,
{
}

/// What an annotation reports is what was asked for, what was there, and how that leads to
/// what is there now.
pub proof fn law_annotation_reports_what_was_asked_for(
    output: AnnotateMarkdownOutput,
    path: Seq<u8>,
    annotation: Seq<char>,
    anchor: Option<Seq<char>>,
    position: Seq<char>,
    original: Seq<char>,
    updated: Seq<char>,
)
    requires
        is_annotate_output(output, path, annotation, anchor, position, original, updated),
    ensures
        output.file_path@ == lossy_text(path),
        output.annotation@ == annotation,
        match anchor {
            None => output.anchor is None,
            Some(a) => output.anchor matches Some(s) && s@ == a,
        },
        output.position@ == position,
        output.original_file@ == original,
        is_patch(output.structured_patch@, original, updated),
        output.git_diff is None,
{
}

} // verus!
