//! Text: line endings, edits, patches, annotations.

use file_ops::annotate::{
    annotate_text, find_unique_anchor_range, insert_annotation_block, line_end_for_index,
    line_start_for_index, normalize_annotation_position,
};
use file_ops::block::{build_ai_annotation_block, escape_html_text, strip_prefixes};
use file_ops::edit::{replace_mapped_ranges, replace_text_preserving_style};
use file_ops::endings::{
    detect_line_ending_style, normalize_line_endings_to, preserve_existing_text_style,
};
use file_ops::error::{ErrorKind, FileError, MAX_READ_SIZE, MAX_WRITE_SIZE};
use file_ops::lines::{join_range, split_lines};
use file_ops::offsets::normalize_text_with_offsets;
use file_ops::patch::{make_patch, StructuredPatchHunk};
use file_ops::reports::{
    build_annotate_output, build_edit_output, build_read_output, build_write_output,
    is_binary_file,
};
use file_ops::text::{
    byte_slice, char_offsets, char_width, chars_of, decimal_string, is_white_space, same_text,
    string_of, trim,
};

const TEXTS: [&str; 14] = [
    "", "a", "\n", "\r", "\r\n", "a\nb", "a\r\nb\r\n", "a\rb", "\r\r\n\n\r", "\u{feff}a\r\nb",
    "日本\r\nü", "x\n\ny\n", " a \t", "one\ntwo\nthree",
];

fn plain(s: &str) -> String {
    s.replace("\r\n", "\n").replace('\r', "\n")
}

#[test]
fn lines_agree_with_the_standard_library() {
    for t in TEXTS {
        let want: Vec<&str> = t.lines().collect();
        assert_eq!(split_lines(t), want, "{t:?}");
    }
}

#[test]
fn joining_puts_separators_between_neighbours() {
    let parts = vec!["a".to_owned(), "b".to_owned(), "c".to_owned()];
    assert_eq!(join_range(&parts, 0, 3, "\n"), "a\nb\nc");
    assert_eq!(join_range(&parts, 1, 2, "\n"), "b");
    assert_eq!(join_range(&parts, 2, 2, "\n"), "");
}

#[test]
fn white_space_agrees_with_the_standard_library() {
    for n in 0..=0x10ffffu32 {
        if let Some(c) = char::from_u32(n) {
            assert_eq!(is_white_space(c), c.is_whitespace(), "{n:x}");
        }
    }
    for t in TEXTS {
        assert_eq!(trim(t), t.trim());
    }
}

#[test]
fn characters_and_offsets() {
    assert_eq!(chars_of("aü日𝄞"), vec!['a', 'ü', '日', '𝄞']);
    assert_eq!(char_offsets("aü日𝄞"), vec![0, 1, 3, 6, 10]);
    assert_eq!(char_width('a'), 1);
    assert_eq!(char_width('ü'), 2);
    assert_eq!(char_width('日'), 3);
    assert_eq!(char_width('𝄞'), 4);
    assert_eq!(string_of(&vec!['a', 'ü', 'b'], 1, 3), "üb");
    assert_eq!(byte_slice("aü日", 1, 3), "ü");
    assert!(same_text("ü", "ü"));
    assert!(!same_text("u", "ü"));
    assert_eq!(decimal_string(0), "0");
    assert_eq!(decimal_string(18446744073709551615), "18446744073709551615");
}

#[test]
fn line_ending_styles() {
    assert_eq!(detect_line_ending_style("a\r\nb\n"), "\r\n");
    assert_eq!(detect_line_ending_style("a\nb"), "\n");
    assert_eq!(detect_line_ending_style("a\rb"), "\n");
    assert_eq!(detect_line_ending_style(""), "\n");
}

#[test]
fn line_endings_are_rewritten() {
    for t in TEXTS {
        assert_eq!(normalize_line_endings_to(t, "\n"), plain(t));
        let crlf = normalize_line_endings_to(t, "\r\n");
        assert_eq!(crlf, plain(t).replace('\n', "\r\n"));
        assert_eq!(normalize_line_endings_to(&crlf, "\n"), plain(t));
        assert_eq!(split_lines(&crlf), split_lines(&plain(t)));
    }
}

#[test]
fn content_takes_the_style_of_the_text_that_it_replaces() {
    assert_eq!(preserve_existing_text_style("a\r\nb\rc", None), "a\r\nb\rc");
    assert_eq!(preserve_existing_text_style("a\nb", Some("x\r\ny")), "a\r\nb");
    assert_eq!(preserve_existing_text_style("a\r\nb\rc", Some("x\ny")), "a\nb\nc");
    assert_eq!(preserve_existing_text_style("a\nb", Some("\u{feff}x")), "\u{feff}a\nb");
    assert_eq!(preserve_existing_text_style("\u{feff}a", Some("\u{feff}x")), "\u{feff}a");
    assert_eq!(preserve_existing_text_style("", Some("\u{feff}")), "\u{feff}");
    assert_eq!(preserve_existing_text_style("\u{feff}a", Some("x")), "\u{feff}a");
}

#[test]
fn offsets_lead_back_to_the_original() {
    let n = normalize_text_with_offsets("a\r\nü\rb");
    assert_eq!(n.text, "a\nü\nb");
    assert_eq!(n.original_offsets, vec![0, 1, 3, 3, 5, 6, 7]);
    let n = normalize_text_with_offsets("");
    assert_eq!(n.text, "");
    assert_eq!(n.original_offsets, vec![0]);
}

#[test]
fn mapped_ranges_are_replaced() {
    assert_eq!(replace_mapped_ranges("abcdef", &[(1, 2), (4, 6)], "X"), "aXcdX");
    assert_eq!(replace_mapped_ranges("abc", &[], "X"), "abc");
    assert_eq!(replace_mapped_ranges("ü-ü", &[(2, 3)], "日"), "ü日ü");
    assert_eq!(replace_mapped_ranges("abcdef", &[(3, 1), (4, 4)], "X"), "abcXbcdXef");
}

#[test]
fn exact_edits_replace_what_occurs() {
    let edit = replace_text_preserving_style;
    assert_eq!(edit("alpha beta alpha", "alpha", "omega", true).unwrap(), "omega beta omega");
    assert_eq!(edit("alpha beta alpha", "alpha", "omega", false).unwrap(), "omega beta alpha");
    assert_eq!(edit("aaaa", "aa", "b", true).unwrap(), "bb");
    assert_eq!(edit("x\r\ny", "x", "1\n2", false).unwrap(), "1\r\n2\r\ny");
    assert_eq!(edit("x", "x", "", false).unwrap(), "");
}

#[test]
fn edits_match_across_line_endings() {
    let edit = replace_text_preserving_style;
    assert_eq!(edit("a\r\nb\r\nc", "a\nb", "x\ny", false).unwrap(), "x\r\ny\r\nc");
    assert_eq!(edit("a\nb\na\nb", "a\r\nb", "z", true).unwrap(), "z\nz");
    assert_eq!(edit("a\nb\na\nb", "a\r\nb", "z", false).unwrap(), "z\na\nb");
    assert_eq!(edit("日\r\nü!", "日\nü", "ok", false).unwrap(), "ok!");
}

#[test]
fn edits_are_refused_where_there_is_nothing_to_replace() {
    let edit = replace_text_preserving_style;
    let error = edit("abc", "", "x", false).unwrap_err();
    assert_eq!(error, FileError::EmptyOldString);
    assert_eq!(error.kind(), ErrorKind::InvalidInput);
    assert_eq!(error.message(), "old_string must not be empty");
    let error = edit("abc", "d", "x", true).unwrap_err();
    assert_eq!(error, FileError::OldStringNotFound);
    assert_eq!(error.kind(), ErrorKind::NotFound);
    assert_eq!(
        error.message(),
        "old_string not found in file, including CRLF/LF-compatible matching"
    );
}

#[test]
fn patches_back_swap_what_they_take_and_put() {
    let with_mark = |patch: &[StructuredPatchHunk], mark: char| -> Vec<String> {
        patch[0].lines.iter().filter(|l| l.starts_with(mark)).map(|l| l[1..].to_owned()).collect()
    };
    for (a, b) in [("1\n2\n3", "1\nx\ny\n3"), ("", "a\nb"), ("a\nb\na", "a"), ("a", "b")] {
        let there = make_patch(a, b);
        let back = make_patch(b, a);
        assert_eq!(with_mark(&back, '-'), with_mark(&there, '+'));
        assert_eq!(with_mark(&back, '+'), with_mark(&there, '-'));
        assert_eq!(with_mark(&back, ' '), with_mark(&there, ' '));
        assert_eq!(
            (back[0].old_start, back[0].old_lines, back[0].new_start, back[0].new_lines),
            (there[0].new_start, there[0].new_lines, there[0].old_start, there[0].old_lines)
        );
    }
}

#[test]
fn patches_show_the_lines_around_a_change() {
    assert_eq!(make_patch("a\nb", "a\nb"), vec![]);
    let hunk = |old_start: usize, old_lines: usize, new_start: usize, new_lines: usize, lines: &[&str]| {
        StructuredPatchHunk {
            old_start,
            old_lines,
            new_start,
            new_lines,
            lines: lines.iter().map(|l| (*l).to_owned()).collect(),
        }
    };
    assert_eq!(
        make_patch("", "one\ntwo"),
        vec![hunk(1, 0, 1, 2, &["+one", "+two"])]
    );
    assert_eq!(
        make_patch("1\n2\n3\n4\n5\n6\n7\n8\n9", "1\n2\n3\n4\nx\n6\n7\n8\n9"),
        vec![hunk(2, 7, 2, 7, &[" 2", " 3", " 4", "-5", "+x", " 6", " 7", " 8"])]
    );
}

#[test]
fn html_text_is_escaped_once() {
    assert_eq!(escape_html_text("a<b>&\"c\"&amp;"), "a&lt;b&gt;&amp;&quot;c&quot;&amp;amp;");
    assert_eq!(escape_html_text(""), "");
}

#[test]
fn annotation_blocks() {
    assert_eq!(
        build_ai_annotation_block("  > AI 批注：a<b  \r\n\r\n批注：c ", "\n").unwrap(),
        "<mark style=\"background:#d3f8b6;\">a&lt;b</mark>\n\n<mark style=\"background:#d3f8b6;\">c</mark>\n"
    );
    let error = build_ai_annotation_block(" \t\n", "\n").unwrap_err();
    assert_eq!(error, FileError::EmptyAnnotation);
    assert_eq!(error.message(), "annotation must not be empty");
    assert_eq!(strip_prefixes(">>a>", ">"), "a>");
}

#[test]
fn annotation_positions() {
    assert_eq!(normalize_annotation_position(None, true), Ok("after"));
    assert_eq!(normalize_annotation_position(None, false), Ok("end"));
    assert_eq!(normalize_annotation_position(Some("before"), false), Ok("before"));
    assert_eq!(normalize_annotation_position(Some("after"), false), Ok("after"));
    assert_eq!(normalize_annotation_position(Some("end"), true), Ok("end"));
    let error = normalize_annotation_position(Some("middle"), true).unwrap_err();
    assert_eq!(error, FileError::UnknownPosition);
    assert_eq!(error.message(), "position must be one of: before, after, end");
}

#[test]
fn anchors_have_to_be_unique() {
    assert_eq!(find_unique_anchor_range("one two", "two"), Ok((4, 7)));
    assert_eq!(find_unique_anchor_range("ü\r\nx", "ü\nx"), Ok((0, 5)));
    assert_eq!(find_unique_anchor_range("a a", "a"), Err(FileError::AmbiguousAnchor));
    assert_eq!(find_unique_anchor_range("a\r\nb a\r\nb", "a\nb"), Err(FileError::AmbiguousAnchor));
    assert_eq!(find_unique_anchor_range("a", "b"), Err(FileError::AnchorNotFound));
    assert_eq!(find_unique_anchor_range("a", " \n"), Err(FileError::EmptyAnchor));
    assert_eq!(
        FileError::AmbiguousAnchor.message(),
        "anchor matched multiple locations in the Markdown file"
    );
    assert_eq!(FileError::EmptyAnchor.message(), "anchor must not be empty");
}

#[test]
fn line_boundaries() {
    let text = "ab\nüd\nef";
    assert_eq!(line_start_for_index(text, 0), 0);
    assert_eq!(line_start_for_index(text, 3), 3);
    assert_eq!(line_start_for_index(text, 5), 3);
    assert_eq!(line_end_for_index(text, 0), 3);
    assert_eq!(line_end_for_index(text, 3), 7);
    assert_eq!(line_end_for_index(text, 8), 9);
}

#[test]
fn blocks_are_set_off_by_a_blank_line() {
    assert_eq!(insert_annotation_block("a", 1, "B\n", "\n"), "a\n\nB\n");
    assert_eq!(insert_annotation_block("a\n", 2, "B\n", "\n"), "a\n\nB\n");
    assert_eq!(insert_annotation_block("a\n\n", 3, "B\n", "\n"), "a\n\nB\n");
    assert_eq!(insert_annotation_block("", 0, "B\n", "\n"), "B\n");
    assert_eq!(insert_annotation_block("a\nb", 2, "B", "\n"), "a\n\nB\nb");
}

#[test]
fn annotations_only_add_text() {
    let (text, position) = annotate_text("# T\r\n\r\npara\r\nmore", "note", Some("para"), None).unwrap();
    assert_eq!(position, "after");
    assert_eq!(
        text,
        "# T\r\n\r\npara\r\n\r\n<mark style=\"background:#d3f8b6;\">note</mark>\r\nmore"
    );
    let (text, position) = annotate_text("x\ny\n", "note", Some("y"), Some("before")).unwrap();
    assert_eq!(position, "before");
    assert_eq!(text, "x\n\n<mark style=\"background:#d3f8b6;\">note</mark>\ny\n");
    let (text, position) = annotate_text("x", "note", None, None).unwrap();
    assert_eq!(position, "end");
    assert_eq!(text, "x\n\n<mark style=\"background:#d3f8b6;\">note</mark>\n");
    assert_eq!(
        annotate_text("x", "note", None, Some("after")),
        Err(FileError::AnchorRequired)
    );
    assert_eq!(
        FileError::AnchorRequired.message(),
        "anchor is required when position is before or after"
    );
    assert_eq!(annotate_text("x", "note", Some("y"), None), Err(FileError::AnchorNotFound));
    assert_eq!(annotate_text("x", " ", None, None), Err(FileError::EmptyAnnotation));
    assert_eq!(
        annotate_text("x", "n", None, Some("top")),
        Err(FileError::UnknownPosition)
    );
}

#[test]
fn errors_name_the_limits() {
    let size: u64 = MAX_READ_SIZE + 1;
    assert_eq!(
        FileError::FileTooLarge { size }.message(),
        "file is too large (10485761 bytes, max 10485760 bytes)"
    );
    let size: usize = MAX_WRITE_SIZE + 1;
    assert_eq!(
        FileError::ContentTooLarge { size }.message(),
        "content is too large (10485761 bytes, max 10485760 bytes)"
    );
    assert_eq!(
        FileError::StyledContentTooLarge { size }.message(),
        "styled content is too large (10485761 bytes, max 10485760 bytes)"
    );
    assert_eq!(
        FileError::AnnotatedFileTooLarge { size }.message(),
        "annotated file is too large (10485761 bytes, max 10485760 bytes)"
    );
    assert_eq!(FileError::BinaryFile.message(), "file appears to be binary");
    assert_eq!(FileError::SameStrings.message(), "old_string and new_string must differ");
    assert_eq!(
        FileError::NotMarkdown.message(),
        "annotate_markdown only supports .md and .markdown files"
    );
    let invalid = FileError::InvalidPattern { message: "why".to_owned() };
    assert_eq!(invalid.message(), "why");
    assert_eq!(invalid.kind(), ErrorKind::InvalidInput);
    assert_eq!(FileError::FileTooLarge { size: 1 }.kind(), ErrorKind::InvalidData);
    assert_eq!(FileError::Host.kind(), ErrorKind::Host);
}

#[test]
fn reads_report_a_window_of_lines() {
    let path = b"/f.txt".to_vec();
    let read = |offset: Option<usize>, limit: Option<usize>| {
        let o = build_read_output(&path, "one\ntwo\r\nthree", offset, limit);
        assert_eq!(o.kind, "text");
        assert_eq!(o.file.file_path, "/f.txt");
        assert_eq!(o.file.total_lines, 3);
        (o.file.content, o.file.num_lines, o.file.start_line)
    };
    assert_eq!(read(None, None), ("one\ntwo\nthree".to_owned(), 3, 1));
    assert_eq!(read(Some(1), Some(1)), ("two".to_owned(), 1, 2));
    assert_eq!(read(Some(2), Some(usize::MAX)), ("three".to_owned(), 1, 3));
    assert_eq!(read(Some(9), None), ("".to_owned(), 0, 4));
    assert_eq!(read(None, Some(0)), ("".to_owned(), 0, 1));
}

#[test]
fn windows_join_to_the_whole() {
    let path = b"/f".to_vec();
    let text = "a\nb\nc\nd\ne";
    let first = build_read_output(&path, text, Some(1), Some(2)).file.content;
    let rest = build_read_output(&path, text, Some(3), None).file.content;
    let whole = build_read_output(&path, text, Some(1), None).file.content;
    assert_eq!(format!("{first}\n{rest}"), whole);
}

#[test]
fn writes_report_what_was_there() {
    let path = b"/f\xff.txt".to_vec();
    let o = build_write_output(&path, None, "a");
    assert_eq!(o.kind, "create");
    assert_eq!(o.file_path, "/f\u{fffd}.txt");
    assert_eq!(o.content, "a");
    assert_eq!(o.original_file, None);
    assert_eq!(o.structured_patch, make_patch("", "a"));
    assert!(o.git_diff.is_none());
    let o = build_write_output(&path, Some("b".to_owned()), "a");
    assert_eq!(o.kind, "update");
    assert_eq!(o.original_file, Some("b".to_owned()));
    assert_eq!(o.structured_patch, make_patch("b", "a"));
}

#[test]
fn edits_and_annotations_report_their_terms() {
    let path = b"/f.md".to_vec();
    let o = build_edit_output(&path, "a", "b", true, "xa".to_owned(), "xb");
    assert_eq!((o.old_string.as_str(), o.new_string.as_str()), ("a", "b"));
    assert_eq!(o.original_file, "xa");
    assert!(o.replace_all && !o.user_modified);
    assert_eq!(o.structured_patch, make_patch("xa", "xb"));
    let o = build_annotate_output(
        &path,
        "n".to_owned(),
        Some("x".to_owned()),
        "after",
        "x".to_owned(),
        "xn",
    );
    assert_eq!(o.file_path, "/f.md");
    assert_eq!(o.annotation, "n");
    assert_eq!(o.anchor, Some("x".to_owned()));
    assert_eq!(o.position, "after");
    assert_eq!(o.original_file, "x");
    assert_eq!(o.structured_patch, make_patch("x", "xn"));
}

#[test]
fn a_zero_byte_makes_a_file_binary() {
    assert!(is_binary_file(&b"ab\x00c".to_vec()));
    assert!(!is_binary_file(&b"abc".to_vec()));
    assert!(!is_binary_file(&vec![]));
}
