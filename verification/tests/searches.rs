//! The parts of the searches that need no host.

use file_ops::grep::{
    admits, apply_limit, build_grep_content_output, build_grep_output, matches_optional_filters,
    note_count, note_lines, search_file, Tally,
};
use file_ops::grepping::collect_search_files;
use file_ops::listing::{build_glob_output, match_entries, rank, select_fresh, WalkEntry};
use file_ops::matchers::{Expression, Glob};
use file_ops::outputs::GrepSearchInput;

fn input(mode: Option<&str>) -> GrepSearchInput {
    GrepSearchInput {
        pattern: String::new(),
        path: None,
        glob: None,
        output_mode: mode.map(|m| m.to_owned()),
        before: None,
        after: None,
        context_short: None,
        context: None,
        line_numbers: None,
        case_insensitive: None,
        file_type: None,
        head_limit: None,
        offset: None,
        multiline: None,
    }
}

fn tally() -> Tally {
    Tally { filenames: vec![], content_lines: vec![], total_matches: 0 }
}

fn strings(items: &[&str]) -> Vec<String> {
    items.iter().map(|s| (*s).to_owned()).collect()
}

fn entry(path: &str, is_file: bool) -> WalkEntry {
    WalkEntry { path: path.as_bytes().to_vec(), is_file, is_dir: !is_file }
}

#[test]
fn limits_and_offsets() {
    let items: Vec<u32> = (0..300).collect();
    let (rest, limit, offset) = apply_limit(items.clone(), None, None);
    assert_eq!((rest.len(), limit, offset), (250, Some(250), None));
    let (rest, limit, offset) = apply_limit(items.clone(), Some(0), Some(10));
    assert_eq!((rest.len(), limit, offset), (290, None, Some(10)));
    let (rest, limit, offset) = apply_limit(items.clone(), Some(2), Some(298));
    assert_eq!((rest, limit, offset), (vec![298, 299], None, Some(298)));
    let (rest, limit, offset) = apply_limit(items.clone(), Some(1), Some(298));
    assert_eq!((rest, limit, offset), (vec![298], Some(1), Some(298)));
    let (rest, limit, offset) = apply_limit(items, Some(5), Some(usize::MAX));
    assert_eq!((rest, limit, offset), (vec![], None, Some(usize::MAX)));
}

#[test]
fn pages_join_to_the_whole() {
    let items: Vec<u32> = (0..23).collect();
    let (mut all, _, _) = apply_limit(items.clone(), Some(5), Some(7));
    let (rest, _, _) = apply_limit(items.clone(), Some(0), Some(12));
    all.extend(rest);
    assert_eq!(all, items[7..].to_vec());
}

#[test]
fn filters_go_by_glob_and_type() {
    let path = b"/a/b.rs".to_vec();
    assert!(admits(&path, None, None));
    assert!(admits(&path, Some(true), Some("rs")));
    assert!(!admits(&path, Some(false), Some("rs")));
    assert!(!admits(&path, None, Some("r")));
    assert!(!admits(&b"/a/b".to_vec(), None, Some("")));
    let glob = Glob::new("**/*.rs").expect("the glob is valid");
    assert!(matches_optional_filters(&path, Some(&glob), None));
    assert!(!matches_optional_filters(&b"/a/b.txt".to_vec(), Some(&glob), None));
    assert!(matches_optional_filters(&b"/a/\xff.rs".to_vec(), Some(&glob), None));
    let slashes = Glob::new("/a/*.rs").expect("the glob is valid");
    assert!(!matches_optional_filters(&b"\\a\\b.rs".to_vec(), Some(&slashes), None));
}

#[test]
fn counts_are_noted_with_their_files() {
    let mut t = tally();
    note_count(&mut t, "a", 0);
    assert_eq!(t, tally());
    note_count(&mut t, "a", 3);
    note_count(&mut t, "b", usize::MAX);
    assert_eq!(t.filenames, strings(&["a", "b"]));
    assert_eq!(t.total_matches, usize::MAX);
}

#[test]
fn lines_are_noted_with_their_context() {
    let lines = strings(&["l1", "l2", "l3", "l4"]);
    let matched = vec![false, true, true, false];
    let mut terms = input(Some("content"));
    terms.context_short = Some(1);
    let mut t = tally();
    note_lines(&mut t, "f", &lines, &matched, &terms);
    assert_eq!(t.filenames, strings(&["f"]));
    assert_eq!(t.total_matches, 2);
    assert_eq!(
        t.content_lines,
        strings(&["f:1:l1", "f:2:l2", "f:3:l3", "f:2:l2", "f:3:l3", "f:4:l4"])
    );
    terms.context = Some(0);
    let mut t = tally();
    note_lines(&mut t, "f", &lines, &matched, &terms);
    assert_eq!(t.content_lines, strings(&["f:2:l2", "f:3:l3"]));
    terms.before = Some(1);
    terms.after = Some(usize::MAX);
    terms.line_numbers = Some(false);
    let mut t = tally();
    note_lines(&mut t, "f", &lines, &vec![false, false, true, false], &terms);
    assert_eq!(t.content_lines, strings(&["f:l2", "f:l3", "f:l4"]));
    let mut t = tally();
    note_lines(&mut t, "f", &lines, &vec![false; 4], &terms);
    assert_eq!(t, tally());
    let mut t = tally();
    note_lines(&mut t, "f", &lines, &matched, &input(None));
    assert_eq!(t.filenames, strings(&["f"]));
    assert!(t.content_lines.is_empty());
}

#[test]
fn files_are_searched_by_line_or_as_a_whole() {
    let word = Expression::new("a", false, false).expect("the expression is valid");
    let mut t = tally();
    search_file(&mut t, &word, "f", "a a\nb\na", &input(None));
    assert_eq!(t.total_matches, 2);
    let mut t = tally();
    search_file(&mut t, &word, "f", "a a\nb\na", &input(Some("count")));
    assert_eq!(t.total_matches, 3);
    let mut t = tally();
    search_file(&mut t, &word, "f", "bcd", &input(Some("count")));
    assert_eq!(t, tally());
    let any_case = Expression::new("A", true, false).expect("the expression is valid");
    let mut t = tally();
    search_file(&mut t, &any_case, "f", "xa", &input(Some("content")));
    assert_eq!(t.content_lines, strings(&["f:1:xa"]));
}

#[test]
fn reports_of_lines() {
    let output = build_grep_content_output(
        "content".to_owned(),
        strings(&["f"]),
        strings(&["1", "2", "3"]),
        Some(1),
        Some(1),
    );
    assert_eq!(output.mode, Some("content".to_owned()));
    assert_eq!(output.content, Some("2".to_owned()));
    assert_eq!(output.num_lines, Some(1));
    assert_eq!((output.num_files, output.num_matches), (1, None));
    assert_eq!((output.applied_limit, output.applied_offset), (Some(1), Some(1)));
}

#[test]
fn reports_of_names_and_counts() {
    let noted = || Tally {
        filenames: strings(&["a", "b", "c"]),
        content_lines: strings(&["a:x"]),
        total_matches: 9,
    };
    let mut terms = input(Some("count"));
    terms.head_limit = Some(2);
    let output = build_grep_output(noted(), &terms);
    assert_eq!(output.filenames, strings(&["a", "b"]));
    assert_eq!(output.num_matches, Some(9));
    assert_eq!((output.applied_limit, output.applied_offset), (Some(2), None));
    let output = build_grep_output(noted(), &input(Some("other")));
    assert_eq!(output.mode, Some("other".to_owned()));
    assert_eq!((output.num_files, output.num_matches), (3, None));
    let output = build_grep_output(noted(), &input(Some("content")));
    assert_eq!(output.content, Some("a:x".to_owned()));
    assert_eq!(output.num_files, 3);
}

#[test]
fn found_files_are_fresh() {
    let entries = vec![
        entry("/a", false),
        entry("/a/x.rs", true),
        entry("/a/y.txt", true),
        entry("/a//x.rs", true),
        entry("/a/z.rs", true),
    ];
    let glob = Glob::new("/a/*.rs").expect("the glob is valid");
    let start = b"/a".to_vec();
    let matched = match_entries(&glob, &entries, &start);
    assert_eq!(matched, vec![false, true, false, true, true]);
    let found = select_fresh(&entries, &matched, &vec![]);
    assert_eq!(found, vec![b"/a/x.rs".to_vec(), b"/a/z.rs".to_vec()]);
    let found = select_fresh(&entries, &matched, &vec![b"/a/./z.rs".to_vec()]);
    assert_eq!(found, vec![b"/a/x.rs".to_vec()]);
    let odd = vec![WalkEntry { path: b"/a/\xff.rs".to_vec(), is_file: true, is_dir: false }];
    let lossy = Glob::new("/a/\u{fffd}.rs").expect("the glob is valid");
    assert_eq!(match_entries(&lossy, &odd, &start), vec![true]);
}

#[test]
fn files_in_ignored_directories_do_not_match() {
    let entries = vec![
        entry("/a", false),
        entry("/a/target", false),
        entry("/a/target/x.rs", true),
        entry("/a/b/dist/deep", false),
        entry("/a/b/dist/deep/y.rs", true),
        entry("/a/b/z.rs", true),
        entry("/a/coverage", true),
    ];
    let glob = Glob::new("/a/**").expect("the glob is valid");
    assert_eq!(
        match_entries(&glob, &entries, &b"/a".to_vec()),
        vec![false, false, false, false, false, true, true]
    );
    let below = vec![entry("/x/target/lib", false), entry("/x/target/lib/y.rs", true)];
    let glob = Glob::new("/x/**").expect("the glob is valid");
    let start = b"/x/target/lib".to_vec();
    assert_eq!(match_entries(&glob, &below, &start), vec![false, true]);
    let at = vec![entry("/x/target", false), entry("/x/target/y.rs", true)];
    let start = b"/x/target".to_vec();
    assert_eq!(match_entries(&glob, &at, &start), vec![false, false]);
}

#[test]
fn ranking_is_newest_first_and_stable() {
    assert_eq!(rank(&vec![Some(1), Some(3), None, Some(2), Some(3), None]), vec![2, 5, 1, 4, 3, 0]);
    assert_eq!(rank(&vec![]), Vec::<usize>::new());
    assert_eq!(rank(&vec![Some(-5), Some(0)]), vec![1, 0]);
}

#[test]
fn listings_are_ranked_and_named() {
    let paths = vec![b"/a\\c".to_vec(), b"/b\xff".to_vec()];
    let output = build_glob_output(&paths, &vec![Some(1), Some(2)], 12);
    assert_eq!(output.filenames, strings(&["/b\u{fffd}", "/a\\c"]));
    assert_eq!((output.num_files, output.duration_ms, output.truncated), (2, 12, false));
}

#[test]
fn only_files_are_searched() {
    let entries = vec![entry("/d", false), entry("/d/a", true), entry("/d/l", false), entry("/d/b", true)];
    assert_eq!(collect_search_files(entries), vec![b"/d/a".to_vec(), b"/d/b".to_vec()]);
}
