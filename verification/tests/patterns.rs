//! Patterns: brace groups, the directories that globs start from, and what is ignored.

use file_ops::braces::expand_braces;
use file_ops::globbing::search_globs;
use file_ops::matchers::{Expression, Glob};
use file_ops::paths::Platform;
use file_ops::workspace::{
    component_contains_glob, derive_glob_walk_root, normalize_glob_pattern_text,
    should_skip_glob_dir,
};

#[test]
fn expand_braces_no_braces() {
    assert_eq!(expand_braces("*.rs"), vec!["*.rs"]);
}

#[test]
fn expand_braces_single_group() {
    let mut result = expand_braces("Assets/**/*.{cs,uxml,uss}");
    result.sort();
    assert_eq!(
        result,
        vec!["Assets/**/*.cs", "Assets/**/*.uss", "Assets/**/*.uxml",]
    );
}

#[test]
fn expand_braces_nested() {
    let mut result = expand_braces("src/{a,b}.{rs,toml}");
    result.sort();
    assert_eq!(
        result,
        vec!["src/a.rs", "src/a.toml", "src/b.rs", "src/b.toml"]
    );
}

#[test]
fn expand_braces_unmatched() {
    assert_eq!(expand_braces("foo.{bar"), vec!["foo.{bar"]);
}

#[test]
fn derive_glob_walk_root_stops_at_first_glob_component() {
    let root = derive_glob_walk_root("/tmp/demo/**/AGENTS.md", b"/home");
    assert_eq!(root, b"/tmp/demo".to_vec());
    assert!(component_contains_glob("**"));
    assert!(component_contains_glob("*.rs"));
    assert!(!component_contains_glob("src"));
}

#[test]
fn brace_groups_keep_their_order() {
    assert_eq!(
        expand_braces("{b,a}{1,2}"),
        vec!["b1", "b2", "a1", "a2"]
    );
    assert_eq!(expand_braces("x{}y"), vec!["xy"]);
    assert_eq!(expand_braces("x{,y}"), vec!["x", "xy"]);
    assert_eq!(expand_braces("a}b{c"), vec!["a}b{c"]);
    assert_eq!(expand_braces(""), vec![""]);
}

#[test]
fn braces_in_braces_are_kept() {
    assert_eq!(expand_braces("{a,{b,c}}"), vec!["{a,{b,c}}"]);
    assert_eq!(expand_braces("x{a,{b,c}}"), vec!["x{a,{b,c}}"]);
    assert_eq!(expand_braces("{{a}}"), vec!["{{a}}"]);
    assert_eq!(
        expand_braces("{1,2}{a,{b,c}}.{d,e}"),
        vec!["1{a,{b,c}}.d", "1{a,{b,c}}.e", "2{a,{b,c}}.d", "2{a,{b,c}}.e"]
    );
}

#[test]
fn braces_that_are_not_closed_stand_for_themselves() {
    assert_eq!(expand_braces("{a{b,c}"), vec!["{ab", "{ac"]);
    assert_eq!(expand_braces("{{"), vec!["{{"]);
    assert_eq!(expand_braces("a{b,c}{"), vec!["ab{", "ac{"]);
}

#[test]
fn brace_groups_hold_any_text() {
    assert_eq!(expand_braces("ü{é,日本}"), vec!["üé", "ü日本"]);
}

#[test]
fn walk_roots_of_other_patterns() {
    assert_eq!(derive_glob_walk_root("*.rs", b"/home/me"), b"/home/me".to_vec());
    assert_eq!(derive_glob_walk_root("/*.rs", b"/home/me"), b"/".to_vec());
    assert_eq!(derive_glob_walk_root("a/b?/c", b"/home/me"), b"a".to_vec());
    assert_eq!(derive_glob_walk_root("/a/b/c.txt", b"/x"), b"/a/b/c.txt".to_vec());
    assert_eq!(derive_glob_walk_root("./a//b/[x]", b"/x"), b"./a/b".to_vec());
    assert_eq!(derive_glob_walk_root("", b"/x"), b"/x".to_vec());
}

#[test]
fn components_with_a_bracket_are_globs() {
    assert!(component_contains_glob("a[b"));
    assert!(component_contains_glob("a?"));
    assert!(!component_contains_glob("a]b{c}"));
    assert!(!component_contains_glob(""));
}

#[test]
fn heavy_directories_are_passed_by() {
    for name in [".git", "node_modules", ".build", "target", "dist", "coverage"] {
        assert!(should_skip_glob_dir(true, name.as_bytes()));
        assert!(!should_skip_glob_dir(false, name.as_bytes()));
    }
    assert!(!should_skip_glob_dir(true, b"src"));
    assert!(!should_skip_glob_dir(true, b"targets"));
    assert!(!should_skip_glob_dir(true, b""));
}

#[test]
fn backslashes_become_slashes_on_windows_only() {
    assert_eq!(normalize_glob_pattern_text("a\\b\\*.rs", Platform::Windows), "a/b/*.rs");
    assert_eq!(normalize_glob_pattern_text("a\\b\\*.rs", Platform::Posix), "a\\b\\*.rs");
}

#[test]
fn globs_are_relative_to_the_base_unless_absolute() {
    let base = b"/work/dir".to_vec();
    assert_eq!(
        search_globs("*.{rs,toml}", &base),
        vec!["/work/dir/*.rs", "/work/dir/*.toml"]
    );
    assert_eq!(
        search_globs("/etc/*.conf", &base),
        vec!["/etc/*.conf"]
    );
    let odd = b"/work/\xff".to_vec();
    assert_eq!(
        search_globs("*.rs", &odd),
        vec!["/work/\u{fffd}/*.rs"]
    );
}

#[test]
fn invalid_globs_and_expressions_say_why() {
    assert!(Glob::new("a/**/b").is_ok());
    let message = match Glob::new("a/***") {
        Ok(_) => panic!("three stars are no glob"),
        Err(message) => message,
    };
    assert_eq!(
        message,
        "Pattern syntax error near position 4: wildcards are either regular `*` or recursive `**`"
    );
    assert!(Expression::new("a+", false, false).is_ok());
    let message = match Expression::new("a(", true, false) {
        Ok(_) => panic!("an open group is no expression"),
        Err(message) => message,
    };
    assert!(message.contains("unclosed group"));
}
