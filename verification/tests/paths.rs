//! Paths as strings of bytes, and the boundary of a workspace.

use file_ops::error::{ErrorKind, FileError};
use file_ops::paths::{
    path_components, path_extension, path_file_name, path_is_absolute, path_join, path_parent,
    path_starts_with, Platform,
};
use file_ops::text::utf8_string;
use file_ops::workspace::{
    canonicalize_workspace_root, is_markdown_path, normalize_windows_extended_path,
    validate_workspace_boundary,
};
use std::path::Path;

const SAMPLES: [&str; 24] = [
    "", "/", ".", "..", "a", "a/", "/a", "/a/", "a/b", "/a/b/c.txt", "./a", "a/./b", "a//b",
    "a/..", "../a", "//a//b//", "/.", "/..", "./", "a/b/", ".hidden", "x.tar.gz", "dir.d/.rc",
    "name.",
];

fn joined(parts: &[Vec<u8>]) -> Vec<String> {
    parts
        .iter()
        .map(|p| String::from_utf8(p.clone()).unwrap())
        .collect()
}

#[test]
fn paths_agree_with_the_standard_library() {
    for a in SAMPLES {
        let path = Path::new(a);
        let bytes = a.as_bytes();
        let want: Vec<String> = path
            .components()
            .map(|c| c.as_os_str().to_str().unwrap().to_owned())
            .collect();
        assert_eq!(joined(&path_components(bytes)), want, "components of {a:?}");
        assert_eq!(path_is_absolute(bytes), path.is_absolute(), "{a:?}");
        assert_eq!(
            path_file_name(bytes),
            path.file_name().map(|n| n.to_str().unwrap().as_bytes().to_vec()),
            "name of {a:?}"
        );
        assert_eq!(
            path_parent(bytes),
            path.parent().map(|n| n.to_str().unwrap().as_bytes().to_vec()),
            "parent of {a:?}"
        );
        assert_eq!(
            path_extension(bytes),
            path.extension().map(|n| n.to_str().unwrap().as_bytes().to_vec()),
            "extension of {a:?}"
        );
        for b in SAMPLES {
            assert_eq!(
                path_starts_with(bytes, b.as_bytes()),
                path.starts_with(b),
                "{a:?} starts with {b:?}"
            );
            assert_eq!(
                path_join(bytes, b.as_bytes()),
                path.join(b).to_str().unwrap().as_bytes().to_vec(),
                "{a:?} joined with {b:?}"
            );
        }
    }
}

#[test]
fn relative_paths_stay_below_what_they_are_taken_from() {
    for base in SAMPLES {
        for p in SAMPLES {
            if !p.starts_with('/') {
                let q = path_join(base.as_bytes(), p.as_bytes());
                assert!(path_starts_with(&q, base.as_bytes()), "{base:?} {p:?}");
            }
        }
    }
}

#[test]
fn the_boundary_goes_by_whole_components() {
    let inside = |p: &str, root: &str| {
        validate_workspace_boundary(p.as_bytes(), root.as_bytes()).is_ok()
    };
    assert!(inside("/work/a.txt", "/work"));
    assert!(inside("/work", "/work"));
    assert!(inside("/work/a/b", "/work/a"));
    assert!(!inside("/work2/a.txt", "/work"));
    assert!(!inside("/", "/work"));
    assert!(!inside("/tmp/x", "/work"));
}

#[test]
fn the_boundary_is_transitive() {
    let inside = |p: &str, root: &str| {
        validate_workspace_boundary(p.as_bytes(), root.as_bytes()).is_ok()
    };
    assert!(inside("/a/b/c", "/a/b") && inside("/a/b", "/a") && inside("/a/b/c", "/a"));
}

#[test]
fn a_path_outside_is_refused_for_want_of_permission() {
    let error = validate_workspace_boundary(b"/tmp/x", b"/work").unwrap_err();
    assert_eq!(
        error,
        FileError::EscapesWorkspace { path: b"/tmp/x".to_vec(), root: b"/work".to_vec() }
    );
    assert_eq!(error.kind(), ErrorKind::PermissionDenied);
    assert_eq!(error.message(), "path /tmp/x escapes workspace boundary /work");
}

#[test]
fn extended_prefixes_are_dropped_on_windows() {
    let plain = |p: &str, f: Platform| {
        String::from_utf8(normalize_windows_extended_path(p.as_bytes(), f)).unwrap()
    };
    assert_eq!(plain("\\\\?\\C:\\work", Platform::Windows), "C:\\work");
    assert_eq!(plain("\\\\?\\UNC\\srv\\share", Platform::Windows), "\\\\srv\\share");
    assert_eq!(plain("C:\\work", Platform::Windows), "C:\\work");
    assert_eq!(plain("\\\\?\\C:\\work", Platform::Posix), "\\\\?\\C:\\work");
}

#[test]
fn a_root_that_cannot_be_resolved_stands_as_it_was_given() {
    assert_eq!(
        canonicalize_workspace_root(b"/w", Some(b"/real/w".to_vec())),
        b"/real/w".to_vec()
    );
    assert_eq!(canonicalize_workspace_root(b"/w", None), b"/w".to_vec());
}

#[test]
fn markdown_files_are_known_by_their_extension() {
    for name in ["/a/b.md", "/a/b.MD", "x.Markdown", "x.y.markdown"] {
        assert!(is_markdown_path(name.as_bytes()), "{name}");
    }
    for name in ["/a/b.txt", "/a/md", ".md", "x.mdx", "x.", ""] {
        assert!(!is_markdown_path(name.as_bytes()), "{name}");
    }
}

#[test]
fn only_utf8_paths_have_a_text() {
    assert_eq!(utf8_string(&b"/a/b".to_vec()), Some("/a/b".to_owned()));
    assert_eq!(utf8_string(&"/ü".as_bytes().to_vec()), Some("/ü".to_owned()));
    assert_eq!(utf8_string(&b"/\xff".to_vec()), None);
    assert_eq!(utf8_string(&b"/\xc3".to_vec()), None);
}
