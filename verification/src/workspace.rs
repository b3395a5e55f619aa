//! The boundary of a workspace, and the rules about names that searches and
//! annotations go by.

use vstd::prelude::*;
use vstd::string::*;
use vstd::utf8::*;

use crate::error::FileError;
use crate::paths::{
    byte_texts, bytes_of, components, extension, is_name, join, law_components_are_names,
    law_join_appends_name, path_components, path_extension, path_join, path_starts_with, same_bytes,
    starts_with, well_split, Platform, DOT, HOST, SLASH,
};
use crate::search::{lemma_stands, occurs_at, stands, stands_at};
use crate::text::{
    chars_of, lemma_encode_concat, lemma_encode_one, lossy_text, path_text, string_of,
};

verus! {

/// A path without the prefix by which Windows marks extended paths.
pub open spec fn plain_path(p: Seq<u8>, platform: Platform) -> Seq<u8> {
    let text = lossy_text(p);
    let unc = "\\\\?\\UNC\\"@;
    let extended = "\\\\?\\"@;
    if platform == Platform::Posix {
        p
    } else if occurs_at(text, unc, 0) {
        encode_utf8("\\\\"@ + text.skip(unc.len() as int))
    } else if occurs_at(text, extended, 0) {
        encode_utf8(text.skip(extended.len() as int))
    } else {
        p
    }
}

/// The bytes of a text.
fn text_bytes(text: &str) -> (r: Vec<u8>)
    ensures
        r@ == encode_utf8(text@),
{
    let bytes = text.as_bytes();
    let r = bytes_of(bytes, 0, bytes.len());
    assert(r@ =~= bytes@);
    r
}

/// `path` without the prefix by which Windows marks extended paths.
pub fn normalize_windows_extended_path(path: &[u8], platform: Platform) -> (r: Vec<u8>)
    ensures
        r@ == plain_path(path@, platform),
{
    let copy = bytes_of(path, 0, path.len());
    assert(copy@ =~= path@);
    if platform == Platform::Windows {
        let text = path_text(&copy);
        let chars = chars_of(text.as_str());
        let unc = chars_of("\\\\?\\UNC\\");
        let extended = chars_of("\\\\?\\");
        if stands_at(&chars, &unc, 0) {
            let rest = string_of(&chars, unc.len(), chars.len());
            let mut plain = "\\\\".to_owned();
            plain.append(rest.as_str());
            assert(plain@ =~= "\\\\"@ + text@.skip(unc@.len() as int));
            return text_bytes(plain.as_str());
        }
        if stands_at(&chars, &extended, 0) {
            let rest = string_of(&chars, extended.len(), chars.len());
            assert(rest@ =~= text@.skip(extended@.len() as int));
            return text_bytes(rest.as_str());
        }
    }
    copy
}

/// `resolved` lies in the workspace `root`.
pub open spec fn in_workspace(resolved: Seq<u8>, root: Seq<u8>) -> bool {
    starts_with(plain_path(resolved, HOST), plain_path(root, HOST))
}

/// The refusal of `resolved`, which does not lie in the workspace `root`.
pub open spec fn is_escape(
    e: FileError,
    resolved: Seq<u8>,
    root: Seq<u8>,
) -> bool {
    match e {
        FileError::EscapesWorkspace { path: p, root: w } => p@ == plain_path(resolved, HOST)
            && w@ == plain_path(root, HOST),
        _ => false,
    }
}

/// The refusal of a path that does not lie in the workspace.
pub fn escape(path: &[u8], workspace_root: &[u8]) -> (e: FileError)
    ensures
        is_escape(e, path@, workspace_root@),
{
    FileError::EscapesWorkspace {
        path: normalize_windows_extended_path(path, HOST),
        root: normalize_windows_extended_path(workspace_root, HOST),
    }
}

/// Refuses a resolved path that does not lie in the workspace.
pub fn validate_workspace_boundary(resolved: &[u8], workspace_root: &[u8]) -> (r:
    Result<(), FileError>)
    ensures
        r is Ok <==> in_workspace(resolved@, workspace_root@),
        r matches Err(e) ==> is_escape(e, resolved@, workspace_root@),
{
    let path = normalize_windows_extended_path(resolved, HOST);
    let root = normalize_windows_extended_path(workspace_root, HOST);
    if !path_starts_with(path.as_slice(), root.as_slice()) {
        return Err(FileError::EscapesWorkspace { path, root });
    }
    Ok(())
}

/// The root that paths are held against: what the host resolved the workspace root
/// to, or the root as it was given where the host could not resolve it.
pub open spec fn root_in_force(
    workspace_root: Seq<u8>,
    canonical: Option<Seq<u8>>,
) -> Seq<u8> {
    match canonical {
        Some(c) => plain_path(c, HOST),
        None => plain_path(workspace_root, HOST),
    }
}

/// An optional path taken as bytes.
pub open spec fn path_option(p: Option<Vec<u8>>) -> Option<Seq<u8>> {
    match p {
        Some(b) => Some(b@),
        None => None,
    }
}

/// The root that paths are held against, given what the host resolved the workspace
/// root to.
pub fn canonicalize_workspace_root(
    workspace_root: &[u8],
    canonical: Option<Vec<u8>>,
) -> (r: Vec<u8>)
    ensures
        r@ == root_in_force(workspace_root@, path_option(canonical)),
{
    match canonical {
        Some(c) => normalize_windows_extended_path(c.as_slice(), HOST),
        None => normalize_windows_extended_path(workspace_root, HOST),
    }
}

/// A path lies in the workspace that it is the root of.
pub proof fn law_root_is_inside(root: Seq<u8>)
    ensures
        in_workspace(root, root),
{
    let c = components(plain_path(root, HOST));
    assert(c =~= c.subrange(0, c.len() as int));
}

/// What lies in a part of a workspace lies in the workspace.
pub proof fn law_boundary_is_transitive(
    path: Seq<u8>,
    inner: Seq<u8>,
    root: Seq<u8>,
)
    requires
        in_workspace(path, inner),
        in_workspace(inner, root),
    ensures
        in_workspace(path, root),
{
    let p = components(plain_path(path, HOST));
    let i = components(plain_path(inner, HOST));
    let r = components(plain_path(root, HOST));
    assert(r =~= p.subrange(0, r.len() as int)) by {
        assert(r =~= i.subrange(0, r.len() as int));
        assert(i =~= p.subrange(0, i.len() as int));
    }
}

/// The lower-case form of an ASCII letter; other bytes stay as they are.
pub open spec fn lower_byte(b: u8) -> u8 {
    if 65 <= b <= 90 {
        (b + 32) as u8
    } else {
        b
    }
}

/// `s` with ASCII letters in lower case.
pub open spec fn lowered(s: Seq<u8>) -> Seq<u8> {
    s.map_values(|b: u8| lower_byte(b))
}

/// The path leads to a Markdown file, by its extension.
pub open spec fn names_markdown(p: Seq<u8>) -> bool {
    match extension(p) {
        Some(e) => lowered(e) == encode_utf8("md"@) || lowered(e) == encode_utf8("markdown"@),
        None => false,
    }
}

/// Whether the path leads to a Markdown file.
pub fn is_markdown_path(path: &[u8]) -> (r: bool)
    ensures
        r == names_markdown(path@),
{
    match path_extension(path) {
        None => false,
        Some(e) => {
            let mut lower: Vec<u8> = Vec::new();
            let mut i: usize = 0;
            while i < e.len()
                invariant
                    i <= e@.len(),
                    lower@ == lowered(e@).take(i as int),
                decreases e@.len() - i,
            {
                let b = e[i];
                let c: u8 = if b >= 65 && b <= 90 {
                    b + 32
                } else {
                    b
                };
                lower.push(c);
                i += 1;
                assert(lower@ =~= lowered(e@).take(i as int));
            }
            assert(lower@ =~= lowered(e@));
            same_bytes(lower.as_slice(), "md".as_bytes()) || same_bytes(
                lower.as_slice(),
                "markdown".as_bytes(),
            )
        },
    }
}

/// `s` with a slash for each backslash.
pub open spec fn with_slashes(s: Seq<char>) -> Seq<char> {
    s.map_values(
        |c: char|
            if c == '\\' {
                '/'
            } else {
                c
            },
    )
}

/// The text of a pattern or a path as patterns are written: on Windows with a slash
/// for each backslash.
pub open spec fn pattern_text(s: Seq<char>, platform: Platform) -> Seq<char> {
    if platform == Platform::Windows {
        with_slashes(s)
    } else {
        s
    }
}

/// `pattern` as patterns are written.
pub fn normalize_glob_pattern_text(pattern: &str, platform: Platform) -> (r: String)
    ensures
        r@ == pattern_text(pattern@, platform),
{
    if platform == Platform::Posix {
        return pattern.to_owned();
    }
    let chars = chars_of(pattern);
    let mut out = String::new();
    let mut i: usize = 0;
    while i < chars.len()
        invariant
            i <= chars@.len(),
            chars@ == pattern@,
            out@ == with_slashes(pattern@).take(i as int),
        decreases chars@.len() - i,
    {
        let c = chars[i];
        if c == '\\' {
            out.push('/');
        } else {
            out.push(c);
        }
        i += 1;
        assert(out@ =~= with_slashes(pattern@).take(i as int));
    }
    assert(out@ =~= with_slashes(pattern@));
    out
}

/// The directory is one that glob searches pass by.
pub open spec fn is_ignored_dir(name: Seq<u8>) -> bool {
    ||| name == encode_utf8(".git"@)
    ||| name == encode_utf8("node_modules"@)
    ||| name == encode_utf8(".build"@)
    ||| name == encode_utf8("target"@)
    ||| name == encode_utf8("dist"@)
    ||| name == encode_utf8("coverage"@)
}

/// Whether a glob search passes an entry by, with all that is below it.
pub fn should_skip_glob_dir(is_dir: bool, file_name: &[u8]) -> (r: bool)
    ensures
        r == (is_dir && is_ignored_dir(file_name@)),
{
    is_dir && (same_bytes(file_name, ".git".as_bytes()) || same_bytes(
        file_name,
        "node_modules".as_bytes(),
    ) || same_bytes(file_name, ".build".as_bytes()) || same_bytes(file_name, "target".as_bytes())
        || same_bytes(file_name, "dist".as_bytes()) || same_bytes(file_name, "coverage".as_bytes()))
}

/// The component has a character that means something in a pattern: `*`, `?` or `[`.
pub open spec fn has_glob(component: Seq<u8>) -> bool {
    exists|i: int|
        0 <= i < component.len() && (#[trigger] component[i] == 42 || component[i] == 63
            || component[i] == 91)
}

/// Whether the component has a character that means something in a pattern.
pub fn component_contains_glob(component: &str) -> (r: bool)
    ensures
        r == has_glob(encode_utf8(component@)),
{
    contains_glob_byte(component.as_bytes())
}

/// Whether the component has a byte that means something in a pattern.
fn contains_glob_byte(component: &[u8]) -> (r: bool)
    ensures
        r == has_glob(component@),
{
    let mut i: usize = 0;
    while i < component.len()
        invariant
            i <= component@.len(),
            forall|j: int|
                0 <= j < i ==> #[trigger] component@[j] != 42 && component@[j] != 63
                    && component@[j] != 91,
        decreases component@.len() - i,
    {
        let b = component[i];
        if b == 42 || b == 63 || b == 91 {
            assert(component@[i as int] == b);
            return true;
        }
        i += 1;
    }
    false
}

/// The path that joins the components one after the other.
pub open spec fn path_from(components: Seq<Seq<u8>>) -> Seq<u8>
    decreases components.len(),
{
    if components.len() == 0 {
        seq![]
    } else {
        join(path_from(components.drop_last()), components.last())
    }
}

/// How many of the components, from `i` on, come before the first that has a
/// character that means something in a pattern.
pub open spec fn literal_count(components: Seq<Seq<u8>>, i: int) -> int
    decreases components.len() - i,
{
    if i >= components.len() || has_glob(components[i]) {
        i
    } else {
        literal_count(components, i + 1)
    }
}

/// The directory below which everything lies that a pattern can match: the part of
/// the pattern before its first component that is not literal, or the current
/// directory where that part is empty.
pub open spec fn walk_root(pattern: Seq<u8>, current_dir: Seq<u8>) -> Seq<u8> {
    let c = components(pattern);
    let n = literal_count(c, 0);
    if n <= 0 {
        current_dir
    } else {
        path_from(c.take(n))
    }
}

/// The path that joins components has just these.
proof fn lemma_path_from(cs: Seq<Seq<u8>>)
    requires
        well_split(cs),
    ensures
        components(path_from(cs)) == cs,
    decreases cs.len(),
{
    if cs.len() == 0 {
        assert(components(path_from(cs)) =~= cs);
    } else {
        let rest = cs.drop_last();
        let last = cs.last();
        assert forall|i: int| 0 <= i < rest.len() implies is_name(#[trigger] rest[i]) || (i == 0
            && (rest[i] == seq![SLASH] || rest[i] == seq![DOT])) by {
            assert(rest[i] == cs[i]);
        }
        lemma_path_from(rest);
        assert(last == cs[cs.len() - 1]);
        if is_name(last) {
            law_join_appends_name(path_from(rest), last);
            assert(rest.push(last) =~= cs);
        } else {
            assert(rest =~= Seq::<Seq<u8>>::empty());
            assert(path_from(cs) =~= last);
            assert(last.take(1) =~= last);
            assert(components(last) =~= seq![last]);
            assert(components(path_from(cs)) =~= cs);
        }
    }
}

proof fn lemma_literal_count(cs: Seq<Seq<u8>>, i: int)
    requires
        0 <= i <= cs.len(),
    ensures
        i <= literal_count(cs, i) <= cs.len(),
        forall|k: int| i <= k < literal_count(cs, i) ==> !has_glob(#[trigger] cs[k]),
        literal_count(cs, i) < cs.len() ==> has_glob(cs[literal_count(cs, i)]),
    decreases cs.len() - i,
{
    if i < cs.len() && !has_glob(cs[i]) {
        lemma_literal_count(cs, i + 1);
    }
}

/// A walk starts from the part of the pattern that is literal: from the components
/// before the first that is not, and so from a path that the pattern lies below. Where
/// there are none, it starts from the current directory.
pub proof fn law_walk_starts_at_literal_part(pattern: Seq<u8>, current_dir: Seq<u8>)
    ensures
        ({
            let c = components(pattern);
            let n = literal_count(c, 0);
            &&& 0 <= n <= c.len()
            &&& forall|k: int| 0 <= k < n ==> !has_glob(#[trigger] c[k])
            &&& n < c.len() ==> has_glob(c[n])
            &&& n == 0 ==> walk_root(pattern, current_dir) == current_dir
            &&& n > 0 ==> components(walk_root(pattern, current_dir)) == c.take(n)
                && starts_with(pattern, walk_root(pattern, current_dir))
        }),
{
    let c = components(pattern);
    let n = literal_count(c, 0);
    lemma_literal_count(c, 0);
    law_components_are_names(pattern);
    if n > 0 {
        let cs = c.take(n);
        assert forall|i: int| 0 <= i < cs.len() implies is_name(#[trigger] cs[i]) || (i == 0 && (
        cs[i] == seq![SLASH] || cs[i] == seq![DOT])) by {
            assert(cs[i] == c[i]);
        }
        lemma_path_from(cs);
        assert(c.subrange(0, cs.len() as int) =~= cs);
    }
}

/// The directory below which everything lies that `pattern` can match.
pub fn derive_glob_walk_root(pattern: &str, current_dir: &[u8]) -> (r: Vec<u8>)
    ensures
        r@ == walk_root(encode_utf8(pattern@), current_dir@),
{
    let c = path_components(pattern.as_bytes());
    let ghost cs = byte_texts(c@);
    let mut prefix: Vec<u8> = Vec::new();
    let mut i: usize = 0;
    assert(cs.take(0) =~= Seq::<Seq<u8>>::empty());
    assert(prefix@ =~= path_from(cs.take(0)));
    while i < c.len() && !contains_glob_byte(c[i].as_slice())
        invariant
            i <= c@.len(),
            cs == byte_texts(c@),
            prefix@ == path_from(cs.take(i as int)),
            literal_count(cs, i as int) == literal_count(cs, 0),
        decreases c@.len() - i,
    {
        prefix = path_join(prefix.as_slice(), c[i].as_slice());
        i += 1;
        assert(cs.take(i as int).drop_last() =~= cs.take(i - 1));
    }
    if i == 0 {
        let r = bytes_of(current_dir, 0, current_dir.len());
        assert(r@ =~= current_dir@);
        return r;
    }
    prefix
}

/// A path lies in a workspace just where it starts with the components of the root, all of
/// them and in their order.
pub proof fn law_path_inside_starts_with_root(path: Seq<u8>, root: Seq<u8>)
    ensures
        in_workspace(path, root) <==> {
            let (p, r) = (components(path), components(root));
            r.len() <= p.len() && forall|i: int| 0 <= i < r.len() ==> #[trigger] p[i] == r[i]
        },
        root_in_force(root, None) == root,
        root_in_force(root, Some(path)) == path,
{
    let (p, r) = (components(path), components(root));
    if in_workspace(path, root) {
        assert forall|i: int| 0 <= i < r.len() implies #[trigger] p[i] == r[i] by {
            assert(p.subrange(0, r.len() as int)[i] == p[i]);
        }
    }
    if r.len() <= p.len() && forall|i: int| 0 <= i < r.len() ==> #[trigger] p[i] == r[i] {
        assert(p.subrange(0, r.len() as int) =~= r);
    }
}

/// The directories that searches for files pass by are those with these six names, and no
/// others.
pub proof fn law_six_directories_are_passed_by(name: Seq<char>)
    ensures
        is_ignored_dir(encode_utf8(name)) <==> name == ".git"@ || name == "node_modules"@ || name
            == ".build"@ || name == "target"@ || name == "dist"@ || name == "coverage"@,
{
    if is_ignored_dir(encode_utf8(name)) {
        encode_utf8_decode_utf8(name);
        encode_utf8_decode_utf8(".git"@);
        encode_utf8_decode_utf8("node_modules"@);
        encode_utf8_decode_utf8(".build"@);
        encode_utf8_decode_utf8("target"@);
        encode_utf8_decode_utf8("dist"@);
        encode_utf8_decode_utf8("coverage"@);
    }
}

/// `e` is `m`, which is in lower case, but for the case of its letters.
pub open spec fn is_but_for_case(e: Seq<u8>, m: Seq<u8>) -> bool {
    &&& e.len() == m.len()
    &&& forall|i: int| 0 <= i < e.len() ==> (#[trigger] e[i] == m[i] && !(65 <= e[i] <= 90)) || (65
        <= e[i] <= 90 && e[i] + 32 == m[i])
}

/// A path leads to a Markdown file where its extension is `md` or `markdown`, in whatever
/// case, and nowhere else.
pub proof fn law_markdown_file_has_its_extension(p: Seq<u8>)
    ensures
        names_markdown(p) <==> (extension(p) matches Some(e) && (is_but_for_case(
            e,
            encode_utf8("md"@),
        ) || is_but_for_case(e, encode_utf8("markdown"@)))),
{
    if let Some(e) = extension(p) {
        lemma_lowered(e, encode_utf8("md"@));
        lemma_lowered(e, encode_utf8("markdown"@));
    }
}

proof fn lemma_lowered(e: Seq<u8>, m: Seq<u8>)
    ensures
        lowered(e) == m <==> is_but_for_case(e, m),
{
    if lowered(e) == m {
        assert forall|i: int| 0 <= i < e.len() implies (#[trigger] e[i] == m[i] && !(65 <= e[i]
            <= 90)) || (65 <= e[i] <= 90 && e[i] + 32 == m[i]) by {
            assert(lowered(e)[i] == lower_byte(e[i]));
        }
    }
    if is_but_for_case(e, m) {
        assert(lowered(e) =~= m);
    }
}

/// A component has a character that means something in a pattern where it has a `*`, a `?`
/// or a `[`, and nowhere else.
pub proof fn law_three_characters_make_pattern(c: Seq<char>)
    ensures
        (exists|i: int|
            0 <= i < c.len() && (#[trigger] c[i] == '*' || c[i] == '?' || c[i] == '[')) ==> has_glob(
            encode_utf8(c),
        ),
        is_ascii_chars(c) && has_glob(encode_utf8(c)) ==> exists|i: int|
            0 <= i < c.len() && (#[trigger] c[i] == '*' || c[i] == '?' || c[i] == '['),
    decreases c.len(),
{
    if is_ascii_chars(c) {
        is_ascii_chars_encode_utf8(c);
        if has_glob(encode_utf8(c)) {
            let b = encode_utf8(c);
            let i = choose|i: int|
                0 <= i < b.len() && (#[trigger] b[i] == 42 || b[i] == 63 || b[i] == 91);
            assert(b[i] == c[i] as u8);
            assert(c[i] == '*' || c[i] == '?' || c[i] == '[');
        }
    }
    if c.len() > 0 {
        let d = c.drop_first();
        law_three_characters_make_pattern(d);
        if exists|i: int| 0 <= i < c.len() && (#[trigger] c[i] == '*' || c[i] == '?' || c[i] == '[') {
            let i = choose|i: int|
                0 <= i < c.len() && (#[trigger] c[i] == '*' || c[i] == '?' || c[i] == '[');
            lemma_encode_one(c[0]);
            assert(c =~= seq![c[0]] + d);
            lemma_encode_concat(seq![c[0]], d);
            let (x, y) = (encode_utf8(seq![c[0]]), encode_utf8(d));
            if i > 0 {
                assert(d[i - 1] == c[i]);
                let j = choose|j: int|
                    0 <= j < y.len() && (#[trigger] y[j] == 42 || y[j] == 63 || y[j] == 91);
                assert((x + y)[x.len() + j] == y[j]);
            } else {
                is_ascii_chars_encode_utf8(seq![c[0]]);
                assert(x[0] == c[0] as u8);
                assert((x + y)[0] == x[0]);
            }
        }
    }
}

/// On Windows the mark of an extended path is dropped from what the path reads as, and that
/// of one on a server leaves two backslashes; elsewhere, and without a mark, a path stays as
/// it is.
pub proof fn law_mark_of_extended_path_is_dropped(p: Seq<u8>, rest: Seq<char>)
    ensures
        plain_path(p, Platform::Posix) == p,
        lossy_text(p) == "\\\\?\\UNC\\"@ + rest ==> plain_path(p, Platform::Windows) == encode_utf8(
            "\\\\"@ + rest,
        ),
        lossy_text(p) == "\\\\?\\"@ + rest && !stands(lossy_text(p), "\\\\?\\UNC\\"@, 0)
            ==> plain_path(p, Platform::Windows) == encode_utf8(rest),
        !stands(lossy_text(p), "\\\\?\\"@, 0) && !stands(lossy_text(p), "\\\\?\\UNC\\"@, 0)
            ==> plain_path(p, Platform::Windows) == p,
{
    let text = lossy_text(p);
    let unc = "\\\\?\\UNC\\"@;
    let extended = "\\\\?\\"@;
    lemma_stands(text, unc, 0);
    lemma_stands(text, extended, 0);
    if text == unc + rest {
        assert(text.subrange(0, unc.len() as int) =~= unc);
        assert(text.skip(unc.len() as int) =~= rest);
    }
    if text == extended + rest {
        assert(text.subrange(0, extended.len() as int) =~= extended);
        assert(text.skip(extended.len() as int) =~= rest);
    }
}

/// On Windows a pattern is written with a slash for each of its backslashes, and is the same
/// in all else; elsewhere it stays as it is.
pub proof fn law_pattern_is_written_with_slashes(s: Seq<char>)
    ensures
        pattern_text(s, Platform::Posix) == s,
        pattern_text(s, Platform::Windows).len() == s.len(),
        forall|i: int|
            0 <= i < s.len() ==> (#[trigger] pattern_text(s, Platform::Windows)[i]) == if s[i]
                == '\\' {
                '/'
            } else {
                s[i]
            },
{
}

} // verus!
