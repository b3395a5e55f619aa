//! What holds of what a search for files lists: where the files come from, that a search
//! in a workspace gives what one without gives, and that a pattern that leads out of the
//! workspace is refused.

use vstd::prelude::*;
use vstd::utf8::*;

use crate::braces::{expanded, has_group, law_pattern_without_group_is_kept};
use crate::error::{ErrorKind, FileError};
use crate::findings::{
    comes_of_glob_search, comes_of_grep_search, start_of, GlobOutcome, GrepOutcome, Reach, Terms,
    Tree,
};
use crate::globbing::search_text;
use crate::grep::{is_grep_output, passes_filters, with_file, Notes};
use crate::grepping::{filter_text, no_notes, query_of};
use crate::host::SteadyHost;
use crate::lines::texts;
use crate::listing::{fresh, is_glob_output, is_match, is_passed_by, law_fresh_files, matches_of};
use crate::matchers::{glob_build, regex_build};
use crate::outputs::{GlobSearchOutput, GrepSearchInput, GrepSearchOutput};
use crate::paths::{
    components, is_absolute, is_name, join, law_join_appends_name, starts_with, DOT,
    SLASH,
};
use crate::text::{lossy_text, string_option};
use crate::workspace::{
    has_glob, in_workspace, law_walk_starts_at_literal_part, literal_count, root_in_force,
    walk_root,
};

verus! {

/// On the walk for the glob `text`, a file at `p` is met that matches it and is not passed
/// by.
pub open spec fn is_met(p: Seq<u8>, text: Seq<char>, reach: Reach, tree: Tree) -> bool {
    let start = walk_root(encode_utf8(text), reach.current);
    let entries = (tree.entries)(start);
    exists|i: int|
        {
            &&& 0 <= i < entries.len()
            &&& (#[trigger] entries[i]).path@ == p
            &&& is_match(entries[i], text)
            &&& !is_passed_by(entries, start, p)
        }
}

/// The file at `p` is met on the walk for one of the globs.
pub open spec fn is_met_by(p: Seq<u8>, globs: Seq<Seq<char>>, reach: Reach, tree: Tree) -> bool {
    exists|k: int| 0 <= k < globs.len() && is_met(p, #[trigger] globs[k], reach, tree)
}

/// The file at `p` leads into the workspace, if there is one.
pub open spec fn leads_in(p: Seq<u8>, reach: Reach, tree: Tree) -> bool {
    reach.bounds matches Some(root) ==> (tree.names.canonical)(p) matches Some(lead)
        && in_workspace(lead, root)
}

/// All of the files are met on the walk for one of the globs, and lead into the workspace,
/// if there is one.
pub open spec fn are_rightly_found(
    paths: Seq<Seq<u8>>,
    globs: Seq<Seq<char>>,
    reach: Reach,
    tree: Tree,
) -> bool {
    forall|i: int|
        0 <= i < paths.len() ==> is_met_by(#[trigger] paths[i], globs, reach, tree) && leads_in(
            paths[i],
            reach,
            tree,
        )
}

/// What is listed is listed of files that were rightly found.
pub open spec fn lists_right_files(
    output: GlobSearchOutput,
    globs: Seq<Seq<char>>,
    reach: Reach,
    tree: Tree,
) -> bool {
    exists|paths: Seq<Seq<u8>>|
        {
            &&& #[trigger] are_rightly_found(paths, globs, reach, tree)
            &&& is_glob_output(
                output,
                paths,
                (tree.times)(paths),
                tree.millis,
            )
        }
}

/// `some` are the first of `all`.
spec fn are_first(some: Seq<Seq<char>>, all: Seq<Seq<char>>) -> bool {
    some.len() <= all.len() && forall|k: int| 0 <= k < some.len() ==> #[trigger] some[k] == all[k]
}

proof fn lemma_fresh_are_met(
    text: Seq<char>,
    found: Seq<Seq<u8>>,
    reach: Reach,
    tree: Tree,
)
    ensures
        ({
            let start = walk_root(encode_utf8(text), reach.current);
            let entries = (tree.entries)(start);
            let now = fresh(entries, matches_of(entries, start, text), found);
            forall|i: int| 0 <= i < now.len() ==> is_met(#[trigger] now[i], text, reach, tree)
        }),
{
    let start = walk_root(encode_utf8(text), reach.current);
    let entries = (tree.entries)(start);
    let matched = matches_of(entries, start, text);
    let now = fresh(entries, matched, found);
    law_fresh_files(entries, matched, found);
    assert forall|i: int| 0 <= i < now.len() implies is_met(#[trigger] now[i], text, reach, tree) by {
        let k = choose|k: int|
            0 <= k < entries.len() && matched[k] && (#[trigger] entries[k]).path@ == now[i];
        assert(matched[k] == (is_match(entries[k], text) && !is_passed_by(
            entries,
            start,
            entries[k].path@,
        )));
        assert(entries[k].path@ == now[i]);
    }
}

proof fn lemma_globs_list_right_files(
    reach: Reach,
    all: Seq<Seq<char>>,
    pending: Seq<Seq<char>>,
    found: Seq<Seq<u8>>,
    tree: Tree,
    r: GlobOutcome,
)
    requires
        are_first(pending, all),
        are_rightly_found(found, all, reach, tree),
        reach.comes_of_globs(pending, found, tree, r),
        r is Ok,
    ensures
        lists_right_files(r->Ok_0, all, reach, tree),
    decreases pending.len(), 0nat,
{
    if pending.len() == 0 {
        assert(are_rightly_found(found, all, reach, tree));
    } else {
        let last = pending.len() - 1;
        let text = pending.last();
        assert(pending[last] == all[last]);
        let start = walk_root(encode_utf8(text), reach.current);
        let entries = (tree.entries)(start);
        let now = fresh(entries, matches_of(entries, start, text), found);
        lemma_fresh_are_met(text, found, reach, tree);
        assert forall|i: int| 0 <= i < now.len() implies is_met_by(#[trigger] now[i], all, reach, tree) by {
            assert(is_met(now[i], all[last], reach, tree));
        }
        let rest = pending.drop_last();
        assert forall|k: int| 0 <= k < rest.len() implies #[trigger] rest[k] == all[k] by {
            assert(rest[k] == pending[k]);
        }
        match reach.bounds {
            None => {
                let more = found + now;
                assert forall|i: int| 0 <= i < more.len() implies is_met_by(
                    #[trigger] more[i],
                    all,
                    reach,
                    tree,
                ) && leads_in(more[i], reach, tree) by {
                    if i < found.len() {
                        assert(more[i] == found[i]);
                    } else {
                        assert(more[i] == now[i - found.len()]);
                    }
                }
                lemma_globs_list_right_files(reach, all, rest, more, tree, r);
            },
            Some(root) => {
                let waiting = now.reverse();
                assert forall|i: int| 0 <= i < waiting.len() implies is_met_by(
                    #[trigger] waiting[i],
                    all,
                    reach,
                    tree,
                ) by {
                    assert(waiting[i] == now[now.len() - 1 - i]);
                }
                lemma_found_list_right_files(reach, all, rest, found, waiting, root, tree, r);
            },
        }
    }
}

proof fn lemma_found_list_right_files(
    reach: Reach,
    all: Seq<Seq<char>>,
    pending: Seq<Seq<char>>,
    found: Seq<Seq<u8>>,
    waiting: Seq<Seq<u8>>,
    root: Seq<u8>,
    tree: Tree,
    r: GlobOutcome,
)
    requires
        reach.bounds == Some(root),
        are_first(pending, all),
        are_rightly_found(found, all, reach, tree),
        forall|i: int|
            0 <= i < waiting.len() ==> is_met_by(#[trigger] waiting[i], all, reach, tree),
        reach.comes_of_found(pending, found, waiting, root, tree, r),
        r is Ok,
    ensures
        lists_right_files(r->Ok_0, all, reach, tree),
    decreases pending.len(), waiting.len() + 1,
{
    if waiting.len() == 0 {
        lemma_globs_list_right_files(reach, all, pending, found, tree, r);
    } else {
        let p = waiting.last();
        let rest = waiting.drop_last();
        let more = found.push(p);
        assert(is_met_by(waiting[waiting.len() - 1], all, reach, tree));
        assert forall|i: int| 0 <= i < more.len() implies is_met_by(#[trigger] more[i], all, reach, tree)
            && leads_in(more[i], reach, tree) by {
            if i < found.len() {
                assert(more[i] == found[i]);
            }
        }
        assert forall|i: int| 0 <= i < rest.len() implies is_met_by(#[trigger] rest[i], all, reach, tree) by {
            assert(rest[i] == waiting[i]);
        }
        lemma_found_list_right_files(reach, all, pending, more, rest, root, tree, r);
    }
}

/// What a search for files goes by once it was held against the workspace, if there is
/// one.
pub open spec fn reach_in(
    current: Seq<u8>,
    workspace: Option<Seq<u8>>,
    tree: Tree,
) -> Reach {
    Reach {
        current,
        bounds: match workspace {
            None => None,
            Some(root) => Some(root_in_force(root, (tree.names.canonical)(root))),
        },
    }
}

/// Every file that a search lists is a file that was met on the walk for one of its
/// globs, matches that glob, and does not lie at or below a directory that searches for
/// files pass by; and in a workspace it leads into it.
pub proof fn law_search_lists_right_files(
    pattern: Seq<char>,
    path: Option<Seq<char>>,
    workspace: Option<Seq<u8>>,
    tree: Tree,
    r: GlobOutcome,
)
    requires
        comes_of_glob_search(pattern, path, workspace, tree, r),
        r is Ok,
    ensures
        (start_of(tree.names, path), tree.names.current_dir) matches (Some(base), Some(current))
            && lists_right_files(
            r->Ok_0,
            expanded(search_text(pattern, base)).reverse(),
            reach_in(current, workspace, tree),
            tree,
        ),
{
    let base = start_of(tree.names, path)->Some_0;
    let current = tree.names.current_dir->Some_0;
    let globs = expanded(search_text(pattern, base)).reverse();
    let none = Seq::<Seq<u8>>::empty();
    lemma_globs_list_right_files(
        reach_in(current, workspace, tree),
        globs,
        globs,
        none,
        tree,
        r,
    );
}

/// The same search without a workspace.
spec fn free(reach: Reach) -> Reach {
    Reach { bounds: None, ..reach }
}

proof fn lemma_globs_agree(
    reach: Reach,
    pending: Seq<Seq<char>>,
    found: Seq<Seq<u8>>,
    tree: Tree,
    r: GlobOutcome,
)
    requires
        reach.comes_of_globs(pending, found, tree, r),
        r is Ok,
    ensures
        free(reach).comes_of_globs(pending, found, tree, r),
    decreases pending.len(), 0nat,
{
    if pending.len() > 0 {
        let text = pending.last();
        let start = walk_root(encode_utf8(text), reach.current);
        let entries = (tree.entries)(start);
        let now = fresh(entries, matches_of(entries, start, text), found);
        match reach.bounds {
            None => {
                lemma_globs_agree(reach, pending.drop_last(), found + now, tree, r);
            },
            Some(root) => {
                lemma_found_agree(
                    reach,
                    pending.drop_last(),
                    found,
                    now.reverse(),
                    root,
                    tree,
                    r,
                );
                assert(now.reverse().reverse() =~= now);
            },
        }
    }
}

proof fn lemma_found_agree(
    reach: Reach,
    pending: Seq<Seq<char>>,
    found: Seq<Seq<u8>>,
    waiting: Seq<Seq<u8>>,
    root: Seq<u8>,
    tree: Tree,
    r: GlobOutcome,
)
    requires
        reach.comes_of_found(pending, found, waiting, root, tree, r),
        r is Ok,
    ensures
        free(reach).comes_of_globs(pending, found + waiting.reverse(), tree, r),
    decreases pending.len(), waiting.len() + 1,
{
    if waiting.len() == 0 {
        lemma_globs_agree(reach, pending, found, tree, r);
        assert(found + waiting.reverse() =~= found);
    } else {
        let p = waiting.last();
        let rest = waiting.drop_last();
        lemma_found_agree(reach, pending, found.push(p), rest, root, tree, r);
        assert(found.push(p) + rest.reverse() =~= found + waiting.reverse());
    }
}

/// Two reports that say the same.
pub open spec fn same_listing(a: GlobSearchOutput, b: GlobSearchOutput) -> bool {
    &&& texts(a.filenames@) == texts(b.filenames@)
    &&& a.num_files == b.num_files
    &&& a.truncated == b.truncated
    &&& a.duration_ms == b.duration_ms
}

proof fn lemma_globs_are_determined(
    reach: Reach,
    pending: Seq<Seq<char>>,
    found: Seq<Seq<u8>>,
    tree: Tree,
    a: GlobOutcome,
    b: GlobOutcome,
)
    requires
        reach.bounds is None,
        reach.comes_of_globs(pending, found, tree, a),
        reach.comes_of_globs(pending, found, tree, b),
    ensures
        a is Ok <==> b is Ok,
        (a, b) matches (Ok(x), Ok(y)) ==> same_listing(x, y),
    decreases pending.len(),
{
    if pending.len() > 0 && glob_build(pending.last()) is Ok {
        let text = pending.last();
        let start = walk_root(encode_utf8(text), reach.current);
        let entries = (tree.entries)(start);
        let now = fresh(entries, matches_of(entries, start, text), found);
        lemma_globs_are_determined(reach, pending.drop_last(), found + now, tree, a, b);
    }
}

/// A search for files in a workspace gives what the same search gives without one: what
/// comes of it where it succeeds is what comes of the search without a workspace, which
/// succeeds too, and lists the same.
pub proof fn law_workspace_search_agrees_with_free(
    pattern: Seq<char>,
    path: Option<Seq<char>>,
    root: Seq<u8>,
    tree: Tree,
    guarded: GlobOutcome,
    plain: GlobOutcome,
)
    requires
        comes_of_glob_search(pattern, path, Some(root), tree, guarded),
        guarded is Ok,
        comes_of_glob_search(pattern, path, None, tree, plain),
    ensures
        comes_of_glob_search(pattern, path, None, tree, guarded),
        plain is Ok && same_listing(guarded->Ok_0, plain->Ok_0),
{
    let base = start_of(tree.names, path)->Some_0;
    let current = tree.names.current_dir->Some_0;
    let pending = expanded(search_text(pattern, base)).reverse();
    let none = Seq::<Seq<u8>>::empty();
    let reach = reach_in(current, Some(root), tree);
    lemma_globs_agree(reach, pending, none, tree, guarded);
    lemma_globs_are_determined(free(reach), pending, none, tree, guarded, plain);
}

/// The files that a search through text from `base` goes through, if they can be listed.
pub open spec fn searched_files(base: Seq<u8>, tree: Tree) -> Option<Seq<Seq<u8>>> {
    if (tree.is_file)(base) {
        Some(seq![base])
    } else {
        (tree.files)(base)
    }
}

/// All of the files lead into the workspace `root`.
pub open spec fn all_lead_in(files: Seq<Seq<u8>>, root: Seq<u8>, tree: Tree) -> bool {
    forall|i: int|
        0 <= i < files.len() ==> ((tree.names.canonical)(#[trigger] files[i]) matches Some(lead)
            && in_workspace(lead, root))
}

/// Two reports of searches through text that say the same.
pub open spec fn same_report(a: GrepSearchOutput, b: GrepSearchOutput) -> bool {
    &&& string_option(a.mode) == string_option(b.mode)
    &&& a.num_files == b.num_files
    &&& texts(a.filenames@) == texts(b.filenames@)
    &&& string_option(a.content) == string_option(b.content)
    &&& a.num_lines == b.num_lines
    &&& a.num_matches == b.num_matches
    &&& a.applied_limit == b.applied_limit
    &&& a.applied_offset == b.applied_offset
}

/// The same search without a workspace.
spec fn unbound(terms: Terms) -> Terms {
    Terms { bounds: None, ..terms }
}

proof fn lemma_files_agree(
    terms: Terms,
    notes: Notes,
    waiting: Seq<Seq<u8>>,
    root: Seq<u8>,
    tree: Tree,
    guarded: GrepOutcome,
    plain: GrepOutcome,
)
    requires
        terms.bounds == Some(root),
        terms.comes_of_files(notes, waiting, tree, guarded),
        guarded is Ok,
        unbound(terms).comes_of_files(notes, waiting, tree, plain),
    ensures
        unbound(terms).comes_of_files(notes, waiting, tree, guarded),
        plain is Ok && same_report(guarded->Ok_0, plain->Ok_0),
        all_lead_in(waiting, root, tree),
    decreases waiting.len(),
{
    if waiting.len() > 0 {
        let p = waiting.last();
        let rest = waiting.drop_last();
        let noted = terms.with_searched(notes, p, tree);
        assert(noted == unbound(terms).with_searched(notes, p, tree));
        lemma_files_agree(terms, noted, rest, root, tree, guarded, plain);
        assert forall|i: int| 0 <= i < waiting.len() implies ((tree.names.canonical)(
            #[trigger] waiting[i],
        ) matches Some(lead) && in_workspace(lead, root)) by {
            if i < rest.len() {
                assert(rest[i] == waiting[i]);
            }
        }
    }
}

/// A search through text in a workspace that succeeds gives what the search without the
/// workspace gives: that succeeds too, and reports the same. And every file under its base
/// leads into the workspace.
pub proof fn law_workspace_text_search_agrees_with_free(
    input: GrepSearchInput,
    root: Seq<u8>,
    tree: Tree,
    guarded: GrepOutcome,
    plain: GrepOutcome,
)
    requires
        comes_of_grep_search(input, Some(root), tree, guarded),
        guarded is Ok,
        comes_of_grep_search(input, None, tree, plain),
    ensures
        comes_of_grep_search(input, None, tree, guarded),
        plain is Ok && same_report(guarded->Ok_0, plain->Ok_0),
        start_of(tree.names, string_option(input.path)) matches Some(base) && searched_files(
            base,
            tree,
        ) matches Some(files) && all_lead_in(
            files,
            root_in_force(root, (tree.names.canonical)(root)),
            tree,
        ),
{
    let base = start_of(tree.names, string_option(input.path))->Some_0;
    let in_force = root_in_force(root, (tree.names.canonical)(root));
    let terms = Terms {
        input,
        query: query_of(input),
        filter: filter_text(input),
        bounds: Some(in_force),
    };
    let files = searched_files(base, tree)->Some_0;
    let waiting = if (tree.is_file)(base) {
        seq![base]
    } else {
        files.reverse()
    };
    lemma_files_agree(terms, no_notes(), waiting, in_force, tree, guarded, plain);
    assert forall|i: int| 0 <= i < files.len() implies ((tree.names.canonical)(
        #[trigger] files[i],
    ) matches Some(lead) && in_workspace(lead, in_force)) by {
        if !(tree.is_file)(base) {
            assert(waiting[files.len() - 1 - i] == files[i]);
        } else {
            assert(waiting[i] == files[i]);
        }
    }
}

/// The directory that the glob `text` starts from leads out of the workspace `root`.
pub open spec fn starts_outside(
    text: Seq<char>,
    root: Seq<u8>,
    reach: Reach,
    tree: Tree,
) -> bool {
    let start = walk_root(encode_utf8(text), reach.current);
    let lead = match (tree.names.canonical)(start) {
        Some(p) => p,
        None => start,
    };
    !in_workspace(lead, root)
}

proof fn lemma_globs_start_inside(
    reach: Reach,
    pending: Seq<Seq<char>>,
    found: Seq<Seq<u8>>,
    root: Seq<u8>,
    tree: Tree,
    r: GlobOutcome,
)
    requires
        reach.bounds == Some(root),
        reach.comes_of_globs(pending, found, tree, r),
        r is Ok,
    ensures
        forall|k: int|
            0 <= k < pending.len() ==> !starts_outside(#[trigger] pending[k], root, reach, tree),
    decreases pending.len(), 0nat,
{
    if pending.len() > 0 {
        let text = pending.last();
        let start = walk_root(encode_utf8(text), reach.current);
        let entries = (tree.entries)(start);
        let now = fresh(entries, matches_of(entries, start, text), found);
        let rest = pending.drop_last();
        lemma_found_start_inside(reach, rest, found, now.reverse(), root, tree, r);
        assert forall|k: int| 0 <= k < pending.len() implies !starts_outside(
            #[trigger] pending[k],
            root,
            reach,
            tree,
        ) by {
            if k < rest.len() {
                assert(rest[k] == pending[k]);
            }
        }
    }
}

proof fn lemma_found_start_inside(
    reach: Reach,
    pending: Seq<Seq<char>>,
    found: Seq<Seq<u8>>,
    waiting: Seq<Seq<u8>>,
    root: Seq<u8>,
    tree: Tree,
    r: GlobOutcome,
)
    requires
        reach.bounds == Some(root),
        reach.comes_of_found(pending, found, waiting, root, tree, r),
        r is Ok,
    ensures
        forall|k: int|
            0 <= k < pending.len() ==> !starts_outside(#[trigger] pending[k], root, reach, tree),
    decreases pending.len(), waiting.len() + 1,
{
    if waiting.len() == 0 {
        lemma_globs_start_inside(reach, pending, found, root, tree, r);
    } else {
        lemma_found_start_inside(
            reach,
            pending,
            found.push(waiting.last()),
            waiting.drop_last(),
            root,
            tree,
            r,
        );
    }
}

/// A search for files in a workspace that leads out of it does not succeed. Where its
/// base lies outside it is refused for want of permission, and so it is where the first
/// of its globs compiles and starts outside; and where any of them starts outside, it
/// does not succeed.
pub proof fn law_search_that_leads_out_is_refused(
    pattern: Seq<char>,
    path: Option<Seq<char>>,
    root: Seq<u8>,
    tree: Tree,
    r: GlobOutcome,
)
    requires
        comes_of_glob_search(pattern, path, Some(root), tree, r),
    ensures
        (start_of(tree.names, path), tree.names.current_dir) matches (Some(base), Some(current))
            ==> ({
            let in_force = root_in_force(root, (tree.names.canonical)(root));
            let reach = reach_in(current, Some(root), tree);
            let globs = expanded(search_text(pattern, base));
            &&& !in_workspace(base, in_force) ==> is_refusal(r)
            &&& globs.len() > 0 && glob_build(globs[0]) is Ok && starts_outside(
                globs[0],
                in_force,
                reach,
                tree,
            ) ==> is_refusal(r)
            &&& forall|k: int|
                0 <= k < globs.len() && starts_outside(#[trigger] globs[k], in_force, reach, tree)
                    ==> r is Err
        }),
{
    if let (Some(base), Some(current)) = (start_of(tree.names, path), tree.names.current_dir) {
        let in_force = root_in_force(root, (tree.names.canonical)(root));
        let reach = reach_in(current, Some(root), tree);
        let globs = expanded(search_text(pattern, base));
        let pending = globs.reverse();
        let none = Seq::<Seq<u8>>::empty();
        if in_workspace(base, in_force) {
            if globs.len() > 0 {
                assert(pending.last() == globs[0]);
            }
            if r is Ok {
                lemma_globs_start_inside(reach, pending, none, in_force, tree, r);
                assert forall|k: int| 0 <= k < globs.len() implies !starts_outside(
                    #[trigger] globs[k],
                    in_force,
                    reach,
                    tree,
                ) by {
                    assert(pending[globs.len() - 1 - k] == globs[k]);
                }
            }
        }
    }
}

/// The outcome is a refusal for want of permission.
pub open spec fn is_refusal(r: GlobOutcome) -> bool {
    r matches Err(e) && e.spec_kind() == ErrorKind::PermissionDenied
}

/// The pattern that goes up from the base and takes all that is there.
pub open spec fn climbing_pattern() -> Seq<char> {
    "../*"@
}

/// The components of the climbing pattern taken from a path.
proof fn lemma_climbing_components(base: Seq<u8>)
    requires
        base.len() > 0,
    ensures
        ({
            let p = join(base, seq![DOT, DOT, SLASH, 42u8]);
            components(p) == components(base).push(seq![DOT, DOT]).push(seq![42u8])
        }),
{
    let up = seq![DOT, DOT];
    let any = seq![42u8];
    let above = join(base, up);
    assert(join(above, any) =~= join(base, seq![DOT, DOT, SLASH, 42u8]));
    assert forall|i: int| 0 <= i < up.len() implies up[i] != SLASH by {}
    assert(!up.contains(SLASH));
    assert(!any.contains(SLASH));
    assert(up.len() == 2 && seq![DOT].len() == 1);
    assert(any[0] != seq![DOT][0]);
    assert(is_name(up));
    assert(is_name(any));
    law_join_appends_name(base, up);
    law_join_appends_name(above, any);
}

/// The bytes of the climbing pattern.
proof fn lemma_climbing_bytes()
    ensures
        encode_utf8(climbing_pattern()) == seq![DOT, DOT, SLASH, 42u8],
{
    reveal_strlit("../*");
    let chars = climbing_pattern();
    assert(is_ascii_chars(chars));
    is_ascii_chars_encode_utf8(chars);
    assert(chars[0] as u8 == 46u8 && chars[2] as u8 == 47u8 && chars[3] as u8 == 42u8);
    assert(encode_utf8(chars) =~= seq![DOT, DOT, SLASH, 42u8]);
}

/// The components of `base` are literal, and so the climbing pattern starts from what is
/// above it.
proof fn lemma_climbing_walk_root(base: Seq<u8>, current: Seq<u8>)
    requires
        base.len() > 0,
        forall|k: int| 0 <= k < components(base).len() ==> !has_glob(#[trigger] components(base)[k]),
    ensures
        components(walk_root(join(base, encode_utf8(climbing_pattern())), current)) == components(
            base,
        ).push(seq![DOT, DOT]),
{
    lemma_climbing_bytes();
    lemma_climbing_components(base);
    let p = join(base, encode_utf8(climbing_pattern()));
    let c = components(p);
    let n = literal_count(c, 0);
    let depth = components(base).len() as int;
    law_walk_starts_at_literal_part(p, current);
    assert(c[depth + 1] == seq![42u8]);
    assert(c[depth + 1][0] == 42);
    assert(has_glob(c[depth + 1]));
    assert(c[depth] == seq![DOT, DOT]);
    assert(!has_glob(c[depth]));
    if n <= depth {
        assert(has_glob(c[n]));
        if n < depth {
            assert(c[n] == components(base)[n]);
        }
    }
    assert(n == depth + 1);
    assert(c.take(n) =~= components(base).push(seq![DOT, DOT]));
}

/// A pattern that climbs out is refused: a search for `../*` in a workspace, from a
/// directory whose name holds no character that means something in a pattern, walks from
/// what is above that directory, and is refused for want of permission where that leads
/// to a path with fewer components than the root of the workspace has. (`text` is what
/// the directory and the pattern read as together.)
pub proof fn law_climbing_pattern_is_refused(
    base: Seq<u8>,
    current: Seq<u8>,
    path: Option<Seq<char>>,
    root: Seq<u8>,
    tree: Tree,
    r: GlobOutcome,
    lead: Seq<u8>,
)
    requires
        comes_of_glob_search(climbing_pattern(), path, Some(root), tree, r),
        start_of(tree.names, path) == Some(base),
        tree.names.current_dir == Some(current),
        is_absolute(base),
        forall|k: int| 0 <= k < components(base).len() ==> !has_glob(#[trigger] components(base)[k]),
        (tree.names.canonical)(walk_root(join(base, encode_utf8(climbing_pattern())), current))
            == Some(lead),
        components(lead).len() < components(
            root_in_force(root, (tree.names.canonical)(root)),
        ).len(),
    ensures
        ({
            let start = walk_root(join(base, encode_utf8(climbing_pattern())), current);
            let text = search_text(climbing_pattern(), base);
            &&& components(start) == components(base).push(seq![DOT, DOT])
            &&& encode_utf8(text) == join(base, encode_utf8(climbing_pattern())) && !has_group(text)
                && glob_build(text) is Ok ==> is_refusal(r)
        }),
{
    lemma_climbing_walk_root(base, current);
    let text = search_text(climbing_pattern(), base);
    if encode_utf8(text) == join(base, encode_utf8(climbing_pattern())) && !has_group(text)
        && glob_build(text) is Ok {
        let in_force = root_in_force(root, (tree.names.canonical)(root));
        law_pattern_without_group_is_kept(text, 0);
        law_search_that_leads_out_is_refused(
            climbing_pattern(),
            path,
            root,
            tree,
            r,
        );
        assert(expanded(text) =~= seq![text]);
        assert(!starts_with(lead, in_force));
        assert(starts_outside(
            text,
            in_force,
            reach_in(current, Some(root), tree),
            tree,
        ));
    }
}

/// What is noted once the file at `p` was gone through, where `notes` were made before:
/// where it can be read, has the extension and matches the glob that are asked for, what is
/// noted of it comes on top, and else nothing does.
pub open spec fn notes_after(
    input: GrepSearchInput,
    tree: Tree,
    p: Seq<u8>,
    notes: Notes,
) -> Notes {
    match (tree.text)(p) {
        Some(content) => if passes_filters(
            p,
            filter_text(input),
            string_option(input.file_type),
        ) {
            with_file(notes, query_of(input), lossy_text(p), content, input)
        } else {
            notes
        },
        None => notes,
    }
}

/// `notes` are what a search has noted after each of the files: nothing at first, and then
/// what each adds to what was noted before it.
pub open spec fn are_notes_of_files(
    input: GrepSearchInput,
    tree: Tree,
    files: Seq<Seq<u8>>,
    notes: Seq<Notes>,
) -> bool {
    &&& notes.len() == files.len() + 1
    &&& notes[0].filenames.len() == 0
    &&& notes[0].content_lines.len() == 0
    &&& notes[0].total_matches == 0
    &&& forall|i: int|
        0 <= i < files.len() ==> #[trigger] notes[i + 1] == notes_after(
            input,
            tree,
            files[i],
            notes[i],
        )
}

/// A search goes through all of the files, and adds up what it notes of each.
proof fn lemma_search_adds_up_notes(
    terms: Terms,
    files: Seq<Seq<u8>>,
    done: Seq<Notes>,
    k: int,
    tree: Tree,
    r: GrepOutcome,
)
    requires
        terms.query == query_of(terms.input),
        terms.filter == filter_text(terms.input),
        0 <= k <= files.len(),
        done.len() == k + 1,
        done[0] == no_notes(),
        forall|i: int|
            0 <= i < k ==> #[trigger] done[i + 1] == notes_after(terms.input, tree, files[i], done[i]),
        terms.comes_of_files(done[k], files.skip(k).reverse(), tree, r),
        r is Ok,
    ensures
        exists|notes: Seq<Notes>| #[trigger]
            are_notes_of_files(terms.input, tree, files, notes) && is_grep_output(
                r->Ok_0,
                notes.last(),
                terms.input,
            ),
    decreases files.len() - k,
{
    let waiting = files.skip(k).reverse();
    if k == files.len() {
        assert(are_notes_of_files(terms.input, tree, files, done));
        assert(done.last() == done[k]);
    } else {
        let p = files[k];
        assert(waiting.last() == p);
        let noted = terms.with_searched(done[k], p, tree);
        assert(noted == notes_after(terms.input, tree, p, done[k]));
        let more = done.push(noted);
        assert(waiting.drop_last() =~= files.skip(k + 1).reverse());
        assert forall|i: int| 0 <= i < k + 1 implies #[trigger] more[i + 1] == notes_after(
            terms.input,
            tree,
            files[i],
            more[i],
        ) by {
            if i < k {
                assert(more[i + 1] == done[i + 1] && more[i] == done[i]);
            }
        }
        lemma_search_adds_up_notes(terms, files, more, k + 1, tree, r);
    }
}

/// A search through text goes through every file at or below its base that the host lists,
/// in the order in which they are listed, leaves none out, and reports what it notes of them
/// taken together.
pub proof fn law_text_search_goes_through_all_files(
    input: GrepSearchInput,
    workspace: Option<Seq<u8>>,
    tree: Tree,
    r: GrepOutcome,
)
    requires
        comes_of_grep_search(input, workspace, tree, r),
        r is Ok,
    ensures
        start_of(tree.names, string_option(input.path)) matches Some(base) && searched_files(
            base,
            tree,
        ) matches Some(files) && exists|notes: Seq<Notes>| #[trigger]
            are_notes_of_files(input, tree, files, notes) && is_grep_output(
                r->Ok_0,
                notes.last(),
                input,
            ),
{
    let base = start_of(tree.names, string_option(input.path))->Some_0;
    let bounds = match workspace {
        None => None,
        Some(root) => Some(root_in_force(root, (tree.names.canonical)(root))),
    };
    let terms = Terms { input, query: query_of(input), filter: filter_text(input), bounds };
    let files = searched_files(base, tree)->Some_0;
    assert(files.skip(0).reverse() =~= if (tree.is_file)(base) {
        seq![base]
    } else {
        files.reverse()
    });
    lemma_search_adds_up_notes(terms, files, seq![no_notes()], 0, tree, r);
}

/// A search through text without a workspace fails for what is wrong and for nothing else: a
/// base or a current directory that the host cannot give, an expression or a glob that is
/// none, and files that it cannot list.
pub proof fn law_text_search_fails_for_what_is_wrong(
    input: GrepSearchInput,
    tree: Tree,
    r: GrepOutcome,
)
    requires
        comes_of_grep_search(input, None, tree, r),
    ensures
        match start_of(tree.names, string_option(input.path)) {
            None => r == GrepOutcome::Err(FileError::Host),
            Some(base) => match regex_build(
                input.pattern@,
                input.case_insensitive == Some(true),
                input.multiline == Some(true),
            ) {
                Err(m) => r matches Err(FileError::InvalidPattern { message }) && message@ == m,
                Ok(_) => match (input.glob, searched_files(base, tree)) {
                    (Some(g), files) => match glob_build(g@) {
                        Err(m) => r matches Err(FileError::InvalidPattern { message }) && message@
                            == m,
                        Ok(_) => if files is Some {
                            r is Ok
                        } else {
                            r == GrepOutcome::Err(FileError::Host)
                        },
                    },
                    (None, Some(_)) => r is Ok,
                    (None, None) => r == GrepOutcome::Err(FileError::Host),
                },
            },
        },
{
    if let Some(base) = start_of(tree.names, string_option(input.path)) {
        let terms = Terms {
            input,
            query: query_of(input),
            filter: filter_text(input),
            bounds: None,
        };
        let waiting = if (tree.is_file)(base) {
            seq![base]
        } else {
            (tree.files)(base)->Some_0.reverse()
        };
        if terms.comes_of_files(no_notes(), waiting, tree, r) {
            lemma_free_search_succeeds(terms, no_notes(), waiting, tree, r);
        }
    }
}

proof fn lemma_free_search_succeeds(
    terms: Terms,
    notes: Notes,
    waiting: Seq<Seq<u8>>,
    tree: Tree,
    r: GrepOutcome,
)
    requires
        terms.bounds is None,
        terms.comes_of_files(notes, waiting, tree, r),
    ensures
        r is Ok,
    decreases waiting.len(),
{
    if waiting.len() > 0 {
        let noted = terms.with_searched(notes, waiting.last(), tree);
        lemma_free_search_succeeds(terms, noted, waiting.drop_last(), tree, r);
    }
}

/// The files that are found on the walk for the glob `text`, beside those that were found
/// before.
pub open spec fn found_on_walk(
    text: Seq<char>,
    found: Seq<Seq<u8>>,
    current: Seq<u8>,
    tree: Tree,
) -> Seq<Seq<u8>> {
    let start = walk_root(encode_utf8(text), current);
    let entries = (tree.entries)(start);
    fresh(entries, matches_of(entries, start, text), found)
}

/// `found` are what a search for files has found after each of its globs: nothing at first,
/// and then what is found on the walk for each, behind what was found before.
pub open spec fn are_found_for_globs(
    globs: Seq<Seq<char>>,
    current: Seq<u8>,
    tree: Tree,
    found: Seq<Seq<Seq<u8>>>,
) -> bool {
    &&& found.len() == globs.len() + 1
    &&& found[0].len() == 0
    &&& forall|i: int|
        0 <= i < globs.len() ==> #[trigger] found[i + 1] == found[i] + found_on_walk(
            globs[i],
            found[i],
            current,
            tree,
        )
}

proof fn lemma_search_adds_up_files(
    reach: Reach,
    globs: Seq<Seq<char>>,
    done: Seq<Seq<Seq<u8>>>,
    k: int,
    tree: Tree,
    r: GlobOutcome,
)
    requires
        reach.bounds is None,
        0 <= k <= globs.len(),
        done.len() == k + 1,
        done[0].len() == 0,
        forall|i: int|
            0 <= i < k ==> #[trigger] done[i + 1] == done[i] + found_on_walk(
                globs[i],
                done[i],
                reach.current,
                tree,
            ),
        reach.comes_of_globs(globs.skip(k).reverse(), done[k], tree, r),
        r is Ok,
    ensures
        exists|found: Seq<Seq<Seq<u8>>>| #[trigger]
            are_found_for_globs(globs, reach.current, tree, found) && is_glob_output(
                r->Ok_0,
                found.last(),
                (tree.times)(found.last()),
                tree.millis,
            ),
    decreases globs.len() - k,
{
    let pending = globs.skip(k).reverse();
    if k == globs.len() {
        assert(are_found_for_globs(globs, reach.current, tree, done));
        assert(done.last() == done[k]);
    } else {
        assert(pending.last() == globs[k]);
        let now = done[k] + found_on_walk(globs[k], done[k], reach.current, tree);
        let more = done.push(now);
        assert(pending.drop_last() =~= globs.skip(k + 1).reverse());
        assert forall|i: int| 0 <= i < k + 1 implies #[trigger] more[i + 1] == more[i]
            + found_on_walk(globs[i], more[i], reach.current, tree) by {
            if i < k {
                assert(more[i + 1] == done[i + 1] && more[i] == done[i]);
            }
        }
        lemma_search_adds_up_files(reach, globs, more, k + 1, tree, r);
    }
}

/// A search for files goes by all of the globs that its pattern stands for, one after the
/// other, leaves none out, and lists what it finds on their walks taken together. In a
/// workspace it lists the same.
pub proof fn law_file_search_goes_by_all_globs(
    pattern: Seq<char>,
    path: Option<Seq<char>>,
    workspace: Option<Seq<u8>>,
    tree: Tree,
    r: GlobOutcome,
)
    requires
        comes_of_glob_search(pattern, path, workspace, tree, r),
        r is Ok,
    ensures
        (start_of(tree.names, path), tree.names.current_dir) matches (Some(base), Some(current))
            && exists|found: Seq<Seq<Seq<u8>>>| #[trigger]
            are_found_for_globs(expanded(search_text(pattern, base)), current, tree, found)
                && is_glob_output(
                r->Ok_0,
                found.last(),
                (tree.times)(found.last()),
                tree.millis,
            ),
{
    let base = start_of(tree.names, path)->Some_0;
    let current = tree.names.current_dir->Some_0;
    let globs = expanded(search_text(pattern, base));
    let none = Seq::<Seq<u8>>::empty();
    let reach = reach_in(current, workspace, tree);
    lemma_globs_agree(reach, globs.reverse(), none, tree, r);
    assert(globs.skip(0) =~= globs);
    lemma_search_adds_up_files(free(reach), globs, seq![none], 0, tree, r);
}

/// A search for files without a workspace fails for what is wrong and for nothing else: a
/// base or a current directory that the host cannot give, and a glob that is none.
pub proof fn law_file_search_fails_for_what_is_wrong(
    pattern: Seq<char>,
    path: Option<Seq<char>>,
    tree: Tree,
    r: GlobOutcome,
)
    requires
        comes_of_glob_search(pattern, path, None, tree, r),
    ensures
        match start_of(tree.names, path) {
            None => r == GlobOutcome::Err(FileError::Host),
            Some(base) => ({
                let globs = expanded(search_text(pattern, base));
                &&& (forall|i: int| 0 <= i < globs.len() ==> glob_build(#[trigger] globs[i]) is Ok)
                    ==> r is Ok
                &&& r matches Err(e) ==> exists|i: int|
                    0 <= i < globs.len() && glob_build(#[trigger] globs[i]) is Err && (
                    e matches FileError::InvalidPattern { message } && message@ == glob_build(
                        globs[i],
                    )->Err_0)
            }),
        },
{
    if let Some(base) = start_of(tree.names, path) {
        let globs = expanded(search_text(pattern, base));
        let reach = Reach { current: tree.names.current_dir->Some_0, bounds: None };
        lemma_free_globs_fail(reach, globs.reverse(), Seq::<Seq<u8>>::empty(), tree, r);
        if let Err(e) = r {
            let pending = globs.reverse();
            let i = choose|i: int|
                0 <= i < pending.len() && glob_build(#[trigger] pending[i]) is Err && (
                e matches FileError::InvalidPattern { message } && message@ == glob_build(
                    pending[i],
                )->Err_0);
            assert(globs[globs.len() - 1 - i] == pending[i]);
        }
    }
}

proof fn lemma_free_globs_fail(
    reach: Reach,
    pending: Seq<Seq<char>>,
    found: Seq<Seq<u8>>,
    tree: Tree,
    r: GlobOutcome,
)
    requires
        reach.bounds is None,
        reach.comes_of_globs(pending, found, tree, r),
    ensures
        r matches Err(e) ==> exists|i: int|
            0 <= i < pending.len() && glob_build(#[trigger] pending[i]) is Err && (
            e matches FileError::InvalidPattern { message } && message@ == glob_build(
                pending[i],
            )->Err_0),
    decreases pending.len(),
{
    if pending.len() > 0 {
        let text = pending.last();
        let rest = pending.drop_last();
        if glob_build(text) is Ok {
            let now = found_on_walk(text, found, reach.current, tree);
            lemma_free_globs_fail(reach, rest, found + now, tree, r);
            if let Err(e) = r {
                let i = choose|i: int|
                    0 <= i < rest.len() && glob_build(#[trigger] rest[i]) is Err && (
                    e matches FileError::InvalidPattern { message } && message@ == glob_build(
                        rest[i],
                    )->Err_0);
                assert(pending[i] == rest[i]);
            }
        } else {
            assert(pending[pending.len() - 1] == text);
        }
    }
}

/// What is searched for is the pattern itself where it is absolute, and else the pattern
/// taken from the base.
pub proof fn law_pattern_is_taken_from_base(pattern: Seq<char>, base: Seq<u8>)
    ensures
        ({
            let bytes = encode_utf8(pattern);
            &&& bytes.len() > 0 && bytes[0] == 47 ==> search_text(pattern, base) == pattern
            &&& !(bytes.len() > 0 && bytes[0] == 47) ==> search_text(pattern, base) == lossy_text(
                join(base, bytes),
            )
        }),
{
}

/// A search starts where its path leads, which has to exist, or in the current directory
/// where it has none; and in either case the current directory has to be known.
pub proof fn law_search_starts_where_path_leads(names: SteadyHost, path: Option<Seq<char>>)
    ensures
        names.current_dir is None ==> start_of(names, path) is None,
        names.current_dir is Some && path is None ==> start_of(names, path) == names.current_dir,
        names.current_dir is Some ==> (path matches Some(p) ==> start_of(names, path) == ({
            let bytes = encode_utf8(p);
            (names.canonical)(
                if bytes.len() > 0 && bytes[0] == 47 {
                    bytes
                } else {
                    join(names.current_dir->Some_0, bytes)
                },
            )
        })),
{
}

proof fn lemma_files_that_lead_in_are_searched(
    terms: Terms,
    notes: Notes,
    waiting: Seq<Seq<u8>>,
    root: Seq<u8>,
    tree: Tree,
    r: GrepOutcome,
)
    requires
        terms.bounds == Some(root),
        terms.comes_of_files(notes, waiting, tree, r),
        all_lead_in(waiting, root, tree),
    ensures
        r is Ok,
    decreases waiting.len(),
{
    if waiting.len() > 0 {
        let p = waiting[waiting.len() - 1];
        let rest = waiting.drop_last();
        assert((tree.names.canonical)(p) matches Some(lead) && in_workspace(lead, root));
        assert forall|i: int| 0 <= i < rest.len() implies ((tree.names.canonical)(
            #[trigger] rest[i],
        ) matches Some(lead) && in_workspace(lead, root)) by {
            assert(rest[i] == waiting[i]);
        }
        lemma_files_that_lead_in_are_searched(
            terms,
            terms.with_searched(notes, p, tree),
            rest,
            root,
            tree,
            r,
        );
    }
}

/// A search through text in a workspace succeeds where it succeeds without, its base lies in
/// the workspace, and all of the files lead into it.
pub proof fn law_workspace_text_search_succeeds_where_all_leads_in(
    input: GrepSearchInput,
    root: Seq<u8>,
    tree: Tree,
    guarded: GrepOutcome,
    plain: GrepOutcome,
)
    requires
        comes_of_grep_search(input, Some(root), tree, guarded),
        comes_of_grep_search(input, None, tree, plain),
        plain is Ok,
        start_of(tree.names, string_option(input.path)) matches Some(base) && (in_workspace(
            base,
            root_in_force(root, (tree.names.canonical)(root)),
        ) && (searched_files(base, tree) matches Some(files) && all_lead_in(
            files,
            root_in_force(root, (tree.names.canonical)(root)),
            tree,
        ))),
    ensures
        guarded is Ok,
{
    let base = start_of(tree.names, string_option(input.path))->Some_0;
    let in_force = root_in_force(root, (tree.names.canonical)(root));
    let terms = Terms {
        input,
        query: query_of(input),
        filter: filter_text(input),
        bounds: Some(in_force),
    };
    let files = searched_files(base, tree)->Some_0;
    let waiting = if (tree.is_file)(base) {
        seq![base]
    } else {
        files.reverse()
    };
    assert forall|i: int| 0 <= i < waiting.len() implies ((tree.names.canonical)(
        #[trigger] waiting[i],
    ) matches Some(lead) && in_workspace(lead, in_force)) by {
        if (tree.is_file)(base) {
            assert(waiting[i] == files[i]);
        } else {
            assert(waiting[i] == files[files.len() - 1 - i]);
        }
    }
    lemma_files_that_lead_in_are_searched(terms, no_notes(), waiting, in_force, tree, guarded);
}

proof fn lemma_globs_that_lead_in_are_searched(
    reach: Reach,
    all: Seq<Seq<char>>,
    pending: Seq<Seq<char>>,
    found: Seq<Seq<u8>>,
    root: Seq<u8>,
    tree: Tree,
    r: GlobOutcome,
)
    requires
        reach.bounds == Some(root),
        are_first(pending, all),
        forall|k: int|
            0 <= k < all.len() ==> glob_build(#[trigger] all[k]) is Ok && !starts_outside(
                all[k],
                root,
                reach,
                tree,
            ),
        forall|p: Seq<u8>| #[trigger] is_met_by(p, all, reach, tree) ==> leads_in(p, reach, tree),
        reach.comes_of_globs(pending, found, tree, r),
    ensures
        r is Ok,
    decreases pending.len(), 0nat,
{
    if pending.len() > 0 {
        let last = pending.len() - 1;
        let text = pending.last();
        assert(pending[last] == all[last]);
        let start = walk_root(encode_utf8(text), reach.current);
        let entries = (tree.entries)(start);
        let now = fresh(entries, matches_of(entries, start, text), found);
        lemma_fresh_are_met(text, found, reach, tree);
        let waiting = now.reverse();
        assert forall|i: int| 0 <= i < waiting.len() implies leads_in(
            #[trigger] waiting[i],
            reach,
            tree,
        ) by {
            assert(waiting[i] == now[now.len() - 1 - i]);
            assert(is_met(waiting[i], all[last], reach, tree));
            assert(is_met_by(waiting[i], all, reach, tree));
        }
        let rest = pending.drop_last();
        assert forall|k: int| 0 <= k < rest.len() implies #[trigger] rest[k] == all[k] by {
            assert(rest[k] == pending[k]);
        }
        lemma_found_that_lead_in_are_searched(reach, all, rest, found, waiting, root, tree, r);
    }
}

proof fn lemma_found_that_lead_in_are_searched(
    reach: Reach,
    all: Seq<Seq<char>>,
    pending: Seq<Seq<char>>,
    found: Seq<Seq<u8>>,
    waiting: Seq<Seq<u8>>,
    root: Seq<u8>,
    tree: Tree,
    r: GlobOutcome,
)
    requires
        reach.bounds == Some(root),
        are_first(pending, all),
        forall|k: int|
            0 <= k < all.len() ==> glob_build(#[trigger] all[k]) is Ok && !starts_outside(
                all[k],
                root,
                reach,
                tree,
            ),
        forall|p: Seq<u8>| #[trigger] is_met_by(p, all, reach, tree) ==> leads_in(p, reach, tree),
        forall|i: int| 0 <= i < waiting.len() ==> leads_in(#[trigger] waiting[i], reach, tree),
        reach.comes_of_found(pending, found, waiting, root, tree, r),
    ensures
        r is Ok,
    decreases pending.len(), waiting.len() + 1,
{
    if waiting.len() == 0 {
        lemma_globs_that_lead_in_are_searched(reach, all, pending, found, root, tree, r);
    } else {
        let p = waiting[waiting.len() - 1];
        assert(leads_in(p, reach, tree));
        let rest = waiting.drop_last();
        assert forall|i: int| 0 <= i < rest.len() implies leads_in(#[trigger] rest[i], reach, tree) by {
            assert(rest[i] == waiting[i]);
        }
        lemma_found_that_lead_in_are_searched(
            reach,
            all,
            pending,
            found.push(p),
            rest,
            root,
            tree,
            r,
        );
    }
}

/// A search for files in a workspace succeeds where its base lies in the workspace, each of
/// its globs is one and starts inside, and every file that is met on their walks leads into
/// the workspace.
pub proof fn law_workspace_file_search_succeeds_where_all_leads_in(
    pattern: Seq<char>,
    path: Option<Seq<char>>,
    root: Seq<u8>,
    tree: Tree,
    r: GlobOutcome,
)
    requires
        comes_of_glob_search(pattern, path, Some(root), tree, r),
    ensures
        (start_of(tree.names, path), tree.names.current_dir) matches (Some(base), Some(current))
            ==> ({
            let in_force = root_in_force(root, (tree.names.canonical)(root));
            let reach = reach_in(current, Some(root), tree);
            let globs = expanded(search_text(pattern, base));
            in_workspace(base, in_force) && (forall|k: int|
                0 <= k < globs.len() ==> glob_build(#[trigger] globs[k]) is Ok && !starts_outside(
                    globs[k],
                    in_force,
                    reach,
                    tree,
                )) && (forall|p: Seq<u8>| #[trigger]
                is_met_by(p, globs.reverse(), reach, tree) ==> leads_in(p, reach, tree)) ==> r is Ok
        }),
{
    if let (Some(base), Some(current)) = (start_of(tree.names, path), tree.names.current_dir) {
        let in_force = root_in_force(root, (tree.names.canonical)(root));
        let reach = reach_in(current, Some(root), tree);
        let globs = expanded(search_text(pattern, base));
        if in_workspace(base, in_force) && (forall|k: int|
            0 <= k < globs.len() ==> glob_build(#[trigger] globs[k]) is Ok && !starts_outside(
                globs[k],
                in_force,
                reach,
                tree,
            )) && (forall|p: Seq<u8>| #[trigger]
            is_met_by(p, globs.reverse(), reach, tree) ==> leads_in(p, reach, tree)) {
            let all = globs.reverse();
            assert forall|k: int| 0 <= k < all.len() implies glob_build(#[trigger] all[k]) is Ok
                && !starts_outside(all[k], in_force, reach, tree) by {
                assert(all[k] == globs[globs.len() - 1 - k]);
            }
            lemma_globs_that_lead_in_are_searched(
                reach,
                all,
                all,
                Seq::<Seq<u8>>::empty(),
                in_force,
                tree,
                r,
            );
        }
    }
}

} // verus!
