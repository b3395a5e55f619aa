//! What holds of writing and editing text in the style of the text that was there.

use vstd::prelude::*;

use crate::edit::{edited, origin_ranges};
use crate::endings::{
    has_mark, lemma_with_plain_newlines, newline_of, normalized, normalized_to, styled, unit_len,
    with_newlines, BYTE_ORDER_MARK,
};
use crate::lines::{lemma_line_end, lemma_line_end_is, line_end, lines, without_return};
use crate::error::FileError;
use crate::offsets::{
    lemma_origin, lemma_origin_keeps_pairs, lemma_origin_normalized, lemma_origin_range, origin,
};
use crate::search::{
    are_all_places, law_occurrences_are_all_places, law_pattern_stands_where_characters_agree,
    lemma_first_from, lemma_occurrences, lemma_occurs, occurrences, occurs, occurs_at, ranges_at,
    splice, stands,
};

verus! {

/// Line endings that were made plain hold no carriage return, and making them plain a
/// second time changes nothing.
pub proof fn law_plain_endings_are_plain(s: Seq<char>)
    ensures
        !normalized(s).contains('\r'),
        normalized(normalized(s)) == normalized(s),
{
    lemma_normalized_has_no_return(s);
    law_plain_text_is_kept(normalized(s));
}

proof fn lemma_normalized_has_no_return(s: Seq<char>)
    ensures
        !normalized(s).contains('\r'),
    decreases s.len(),
{
    if s.len() > 0 {
        let t = s.skip(unit_len(s));
        lemma_normalized_has_no_return(t);
        let n = normalized(s);
        assert forall|i: int| 0 <= i < n.len() implies n[i] != '\r' by {
            if i > 0 {
                assert(n[i] == normalized(t)[i - 1]);
                assert(normalized(t).contains(normalized(t)[i - 1]));
            }
        }
    }
}

/// A text without carriage returns has plain line endings already.
pub proof fn law_plain_text_is_kept(s: Seq<char>)
    requires
        !s.contains('\r'),
    ensures
        normalized(s) == s,
    decreases s.len(),
{
    if s.len() > 0 {
        assert(s.contains(s[0]));
        let t = s.skip(1);
        assert forall|i: int| 0 <= i < t.len() implies t[i] != '\r' by {
            assert(s.contains(s[i + 1]));
        }
        law_plain_text_is_kept(t);
        assert(normalized(s) =~= s);
    }
}

/// The line endings that a text is written with do not change what it says: made plain
/// again, the text is what it was with plain line endings.
pub proof fn law_written_endings_read_back(s: Seq<char>, style: Seq<char>)
    ensures
        normalized(normalized_to(s, newline_of(style))) == normalized(s),
        lines(normalized_to(s, newline_of(style))) == lines(normalized(s)),
{
    lemma_normalized_has_no_return(s);
    lemma_rewritten_reads_back(normalized(s), newline_of(style));
    lemma_rewritten_lines(normalized(s), newline_of(style));
}

/// `newline` is one of the two line endings that texts are written with.
spec fn is_newline(newline: Seq<char>) -> bool {
    newline == seq!['\n'] || newline == seq!['\r', '\n']
}

proof fn lemma_rewritten_reads_back(x: Seq<char>, newline: Seq<char>)
    requires
        !x.contains('\r'),
        is_newline(newline),
    ensures
        normalized(with_newlines(x, newline)) == x,
    decreases x.len(),
{
    if x.len() > 0 {
        let rest = x.drop_first();
        assert forall|i: int| 0 <= i < rest.len() implies rest[i] != '\r' by {
            assert(x.contains(x[i + 1]));
        }
        assert(x.contains(x[0]));
        lemma_rewritten_reads_back(rest, newline);
        let w = with_newlines(x, newline);
        let tail = with_newlines(rest, newline);
        if x[0] == '\n' && newline == seq!['\r', '\n'] {
            assert(w[0] == '\r' && w[1] == '\n');
            assert(w.skip(2) =~= tail);
        } else {
            assert(w[0] == x[0]);
            assert(w.skip(1) =~= tail);
        }
        assert(normalized(w) =~= x);
    }
}

proof fn lemma_with_newlines_concat(a: Seq<char>, b: Seq<char>, newline: Seq<char>)
    ensures
        with_newlines(a + b, newline) == with_newlines(a, newline) + with_newlines(b, newline),
    decreases a.len(),
{
    if a.len() == 0 {
        assert(a + b =~= b);
        assert(with_newlines(a, newline) + with_newlines(b, newline) =~= with_newlines(b, newline));
    } else {
        lemma_with_newlines_concat(a.drop_first(), b, newline);
        assert((a + b).drop_first() =~= a.drop_first() + b);
        assert(with_newlines(a + b, newline) =~= with_newlines(a, newline) + with_newlines(
            b,
            newline,
        ));
    }
}

proof fn lemma_line_is_kept(a: Seq<char>, newline: Seq<char>)
    requires
        !a.contains('\n'),
    ensures
        with_newlines(a, newline) == a,
    decreases a.len(),
{
    if a.len() > 0 {
        let rest = a.drop_first();
        assert(a.contains(a[0]));
        assert forall|i: int| 0 <= i < rest.len() implies rest[i] != '\n' by {
            assert(a.contains(a[i + 1]));
        }
        lemma_line_is_kept(rest, newline);
        assert(with_newlines(a, newline) =~= a);
    }
}

proof fn lemma_rewritten_lines(x: Seq<char>, newline: Seq<char>)
    requires
        !x.contains('\r'),
        is_newline(newline),
    ensures
        lines(with_newlines(x, newline)) == lines(x),
    decreases x.len(),
{
    if newline == seq!['\n'] {
        lemma_with_plain_newlines(x);
    } else if x.len() > 0 {
        lemma_line_end(x, 0);
        let e = line_end(x, 0);
        let a = x.take(e);
        assert forall|i: int| 0 <= i < a.len() implies a[i] != '\n' && a[i] != '\r' by {
            assert(x[i] != '\n');
            assert(x.contains(x[i]));
        }
        lemma_line_is_kept(a, newline);
        if e == x.len() {
            assert(a =~= x);
        } else {
            let b = x.skip(e + 1);
            assert forall|i: int| 0 <= i < b.len() implies b[i] != '\r' by {
                assert(x.contains(x[i + e + 1]));
            }
            lemma_rewritten_lines(b, newline);
            let nl = seq!['\n'];
            assert(x =~= a + (nl + b));
            lemma_with_newlines_concat(a, nl + b, newline);
            assert((nl + b).drop_first() =~= b);
            let w = with_newlines(x, newline);
            let tail = with_newlines(b, newline);
            assert(w =~= a + newline + tail);
            assert forall|i: int| 0 <= i < e + 1 implies #[trigger] w[i] != '\n' by {
                if i < e {
                    assert(w[i] == a[i]);
                }
            }
            assert(w[e + 1] == '\n');
            lemma_line_end_is(w, 0, e + 1);
            assert(w.take(e + 1).drop_last() =~= a);
            assert(w.take(e + 1).last() == '\r');
            assert(without_return(a) == a);
            assert(w.skip(e + 2) =~= tail);
        }
    }
}

/// A text is written in the style of the text that it replaces. Where that has plain
/// line endings, so has what is written; where it has not, what is written has not
/// either, unless it is a single line; and the byte order mark stays.
pub proof fn law_write_keeps_style(content: Seq<char>, original: Seq<char>)
    ensures
        newline_of(original) == seq!['\n'] ==> newline_of(styled(content, Some(original)))
            == seq!['\n'] && !styled(content, Some(original)).contains('\r'),
        newline_of(original) == seq!['\r', '\n'] && normalized(content).contains('\n')
            ==> newline_of(styled(content, Some(original))) == seq!['\r', '\n'],
        has_mark(original) ==> has_mark(styled(content, Some(original))),
{
    let s = styled(content, Some(original));
    let x = normalized(content);
    let t = normalized_to(content, newline_of(original));
    lemma_normalized_has_no_return(content);
    if newline_of(original) == seq!['\n'] {
        lemma_with_plain_newlines(x);
        assert forall|i: int| 0 <= i < s.len() implies s[i] != '\r' by {
            if s.len() > t.len() && i > 0 {
                assert(s[i] == x[i - 1]);
                assert(x.contains(x[i - 1]));
            } else if s.len() == t.len() {
                assert(x.contains(x[i]));
            }
        }
        let crlf = seq!['\r', '\n'];
        assert forall|i: int| !occurs_at(s, crlf, i) by {
            if occurs_at(s, crlf, i) {
                assert(s.subrange(i, i + 2)[0] == s[i]);
            }
        }
    }
    if newline_of(original) == seq!['\r', '\n'] && x.contains('\n') {
        let k = x.index_of('\n');
        lemma_break_is_written(x, k);
        let i = choose|i: int| occurs_at(t, seq!['\r', '\n'], i);
        if s.len() > t.len() {
            assert(s.subrange(i + 1, i + 3) =~= t.subrange(i, i + 2));
            assert(occurs_at(s, seq!['\r', '\n'], i + 1));
        }
    }
}

proof fn lemma_break_is_written(x: Seq<char>, k: int)
    requires
        0 <= k < x.len(),
        x[k] == '\n',
    ensures
        occurs(with_newlines(x, seq!['\r', '\n']), seq!['\r', '\n']),
{
    let crlf = seq!['\r', '\n'];
    let a = x.take(k);
    let b = x.skip(k);
    assert(x =~= a + b);
    lemma_with_newlines_concat(a, b, crlf);
    let w = with_newlines(x, crlf);
    let n = with_newlines(a, crlf).len() as int;
    assert(w.subrange(n, n + 2) =~= crlf);
    assert(occurs_at(w, crlf, n));
}

/// The lines that a file holds once `content` was written to it, where it held
/// `original`: in a new file those of the content, and else those of the content with
/// plain line endings, behind a byte order mark where the file had one.
pub open spec fn written_lines(content: Seq<char>, original: Option<Seq<char>>) -> Seq<Seq<char>> {
    match original {
        None => lines(content),
        Some(o) => if has_mark(o) && !has_mark(normalized(content)) {
            lines(seq![BYTE_ORDER_MARK] + normalized(content))
        } else {
            lines(normalized(content))
        },
    }
}

/// The lines of what is written are those of the content, whatever the line endings that
/// it is written with.
pub proof fn law_write_keeps_lines(content: Seq<char>, original: Option<Seq<char>>)
    ensures
        lines(styled(content, original)) == written_lines(content, original),
{
    if let Some(o) = original {
        let x = normalized(content);
        let nl = newline_of(o);
        let t = normalized_to(content, nl);
        lemma_normalized_has_no_return(content);
        law_written_endings_read_back(content, o);
        if x.len() > 0 {
            assert(with_newlines(x, nl)[0] == if x[0] == '\n' { nl[0] } else { x[0] });
        }
        assert(has_mark(t) == has_mark(x));
        let mark = seq![BYTE_ORDER_MARK];
        let y = mark + x;
        assert(y.drop_first() =~= x);
        assert(with_newlines(y, nl) =~= mark + t);
        assert forall|i: int| 0 <= i < y.len() implies y[i] != '\r' by {
            if i > 0 {
                assert(x.contains(x[i - 1]));
            }
        }
        lemma_rewritten_lines(y, nl);
    }
}

/// An edit succeeds where there is something to replace: exactly where what is to be
/// replaced is not empty and occurs in the text, be it only up to the form of line
/// endings.
pub proof fn law_edit_succeeds_where_old_occurs(
    original: Seq<char>,
    old: Seq<char>,
    new: Seq<char>,
    replace_all: bool,
)
    ensures
        edited(original, old, new, replace_all) is Ok <==> old.len() > 0 && (occurs(original, old)
            || occurs(normalized(original), normalized(old))),
{
    if old.len() > 0 {
        assert(normalized(old).len() > 0);
        lemma_occurrences(normalized(original), normalized(old), 0);
        lemma_occurs(normalized(original), normalized(old));
    }
}

/// The ranges lie in a text of `n` characters, one behind the other.
pub open spec fn in_sequence(ranges: Seq<(int, int)>, n: int) -> bool {
    &&& forall|k: int| 0 <= k < ranges.len() ==> 0 <= (#[trigger] ranges[k]).0 <= ranges[k].1 <= n
    &&& forall|k: int, l: int|
        0 <= k < l < ranges.len() ==> (#[trigger] ranges[k]).1 <= (#[trigger] ranges[l]).0
}

/// An edit puts the replacement, written with the line endings of the text, in place of
/// ranges that read as what was to be replaced once line endings are plain, and leaves
/// all else as it was. It replaces one such range, unless all are asked for.
pub proof fn law_edit_replaces_old(
    original: Seq<char>,
    old: Seq<char>,
    new: Seq<char>,
    replace_all: bool,
)
    ensures
        edited(original, old, new, replace_all) matches Ok(updated) ==> exists|ranges: Seq<(int, int)>|
            {
                &&& #[trigger] in_sequence(ranges, original.len() as int)
                &&& ranges.len() > 0
                &&& !replace_all ==> ranges.len() == 1
                &&& forall|k: int|
                    0 <= k < ranges.len() ==> normalized(
                        original.subrange((#[trigger] ranges[k]).0, ranges[k].1),
                    ) == normalized(old)
                &&& updated == splice(
                    original,
                    ranges,
                    normalized_to(new, newline_of(original)),
                    0,
                )
            },
{
    if let Ok(updated) = edited(original, old, new, replace_all) {
        let rep = normalized_to(new, newline_of(original));
        if occurs(original, old) {
            let at = occurrences(original, old, 0);
            lemma_occurs(original, old);
            lemma_first_from(original, old, 0);
            lemma_occurrences(original, old, 0);
            let n = old.len() as int;
            let ranges = if replace_all {
                ranges_at(at, n)
            } else {
                ranges_at(at.take(1), n)
            };
            assert forall|k: int| 0 <= k < ranges.len() implies {
                &&& 0 <= (#[trigger] ranges[k]).0 <= ranges[k].1 <= original.len()
                &&& original.subrange(ranges[k].0, ranges[k].1) == old
            } by {
                assert(occurs_at(original, old, at[k]));
            }
            assert forall|k: int, l: int| 0 <= k < l < ranges.len() implies (#[trigger] ranges[k]).1
                <= (#[trigger] ranges[l]).0 by {
                assert(at[k] + old.len() <= at[l]);
            }
            assert(in_sequence(ranges, original.len() as int));
            if !replace_all {
                let i = at[0];
                assert(ranges.drop_first() =~= Seq::<(int, int)>::empty());
                assert(splice(original, ranges.drop_first(), rep, i + n) == original.skip(i + n));
                assert(updated =~= splice(original, ranges, rep, 0));
            }
        } else {
            let x = normalized(original);
            let y = normalized(old);
            let n = y.len() as int;
            let at = occurrences(x, y, 0);
            lemma_occurrences(x, y, 0);
            let chosen = if replace_all {
                at
            } else {
                at.take(1)
            };
            let ranges = origin_ranges(original, chosen, n);
            assert forall|k: int| 0 <= k < ranges.len() implies {
                &&& 0 <= (#[trigger] ranges[k]).0 <= ranges[k].1 <= original.len()
                &&& normalized(original.subrange(ranges[k].0, ranges[k].1)) == y
            } by {
                assert(occurs_at(x, y, at[k]));
                lemma_origin_range(original, at[k], at[k] + n);
            }
            assert forall|k: int, l: int| 0 <= k < l < ranges.len() implies (#[trigger] ranges[k]).1
                <= (#[trigger] ranges[l]).0 by {
                assert(at[k] + n <= at[l]);
                assert(occurs_at(x, y, at[l]));
                lemma_origin(original, at[l]);
                if at[k] + n < at[l] {
                    assert(origin(original, at[k] + n) < origin(original, at[l]));
                }
            }
            assert(in_sequence(ranges, original.len() as int));
        }
    }
}

proof fn lemma_normalized_concat(a: Seq<char>, b: Seq<char>)
    requires
        !(a.len() > 0 && b.len() > 0 && a.last() == '\r' && b[0] == '\n'),
    ensures
        normalized(a + b) == normalized(a) + normalized(b),
    decreases a.len(),
{
    if a.len() == 0 {
        assert(a + b =~= b);
        assert(normalized(a) + normalized(b) =~= normalized(b));
    } else {
        let u = unit_len(a);
        assert(unit_len(a + b) == u);
        assert((a + b).skip(u) =~= a.skip(u) + b);
        lemma_normalized_concat(a.skip(u), b);
        assert(normalized(a + b) =~= normalized(a) + normalized(b));
    }
}

/// With plain line endings, a newline stands for a carriage return with a newline behind it,
/// and for a carriage return without one; and all else stays as it is.
pub proof fn law_plain_newline_stands_for_each_ending(a: Seq<char>, b: Seq<char>)
    ensures
        normalized(a + seq!['\r', '\n'] + b) == normalized(a) + seq!['\n'] + normalized(b),
        !(b.len() > 0 && b[0] == '\n') ==> normalized(a + seq!['\r'] + b) == normalized(a)
            + seq!['\n'] + normalized(b),
        (forall|i: int| 0 <= i < a.len() ==> a[i] != '\r') ==> normalized(a) == a,
{
    let crlf = seq!['\r', '\n'];
    let c = crlf + b;
    assert(a + crlf + b =~= a + c);
    lemma_normalized_concat(a, c);
    assert(c.skip(2) =~= b);
    assert(normalized(c) =~= seq!['\n'] + normalized(b));
    assert(normalized(a) + normalized(c) =~= normalized(a) + seq!['\n'] + normalized(b));
    if !(b.len() > 0 && b[0] == '\n') {
        let d = seq!['\r'] + b;
        assert(a + seq!['\r'] + b =~= a + d);
        lemma_normalized_concat(a, d);
        assert(d.skip(1) =~= b);
        assert(normalized(d) =~= seq!['\n'] + normalized(b));
        assert(normalized(a) + normalized(d) =~= normalized(a) + seq!['\n'] + normalized(b));
    }
    if forall|i: int| 0 <= i < a.len() ==> a[i] != '\r' {
        law_plain_text_is_kept(a);
    }
}

/// Writing newlines in a form puts that form in place of each of them, and leaves all else
/// as it is.
pub proof fn law_each_newline_is_written(a: Seq<char>, b: Seq<char>, newline: Seq<char>)
    ensures
        with_newlines(a + seq!['\n'] + b, newline) == with_newlines(a, newline) + newline
            + with_newlines(b, newline),
        (forall|i: int| 0 <= i < a.len() ==> a[i] != '\n') ==> with_newlines(a, newline) == a,
        normalized_to(a, newline) == with_newlines(normalized(a), newline),
{
    let nl = seq!['\n'];
    lemma_with_newlines_concat(a, nl + b, newline);
    assert(a + nl + b =~= a + (nl + b));
    assert((nl + b).drop_first() =~= b);
    assert(with_newlines(a, newline) + with_newlines(nl + b, newline) =~= with_newlines(a, newline)
        + newline + with_newlines(b, newline));
    if forall|i: int| 0 <= i < a.len() ==> a[i] != '\n' {
        lemma_line_is_kept(a, newline);
    }
}

/// The line ending of a text is a carriage return with a newline behind it where the text
/// has one such pair, and a newline where it has none.
pub proof fn law_style_is_that_of_text(s: Seq<char>)
    ensures
        (exists|i: int| 0 <= i < s.len() - 1 && #[trigger] s[i] == '\r' && s[i + 1] == '\n')
            ==> newline_of(s) == seq!['\r', '\n'],
        !(exists|i: int| 0 <= i < s.len() - 1 && #[trigger] s[i] == '\r' && s[i + 1] == '\n')
            ==> newline_of(s) == seq!['\n'],
{
    let crlf = seq!['\r', '\n'];
    if exists|i: int| 0 <= i < s.len() - 1 && #[trigger] s[i] == '\r' && s[i + 1] == '\n' {
        let i = choose|i: int| 0 <= i < s.len() - 1 && #[trigger] s[i] == '\r' && s[i + 1] == '\n';
        assert(s.subrange(i, i + 2) =~= crlf);
        assert(occurs_at(s, crlf, i));
    } else if occurs(s, crlf) {
        let i = choose|i: int| occurs_at(s, crlf, i);
        let two = s.subrange(i, i + 2);
        assert(two[0] == s[i] && two[1] == s[i + 1]);
        assert(crlf[0] == '\r' && crlf[1] == '\n');
    }
}

/// In `t` each newline stands behind a carriage return, and each carriage return before a
/// newline.
pub open spec fn has_pairs_only(t: Seq<char>) -> bool {
    &&& forall|i: int| 0 <= i < t.len() && #[trigger] t[i] == '\n' ==> i > 0 && t[i - 1] == '\r'
    &&& forall|i: int|
        0 <= i < t.len() && #[trigger] t[i] == '\r' ==> i + 1 < t.len() && t[i + 1] == '\n'
}

proof fn lemma_written_pairs(x: Seq<char>)
    requires
        !x.contains('\r'),
    ensures
        has_pairs_only(with_newlines(x, seq!['\r', '\n'])),
    decreases x.len(),
{
    let crlf = seq!['\r', '\n'];
    if x.len() > 0 {
        let rest = x.drop_first();
        assert(x.contains(x[0]));
        assert forall|i: int| 0 <= i < rest.len() implies rest[i] != '\r' by {
            assert(x.contains(x[i + 1]));
        }
        lemma_written_pairs(rest);
        let tail = with_newlines(rest, crlf);
        let head = if x[0] == '\n' {
            crlf
        } else {
            seq![x[0]]
        };
        let t = with_newlines(x, crlf);
        assert(t == head + tail);
        let n = head.len() as int;
        assert forall|i: int| 0 <= i < t.len() && #[trigger] t[i] == '\n' implies i > 0 && t[i - 1]
            == '\r' by {
            if i >= n {
                assert(tail[i - n] == '\n');
                assert(t[i - 1] == tail[i - n - 1]);
            }
        }
        assert forall|i: int| 0 <= i < t.len() && #[trigger] t[i] == '\r' implies i + 1 < t.len()
            && t[i + 1] == '\n' by {
            if i >= n {
                assert(tail[i - n] == '\r');
                assert(t[i + 1] == tail[i - n + 1]);
            }
        }
    }
}

/// Where there was no file, what is written is the content itself. Where there was one, it is
/// the content with other line endings: only pairs of a carriage return and a newline where
/// the text that was there has such a pair, and no carriage return where it has none. A byte
/// order mark is put in front just where the text that was there has one and the content
/// has not.
pub proof fn law_write_saves_content_in_style(content: Seq<char>, original: Option<Seq<char>>)
    ensures
        original is None ==> styled(content, original) == content,
        original matches Some(o) ==> exists|t: Seq<char>|
            {
                &&& #[trigger] normalized(t) == normalized(content)
                &&& (exists|i: int|
                    0 <= i < o.len() - 1 && #[trigger] o[i] == '\r' && o[i + 1] == '\n')
                    ==> has_pairs_only(t)
                &&& !(exists|i: int|
                    0 <= i < o.len() - 1 && #[trigger] o[i] == '\r' && o[i + 1] == '\n') ==> !t.contains(
                    '\r',
                )
                &&& styled(content, original) == if o.len() > 0 && o[0] == '\u{feff}' && !(
                content.len() > 0 && content[0] == '\u{feff}') {
                    seq!['\u{feff}'] + t
                } else {
                    t
                }
            },
{
    if let Some(o) = original {
        let nl = newline_of(o);
        let x = normalized(content);
        let t = normalized_to(content, nl);
        lemma_normalized_has_no_return(content);
        law_written_endings_read_back(content, o);
        law_style_is_that_of_text(o);
        if nl == seq!['\n'] {
            lemma_with_plain_newlines(x);
        } else {
            lemma_written_pairs(x);
        }
        assert(seq!['\n'].len() == 1 && seq!['\r', '\n'].len() == 2);
        if x.len() > 0 {
            assert(with_newlines(x, nl)[0] == if x[0] == '\n' { nl[0] } else { x[0] });
        }
        assert(has_mark(t) == (content.len() > 0 && content[0] == '\u{feff}'));
        assert(normalized(t) == normalized(content));
    }
}

/// An edit is refused for an empty text to replace, and for one that does not stand in the
/// original, not even once both have plain line endings; and for nothing else.
pub proof fn law_edit_is_refused_where_old_is_not(
    original: Seq<char>,
    old: Seq<char>,
    new: Seq<char>,
    replace_all: bool,
)
    ensures
        old.len() == 0 ==> edited(original, old, new, replace_all) == Err::<Seq<char>, FileError>(
            FileError::EmptyOldString,
        ),
        old.len() > 0 && (forall|i: int| !#[trigger] stands(original, old, i)) && (forall|i: int|
            !#[trigger] stands(normalized(original), normalized(old), i)) ==> edited(
            original,
            old,
            new,
            replace_all,
        ) == Err::<Seq<char>, FileError>(FileError::OldStringNotFound),
        old.len() > 0 && ((exists|i: int| #[trigger] stands(original, old, i)) || (exists|i: int|
            #[trigger] stands(normalized(original), normalized(old), i))) ==> edited(
            original,
            old,
            new,
            replace_all,
        ) is Ok,
{
    law_pattern_stands_where_characters_agree(original, old, 0);
    law_pattern_stands_where_characters_agree(normalized(original), normalized(old), 0);
    law_edit_succeeds_where_old_occurs(original, old, new, replace_all);
    if old.len() > 0 && !occurs(original, old) {
        assert(normalized(old).len() > 0);
        lemma_occurrences(normalized(original), normalized(old), 0);
        lemma_occurs(normalized(original), normalized(old));
    }
}

/// The first `o` characters of `s` are, with plain line endings, its first `k` with plain line
/// endings; and they do not end inside a line ending.
pub open spec fn leads_back(s: Seq<char>, k: int, o: int) -> bool {
    &&& 0 <= o <= s.len()
    &&& 0 <= k <= normalized(s).len()
    &&& normalized(s.take(o)) == normalized(s).take(k)
    &&& !(0 < o < s.len() && s[o - 1] == '\r' && s[o] == '\n')
}

/// `at` are the places at which an edit finds `old` in `s`: all that a search from the left
/// comes by, or the first alone.
pub open spec fn are_edited_places(
    s: Seq<char>,
    old: Seq<char>,
    at: Seq<int>,
    replace_all: bool,
) -> bool {
    &&& at.len() > 0
    &&& replace_all ==> are_all_places(s, old, at)
    &&& !replace_all ==> at.len() == 1 && stands(s, old, at[0]) && forall|i: int|
        i < at[0] ==> !#[trigger] stands(s, old, i)
}

/// `updated` is `original` with `rep` in place of each of the ranges, which are where `old`
/// stands at the places `at`.
pub open spec fn edits_places(
    original: Seq<char>,
    old: Seq<char>,
    rep: Seq<char>,
    replace_all: bool,
    at: Seq<int>,
    ranges: Seq<(int, int)>,
    updated: Seq<char>,
) -> bool {
    &&& are_edited_places(original, old, at, replace_all)
    &&& in_sequence(ranges, original.len() as int)
    &&& ranges.len() == at.len()
    &&& forall|k: int| 0 <= k < at.len() ==> (#[trigger] ranges[k]) == (at[k], at[k] + old.len())
    &&& updated == splice(original, ranges, rep, 0)
}

/// `updated` is `original` with `rep` in place of each of the ranges, which are what `old`
/// at the places `at` leads back to where both have plain line endings.
pub open spec fn edits_plain_places(
    original: Seq<char>,
    old: Seq<char>,
    rep: Seq<char>,
    replace_all: bool,
    at: Seq<int>,
    ranges: Seq<(int, int)>,
    updated: Seq<char>,
) -> bool {
    &&& are_edited_places(normalized(original), normalized(old), at, replace_all)
    &&& in_sequence(ranges, original.len() as int)
    &&& ranges.len() == at.len()
    &&& forall|k: int|
        0 <= k < at.len() ==> leads_back(original, at[k], (#[trigger] ranges[k]).0) && leads_back(
            original,
            at[k] + normalized(old).len(),
            ranges[k].1,
        )
    &&& updated == splice(original, ranges, rep, 0)
}

/// An edit takes away every place at which the text to replace stands, or the first where
/// not all are asked for, and leaves none over: it stands in no gap between two places that
/// were replaced, nor before the first, nor behind the last. Where the text stands in the
/// original as it is, it is looked for as it is; and else with plain line endings in both.
pub proof fn law_edit_leaves_none_over(
    original: Seq<char>,
    old: Seq<char>,
    new: Seq<char>,
    replace_all: bool,
)
    requires
        edited(original, old, new, replace_all) is Ok,
    ensures
        (exists|i: int| #[trigger] stands(original, old, i)) ==> exists|
            at: Seq<int>,
            ranges: Seq<(int, int)>,
        | #[trigger]
            edits_places(
                original,
                old,
                normalized_to(new, newline_of(original)),
                replace_all,
                at,
                ranges,
                edited(original, old, new, replace_all)->Ok_0,
            ),
        !(exists|i: int| #[trigger] stands(original, old, i)) ==> exists|
            at: Seq<int>,
            ranges: Seq<(int, int)>,
        | #[trigger]
            edits_plain_places(
                original,
                old,
                normalized_to(new, newline_of(original)),
                replace_all,
                at,
                ranges,
                edited(original, old, new, replace_all)->Ok_0,
            ),
{
    law_pattern_stands_where_characters_agree(original, old, 0);
    if occurs(original, old) {
        lemma_edit_replaces_places(original, old, new, replace_all);
    } else {
        lemma_edit_replaces_plain_places(original, old, new, replace_all);
    }
}

/// The places that a search from the left comes by, all or the first, lie one behind the
/// other.
proof fn lemma_edited_places(s: Seq<char>, p: Seq<char>, replace_all: bool) -> (at: Seq<int>)
    requires
        p.len() > 0,
        occurs(s, p),
    ensures
        are_edited_places(s, p, at, replace_all),
        at == if replace_all {
            occurrences(s, p, 0)
        } else {
            occurrences(s, p, 0).take(1)
        },
        forall|k: int| 0 <= k < at.len() ==> 0 <= #[trigger] at[k] && at[k] + p.len() <= s.len(),
        forall|k: int, l: int| 0 <= k < l < at.len() ==> #[trigger] at[k] + p.len() <= #[trigger] at[l],
{
    let found = occurrences(s, p, 0);
    law_occurrences_are_all_places(s, p);
    lemma_occurs(s, p);
    lemma_occurrences(s, p, 0);
    let at = if replace_all {
        found
    } else {
        found.take(1)
    };
    assert forall|k: int| 0 <= k < at.len() implies 0 <= #[trigger] at[k] && at[k] + p.len()
        <= s.len() by {
        assert(at[k] == found[k]);
        assert(stands(s, p, found[k]));
    }
    assert(stands(s, p, found[0]));
    at
}

proof fn lemma_edit_replaces_places(
    original: Seq<char>,
    old: Seq<char>,
    new: Seq<char>,
    replace_all: bool,
)
    requires
        edited(original, old, new, replace_all) is Ok,
        occurs(original, old),
    ensures
        exists|at: Seq<int>, ranges: Seq<(int, int)>| #[trigger]
            edits_places(
                original,
                old,
                normalized_to(new, newline_of(original)),
                replace_all,
                at,
                ranges,
                edited(original, old, new, replace_all)->Ok_0,
            ),
{
    let updated = edited(original, old, new, replace_all)->Ok_0;
    let rep = normalized_to(new, newline_of(original));
    let n = old.len() as int;
    let at = lemma_edited_places(original, old, replace_all);
    let ranges = ranges_at(at, n);
    if !replace_all {
        lemma_occurs(original, old);
        lemma_first_from(original, old, 0);
        let i = at[0];
        assert(ranges[0] == (i, i + n));
        assert(ranges.drop_first() =~= Seq::<(int, int)>::empty());
        assert(splice(original, ranges.drop_first(), rep, i + n) == original.skip(i + n));
        assert(original.subrange(0, i) =~= original.take(i));
        assert(updated =~= splice(original, ranges, rep, 0));
    }
    assert(edits_places(original, old, rep, replace_all, at, ranges, updated));
}

proof fn lemma_edit_replaces_plain_places(
    original: Seq<char>,
    old: Seq<char>,
    new: Seq<char>,
    replace_all: bool,
)
    requires
        edited(original, old, new, replace_all) is Ok,
        !occurs(original, old),
    ensures
        exists|at: Seq<int>, ranges: Seq<(int, int)>| #[trigger]
            edits_plain_places(
                original,
                old,
                normalized_to(new, newline_of(original)),
                replace_all,
                at,
                ranges,
                edited(original, old, new, replace_all)->Ok_0,
            ),
{
    let updated = edited(original, old, new, replace_all)->Ok_0;
    let rep = normalized_to(new, newline_of(original));
    let x = normalized(original);
    let y = normalized(old);
    let n = y.len() as int;
    assert(n > 0);
    lemma_occurrences(x, y, 0);
    lemma_occurs(x, y);
    let at = lemma_edited_places(x, y, replace_all);
    let ranges = origin_ranges(original, at, n);
    assert forall|k: int| 0 <= k < at.len() implies leads_back(
        original,
        at[k],
        (#[trigger] ranges[k]).0,
    ) && leads_back(original, at[k] + n, ranges[k].1) && ranges[k].0 <= ranges[k].1 by {
        lemma_origin_normalized(original, at[k]);
        lemma_origin_normalized(original, at[k] + n);
        lemma_origin_keeps_pairs(original, at[k]);
        lemma_origin_keeps_pairs(original, at[k] + n);
        lemma_origin_range(original, at[k], at[k] + n);
    }
    assert forall|k: int, l: int| 0 <= k < l < ranges.len() implies (#[trigger] ranges[k]).1 <= (
    #[trigger] ranges[l]).0 by {
        assert(at[k] + n <= at[l]);
        lemma_origin(original, at[l]);
        if at[k] + n < at[l] {
            assert(origin(original, at[k] + n) < origin(original, at[l]));
        }
    }
    assert(edits_plain_places(original, old, rep, replace_all, at, ranges, updated));
}

} // verus!
