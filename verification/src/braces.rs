//! Brace groups in glob patterns.

use vstd::prelude::*;
use vstd::string::*;

use crate::lines::texts;
use crate::text::{chars_of, string_of};

verus! {

/// The first position of `c` in `s` that is not before `from`, or the end of `s`
/// where there is none.
pub open spec fn find_char(s: Seq<char>, c: char, from: int) -> int
    decreases s.len() - from,
{
    if from >= s.len() {
        s.len() as int
    } else if s[from] == c {
        from
    } else {
        find_char(s, c, from + 1)
    }
}

/// What `find_char` returns is the first position.
pub proof fn lemma_find_char(s: Seq<char>, c: char, from: int)
    requires
        0 <= from <= s.len(),
    ensures
        from <= find_char(s, c, from) <= s.len(),
        find_char(s, c, from) < s.len() ==> s[find_char(s, c, from)] == c,
        forall|i: int| from <= i < find_char(s, c, from) ==> #[trigger] s[i] != c,
    decreases s.len() - from,
{
    if from < s.len() && s[from] != c {
        lemma_find_char(s, c, from + 1);
    }
}

/// The brace that closes the innermost of `depth` open braces is looked for from `i` on:
/// the position of the one that closes the outermost, or the end of `s` where there is
/// none.
pub open spec fn closing(s: Seq<char>, i: int, depth: nat) -> int
    decreases s.len() - i,
{
    if i >= s.len() {
        s.len() as int
    } else if s[i] == '{' {
        closing(s, i + 1, depth + 1)
    } else if s[i] == '}' {
        if depth <= 1 {
            i
        } else {
            closing(s, i + 1, (depth - 1) as nat)
        }
    } else {
        closing(s, i + 1, depth)
    }
}

/// The brace that closes the one at `open`, or the end of `s` where there is none.
pub open spec fn group_close(s: Seq<char>, open: int) -> int {
    closing(s, open + 1, 1)
}

/// There is no brace in the group from `open` to `close`.
pub open spec fn is_simple(s: Seq<char>, open: int, close: int) -> bool {
    find_char(s, '{', open + 1) >= close
}

/// What `closing` returns is a closing brace, and before it none closes but behind an
/// opening one.
pub proof fn lemma_closing(s: Seq<char>, i: int, depth: nat)
    requires
        0 <= i <= s.len(),
        depth > 0,
    ensures
        i <= closing(s, i, depth) <= s.len(),
        closing(s, i, depth) < s.len() ==> s[closing(s, i, depth)] == '}',
        forall|k: int|
            depth == 1 && i <= k < closing(s, i, depth) && #[trigger] s[k] == '}' ==> find_char(
                s,
                '{',
                i,
            ) < k,
    decreases s.len() - i,
{
    if i < s.len() {
        lemma_find_char(s, '{', i);
        if s[i] == '{' {
            lemma_closing(s, i + 1, depth + 1);
        } else if s[i] == '}' {
            if depth > 1 {
                lemma_closing(s, i + 1, (depth - 1) as nat);
            }
        } else {
            lemma_closing(s, i + 1, depth);
        }
    }
}

/// The patterns that `s` stands for: one for each alternative of its first simple group,
/// each expanded in turn. A group with a brace in it is left as it stands, and so is a
/// brace that is not closed.
pub open spec fn expanded(s: Seq<char>) -> Seq<Seq<char>> {
    expanded_at(s, 0)
}

/// The patterns that `s` stands for by what follows its first `from` characters.
pub open spec fn expanded_at(s: Seq<char>, from: int) -> Seq<Seq<char>>
    decreases s.len() - from, 1int, 0int,
    when 0 <= from <= s.len()
{
    proof {
        lemma_find_char(s, '{', from);
        if find_char(s, '{', from) < s.len() {
            lemma_closing(s, find_char(s, '{', from) + 1, 1);
        }
    }
    let open = find_char(s, '{', from);
    let close = group_close(s, open);
    if open >= s.len() {
        seq![s]
    } else if close >= s.len() {
        expanded_at(s, open + 1)
    } else if !is_simple(s, open, close) {
        expanded_at(s, close + 1)
    } else {
        expanded_by(s, open, close, open + 1)
    }
}

/// The end of the alternative that starts at `i` in the group that ends at `close`.
pub open spec fn alternative_end(s: Seq<char>, close: int, i: int) -> int {
    let comma = find_char(s, ',', i);
    if comma < close {
        comma
    } else {
        close
    }
}

/// `s` with the alternative that starts at `i` in place of the group from `open` to
/// `close`.
pub open spec fn with_alternative(s: Seq<char>, open: int, close: int, i: int) -> Seq<char> {
    s.take(open) + s.subrange(i, alternative_end(s, close, i)) + s.skip(close + 1)
}

/// The patterns that `s` stands for by the alternatives, from the one that starts at `i`
/// on, of its group from `open` to `close`.
pub open spec fn expanded_by(s: Seq<char>, open: int, close: int, i: int) -> Seq<Seq<char>>
    decreases s.len() - open, 0int, s.len() - i,
    when 0 <= open < i <= close < s.len()
{
    proof {
        lemma_find_char(s, ',', i);
    }
    let e = alternative_end(s, close, i);
    expanded_at(with_alternative(s, open, close, i), open + (e - i)) + (if e < close {
        expanded_by(s, open, close, e + 1)
    } else {
        seq![]
    })
}

/// `t` starts with the first `n` characters of `s`.
pub open spec fn starts_like(t: Seq<char>, s: Seq<char>, n: int) -> bool {
    n <= t.len() && t.take(n) == s.take(n)
}

/// What stands before the place from which a pattern is expanded stands in every
/// pattern that comes out, and at least one comes out.
pub proof fn law_expansion_keeps_what_is_before(s: Seq<char>, from: int)
    requires
        0 <= from <= s.len(),
    ensures
        expanded_at(s, from).len() > 0,
        forall|k: int|
            0 <= k < expanded_at(s, from).len() ==> starts_like(
                #[trigger] expanded_at(s, from)[k],
                s,
                from,
            ),
    decreases s.len() - from, 1int, 0int,
{
    lemma_find_char(s, '{', from);
    let open = find_char(s, '{', from);
    let close = group_close(s, open);
    let all = expanded_at(s, from);
    if open < s.len() {
        lemma_closing(s, open + 1, 1);
        if close >= s.len() {
            law_expansion_keeps_what_is_before(s, open + 1);
            lemma_starts_like(all, s, open + 1, from);
        } else if !is_simple(s, open, close) {
            law_expansion_keeps_what_is_before(s, close + 1);
            lemma_starts_like(all, s, close + 1, from);
        } else {
            lemma_alternatives_keep_what_is_before(s, open, close, open + 1);
            lemma_starts_like(all, s, open, from);
        }
    }
}

proof fn lemma_starts_like(all: Seq<Seq<char>>, s: Seq<char>, n: int, m: int)
    requires
        0 <= m <= n <= s.len(),
        forall|k: int| 0 <= k < all.len() ==> starts_like(#[trigger] all[k], s, n),
    ensures
        forall|k: int| 0 <= k < all.len() ==> starts_like(#[trigger] all[k], s, m),
{
    assert forall|k: int| 0 <= k < all.len() implies starts_like(#[trigger] all[k], s, m) by {
        assert(all[k].take(m) =~= all[k].take(n).take(m));
        assert(s.take(m) =~= s.take(n).take(m));
    }
}

proof fn lemma_alternatives_keep_what_is_before(s: Seq<char>, open: int, close: int, i: int)
    requires
        0 <= open < i <= close < s.len(),
    ensures
        expanded_by(s, open, close, i).len() > 0,
        forall|k: int|
            0 <= k < expanded_by(s, open, close, i).len() ==> starts_like(
                #[trigger] expanded_by(s, open, close, i)[k],
                s,
                open,
            ),
    decreases s.len() - open, 0int, s.len() - i,
{
    lemma_find_char(s, ',', i);
    let e = alternative_end(s, close, i);
    let t = with_alternative(s, open, close, i);
    let first = expanded_at(t, open + (e - i));
    law_expansion_keeps_what_is_before(t, open + (e - i));
    lemma_starts_like(first, t, open + (e - i), open);
    assert(t.take(open) =~= s.take(open));
    if e < close {
        lemma_alternatives_keep_what_is_before(s, open, close, e + 1);
        let rest = expanded_by(s, open, close, e + 1);
        assert forall|k: int| 0 <= k < (first + rest).len() implies starts_like(
            #[trigger] (first + rest)[k],
            s,
            open,
        ) by {
            if k >= first.len() {
                assert((first + rest)[k] == rest[k - first.len()]);
            }
        }
    } else {
        assert(expanded_by(s, open, close, i) =~= first);
    }
}

/// A group with a brace in it is not expanded: where it is the next to come, it stands in
/// every pattern that comes out as it stood, and expansion goes on behind it.
pub proof fn law_nested_group_is_kept(s: Seq<char>, from: int)
    requires
        0 <= from <= s.len(),
    ensures
        ({
            let open = find_char(s, '{', from);
            let close = group_close(s, open);
            open < close < s.len() && !is_simple(s, open, close) ==> {
                &&& expanded_at(s, from) == expanded_at(s, close + 1)
                &&& forall|k: int|
                    0 <= k < expanded_at(s, from).len() ==> starts_like(
                        #[trigger] expanded_at(s, from)[k],
                        s,
                        close + 1,
                    )
            }
        }),
{
    lemma_find_char(s, '{', from);
    let open = find_char(s, '{', from);
    let close = group_close(s, open);
    if open < close < s.len() && !is_simple(s, open, close) {
        law_expansion_keeps_what_is_before(s, close + 1);
    }
}

/// No group has a brace in it: between any two opening braces there is a closing one.
pub open spec fn is_flat(s: Seq<char>) -> bool {
    forall|i: int, j: int|
        0 <= i < j < s.len() && #[trigger] s[i] == '{' && #[trigger] s[j] == '{' ==> exists|k: int|
            i < k < j && #[trigger] s[k] == '}'
}

/// An opening brace has a closing one behind it.
pub open spec fn has_group(s: Seq<char>) -> bool {
    exists|i: int, j: int|
        0 <= i < j < s.len() && #[trigger] s[i] == '{' && #[trigger] s[j] == '}'
}

/// In a flat pattern, a group ends at the first closing brace and is simple.
proof fn lemma_flat_group(s: Seq<char>, open: int)
    requires
        0 <= open < s.len(),
        s[open] == '{',
        is_flat(s.skip(open)),
    ensures
        group_close(s, open) == find_char(s, '}', open + 1),
        group_close(s, open) < s.len() ==> is_simple(s, open, group_close(s, open)),
        group_close(s, open) >= s.len() ==> find_char(s, '{', open + 1) == s.len(),
{
    let t = s.skip(open);
    let c = find_char(s, '}', open + 1);
    let n = find_char(s, '{', open + 1);
    lemma_find_char(s, '}', open + 1);
    lemma_find_char(s, '{', open + 1);
    if n < s.len() {
        assert(t[0] == '{' && t[n - open] == '{');
        let k = choose|k: int| 0 < k < n - open && #[trigger] t[k] == '}';
        assert(s[open + k] == '}');
        assert(c < n);
    }
    assert(c < s.len() ==> c < n || n == s.len());
    lemma_closing_is_first(s, open + 1, c);
}

proof fn lemma_closing_is_first(s: Seq<char>, i: int, c: int)
    requires
        0 <= i <= c <= s.len(),
        c < s.len() ==> s[c] == '}',
        forall|k: int| i <= k < c ==> #[trigger] s[k] != '{' && s[k] != '}',
    ensures
        closing(s, i, 1) == c,
    decreases c - i,
{
    if i < c {
        lemma_closing_is_first(s, i + 1, c);
    }
}

/// A pattern without a group stands for itself.
pub proof fn law_pattern_without_group_is_kept(s: Seq<char>, from: int)
    requires
        0 <= from <= s.len(),
        !has_group(s),
    ensures
        expanded_at(s, from) == seq![s],
    decreases s.len() - from,
{
    lemma_find_char(s, '{', from);
    let open = find_char(s, '{', from);
    if open < s.len() {
        lemma_closing(s, open + 1, 1);
        let close = group_close(s, open);
        if close < s.len() {
            assert(s[open] == '{' && s[close] == '}');
        }
        law_pattern_without_group_is_kept(s, open + 1);
    }
}

/// A pattern none of whose groups has a brace in it is expanded completely: what it is
/// expanded to has nothing left to expand, and is not nothing.
pub proof fn law_expansion_is_complete(s: Seq<char>)
    requires
        is_flat(s),
    ensures
        expanded(s).len() > 0,
        forall|k: int|
            0 <= k < expanded(s).len() ==> !has_group(#[trigger] expanded(s)[k]) && expanded(
                expanded(s)[k],
            ) == seq![expanded(s)[k]],
{
    assert(s.skip(0) =~= s);
    lemma_expansion_at(s, 0);
    assert forall|k: int| 0 <= k < expanded(s).len() implies !has_group(#[trigger] expanded(s)[k])
        && expanded(expanded(s)[k]) == seq![expanded(s)[k]] by {
        law_pattern_without_group_is_kept(expanded(s)[k], 0);
    }
}

proof fn lemma_expansion_at(s: Seq<char>, from: int)
    requires
        0 <= from <= s.len(),
        !s.take(from).contains('{'),
        is_flat(s.skip(from)),
    ensures
        expanded_at(s, from).len() > 0,
        forall|k: int|
            0 <= k < expanded_at(s, from).len() ==> !has_group(#[trigger] expanded_at(s, from)[k]),
    decreases s.len() - from, 1int, 0int,
{
    lemma_find_char(s, '{', from);
    let open = find_char(s, '{', from);
    assert forall|i: int| 0 <= i < open implies #[trigger] s[i] != '{' by {
        if i < from {
            assert(s.take(from)[i] == s[i]);
        }
    }
    if open < s.len() {
        let close = group_close(s, open);
        lemma_flat_part(s, from, open);
        lemma_flat_group(s, open);
        lemma_closing(s, open + 1, 1);
        if close >= s.len() {
            lemma_find_char(s, '}', open + 1);
            lemma_find_char(s, '{', open + 1);
            assert(expanded_at(s, open + 1) =~= seq![s]);
            assert(!has_group(s));
        } else {
            lemma_expansion_by(s, open, close, open + 1);
        }
    } else {
        assert(!has_group(s));
    }
}

proof fn lemma_flat_part(s: Seq<char>, from: int, to: int)
    requires
        0 <= from <= to <= s.len(),
        is_flat(s.skip(from)),
    ensures
        is_flat(s.skip(to)),
{
    let a = s.skip(from);
    let b = s.skip(to);
    let d = to - from;
    assert forall|i: int, j: int|
        0 <= i < j < b.len() && #[trigger] b[i] == '{' && #[trigger] b[j] == '{' implies exists|k: int|
        i < k < j && #[trigger] b[k] == '}' by {
        assert(a[i + d] == '{' && a[j + d] == '{');
        let k = choose|k: int| i + d < k < j + d && #[trigger] a[k] == '}';
        assert(b[k - d] == '}');
    }
}

proof fn lemma_expansion_by(s: Seq<char>, open: int, close: int, i: int)
    requires
        0 <= open < i <= close < s.len(),
        forall|k: int| 0 <= k < open ==> #[trigger] s[k] != '{',
        is_simple(s, open, close),
        is_flat(s.skip(open)),
    ensures
        expanded_by(s, open, close, i).len() > 0,
        forall|k: int|
            0 <= k < expanded_by(s, open, close, i).len() ==> !has_group(
                #[trigger] expanded_by(s, open, close, i)[k],
            ),
    decreases s.len() - open, 0int, s.len() - i,
{
    lemma_find_char(s, ',', i);
    lemma_find_char(s, '{', open + 1);
    let e = alternative_end(s, close, i);
    let t = with_alternative(s, open, close, i);
    let at = open + (e - i);
    assert(t.skip(at) =~= s.skip(close + 1));
    lemma_flat_part(s, open, close + 1);
    assert forall|k: int| 0 <= k < at implies #[trigger] t.take(at)[k] != '{' by {
        if k >= open {
            assert(t[k] == s[i + (k - open)]);
        } else {
            assert(t[k] == s[k]);
        }
    }
    lemma_expansion_at(t, at);
    let first = expanded_at(t, at);
    if e < close {
        lemma_expansion_by(s, open, close, e + 1);
        let rest = expanded_by(s, open, close, e + 1);
        assert forall|k: int| 0 <= k < (first + rest).len() implies !has_group(
            #[trigger] (first + rest)[k],
        ) by {
            if k >= first.len() {
                assert((first + rest)[k] == rest[k - first.len()]);
            }
        }
    } else {
        assert(expanded_by(s, open, close, i) =~= first);
    }
}

/// The first position of `c` in `chars` that is not before `from`, or their number
/// where there is none.
fn position_of_char(chars: &Vec<char>, c: char, from: usize) -> (r: usize)
    requires
        from <= chars@.len(),
    ensures
        r == find_char(chars@, c, from as int),
        from <= r <= chars@.len(),
{
    let mut i: usize = from;
    while i < chars.len() && chars[i] != c
        invariant
            from <= i <= chars@.len(),
            find_char(chars@, c, i as int) == find_char(chars@, c, from as int),
        decreases chars@.len() - i,
    {
        i += 1;
    }
    i
}

/// The brace that closes the one at `open`, or the number of characters where there is
/// none.
fn closing_brace(chars: &Vec<char>, open: usize) -> (r: usize)
    requires
        open < chars@.len(),
    ensures
        r == group_close(chars@, open as int),
        open < r <= chars@.len(),
{
    let total: usize = chars.len();
    let mut i: usize = open + 1;
    let mut depth: usize = 1;
    while i < total
        invariant
            total == chars@.len(),
            open < i <= chars@.len(),
            1 <= depth <= i,
            closing(chars@, i as int, depth as nat) == group_close(chars@, open as int),
        decreases chars@.len() - i,
    {
        if chars[i] == '{' {
            depth += 1;
        } else if chars[i] == '}' {
            if depth == 1 {
                return i;
            }
            depth -= 1;
        }
        i += 1;
    }
    i
}

/// The characters `chars[from..to]`, behind those of `out`.
fn push_chars(out: &mut Vec<char>, chars: &Vec<char>, from: usize, to: usize)
    requires
        from <= to <= chars@.len(),
    ensures
        final(out)@ == old(out)@ + chars@.subrange(from as int, to as int),
{
    let mut i: usize = from;
    assert(out@ =~= old(out)@ + chars@.subrange(from as int, from as int));
    while i < to
        invariant
            from <= i <= to <= chars@.len(),
            out@ == old(out)@ + chars@.subrange(from as int, i as int),
        decreases to - i,
    {
        out.push(chars[i]);
        i += 1;
        assert(out@ =~= old(out)@ + chars@.subrange(from as int, i as int));
    }
}

/// The patterns that `chars` stand for by what follows the first `from` of them.
fn expand_at(chars: &Vec<char>, from: usize) -> (r: Vec<String>)
    requires
        from <= chars@.len(),
    ensures
        texts(r@) == expanded_at(chars@, from as int),
    decreases chars@.len() - from,
{
    let ghost s = chars@;
    let total: usize = chars.len();
    let open = position_of_char(chars, '{', from);
    if open == total {
        let whole = string_of(chars, 0, total);
        assert(whole@ =~= s);
        let r = vec![whole];
        assert(texts(r@) =~= seq![s]);
        return r;
    }
    let close = closing_brace(chars, open);
    if close == total {
        return expand_at(chars, open + 1);
    }
    if position_of_char(chars, '{', open + 1) < close {
        return expand_at(chars, close + 1);
    }
    let mut out: Vec<String> = Vec::new();
    let mut i: usize = open + 1;
    assert(texts(out@) + expanded_by(s, open as int, close as int, i as int) =~= expanded_at(
        s,
        from as int,
    ));
    loop
        invariant
            chars@ == s,
            total == s.len(),
            from <= open < i <= close < total,
            texts(out@) + expanded_by(s, open as int, close as int, i as int) == expanded_at(
                s,
                from as int,
            ),
        decreases total - i,
    {
        let comma = position_of_char(chars, ',', i);
        let end: usize = if comma < close {
            comma
        } else {
            close
        };
        let mut next: Vec<char> = Vec::new();
        push_chars(&mut next, chars, 0, open);
        push_chars(&mut next, chars, i, end);
        push_chars(&mut next, chars, close + 1, total);
        assert(next@ =~= with_alternative(s, open as int, close as int, i as int));
        let mut more = expand_at(&next, open + (end - i));
        let ghost before = texts(out@);
        let ghost added = texts(more@);
        out.append(&mut more);
        assert(texts(out@) =~= before + added);
        if end == close {
            assert(texts(out@) =~= before + expanded_by(s, open as int, close as int, i as int));
            return out;
        }
        assert(texts(out@) + expanded_by(s, open as int, close as int, end + 1) =~= before
            + expanded_by(s, open as int, close as int, i as int));
        i = end + 1;
    }
}

/// The patterns that `pattern` stands for, its brace groups expanded. A group with a
/// brace in it is not expanded, nor is a brace that is not closed.
pub fn expand_braces(pattern: &str) -> (r: Vec<String>)
    ensures
        texts(r@) == expanded(pattern@),
{
    let chars = chars_of(pattern);
    expand_at(&chars, 0)
}

proof fn lemma_find_char_is(s: Seq<char>, c: char, from: int, e: int)
    requires
        0 <= from <= e <= s.len(),
        e < s.len() ==> s[e] == c,
        forall|i: int| from <= i < e ==> #[trigger] s[i] != c,
    ensures
        find_char(s, c, from) == e,
{
    lemma_find_char(s, c, from);
    let f = find_char(s, c, from);
    if f < e {
        assert(s[f] != c);
    }
    if e < f {
        assert(s[e] != c);
    }
}

/// Where there is no opening brace, there is nothing to expand.
proof fn lemma_expanded_from(s: Seq<char>, from: int)
    requires
        0 <= from <= s.len(),
        forall|i: int| 0 <= i < from ==> #[trigger] s[i] != '{',
    ensures
        expanded_at(s, from) == expanded(s),
{
    lemma_find_char(s, '{', from);
    let open = find_char(s, '{', from);
    assert forall|i: int| 0 <= i < open implies #[trigger] s[i] != '{' by {}
    lemma_find_char_is(s, '{', 0, open);
}

/// What the alternatives of a group stand for depends on them and on what is around the
/// group.
proof fn lemma_expanded_by_same(
    s: Seq<char>,
    close: int,
    i: int,
    t: Seq<char>,
    close_t: int,
    k: int,
    open: int,
)
    requires
        0 <= open < i <= close < s.len(),
        0 <= open < k <= close_t < t.len(),
        s.take(open) == t.take(open),
        s.subrange(i, close) == t.subrange(k, close_t),
        s.skip(close + 1) == t.skip(close_t + 1),
    ensures
        expanded_by(s, open, close, i) == expanded_by(t, open, close_t, k),
    decreases close - i,
{
    let (b, c) = (s.subrange(i, close), t.subrange(k, close_t));
    assert(b.len() == close - i && c.len() == close_t - k);
    assert forall|j: int| 0 <= j < close - i implies #[trigger] s[i + j] == t[k + j] by {
        assert(b[j] == c[j]);
    }
    lemma_find_char(s, ',', i);
    lemma_find_char(t, ',', k);
    let e = alternative_end(s, close, i);
    let f = alternative_end(t, close_t, k);
    assert(e - i == f - k) by {
        if e - i < f - k {
            assert(s[i + (e - i)] == t[k + (e - i)]);
        }
        if f - k < e - i {
            assert(s[i + (f - k)] == t[k + (f - k)]);
        }
    }
    assert(s.subrange(i, e) =~= t.subrange(k, f)) by {
        assert forall|j: int| 0 <= j < e - i implies s.subrange(i, e)[j] == t.subrange(k, f)[j] by {
            assert(s[i + j] == t[k + j]);
        }
    }
    assert(with_alternative(s, open, close, i) == with_alternative(t, open, close_t, k));
    if e < close {
        assert(s.subrange(e + 1, close) =~= b.skip(e + 1 - i));
        assert(t.subrange(f + 1, close_t) =~= c.skip(f + 1 - k));
        lemma_expanded_by_same(s, close, e + 1, t, close_t, f + 1, open);
    }
}

/// A group stands for its alternatives: with one alternative alone, for the pattern with that
/// in its place; and with more, for that of the first and then for those of the others. What
/// is around the group stays around each of them.
pub proof fn law_group_stands_for_its_alternatives(
    pre: Seq<char>,
    a: Seq<char>,
    rest: Seq<char>,
    post: Seq<char>,
)
    requires
        forall|i: int| 0 <= i < pre.len() ==> #[trigger] pre[i] != '{',
        forall|i: int|
            0 <= i < a.len() ==> #[trigger] a[i] != '{' && a[i] != '}' && a[i] != ',',
        forall|i: int| 0 <= i < rest.len() ==> #[trigger] rest[i] != '{' && rest[i] != '}',
    ensures
        expanded(pre + seq!['{'] + a + seq!['}'] + post) == expanded(pre + a + post),
        expanded(pre + seq!['{'] + (a + seq![','] + rest) + seq!['}'] + post) == expanded(
            pre + a + post,
        ) + expanded(pre + seq!['{'] + rest + seq!['}'] + post),
{
    let body = a + seq![','] + rest;
    let one = pre + seq!['{'] + a + seq!['}'] + post;
    let s = pre + seq!['{'] + body + seq!['}'] + post;
    let t = pre + seq!['{'] + rest + seq!['}'] + post;
    let open = pre.len() as int;
    assert forall|i: int| 0 <= i < body.len() implies #[trigger] body[i] != '{' && body[i] != '}' by {
        if i < a.len() {
            assert(body[i] == a[i]);
        } else if i > a.len() {
            assert(body[i] == rest[i - a.len() - 1]);
        }
    }
    lemma_group_expands(pre, a, post);
    lemma_group_expands(pre, body, post);
    lemma_group_expands(pre, rest, post);
    let n = a.len() as int;
    let c1 = open + 1 + n;
    let c2 = open + 1 + body.len();
    let c3 = open + 1 + rest.len();
    let r = pre + a + post;
    // The first alternative.
    lemma_find_char(one, ',', open + 1);
    assert(alternative_end(one, c1, open + 1) == c1) by {
        let f = find_char(one, ',', open + 1);
        if f < c1 {
            assert(one[f] == a[f - open - 1]);
        }
    }
    assert(with_alternative(one, open, c1, open + 1) =~= r);
    assert forall|i: int| 0 <= i < open + n implies #[trigger] r[i] != '{' by {
        if i < open {
            assert(r[i] == pre[i]);
        } else {
            assert(r[i] == a[i - open]);
        }
    }
    lemma_expanded_from(r, open + n);
    assert(expanded_by(one, open, c1, open + 1) =~= expanded(r));
    // The others.
    assert forall|i: int| open + 1 <= i < c1 implies #[trigger] s[i] != ',' by {
        assert(s[i] == body[i - open - 1]);
        assert(body[i - open - 1] == a[i - open - 1]);
    }
    assert(s[c1] == body[n]);
    lemma_find_char_is(s, ',', open + 1, c1);
    assert(with_alternative(s, open, c2, open + 1) =~= r);
    assert(s.take(open) =~= t.take(open));
    assert(s.subrange(c1 + 1, c2) =~= rest);
    assert(t.subrange(open + 1, c3) =~= rest);
    assert(s.skip(c2 + 1) =~= post);
    assert(t.skip(c3 + 1) =~= post);
    lemma_expanded_by_same(s, c2, c1 + 1, t, c3, open + 1, open);
}

/// The first group of a pattern is expanded where there is no brace in it.
proof fn lemma_group_expands(pre: Seq<char>, body: Seq<char>, post: Seq<char>)
    requires
        forall|i: int| 0 <= i < pre.len() ==> #[trigger] pre[i] != '{',
        forall|i: int| 0 <= i < body.len() ==> #[trigger] body[i] != '{' && body[i] != '}',
    ensures
        ({
            let s = pre + seq!['{'] + body + seq!['}'] + post;
            let open = pre.len() as int;
            let close = open + 1 + body.len();
            &&& s.len() == close + 1 + post.len()
            &&& expanded(s) == expanded_by(s, open, close, open + 1)
        }),
{
    let s = pre + seq!['{'] + body + seq!['}'] + post;
    let open = pre.len() as int;
    let close = open + 1 + body.len();
    assert(s[open] == '{');
    assert(s[close] == '}');
    assert forall|i: int| 0 <= i < open implies #[trigger] s[i] != '{' by {
        assert(s[i] == pre[i]);
    }
    assert forall|i: int| open + 1 <= i < close implies #[trigger] s[i] != '{' && s[i] != '}' by {
        assert(s[i] == body[i - open - 1]);
    }
    lemma_find_char_is(s, '{', 0, open);
    lemma_closing_is_first(s, open + 1, close);
    lemma_find_char(s, '{', open + 1);
    assert(is_simple(s, open, close)) by {
        let f = find_char(s, '{', open + 1);
        if f < close {
            assert(s[f] != '{');
        }
    }
}

/// A group with a brace in it stands for itself, and what is behind it is expanded as if it
/// stood alone: no alternative of the inner group comes out as a pattern of its own.
pub proof fn law_group_in_group_stands_for_itself(
    pre: Seq<char>,
    a: Seq<char>,
    inner: Seq<char>,
    b: Seq<char>,
)
    requires
        forall|i: int| 0 <= i < pre.len() ==> #[trigger] pre[i] != '{',
        forall|i: int| 0 <= i < a.len() ==> #[trigger] a[i] != '{' && a[i] != '}',
        forall|i: int| 0 <= i < inner.len() ==> #[trigger] inner[i] != '{' && inner[i] != '}',
        forall|i: int| 0 <= i < b.len() ==> #[trigger] b[i] != '{' && b[i] != '}',
    ensures
        ({
            let s = pre + seq!['{'] + a + seq!['{'] + inner + seq!['}'] + b + seq!['}'];
            expanded(s) == seq![s]
        }),
{
    let s = pre + seq!['{'] + a + seq!['{'] + inner + seq!['}'] + b + seq!['}'];
    let open = pre.len() as int;
    let second = open + 1 + a.len();
    let third = second + 1 + inner.len();
    let close = third + 1 + b.len();
    assert(s[open] == '{' && s[second] == '{' && s[third] == '}' && s[close] == '}');
    assert(s.len() == close + 1);
    assert forall|i: int| 0 <= i < open implies #[trigger] s[i] != '{' by {
        assert(s[i] == pre[i]);
    }
    lemma_find_char_is(s, '{', 0, open);
    assert forall|i: int| open + 1 <= i < second implies #[trigger] s[i] != '{' && s[i] != '}' by {
        assert(s[i] == a[i - open - 1]);
    }
    assert forall|i: int| second + 1 <= i < third implies #[trigger] s[i] != '{' && s[i] != '}' by {
        assert(s[i] == inner[i - second - 1]);
    }
    assert forall|i: int| third + 1 <= i < close implies #[trigger] s[i] != '{' && s[i] != '}' by {
        assert(s[i] == b[i - third - 1]);
    }
    lemma_find_char_is(s, '{', open + 1, second);
    lemma_closing_passes(s, open + 1, second, 1);
    lemma_closing_passes(s, second + 1, third, 2);
    lemma_closing_passes(s, third + 1, close, 1);
    assert(group_close(s, open) == close);
    assert(find_char(s, '{', close + 1) == s.len());
    assert(expanded_at(s, close + 1) =~= seq![s]);
}

proof fn lemma_closing_passes(s: Seq<char>, i: int, k: int, depth: nat)
    requires
        0 <= i <= k < s.len(),
        forall|j: int| i <= j < k ==> #[trigger] s[j] != '{' && s[j] != '}',
    ensures
        closing(s, i, depth) == closing(s, k, depth),
    decreases k - i,
{
    if i < k {
        lemma_closing_passes(s, i + 1, k, depth);
    }
}

} // verus!
