//! The patch that leads from one text to another, as one hunk with context.

use vstd::prelude::*;
use vstd::string::*;

use crate::lines::{lines, split_lines, texts};
use crate::text::same_text;

verus! {

/// The number of unchanged lines that a hunk shows on each side of the change.
pub const CONTEXT_LINES: usize = 3;

/// Structured patch hunk emitted by write and edit operations. Lines are counted
/// from 1; each entry of `lines` starts with the mark of what becomes of the line.
#[derive(Debug, Clone, PartialEq, Eq)]
pub struct StructuredPatchHunk {
    pub old_start: usize,
    pub old_lines: usize,
    pub new_start: usize,
    pub new_lines: usize,
    pub lines: Vec<String>,
}

/// What a hunk says.
pub struct Hunk {
    pub old_start: int,
    pub old_lines: int,
    pub new_start: int,
    pub new_lines: int,
    pub lines: Seq<Seq<char>>,
}

impl View for StructuredPatchHunk {
    type V = Hunk;

    open spec fn view(&self) -> Hunk {
        Hunk {
            old_start: self.old_start as int,
            old_lines: self.old_lines as int,
            new_start: self.new_start as int,
            new_lines: self.new_lines as int,
            lines: texts(self.lines@),
        }
    }
}

/// The first index, from `i` on, at which `a` and `b` differ or one of them ends.
pub open spec fn common_prefix(a: Seq<Seq<char>>, b: Seq<Seq<char>>, i: int) -> int
    decreases a.len() - i,
{
    if i < a.len() && i < b.len() && a[i] == b[i] {
        common_prefix(a, b, i + 1)
    } else {
        i
    }
}

/// How many lines, from `k` on, `a` and `b` have in common at their ends, leaving
/// their first `p` lines aside.
pub open spec fn common_suffix(a: Seq<Seq<char>>, b: Seq<Seq<char>>, p: int, k: int) -> int
    decreases a.len() - p - k,
{
    if k < a.len() - p && k < b.len() - p && a[a.len() - 1 - k] == b[b.len() - 1 - k] {
        common_suffix(a, b, p, k + 1)
    } else {
        k
    }
}

/// The lines `ls`, each with `mark` in front.
pub open spec fn marked(mark: char, ls: Seq<Seq<char>>) -> Seq<Seq<char>> {
    ls.map_values(|l: Seq<char>| seq![mark] + l)
}

/// The hunk that leads from the lines `a` to the lines `b`: what they share at the
/// start and at the end is left out, but for the lines of context.
pub open spec fn hunk_between(a: Seq<Seq<char>>, b: Seq<Seq<char>>) -> Hunk {
    let prefix = common_prefix(a, b, 0);
    let suffix = common_suffix(a, b, prefix, 0);
    let start = if prefix < CONTEXT_LINES {
        0
    } else {
        prefix - CONTEXT_LINES
    };
    let trail = if suffix < CONTEXT_LINES {
        suffix
    } else {
        CONTEXT_LINES as int
    };
    Hunk {
        old_start: start + 1,
        old_lines: a.len() - suffix + trail - start,
        new_start: start + 1,
        new_lines: b.len() - suffix + trail - start,
        lines: marked(' ', a.subrange(start, prefix)) + marked(
            '-',
            a.subrange(prefix, a.len() - suffix),
        ) + marked('+', b.subrange(prefix, b.len() - suffix)) + marked(
            ' ',
            a.subrange(a.len() - suffix, a.len() - suffix + trail),
        ),
    }
}

/// Shared lines at the start are shared lines.
pub proof fn lemma_common_prefix(a: Seq<Seq<char>>, b: Seq<Seq<char>>, i: int)
    requires
        0 <= i <= a.len(),
        i <= b.len(),
    ensures
        i <= common_prefix(a, b, i) <= a.len(),
        common_prefix(a, b, i) <= b.len(),
        forall|j: int| i <= j < common_prefix(a, b, i) ==> #[trigger] a[j] == b[j],
    decreases a.len() - i,
{
    if i < a.len() && i < b.len() && a[i] == b[i] {
        lemma_common_prefix(a, b, i + 1);
    }
}

/// Shared lines at the end are shared lines.
pub proof fn lemma_common_suffix(a: Seq<Seq<char>>, b: Seq<Seq<char>>, p: int, k: int)
    requires
        0 <= p,
        0 <= k <= a.len() - p,
        k <= b.len() - p,
    ensures
        k <= common_suffix(a, b, p, k) <= a.len() - p,
        common_suffix(a, b, p, k) <= b.len() - p,
        forall|j: int|
            k <= j < common_suffix(a, b, p, k) ==> a[a.len() - 1 - j] == #[trigger] b[b.len() - 1
                - j],
    decreases a.len() - p - k,
{
    if k < a.len() - p && k < b.len() - p && a[a.len() - 1 - k] == b[b.len() - 1 - k] {
        lemma_common_suffix(a, b, p, k + 1);
    }
}

/// The lines of one side of a hunk: those of the context and those with the mark
/// of that side.
pub open spec fn side(ls: Seq<Seq<char>>, mark: char) -> Seq<Seq<char>>
    decreases ls.len(),
{
    if ls.len() == 0 {
        seq![]
    } else if ls.last()[0] == ' ' || ls.last()[0] == mark {
        side(ls.drop_last(), mark).push(ls.last().drop_first())
    } else {
        side(ls.drop_last(), mark)
    }
}

proof fn lemma_side_concat(x: Seq<Seq<char>>, y: Seq<Seq<char>>, mark: char)
    ensures
        side(x + y, mark) == side(x, mark) + side(y, mark),
    decreases y.len(),
{
    if y.len() == 0 {
        assert(x + y =~= x);
        assert(side(x, mark) + side(y, mark) =~= side(x, mark));
    } else {
        lemma_side_concat(x, y.drop_last(), mark);
        assert((x + y).drop_last() =~= x + y.drop_last());
        assert((x + y).last() == y.last());
        assert(side(x + y, mark) =~= side(x, mark) + side(y, mark));
    }
}

proof fn lemma_side_marked(m: char, ls: Seq<Seq<char>>, mark: char)
    ensures
        m == ' ' || m == mark ==> side(marked(m, ls), mark) == ls,
        m != ' ' && m != mark ==> side(marked(m, ls), mark) == Seq::<Seq<char>>::empty(),
    decreases ls.len(),
{
    if ls.len() > 0 {
        lemma_side_marked(m, ls.drop_last(), mark);
        assert(marked(m, ls).drop_last() =~= marked(m, ls.drop_last()));
        assert(marked(m, ls).last() == seq![m] + ls.last());
        assert((seq![m] + ls.last()).drop_first() =~= ls.last());
        assert(ls.drop_last().push(ls.last()) =~= ls);
    } else {
        assert(side(marked(m, ls), mark) =~= ls);
    }
}

/// A patch tells the truth: its old side is what the old text has at the place it
/// names, its new side is what the new text has there, and putting the new side in
/// place of the old one turns the old lines into the new lines.
pub proof fn law_patch_applies(a: Seq<Seq<char>>, b: Seq<Seq<char>>)
    ensures
        ({
            let h = hunk_between(a, b);
            let old_from = h.old_start - 1;
            let new_from = h.new_start - 1;
            &&& 0 <= old_from <= old_from + h.old_lines <= a.len()
            &&& 0 <= new_from <= new_from + h.new_lines <= b.len()
            &&& side(h.lines, '-') == a.subrange(old_from, old_from + h.old_lines)
            &&& side(h.lines, '+') == b.subrange(new_from, new_from + h.new_lines)
            &&& a.take(old_from) + side(h.lines, '+') + a.skip(old_from + h.old_lines) == b
        }),
{
    let h = hunk_between(a, b);
    let p = common_prefix(a, b, 0);
    lemma_common_prefix(a, b, 0);
    let s = common_suffix(a, b, p, 0);
    lemma_common_suffix(a, b, p, 0);
    let start = h.old_start - 1;
    let trail = if s < CONTEXT_LINES {
        s
    } else {
        CONTEXT_LINES as int
    };
    let l1 = a.subrange(start, p);
    let l2 = a.subrange(p, a.len() - s);
    let l3 = b.subrange(p, b.len() - s);
    let l4 = a.subrange(a.len() - s, a.len() - s + trail);
    lemma_hunk_side(l1, l2, l3, l4);
    lemma_shared_ends(a, b, p, s, start, trail);
}

/// Two sequences that share their first `p` and their last `s` items, cut `start`
/// items from the start and `trail` items into what they share at the end.
proof fn lemma_shared_ends<T>(a: Seq<T>, b: Seq<T>, p: int, s: int, start: int, trail: int)
    requires
        0 <= start <= p,
        0 <= trail <= s,
        p + s <= a.len(),
        p + s <= b.len(),
        forall|j: int| 0 <= j < p ==> #[trigger] a[j] == b[j],
        forall|j: int| 0 <= j < s ==> a[a.len() - 1 - j] == #[trigger] b[b.len() - 1 - j],
    ensures
        a.subrange(start, p) + a.subrange(p, a.len() - s) + a.subrange(
            a.len() - s,
            a.len() - s + trail,
        ) == a.subrange(start, a.len() - s + trail),
        a.subrange(start, p) + b.subrange(p, b.len() - s) + a.subrange(
            a.len() - s,
            a.len() - s + trail,
        ) == b.subrange(start, b.len() - s + trail),
        a.take(start) + b.subrange(start, b.len() - s + trail) + a.skip(a.len() - s + trail) == b,
{
    let ta = a.skip(a.len() - s);
    let tb = b.skip(b.len() - s);
    assert forall|j: int| 0 <= j < s implies ta[j] == tb[j] by {
        let i = s - 1 - j;
        assert(a[a.len() - 1 - i] == b[b.len() - 1 - i]);
    }
    assert(ta =~= tb);
    assert(a.subrange(a.len() - s, a.len() - s + trail) =~= ta.take(trail));
    assert(b.subrange(b.len() - s, b.len() - s + trail) =~= tb.take(trail));
    assert(a.skip(a.len() - s + trail) =~= ta.skip(trail));
    assert(b.skip(b.len() - s + trail) =~= tb.skip(trail));
    assert(a.subrange(start, p) =~= b.subrange(start, p));
    assert(a.take(start) =~= b.take(start));
    assert(a.subrange(start, p) + a.subrange(p, a.len() - s) + a.subrange(
        a.len() - s,
        a.len() - s + trail,
    ) =~= a.subrange(start, a.len() - s + trail));
    assert(b.subrange(start, p) + b.subrange(p, b.len() - s) + b.subrange(
        b.len() - s,
        b.len() - s + trail,
    ) =~= b.subrange(start, b.len() - s + trail));
    assert(b.take(start) + b.subrange(start, b.len() - s + trail) + b.skip(b.len() - s + trail)
        =~= b);
}

/// The two sides of a hunk made of context, lines taken away, lines put in, and
/// context.
proof fn lemma_hunk_side(
    l1: Seq<Seq<char>>,
    l2: Seq<Seq<char>>,
    l3: Seq<Seq<char>>,
    l4: Seq<Seq<char>>,
)
    ensures
        side(
            marked(' ', l1) + marked('-', l2) + marked('+', l3) + marked(' ', l4),
            '-',
        ) == l1 + l2 + l4,
        side(
            marked(' ', l1) + marked('-', l2) + marked('+', l3) + marked(' ', l4),
            '+',
        ) == l1 + l3 + l4,
{
    let m1 = marked(' ', l1);
    let m2 = marked('-', l2);
    let m3 = marked('+', l3);
    let m4 = marked(' ', l4);
    lemma_side_concat(m1 + m2 + m3, m4, '-');
    lemma_side_concat(m1 + m2, m3, '-');
    lemma_side_concat(m1, m2, '-');
    lemma_side_marked(' ', l1, '-');
    lemma_side_marked('-', l2, '-');
    lemma_side_marked('+', l3, '-');
    lemma_side_marked(' ', l4, '-');
    assert(l1 + l2 + Seq::<Seq<char>>::empty() =~= l1 + l2);
    lemma_side_concat(m1 + m2 + m3, m4, '+');
    lemma_side_concat(m1 + m2, m3, '+');
    lemma_side_concat(m1, m2, '+');
    lemma_side_marked(' ', l1, '+');
    lemma_side_marked('-', l2, '+');
    lemma_side_marked('+', l3, '+');
    lemma_side_marked(' ', l4, '+');
    assert(l1 + Seq::<Seq<char>>::empty() =~= l1);
}

/// Appends the lines `ls[from..to]` to `out`, each with `mark` in front.
fn push_marked(out: &mut Vec<String>, mark: char, ls: &Vec<String>, from: usize, to: usize)
    requires
        from <= to <= ls@.len(),
    ensures
        texts(final(out)@) == texts(old(out)@) + marked(
            mark,
            texts(ls@).subrange(from as int, to as int),
        ),
{
    let mut i: usize = from;
    assert(texts(out@) =~= texts(old(out)@) + marked(
        mark,
        texts(ls@).subrange(from as int, from as int),
    ));
    while i < to
        invariant
            from <= i <= to <= ls@.len(),
            texts(out@) == texts(old(out)@) + marked(
                mark,
                texts(ls@).subrange(from as int, i as int),
            ),
        decreases to - i,
    {
        let mut line = String::new();
        line.push(mark);
        line.append(ls[i].as_str());
        let ghost before = out@;
        out.push(line);
        i += 1;
        proof {
            assert(line@ =~= seq![mark] + texts(ls@)[i - 1]);
            assert(texts(out@) =~= texts(before).push(line@));
            assert(texts(out@) =~= texts(old(out)@) + marked(
                mark,
                texts(ls@).subrange(from as int, i as int),
            ));
        }
    }
}

/// The lines of a hunk that have the mark, without it.
pub open spec fn with_mark(ls: Seq<Seq<char>>, mark: char) -> Seq<Seq<char>>
    decreases ls.len(),
{
    if ls.len() == 0 {
        seq![]
    } else if ls.last()[0] == mark {
        with_mark(ls.drop_last(), mark).push(ls.last().drop_first())
    } else {
        with_mark(ls.drop_last(), mark)
    }
}

proof fn lemma_mark_concat(x: Seq<Seq<char>>, y: Seq<Seq<char>>, mark: char)
    ensures
        with_mark(x + y, mark) == with_mark(x, mark) + with_mark(y, mark),
    decreases y.len(),
{
    if y.len() == 0 {
        assert(x + y =~= x);
        assert(with_mark(x, mark) + with_mark(y, mark) =~= with_mark(x, mark));
    } else {
        lemma_mark_concat(x, y.drop_last(), mark);
        assert((x + y).drop_last() =~= x + y.drop_last());
        assert((x + y).last() == y.last());
        assert(with_mark(x + y, mark) =~= with_mark(x, mark) + with_mark(y, mark));
    }
}

proof fn lemma_mark_marked(m: char, ls: Seq<Seq<char>>, mark: char)
    ensures
        with_mark(marked(m, ls), mark) == if m == mark {
            ls
        } else {
            Seq::<Seq<char>>::empty()
        },
    decreases ls.len(),
{
    if ls.len() > 0 {
        lemma_mark_marked(m, ls.drop_last(), mark);
        assert(marked(m, ls).drop_last() =~= marked(m, ls.drop_last()));
        assert(marked(m, ls).last() == seq![m] + ls.last());
        assert((seq![m] + ls.last()).drop_first() =~= ls.last());
        assert(ls.drop_last().push(ls.last()) =~= ls);
    } else {
        assert(with_mark(marked(m, ls), mark) =~= ls);
    }
}

/// The lines of each mark in a hunk made of context, lines taken away, lines put in, and
/// context.
proof fn lemma_hunk_marks(
    l1: Seq<Seq<char>>,
    l2: Seq<Seq<char>>,
    l3: Seq<Seq<char>>,
    l4: Seq<Seq<char>>,
    mark: char,
)
    ensures
        with_mark(
            marked(' ', l1) + marked('-', l2) + marked('+', l3) + marked(' ', l4),
            mark,
        ) == if mark == ' ' {
            l1 + l4
        } else if mark == '-' {
            l2
        } else if mark == '+' {
            l3
        } else {
            Seq::<Seq<char>>::empty()
        },
{
    let m1 = marked(' ', l1);
    let m2 = marked('-', l2);
    let m3 = marked('+', l3);
    let m4 = marked(' ', l4);
    let all = m1 + m2 + m3 + m4;
    let none = Seq::<Seq<char>>::empty();
    lemma_mark_concat(m1 + m2 + m3, m4, mark);
    lemma_mark_concat(m1 + m2, m3, mark);
    lemma_mark_concat(m1, m2, mark);
    lemma_mark_marked(' ', l1, mark);
    lemma_mark_marked('-', l2, mark);
    lemma_mark_marked('+', l3, mark);
    lemma_mark_marked(' ', l4, mark);
    if mark == ' ' {
        assert(with_mark(all, mark) =~= l1 + l4);
    } else if mark == '-' {
        assert(with_mark(all, mark) =~= l2);
    } else if mark == '+' {
        assert(with_mark(all, mark) =~= l3);
    } else {
        assert(with_mark(all, mark) =~= none);
    }
}

proof fn lemma_prefix_is_symmetric(a: Seq<Seq<char>>, b: Seq<Seq<char>>, i: int)
    ensures
        common_prefix(a, b, i) == common_prefix(b, a, i),
    decreases a.len() - i,
{
    if i < a.len() && i < b.len() && a[i] == b[i] {
        lemma_prefix_is_symmetric(a, b, i + 1);
    }
}

proof fn lemma_suffix_is_symmetric(a: Seq<Seq<char>>, b: Seq<Seq<char>>, p: int, k: int)
    ensures
        common_suffix(a, b, p, k) == common_suffix(b, a, p, k),
    decreases a.len() - p - k,
{
    if k < a.len() - p && k < b.len() - p && a[a.len() - 1 - k] == b[b.len() - 1 - k] {
        lemma_suffix_is_symmetric(a, b, p, k + 1);
    }
}

/// The patch back swaps what is taken away and what is put in: it names the same places the
/// other way round, and keeps the context.
pub proof fn law_patch_back_swaps(a: Seq<Seq<char>>, b: Seq<Seq<char>>)
    ensures
        ({
            let h = hunk_between(a, b);
            let back = hunk_between(b, a);
            &&& back.old_start == h.new_start && back.old_lines == h.new_lines
            &&& back.new_start == h.old_start && back.new_lines == h.old_lines
            &&& with_mark(back.lines, '-') == with_mark(h.lines, '+')
            &&& with_mark(back.lines, '+') == with_mark(h.lines, '-')
            &&& with_mark(back.lines, ' ') == with_mark(h.lines, ' ')
        }),
{
    let p = common_prefix(a, b, 0);
    lemma_common_prefix(a, b, 0);
    lemma_prefix_is_symmetric(a, b, 0);
    let s = common_suffix(a, b, p, 0);
    lemma_common_suffix(a, b, p, 0);
    lemma_suffix_is_symmetric(a, b, p, 0);
    let start = hunk_between(a, b).old_start - 1;
    let trail = if s < CONTEXT_LINES {
        s
    } else {
        CONTEXT_LINES as int
    };
    let (a1, b1) = (a.subrange(start, p), b.subrange(start, p));
    let (a2, b2) = (a.subrange(p, a.len() - s), b.subrange(p, b.len() - s));
    let (a4, b4) = (
        a.subrange(a.len() - s, a.len() - s + trail),
        b.subrange(b.len() - s, b.len() - s + trail),
    );
    assert(a1 =~= b1);
    assert forall|j: int| 0 <= j < trail implies a4[j] == b4[j] by {
        let i = s - 1 - j;
        assert(a[a.len() - 1 - i] == b[b.len() - 1 - i]);
    }
    assert(a4 =~= b4);
    lemma_hunk_marks(a1, a2, b2, a4, ' ');
    lemma_hunk_marks(a1, a2, b2, a4, '-');
    lemma_hunk_marks(a1, a2, b2, a4, '+');
    lemma_hunk_marks(b1, b2, a2, b4, ' ');
    lemma_hunk_marks(b1, b2, a2, b4, '-');
    lemma_hunk_marks(b1, b2, a2, b4, '+');
}

/// The patch that leads from `original` to `updated`: empty where they are the same
/// text, else one hunk.
pub open spec fn is_patch(
    patch: Seq<StructuredPatchHunk>,
    original: Seq<char>,
    updated: Seq<char>,
) -> bool {
    if original == updated {
        patch.len() == 0
    } else {
        patch.len() == 1 && patch[0]@ == hunk_between(lines(original), lines(updated))
    }
}

/// How many lines two texts share at the start.
fn shared_prefix(a: &Vec<String>, b: &Vec<String>) -> (n: usize)
    ensures
        n == common_prefix(texts(a@), texts(b@), 0),
        n <= a@.len(),
        n <= b@.len(),
{
    let mut n: usize = 0;
    while n < a.len() && n < b.len() && a[n] == b[n]
        invariant
            n <= a@.len(),
            n <= b@.len(),
            common_prefix(texts(a@), texts(b@), 0) == common_prefix(
                texts(a@),
                texts(b@),
                n as int,
            ),
        decreases a@.len() - n,
    {
        n += 1;
    }
    n
}

/// How many lines two texts share at the end, leaving their first `p` lines aside.
fn shared_suffix(a: &Vec<String>, b: &Vec<String>, p: usize) -> (n: usize)
    requires
        p <= a@.len(),
        p <= b@.len(),
    ensures
        n == common_suffix(texts(a@), texts(b@), p as int, 0),
        p + n <= a@.len(),
        p + n <= b@.len(),
{
    let mut i: usize = a.len();
    let mut j: usize = b.len();
    while i > p && j > p && a[i - 1] == b[j - 1]
        invariant
            p <= i <= a@.len(),
            p <= j <= b@.len(),
            a@.len() - i == b@.len() - j,
            common_suffix(texts(a@), texts(b@), p as int, 0) == common_suffix(
                texts(a@),
                texts(b@),
                p as int,
                a@.len() - i,
            ),
        decreases i,
    {
        i -= 1;
        j -= 1;
    }
    a.len() - i
}

/// The patch that leads from `original` to `updated`.
pub fn make_patch(original: &str, updated: &str) -> (r: Vec<StructuredPatchHunk>)
    ensures
        is_patch(r@, original@, updated@),
{
    if same_text(original, updated) {
        return Vec::new();
    }
    let original_lines = split_lines(original);
    let updated_lines = split_lines(updated);
    let prefix = shared_prefix(&original_lines, &updated_lines);
    let suffix = shared_suffix(&original_lines, &updated_lines, prefix);
    let start: usize = if prefix < CONTEXT_LINES {
        0
    } else {
        prefix - CONTEXT_LINES
    };
    let trail: usize = if suffix < CONTEXT_LINES {
        suffix
    } else {
        CONTEXT_LINES
    };
    let old_end: usize = original_lines.len() - suffix;
    let new_end: usize = updated_lines.len() - suffix;
    let mut lines: Vec<String> = Vec::new();
    assert(texts(lines@) =~= Seq::<Seq<char>>::empty());
    push_marked(&mut lines, ' ', &original_lines, start, prefix);
    push_marked(&mut lines, '-', &original_lines, prefix, old_end);
    push_marked(&mut lines, '+', &updated_lines, prefix, new_end);
    push_marked(&mut lines, ' ', &original_lines, old_end, old_end + trail);
    proof {
        let a = texts(original_lines@);
        let shown = marked(' ', a.subrange(start as int, prefix as int));
        assert(Seq::<Seq<char>>::empty() + shown =~= shown);
    }
    let hunk = StructuredPatchHunk {
        old_start: start + 1,
        old_lines: old_end + trail - start,
        new_start: start + 1,
        new_lines: new_end + trail - start,
        lines,
    };
    vec![hunk]
}

/// `a` and `b` have the same first `p` items, and differ or end behind them.
pub open spec fn differ_first_at(a: Seq<Seq<char>>, b: Seq<Seq<char>>, p: int) -> bool {
    &&& 0 <= p <= a.len()
    &&& p <= b.len()
    &&& forall|i: int| 0 <= i < p ==> #[trigger] a[i] == b[i]
    &&& p < a.len() && p < b.len() ==> a[p] != b[p]
}

/// `a` and `b` have the same last `s` items, not counting their first `p`, and differ or end
/// before them.
pub open spec fn differ_last_before(a: Seq<Seq<char>>, b: Seq<Seq<char>>, p: int, s: int) -> bool {
    &&& 0 <= s <= a.len() - p
    &&& s <= b.len() - p
    &&& forall|j: int| 0 <= j < s ==> a[a.len() - 1 - j] == #[trigger] b[b.len() - 1 - j]
    &&& s < a.len() - p && s < b.len() - p ==> a[a.len() - 1 - s] != b[b.len() - 1 - s]
}

/// What line `i` of a hunk says that shows `lead` lines before the change and `trail` lines
/// behind it, where the first `p` and the last `s` lines are not part of the change.
pub open spec fn is_hunk_line(
    line: Seq<char>,
    a: Seq<Seq<char>>,
    b: Seq<Seq<char>>,
    p: int,
    s: int,
    lead: int,
    i: int,
) -> bool {
    let gone = a.len() - p - s;
    let new = b.len() - p - s;
    if i < lead {
        line == seq![' '] + a[p - lead + i]
    } else if i < lead + gone {
        line == seq!['-'] + a[p + (i - lead)]
    } else if i < lead + gone + new {
        line == seq!['+'] + b[p + (i - lead - gone)]
    } else {
        line == seq![' '] + a[a.len() - s + (i - lead - gone - new)]
    }
}

proof fn lemma_prefix_is_longest(a: Seq<Seq<char>>, b: Seq<Seq<char>>, i: int)
    requires
        0 <= i <= a.len(),
        i <= b.len(),
    ensures
        ({
            let p = common_prefix(a, b, i);
            p < a.len() && p < b.len() ==> a[p] != b[p]
        }),
    decreases a.len() - i,
{
    if i < a.len() && i < b.len() && a[i] == b[i] {
        lemma_prefix_is_longest(a, b, i + 1);
    }
}

proof fn lemma_suffix_is_longest(a: Seq<Seq<char>>, b: Seq<Seq<char>>, p: int, k: int)
    requires
        0 <= p,
        0 <= k <= a.len() - p,
        k <= b.len() - p,
    ensures
        ({
            let s = common_suffix(a, b, p, k);
            s < a.len() - p && s < b.len() - p ==> a[a.len() - 1 - s] != b[b.len() - 1 - s]
        }),
    decreases a.len() - p - k,
{
    if k < a.len() - p && k < b.len() - p && a[a.len() - 1 - k] == b[b.len() - 1 - k] {
        lemma_suffix_is_longest(a, b, p, k + 1);
    }
}

/// The hunk shows the change between the first `p` and the last `s` lines, and no more than
/// three lines on each side of it, or as many as there are.
pub open spec fn shows_change(
    h: Hunk,
    a: Seq<Seq<char>>,
    b: Seq<Seq<char>>,
    p: int,
    s: int,
) -> bool {
    let lead = if p < 3 {
        p
    } else {
        3
    };
    let trail = if s < 3 {
        s
    } else {
        3
    };
    &&& h.old_start == p - lead + 1
    &&& h.new_start == p - lead + 1
    &&& h.old_lines == lead + (a.len() - p - s) + trail
    &&& h.new_lines == lead + (b.len() - p - s) + trail
    &&& h.lines.len() == lead + (a.len() - p - s) + (b.len() - p - s) + trail
    &&& forall|i: int|
        0 <= i < h.lines.len() ==> is_hunk_line(#[trigger] h.lines[i], a, b, p, s, lead, i)
}

/// The lines of four lists one behind the other.
proof fn lemma_four_lists<T>(w: Seq<T>, x: Seq<T>, y: Seq<T>, z: Seq<T>, i: int)
    requires
        0 <= i < w.len() + x.len() + y.len() + z.len(),
    ensures
        (w + x + y + z).len() == w.len() + x.len() + y.len() + z.len(),
        (w + x + y + z)[i] == if i < w.len() {
            w[i]
        } else if i < w.len() + x.len() {
            x[i - w.len()]
        } else if i < w.len() + x.len() + y.len() {
            y[i - w.len() - x.len()]
        } else {
            z[i - w.len() - x.len() - y.len()]
        },
{
}

/// A hunk shows the change and no more than three lines on each side of it, or as many as
/// there are: the lines that are gone, then those that are new, from the first line in which
/// the texts differ to the last. It says where the change stands, counted from one, and how
/// many lines of each text it shows.
pub proof fn law_hunk_shows_change_and_three_lines(a: Seq<Seq<char>>, b: Seq<Seq<char>>)
    ensures
        exists|p: int, s: int|
            {
                &&& #[trigger] shows_change(hunk_between(a, b), a, b, p, s)
                &&& differ_first_at(a, b, p)
                &&& differ_last_before(a, b, p, s)
            },
{
    let p = common_prefix(a, b, 0);
    lemma_common_prefix(a, b, 0);
    lemma_prefix_is_longest(a, b, 0);
    let s = common_suffix(a, b, p, 0);
    lemma_common_suffix(a, b, p, 0);
    lemma_suffix_is_longest(a, b, p, 0);
    assert(differ_first_at(a, b, p));
    assert(differ_last_before(a, b, p, s));
    lemma_hunk_shows_change(a, b);
    assert(shows_change(hunk_between(a, b), a, b, p, s));
}

proof fn lemma_hunk_shows_change(a: Seq<Seq<char>>, b: Seq<Seq<char>>)
    ensures
        ({
            let p = common_prefix(a, b, 0);
            shows_change(hunk_between(a, b), a, b, p, common_suffix(a, b, p, 0))
        }),
{
    let h = hunk_between(a, b);
    let p = common_prefix(a, b, 0);
    lemma_common_prefix(a, b, 0);
    let s = common_suffix(a, b, p, 0);
    lemma_common_suffix(a, b, p, 0);
    let lead = if p < 3 {
        p
    } else {
        3
    };
    let trail = if s < 3 {
        s
    } else {
        3
    };
    let w = marked(' ', a.subrange(p - lead, p));
    let x = marked('-', a.subrange(p, a.len() - s));
    let y = marked('+', b.subrange(p, b.len() - s));
    let z = marked(' ', a.subrange(a.len() - s, a.len() - s + trail));
    assert(h.lines == w + x + y + z);
    assert(h.lines.len() == w.len() + x.len() + y.len() + z.len());
    assert forall|i: int| 0 <= i < h.lines.len() implies is_hunk_line(
        #[trigger] h.lines[i],
        a,
        b,
        p,
        s,
        lead,
        i,
    ) by {
        lemma_four_lists(w, x, y, z, i);
    }
}

/// A patch is empty where nothing changes, and one hunk where something does. The hunk says
/// what its fields say.
pub proof fn law_patch_is_one_hunk(
    patch: Seq<StructuredPatchHunk>,
    original: Seq<char>,
    updated: Seq<char>,
)
    requires
        is_patch(patch, original, updated),
    ensures
        original == updated <==> patch.len() == 0,
        original != updated ==> patch.len() == 1 && ({
            let h = hunk_between(lines(original), lines(updated));
            &&& patch[0].old_start == h.old_start
            &&& patch[0].old_lines == h.old_lines
            &&& patch[0].new_start == h.new_start
            &&& patch[0].new_lines == h.new_lines
            &&& texts(patch[0].lines@) == h.lines
        }),
{
}

} // verus!
