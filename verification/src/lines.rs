//! The lines of a text.

use vstd::prelude::*;
use vstd::string::*;

use crate::text::{chars_of, string_of};

verus! {

/// The position of the first newline of `s` that is not before `from`, or the end
/// of `s` where there is none.
pub open spec fn line_end(s: Seq<char>, from: int) -> int
    decreases s.len() - from,
{
    if from >= s.len() {
        s.len() as int
    } else if s[from] == '\n' {
        from
    } else {
        line_end(s, from + 1)
    }
}

/// `s` without a carriage return at its end.
pub open spec fn without_return(s: Seq<char>) -> Seq<char> {
    if s.len() > 0 && s.last() == '\r' {
        s.drop_last()
    } else {
        s
    }
}

/// The lines of `s`. A line ends in `\n` or `\r\n`, which are not part of it; the
/// last line may lack its ending.
pub open spec fn lines(s: Seq<char>) -> Seq<Seq<char>>
    decreases s.len(),
{
    if s.len() == 0 {
        seq![]
    } else {
        proof {
            lemma_line_end(s, 0);
        }
        let e = line_end(s, 0);
        if e == s.len() {
            seq![s]
        } else {
            seq![without_return(s.take(e))] + lines(s.skip(e + 1))
        }
    }
}

/// What `line_end` returns is the first newline.
pub proof fn lemma_line_end(s: Seq<char>, from: int)
    requires
        0 <= from <= s.len(),
    ensures
        from <= line_end(s, from) <= s.len(),
        line_end(s, from) < s.len() ==> s[line_end(s, from)] == '\n',
        forall|i: int| from <= i < line_end(s, from) ==> #[trigger] s[i] != '\n',
    decreases s.len() - from,
{
    if from < s.len() && s[from] != '\n' {
        lemma_line_end(s, from + 1);
    }
}

/// `line_end` is the one position with its properties.
pub proof fn lemma_line_end_is(s: Seq<char>, from: int, e: int)
    requires
        0 <= from <= e <= s.len(),
        e < s.len() ==> s[e] == '\n',
        forall|i: int| from <= i < e ==> #[trigger] s[i] != '\n',
    ensures
        line_end(s, from) == e,
{
    lemma_line_end(s, from);
    let f = line_end(s, from);
    if f < e {
        assert(s[f] != '\n');
    }
    if e < f {
        assert(s[e] != '\n');
    }
}

/// The texts of a list of strings.
pub open spec fn texts(v: Seq<String>) -> Seq<Seq<char>> {
    v.map_values(|s: String| s@)
}

/// The texts of `parts` with `sep` between any two neighbours.
pub open spec fn joined(parts: Seq<Seq<char>>, sep: Seq<char>) -> Seq<char>
    decreases parts.len(),
{
    if parts.len() == 0 {
        seq![]
    } else if parts.len() == 1 {
        parts[0]
    } else {
        joined(parts.drop_last(), sep) + sep + parts.last()
    }
}

/// The lines of `text`.
pub fn split_lines(text: &str) -> (r: Vec<String>)
    ensures
        texts(r@) == lines(text@),
{
    let chars = chars_of(text);
    let mut out: Vec<String> = Vec::new();
    let mut start: usize = 0;
    let mut i: usize = 0;
    assert(chars@.skip(0) =~= chars@);
    assert(texts(out@) + lines(chars@) =~= lines(chars@));
    while i < chars.len()
        invariant
            start <= i <= chars@.len(),
            chars@ == text@,
            forall|j: int| start <= j < i ==> #[trigger] chars@[j] != '\n',
            texts(out@) + lines(chars@.skip(start as int)) == lines(text@),
        decreases chars@.len() - i,
    {
        if chars[i] == '\n' {
            let end: usize = if i > start && chars[i - 1] == '\r' {
                i - 1
            } else {
                i
            };
            let line = string_of(&chars, start, end);
            let ghost before = out@;
            out.push(line);
            proof {
                let rest = chars@.skip(start as int);
                lemma_line_end_is(rest, 0, i - start);
                assert(rest.take(i - start) =~= chars@.subrange(start as int, i as int));
                assert(line@ =~= without_return(rest.take(i - start)));
                assert(rest.skip(i - start + 1) =~= chars@.skip(i + 1));
                assert(texts(out@) =~= texts(before).push(line@));
                assert(texts(out@) + lines(chars@.skip(i + 1)) =~= texts(before) + lines(rest));
            }
            start = i + 1;
        }
        i += 1;
    }
    if start < chars.len() {
        let line = string_of(&chars, start, chars.len());
        let ghost before = out@;
        out.push(line);
        proof {
            let rest = chars@.skip(start as int);
            lemma_line_end_is(rest, 0, rest.len() as int);
            assert(line@ =~= rest);
            assert(texts(out@) =~= texts(before) + lines(rest));
        }
    } else {
        assert(chars@.skip(start as int) =~= Seq::<char>::empty());
        assert(texts(out@) =~= lines(text@));
    }
    out
}

/// The texts `parts[from..to]` with `sep` between any two neighbours.
pub fn join_range(parts: &Vec<String>, from: usize, to: usize, sep: &str) -> (r: String)
    requires
        from <= to <= parts@.len(),
    ensures
        r@ == joined(texts(parts@).subrange(from as int, to as int), sep@),
{
    let mut out = String::new();
    let mut i: usize = from;
    assert(texts(parts@).subrange(from as int, from as int) =~= Seq::<Seq<char>>::empty());
    while i < to
        invariant
            from <= i <= to <= parts@.len(),
            out@ == joined(texts(parts@).subrange(from as int, i as int), sep@),
        decreases to - i,
    {
        let ghost done = texts(parts@).subrange(from as int, i + 1);
        let ghost before = out@;
        assert(done.drop_last() =~= texts(parts@).subrange(from as int, i as int));
        assert(done.last() == parts@[i as int]@);
        if i > from {
            out.append(sep);
        }
        out.append(parts[i].as_str());
        i += 1;
        proof {
            if i - from == 1 {
                assert(before =~= Seq::<char>::empty());
                assert(out@ =~= done[0]);
            }
        }
    }
    out
}

/// A line goes up to a newline, which is not part of it, nor is a carriage return right
/// before it. What is behind the last newline is a line if it is not empty.
pub proof fn law_lines_end_at_newlines(a: Seq<char>, b: Seq<char>)
    requires
        forall|i: int| 0 <= i < a.len() ==> a[i] != '\n',
    ensures
        lines(Seq::<char>::empty()) == Seq::<Seq<char>>::empty(),
        a.len() > 0 ==> lines(a) == seq![a],
        lines(a + seq!['\n'] + b) == seq![
            if a.len() > 0 && a[a.len() - 1] == '\r' {
                a.take(a.len() - 1)
            } else {
                a
            },
        ] + lines(b),
{
    if a.len() > 0 {
        lemma_line_end_is(a, 0, a.len() as int);
    }
    let s = a + seq!['\n'] + b;
    let e = a.len() as int;
    assert forall|i: int| 0 <= i < e implies #[trigger] s[i] != '\n' by {
        assert(s[i] == a[i]);
    }
    assert(s[e] == '\n');
    lemma_line_end_is(s, 0, e);
    assert(s.take(e) =~= a);
    assert(s.skip(e + 1) =~= b);
    if a.len() > 0 {
        assert(a.drop_last() =~= a.take(a.len() - 1));
    }
}

/// Joined texts stand one behind the other, with the separator between any two of them, and
/// nowhere else.
pub proof fn law_joined_texts_stand_in_order(
    one: Seq<char>,
    first: Seq<Seq<char>>,
    rest: Seq<Seq<char>>,
    sep: Seq<char>,
)
    ensures
        joined(Seq::<Seq<char>>::empty(), sep) == Seq::<char>::empty(),
        joined(seq![one], sep) == one,
        first.len() > 0 && rest.len() > 0 ==> joined(first + rest, sep) == joined(first, sep) + sep
            + joined(rest, sep),
    decreases rest.len(),
{
    if first.len() > 0 && rest.len() > 0 {
        let all = first + rest;
        assert(all.drop_last() =~= first + rest.drop_last());
        assert(all.last() == rest.last());
        if rest.len() == 1 {
            assert(first + rest.drop_last() =~= first);
            assert(joined(all, sep) =~= joined(first, sep) + sep + joined(rest, sep));
        } else {
            law_joined_texts_stand_in_order(one, first, rest.drop_last(), sep);
            assert(joined(all, sep) =~= joined(first, sep) + sep + joined(rest, sep));
        }
    }
}

/// The texts of a list of strings are theirs, in their order.
pub proof fn law_texts_are_those_of_strings(v: Seq<String>)
    ensures
        texts(v).len() == v.len(),
        forall|i: int| 0 <= i < v.len() ==> (#[trigger] texts(v)[i]) == v[i]@,
{
}

} // verus!
