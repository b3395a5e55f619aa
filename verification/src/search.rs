//! Searching a text for a pattern, and putting a replacement in place of ranges
//! of a text.

use vstd::prelude::*;

verus! {

/// The pattern `p` stands in `s` at position `i`.
pub open spec fn occurs_at(s: Seq<char>, p: Seq<char>, i: int) -> bool {
    0 <= i && i + p.len() <= s.len() && s.subrange(i, i + p.len()) == p
}

/// The pattern `p` stands somewhere in `s`.
pub open spec fn occurs(s: Seq<char>, p: Seq<char>) -> bool {
    exists|i: int| occurs_at(s, p, i)
}

/// The first position, not before `from`, at which `p` stands in `s`.
pub open spec fn first_from(s: Seq<char>, p: Seq<char>, from: int) -> Option<int>
    decreases s.len() + 1 - from,
{
    if from + p.len() > s.len() {
        None
    } else if occurs_at(s, p, from) {
        Some(from)
    } else {
        first_from(s, p, from + 1)
    }
}

/// What `first_from` returns is the first occurrence.
pub proof fn lemma_first_from(s: Seq<char>, p: Seq<char>, from: int)
    requires
        0 <= from,
    ensures
        match first_from(s, p, from) {
            Some(i) => {
                &&& from <= i
                &&& occurs_at(s, p, i)
                &&& forall|j: int| from <= j < i ==> !occurs_at(s, p, j)
            },
            None => forall|j: int| from <= j ==> !occurs_at(s, p, j),
        },
    decreases s.len() + 1 - from,
{
    if from + p.len() <= s.len() && !occurs_at(s, p, from) {
        lemma_first_from(s, p, from + 1);
    }
}

/// The positions of the occurrences of `p` in `s`, from `from` on, taken from left
/// to right so that none overlaps the one before it.
pub open spec fn occurrences(s: Seq<char>, p: Seq<char>, from: int) -> Seq<int>
    decreases s.len() - from,
    when 0 <= from && p.len() > 0
{
    proof {
        lemma_first_from(s, p, from);
    }
    match first_from(s, p, from) {
        None => seq![],
        Some(i) => seq![i] + occurrences(s, p, i + p.len()),
    }
}

/// `occurrences` lists positions at which the pattern stands, apart from each
/// other, and is empty only where the pattern stands nowhere.
pub proof fn lemma_occurrences(s: Seq<char>, p: Seq<char>, from: int)
    requires
        0 <= from,
        p.len() > 0,
    ensures
        forall|k: int|
            0 <= k < occurrences(s, p, from).len() ==> from <= #[trigger] occurrences(
                s,
                p,
                from,
            )[k] && occurs_at(s, p, occurrences(s, p, from)[k]),
        forall|k: int, l: int|
            0 <= k < l < occurrences(s, p, from).len() ==> #[trigger] occurrences(s, p, from)[k]
                + p.len() <= #[trigger] occurrences(s, p, from)[l],
        occurrences(s, p, from).len() == 0 <==> first_from(s, p, from) is None,
    decreases s.len() - from,
{
    lemma_first_from(s, p, from);
    if let Some(i) = first_from(s, p, from) {
        lemma_occurrences(s, p, i + p.len());
    }
}

/// A text has an occurrence of `p` exactly where `first_from` finds one.
pub proof fn lemma_occurs(s: Seq<char>, p: Seq<char>)
    ensures
        occurs(s, p) <==> first_from(s, p, 0) is Some,
{
    lemma_first_from(s, p, 0);
}

/// Pairs of offsets as ranges of numbers.
pub open spec fn int_ranges(ranges: Seq<(usize, usize)>) -> Seq<(int, int)> {
    ranges.map_values(|r: (usize, usize)| (r.0 as int, r.1 as int))
}

/// `s` from position `from` on, with `rep` in place of each of the ranges.
pub open spec fn splice<T>(s: Seq<T>, ranges: Seq<(int, int)>, rep: Seq<T>, from: int) -> Seq<T>
    decreases ranges.len(),
{
    if ranges.len() == 0 {
        s.skip(from)
    } else {
        s.subrange(from, ranges[0].0) + rep + splice(s, ranges.drop_first(), rep, ranges[0].1)
    }
}

/// The ranges that patterns of length `n` take at the positions `at`.
pub open spec fn ranges_at(at: Seq<int>, n: int) -> Seq<(int, int)> {
    at.map_values(|i: int| (i, i + n))
}

/// `s` with `rep` in place of every occurrence of `p`.
pub open spec fn replaced_all(s: Seq<char>, p: Seq<char>, rep: Seq<char>) -> Seq<char> {
    splice(s, ranges_at(occurrences(s, p, 0), p.len() as int), rep, 0)
}

/// `s` with `rep` in place of the first occurrence of `p`.
pub open spec fn replaced_first(s: Seq<char>, p: Seq<char>, rep: Seq<char>) -> Seq<char> {
    match first_from(s, p, 0) {
        None => s,
        Some(i) => s.take(i) + rep + s.skip(i + p.len()),
    }
}

/// Whether `p` stands in `s` at `i`.
pub fn stands_at(s: &Vec<char>, p: &Vec<char>, i: usize) -> (r: bool)
    ensures
        r == occurs_at(s@, p@, i as int),
{
    if p.len() > s.len() || i > s.len() - p.len() {
        return false;
    }
    let mut k: usize = 0;
    while k < p.len()
        invariant
            k <= p@.len(),
            i + p@.len() <= s@.len() <= usize::MAX,
            forall|j: int| 0 <= j < k ==> s@[i + j] == p@[j],
        decreases p@.len() - k,
    {
        if s[i + k] != p[k] {
            assert(s@.subrange(i as int, i + p@.len())[k as int] != p@[k as int]);
            return false;
        }
        k += 1;
    }
    assert(s@.subrange(i as int, i + p@.len()) =~= p@);
    true
}

/// The first position, not before `from`, at which `p` stands in `s`.
pub fn find_from(s: &Vec<char>, p: &Vec<char>, from: usize) -> (r: Option<usize>)
    ensures
        match r {
            Some(i) => first_from(s@, p@, from as int) == Some(i as int),
            None => first_from(s@, p@, from as int) is None,
        },
{
    if p.len() > s.len() {
        return None;
    }
    let last: usize = s.len() - p.len();
    let mut i: usize = from;
    while i <= last
        invariant
            from <= i,
            last + p@.len() == s@.len(),
            first_from(s@, p@, from as int) == first_from(s@, p@, i as int),
        decreases last + 1 - i,
    {
        if stands_at(s, p, i) {
            return Some(i);
        }
        if i == last {
            assert(first_from(s@, p@, i + 1) is None);
            return None;
        }
        i += 1;
    }
    None
}

/// The positions of the occurrences of `p` in `s`, left to right, none overlapping
/// the one before it.
pub fn find_all(s: &Vec<char>, p: &Vec<char>) -> (r: Vec<usize>)
    requires
        p@.len() > 0,
    ensures
        r@.map_values(|i: usize| i as int) == occurrences(s@, p@, 0),
{
    let mut at: Vec<usize> = Vec::new();
    let mut from: usize = 0;
    loop
        invariant
            p@.len() > 0,
            from <= s@.len(),
            at@.map_values(|i: usize| i as int) + occurrences(s@, p@, from as int)
                == occurrences(s@, p@, 0),
        decreases s@.len() - from,
    {
        let ghost before = at@;
        proof {
            lemma_first_from(s@, p@, from as int);
        }
        match find_from(s, p, from) {
            None => {
                assert(at@.map_values(|i: usize| i as int) =~= occurrences(s@, p@, 0));
                return at;
            },
            Some(i) => {
                at.push(i);
                assert(i + p@.len() <= s.len());
                from = i + p.len();
                assert(at@.map_values(|i: usize| i as int) + occurrences(s@, p@, from as int)
                    =~= before.map_values(|i: usize| i as int) + (seq![i as int]
                    + occurrences(s@, p@, from as int)));
            },
        }
    }
}

/// A pattern stands at a position just where its characters are those of the text from
/// there on.
pub proof fn law_pattern_stands_where_characters_agree(s: Seq<char>, p: Seq<char>, i: int)
    ensures
        occurs_at(s, p, i) <==> 0 <= i && i + p.len() <= s.len() && forall|j: int|
            0 <= j < p.len() ==> s[i + j] == #[trigger] p[j],
        occurs(s, p) <==> exists|k: int| #[trigger] stands(s, p, k),
{
    lemma_stands(s, p, i);
    if occurs(s, p) {
        let k = choose|k: int| occurs_at(s, p, k);
        lemma_stands(s, p, k);
    }
    if exists|k: int| #[trigger] stands(s, p, k) {
        let k = choose|k: int| #[trigger] stands(s, p, k);
        lemma_stands(s, p, k);
    }
}

/// The characters of `p` are those of `s` from `i` on.
pub open spec fn stands(s: Seq<char>, p: Seq<char>, i: int) -> bool {
    &&& 0 <= i
    &&& i + p.len() <= s.len()
    &&& forall|j: int| 0 <= j < p.len() ==> s[i + j] == #[trigger] p[j]
}

pub proof fn lemma_stands(s: Seq<char>, p: Seq<char>, i: int)
    ensures
        occurs_at(s, p, i) <==> stands(s, p, i),
{
    if occurs_at(s, p, i) {
        assert forall|j: int| 0 <= j < p.len() implies s[i + j] == #[trigger] p[j] by {
            assert(s.subrange(i, i + p.len())[j] == p[j]);
        }
    }
    if stands(s, p, i) {
        assert(s.subrange(i, i + p.len()) =~= p);
    }
}

/// The positions `at` are all that a search for `p` from the left comes by: `p` stands at
/// each of them, and stands nowhere from the end of one up to the next, nor before the
/// first, nor from the end of the last on.
pub open spec fn are_all_places(s: Seq<char>, p: Seq<char>, at: Seq<int>) -> bool {
    &&& forall|k: int| 0 <= k < at.len() ==> stands(s, p, #[trigger] at[k])
    &&& forall|k: int, l: int| 0 <= k < l < at.len() ==> #[trigger] at[k] + p.len() <= #[trigger] at[l]
    &&& at.len() == 0 ==> forall|i: int| !#[trigger] stands(s, p, i)
    &&& at.len() > 0 ==> forall|i: int| i < at[0] ==> !#[trigger] stands(s, p, i)
    &&& at.len() > 0 ==> forall|i: int| at.last() + p.len() <= i ==> !#[trigger] stands(s, p, i)
    &&& forall|k: int, i: int|
        0 < k < at.len() && at[k - 1] + p.len() <= i < #[trigger] at[k] ==> !#[trigger] stands(
            s,
            p,
            i,
        )
}

proof fn lemma_places_from(s: Seq<char>, p: Seq<char>, from: int)
    requires
        0 <= from,
        p.len() > 0,
    ensures
        ({
            let at = occurrences(s, p, from);
            &&& forall|k: int| 0 <= k < at.len() ==> from <= #[trigger] at[k] && stands(s, p, at[k])
            &&& forall|k: int, l: int|
                0 <= k < l < at.len() ==> #[trigger] at[k] + p.len() <= #[trigger] at[l]
            &&& at.len() == 0 ==> forall|i: int| from <= i ==> !#[trigger] stands(s, p, i)
            &&& at.len() > 0 ==> forall|i: int| from <= i < at[0] ==> !#[trigger] stands(s, p, i)
            &&& at.len() > 0 ==> forall|i: int|
                at.last() + p.len() <= i ==> !#[trigger] stands(s, p, i)
            &&& forall|k: int, i: int|
                0 < k < at.len() && at[k - 1] + p.len() <= i < #[trigger] at[k]
                    ==> !#[trigger] stands(s, p, i)
        }),
    decreases s.len() - from,
{
    lemma_first_from(s, p, from);
    let at = occurrences(s, p, from);
    match first_from(s, p, from) {
        None => {
            assert forall|i: int| from <= i implies !#[trigger] stands(s, p, i) by {
                lemma_stands(s, p, i);
            }
        },
        Some(f) => {
            lemma_stands(s, p, f);
            lemma_places_from(s, p, f + p.len());
            let rest = occurrences(s, p, f + p.len());
            assert(at =~= seq![f] + rest);
            assert forall|i: int| from <= i < at[0] implies !#[trigger] stands(s, p, i) by {
                lemma_stands(s, p, i);
            }
            assert forall|k: int| 0 <= k < at.len() implies from <= #[trigger] at[k] && stands(
                s,
                p,
                at[k],
            ) by {
                if k > 0 {
                    assert(at[k] == rest[k - 1]);
                }
            }
            assert forall|k: int, l: int| 0 <= k < l < at.len() implies #[trigger] at[k] + p.len()
                <= #[trigger] at[l] by {
                assert(at[l] == rest[l - 1]);
                if k > 0 {
                    assert(at[k] == rest[k - 1]);
                }
            }
            assert forall|k: int, i: int|
                0 < k < at.len() && at[k - 1] + p.len() <= i < #[trigger] at[k] implies !#[trigger] stands(
                s,
                p,
                i,
            ) by {
                assert(at[k] == rest[k - 1]);
                if k > 1 {
                    assert(at[k - 1] == rest[k - 2]);
                }
            }
            assert forall|i: int| at.last() + p.len() <= i implies !#[trigger] stands(s, p, i) by {
                if rest.len() > 0 {
                    assert(at.last() == rest.last());
                }
            }
        },
    }
}

/// The occurrences of a pattern are all that a search from the left comes by.
pub proof fn law_occurrences_are_all_places(s: Seq<char>, p: Seq<char>)
    requires
        p.len() > 0,
    ensures
        are_all_places(s, p, occurrences(s, p, 0)),
        match first_from(s, p, 0) {
            Some(f) => stands(s, p, f) && forall|i: int| i < f ==> !#[trigger] stands(s, p, i),
            None => forall|i: int| !#[trigger] stands(s, p, i),
        },
{
    lemma_places_from(s, p, 0);
    lemma_first_from(s, p, 0);
    if let Some(f) = first_from(s, p, 0) {
        lemma_stands(s, p, f);
        assert forall|i: int| i < f implies !#[trigger] stands(s, p, i) by {
            lemma_stands(s, p, i);
        }
    } else {
        assert forall|i: int| !#[trigger] stands(s, p, i) by {
            lemma_stands(s, p, i);
        }
    }
}

/// Without ranges, putting a replacement in their place changes nothing; and one range more,
/// behind all of the others, leaves what is before it to the others, and what is behind it
/// as it is.
pub proof fn law_splice_takes_last_range<T>(
    s: Seq<T>,
    ranges: Seq<(int, int)>,
    a: int,
    b: int,
    rep: Seq<T>,
)
    requires
        0 <= a <= b <= s.len(),
        forall|k: int|
            0 <= k < ranges.len() ==> 0 <= (#[trigger] ranges[k]).0 <= ranges[k].1 <= a,
        forall|k: int, l: int|
            0 <= k < l < ranges.len() ==> (#[trigger] ranges[k]).1 <= (#[trigger] ranges[l]).0,
    ensures
        splice(s, Seq::<(int, int)>::empty(), rep, 0) == s,
        splice(s, ranges.push((a, b)), rep, 0) == splice(s.take(a), ranges, rep, 0) + rep + s.skip(
            b,
        ),
{
    assert(splice(s, Seq::<(int, int)>::empty(), rep, 0) =~= s);
    lemma_splice_last(s, ranges, a, b, rep, 0);
}

proof fn lemma_splice_last<T>(
    s: Seq<T>,
    ranges: Seq<(int, int)>,
    a: int,
    b: int,
    rep: Seq<T>,
    from: int,
)
    requires
        0 <= from <= a <= b <= s.len(),
        forall|k: int|
            0 <= k < ranges.len() ==> from <= (#[trigger] ranges[k]).0 <= ranges[k].1 <= a,
        forall|k: int, l: int|
            0 <= k < l < ranges.len() ==> (#[trigger] ranges[k]).1 <= (#[trigger] ranges[l]).0,
    ensures
        splice(s, ranges.push((a, b)), rep, from) == splice(s.take(a), ranges, rep, from) + rep
            + s.skip(b),
    decreases ranges.len(),
{
    let all = ranges.push((a, b));
    if ranges.len() == 0 {
        assert(all.drop_first() =~= Seq::<(int, int)>::empty());
        assert(splice(s, all.drop_first(), rep, b) == s.skip(b));
        assert(s.subrange(from, a) =~= s.take(a).skip(from));
        assert(splice(s, all, rep, from) =~= splice(s.take(a), ranges, rep, from) + rep + s.skip(b));
    } else {
        let rest = ranges.drop_first();
        assert(all.drop_first() =~= rest.push((a, b)));
        assert(all[0] == ranges[0]);
        assert forall|k: int| 0 <= k < rest.len() implies ranges[0].1 <= (#[trigger] rest[k]).0
            <= rest[k].1 <= a by {
            assert(rest[k] == ranges[k + 1]);
        }
        lemma_splice_last(s, rest, a, b, rep, ranges[0].1);
        assert(s.subrange(from, ranges[0].0) =~= s.take(a).subrange(from, ranges[0].0));
        assert(splice(s, all, rep, from) =~= splice(s.take(a), ranges, rep, from) + rep + s.skip(b));
    }
}

/// With ranges, what is before the first of them stays, the replacement comes in its place,
/// and it goes on from its end with the others.
pub proof fn law_splice_takes_first_range<T>(
    s: Seq<T>,
    a: int,
    b: int,
    rest: Seq<(int, int)>,
    rep: Seq<T>,
    from: int,
)
    ensures
        splice(s, seq![(a, b)] + rest, rep, from) == s.subrange(from, a) + rep + splice(
            s,
            rest,
            rep,
            b,
        ),
        splice(s, Seq::<(int, int)>::empty(), rep, from) == s.skip(from),
{
    let all = seq![(a, b)] + rest;
    assert(all.drop_first() =~= rest);
    assert(all[0] == (a, b));
}

} // verus!
