//! Host paths as bytes: their components, names and extensions, and whether one
//! lies below another. The rules are those of POSIX paths.

use vstd::prelude::*;
use vstd::string::*;

use crate::search::int_ranges;

verus! {

/// The byte that separates the components of a path.
pub const SLASH: u8 = 47;

/// The byte that starts an extension.
pub const DOT: u8 = 46;

/// A kind of system that has rules of its own for how paths are written.
#[derive(Clone, Copy, Debug, PartialEq, Eq, Structural)]
pub enum Platform {
    Posix,
    Windows,
}

/// The kind of system whose paths are split and joined here, and so the kind that the host
/// runs on.
pub const HOST: Platform = Platform::Posix;

/// The path does not depend on a current directory.
pub open spec fn is_absolute(p: Seq<u8>) -> bool {
    p.len() > 0 && p[0] == SLASH
}

/// The path starts with the component `.`.
pub open spec fn starts_at_current(p: Seq<u8>) -> bool {
    p.len() > 0 && p[0] == DOT && (p.len() == 1 || p[1] == SLASH)
}

/// Where the part of a path starts that a leading `/` or `.` is not part of.
pub open spec fn body_start(p: Seq<u8>) -> int {
    if is_absolute(p) || starts_at_current(p) {
        1
    } else {
        0
    }
}

/// The first separator of `p` that is not before `from`, or the end of `p` where
/// there is none.
pub open spec fn piece_end(p: Seq<u8>, from: int) -> int
    decreases p.len() - from,
{
    if from >= p.len() {
        p.len() as int
    } else if p[from] == SLASH {
        from
    } else {
        piece_end(p, from + 1)
    }
}

/// What `piece_end` returns is the first separator.
pub proof fn lemma_piece_end(p: Seq<u8>, from: int)
    requires
        0 <= from <= p.len(),
    ensures
        from <= piece_end(p, from) <= p.len(),
        piece_end(p, from) < p.len() ==> p[piece_end(p, from)] == SLASH,
        forall|i: int| from <= i < piece_end(p, from) ==> #[trigger] p[i] != SLASH,
    decreases p.len() - from,
{
    if from < p.len() && p[from] != SLASH {
        lemma_piece_end(p, from + 1);
    }
}

/// The piece between two separators is not a component: it is empty or `.`.
pub open spec fn is_void(piece: Seq<u8>) -> bool {
    piece.len() == 0 || piece == seq![DOT]
}

/// The ranges of the components of `p` from `from` on.
pub open spec fn body_ranges(p: Seq<u8>, from: int) -> Seq<(int, int)>
    decreases p.len() + 1 - from,
    when 0 <= from
{
    if from >= p.len() {
        seq![]
    } else {
        proof {
            lemma_piece_end(p, from);
        }
        let e = piece_end(p, from);
        (if is_void(p.subrange(from, e)) {
            seq![]
        } else {
            seq![(from, e)]
        }) + body_ranges(p, e + 1)
    }
}

/// The parts of `p` that the ranges name.
pub open spec fn parts(p: Seq<u8>, ranges: Seq<(int, int)>) -> Seq<Seq<u8>> {
    ranges.map_values(|r: (int, int)| p.subrange(r.0, r.1))
}

/// The components of a path: a leading `/` or `.`, then what stands between
/// separators. Repeated separators and a `.` elsewhere count for nothing.
pub open spec fn components(p: Seq<u8>) -> Seq<Seq<u8>> {
    (if body_start(p) == 1 {
        seq![p.take(1)]
    } else {
        seq![]
    }) + parts(p, body_ranges(p, body_start(p)))
}

/// `path` is `base` or lies below it, by whole components.
pub open spec fn starts_with(path: Seq<u8>, base: Seq<u8>) -> bool {
    components(base).is_prefix_of(components(path))
}

/// The last component of a path, where it is a name.
pub open spec fn file_name(p: Seq<u8>) -> Option<Seq<u8>> {
    let ranges = body_ranges(p, body_start(p));
    if ranges.len() == 0 {
        None
    } else {
        let name = p.subrange(ranges.last().0, ranges.last().1);
        if name == seq![DOT, DOT] {
            None
        } else {
            Some(name)
        }
    }
}

/// A path without its last component, where it has one other than `/`.
pub open spec fn parent(p: Seq<u8>) -> Option<Seq<u8>> {
    let ranges = body_ranges(p, body_start(p));
    if ranges.len() >= 2 {
        Some(p.take(ranges[ranges.len() - 2].1))
    } else if ranges.len() == 1 {
        Some(p.take(body_start(p)))
    } else if starts_at_current(p) {
        Some(seq![])
    } else {
        None
    }
}

/// The last position of a dot in `name` before `i`, or -1 where there is none.
pub open spec fn last_dot(name: Seq<u8>, i: int) -> int
    decreases i,
{
    if i <= 0 {
        -1
    } else if name[i - 1] == DOT {
        i - 1
    } else {
        last_dot(name, i - 1)
    }
}

/// What follows the last dot of the name of a file, where that dot does not start
/// the name.
pub open spec fn extension(p: Seq<u8>) -> Option<Seq<u8>> {
    match file_name(p) {
        None => None,
        Some(name) => {
            let d = last_dot(name, name.len() as int);
            if d <= 0 {
                None
            } else {
                Some(name.skip(d + 1))
            }
        },
    }
}

/// `p` taken from `base`.
pub open spec fn join(base: Seq<u8>, p: Seq<u8>) -> Seq<u8> {
    if is_absolute(p) {
        p
    } else if base.len() > 0 && base.last() != SLASH {
        base.push(SLASH) + p
    } else {
        base + p
    }
}

/// The components of a path that goes on behind a separator: those before it, then those
/// behind it.
proof fn lemma_body_splits(b: Seq<u8>, p: Seq<u8>, from: int)
    requires
        0 <= from <= b.len(),
    ensures
        ({
            let q = b.push(SLASH) + p;
            parts(q, body_ranges(q, from)) == parts(b, body_ranges(b, from)) + parts(
                q,
                body_ranges(q, b.len() as int + 1),
            )
        }),
    decreases b.len() - from,
{
    let q = b.push(SLASH) + p;
    let rest = parts(q, body_ranges(q, b.len() as int + 1));
    assert(q[b.len() as int] == SLASH);
    if from == b.len() {
        assert(piece_end(q, from) == from);
        assert(q.subrange(from, from) =~= Seq::<u8>::empty());
        assert(body_ranges(q, from) =~= body_ranges(q, from + 1));
        assert(parts(b, body_ranges(b, from)) + rest =~= rest);
    } else {
        lemma_piece_end(b, from);
        lemma_piece_end(q, from);
        let e = piece_end(b, from);
        let f = piece_end(q, from);
        if f < e {
            assert(q[f] == b[f]);
        }
        if e < f {
            assert(q[e] == SLASH);
        }
        assert(q.subrange(from, e) =~= b.subrange(from, e));
        let first = if is_void(b.subrange(from, e)) {
            Seq::<(int, int)>::empty()
        } else {
            seq![(from, e)]
        };
        assert(parts(q, first) =~= parts(b, first));
        assert(parts(q, first + body_ranges(q, e + 1)) =~= parts(q, first) + parts(
            q,
            body_ranges(q, e + 1),
        ));
        assert(parts(b, first + body_ranges(b, e + 1)) =~= parts(b, first) + parts(
            b,
            body_ranges(b, e + 1),
        ));
        if e < b.len() {
            lemma_body_splits(b, p, e + 1);
            assert(parts(q, body_ranges(q, from)) =~= parts(b, body_ranges(b, from)) + rest);
        } else {
            assert(parts(q, body_ranges(q, from)) =~= parts(b, body_ranges(b, from)) + rest);
        }
    }
}

/// The components of a relative path taken from `base`: those of `base`, then those that
/// stand behind the separator.
proof fn lemma_join_splits(base: Seq<u8>, p: Seq<u8>)
    requires
        base.len() > 0,
        !is_absolute(p),
    ensures
        ({
            let q = join(base, p);
            components(q) == components(base) + parts(q, body_ranges(q, q.len() - p.len()))
        }),
{
    let q = join(base, p);
    if base.last() != SLASH {
        lemma_body_splits(base, p, body_start(base));
        assert(q.take(1) =~= base.take(1));
        assert(components(q) =~= components(base) + parts(q, body_ranges(q, base.len() as int + 1)));
    } else if base.len() == 1 {
        assert(q.take(1) =~= base.take(1));
        assert(base.take(1) =~= base);
        assert(body_ranges(base, 1) =~= Seq::<(int, int)>::empty());
        assert(components(base) =~= seq![base]);
        assert(components(q) =~= components(base) + parts(q, body_ranges(q, 1)));
    } else {
        let b = base.drop_last();
        assert(b.push(SLASH) =~= base);
        assert(q.take(1) =~= base.take(1));
        assert(base =~= b.push(SLASH) + Seq::<u8>::empty());
        lemma_body_splits(b, p, body_start(base));
        lemma_body_splits(b, Seq::<u8>::empty(), body_start(base));
        assert(components(q) =~= components(base) + parts(q, body_ranges(q, b.len() as int + 1)));
    }
}

/// What is taken from a path stays below it, by whole components, unless it is absolute.
pub proof fn law_join_stays_below(base: Seq<u8>, p: Seq<u8>)
    requires
        !is_absolute(p),
    ensures
        starts_with(join(base, p), base),
{
    if base.len() > 0 {
        lemma_join_splits(base, p);
        let q = join(base, p);
        assert(components(q).subrange(0, components(base).len() as int) =~= components(base));
    } else {
        assert(components(base) =~= Seq::<Seq<u8>>::empty());
        assert(components(join(base, p)).subrange(0, 0) =~= Seq::<Seq<u8>>::empty());
    }
}

/// A component that is a name: not empty, not `.`, and without a separator.
pub open spec fn is_name(c: Seq<u8>) -> bool {
    !is_void(c) && !c.contains(SLASH)
}

/// The components of a path are names, but for a leading `/` or `.`.
pub open spec fn well_split(cs: Seq<Seq<u8>>) -> bool {
    forall|i: int|
        0 <= i < cs.len() ==> is_name(#[trigger] cs[i]) || (i == 0 && (cs[i] == seq![SLASH]
            || cs[i] == seq![DOT]))
}

proof fn lemma_body_is_names(p: Seq<u8>, from: int)
    requires
        0 <= from,
    ensures
        forall|i: int|
            0 <= i < body_ranges(p, from).len() ==> is_name(
                #[trigger] parts(p, body_ranges(p, from))[i],
            ),
    decreases p.len() + 1 - from,
{
    if from < p.len() {
        lemma_piece_end(p, from);
        let e = piece_end(p, from);
        let piece = p.subrange(from, e);
        lemma_body_is_names(p, e + 1);
        let rest = body_ranges(p, e + 1);
        assert forall|i: int| 0 <= i < body_ranges(p, from).len() implies is_name(
            #[trigger] parts(p, body_ranges(p, from))[i],
        ) by {
            assert forall|k: int| 0 <= k < piece.len() implies piece[k] != SLASH by {
                assert(p[from + k] != SLASH);
            }
            let shift: int = if is_void(piece) { 0 } else { 1 };
            if i >= shift {
                assert(parts(p, body_ranges(p, from))[i] == parts(p, rest)[i - shift]);
            } else {
                assert(parts(p, body_ranges(p, from))[i] == piece);
            }
        }
    }
}

/// The components of a path are names, but for a leading `/` or `.`.
pub proof fn law_components_are_names(p: Seq<u8>)
    ensures
        well_split(components(p)),
{
    lemma_body_is_names(p, body_start(p));
    let cs = components(p);
    let ps = parts(p, body_ranges(p, body_start(p)));
    assert forall|i: int| 0 <= i < cs.len() implies is_name(#[trigger] cs[i]) || (i == 0 && (cs[i]
        == seq![SLASH] || cs[i] == seq![DOT])) by {
        if body_start(p) == 1 {
            if i == 0 {
                assert(p.take(1) =~= seq![p[0]]);
            } else {
                assert(cs[i] == ps[i - 1]);
            }
        } else {
            assert(cs[i] == ps[i]);
        }
    }
}

/// The ranges of components lie in the path, each behind the one before it.
proof fn lemma_body_ranges(p: Seq<u8>, from: int)
    requires
        0 <= from,
    ensures
        forall|k: int|
            0 <= k < body_ranges(p, from).len() ==> from <= (#[trigger] body_ranges(p, from)[k]).0
                < body_ranges(p, from)[k].1 <= p.len(),
        forall|k: int, l: int|
            0 <= k < l < body_ranges(p, from).len() ==> (#[trigger] body_ranges(p, from)[k]).1 < (
            #[trigger] body_ranges(p, from)[l]).0,
    decreases p.len() + 1 - from,
{
    if from < p.len() {
        lemma_piece_end(p, from);
        let e = piece_end(p, from);
        lemma_body_ranges(p, e + 1);
        let rest = body_ranges(p, e + 1);
        let all = body_ranges(p, from);
        let shift: int = if is_void(p.subrange(from, e)) {
            0
        } else {
            1
        };
        assert forall|k: int| 0 <= k < all.len() implies from <= (#[trigger] all[k]).0 < all[k].1
            <= p.len() by {
            if k >= shift {
                assert(all[k] == rest[k - shift]);
            }
        }
        assert forall|k: int, l: int| 0 <= k < l < all.len() implies (#[trigger] all[k]).1 < (
        #[trigger] all[l]).0 by {
            assert(all[l] == rest[l - shift]);
            if k >= shift {
                assert(all[k] == rest[k - shift]);
            }
        }
    }
}

/// The parent of a path is shorter than the path.
pub proof fn law_parent_is_shorter(p: Seq<u8>)
    ensures
        parent(p) matches Some(q) ==> q.len() < p.len(),
{
    lemma_body_ranges(p, body_start(p));
    let ranges = body_ranges(p, body_start(p));
    if ranges.len() >= 2 {
        assert(ranges[ranges.len() - 2].1 < ranges[ranges.len() - 1].0);
    } else if ranges.len() == 1 {
        assert(ranges[0].0 >= body_start(p));
    }
}

/// The name of a file is a name.
pub proof fn law_file_name_is_name(p: Seq<u8>)
    ensures
        file_name(p) matches Some(n) ==> is_name(n),
{
    lemma_body_is_names(p, body_start(p));
    let ranges = body_ranges(p, body_start(p));
    if ranges.len() > 0 {
        assert(is_name(parts(p, ranges)[ranges.len() - 1]));
    }
}

/// The range of a name that ends a path.
proof fn lemma_last_name(q: Seq<u8>, from: int)
    requires
        0 <= from < q.len(),
        is_name(q.skip(from)),
    ensures
        body_ranges(q, from) == seq![(from, q.len() as int)],
        parts(q, body_ranges(q, from)) == seq![q.skip(from)],
{
    let name = q.skip(from);
    lemma_piece_end(q, from);
    let e = piece_end(q, from);
    if e < q.len() {
        assert(name[e - from] == SLASH);
        assert(name.contains(SLASH));
    }
    assert(q.subrange(from, e) =~= name);
    assert(body_ranges(q, e + 1) =~= Seq::<(int, int)>::empty());
    assert(body_ranges(q, from) =~= seq![(from, q.len() as int)]);
    assert(parts(q, body_ranges(q, from)) =~= seq![name]);
}

/// A path with a name put behind it has that name as one component more.
pub proof fn law_join_appends_name(base: Seq<u8>, name: Seq<u8>)
    requires
        is_name(name),
    ensures
        components(join(base, name)) == components(base).push(name),
{
    assert(!is_absolute(name)) by {
        if name.len() > 0 && name[0] == SLASH {
            assert(name.contains(name[0]));
        }
    }
    let q = join(base, name);
    let from = q.len() - name.len();
    assert(q.skip(from) =~= name);
    lemma_last_name(q, from);
    if base.len() > 0 {
        lemma_join_splits(base, name);
        assert(components(q) =~= components(base).push(name));
    } else {
        assert(q =~= name);
        assert(components(base) =~= Seq::<Seq<u8>>::empty());
        if starts_at_current(name) && name.len() > 1 {
            assert(name.contains(name[1]));
        }
        if name.len() == 1 && name[0] == DOT {
            assert(name =~= seq![DOT]);
        }
        assert(components(q) =~= seq![name]);
        assert(components(q) =~= components(base).push(name));
    }
}

/// The views of a list of byte strings.
pub open spec fn byte_texts(v: Seq<Vec<u8>>) -> Seq<Seq<u8>> {
    v.map_values(|b: Vec<u8>| b@)
}

/// Whether two byte strings are the same.
pub fn same_bytes(a: &[u8], b: &[u8]) -> (r: bool)
    ensures
        r == (a@ == b@),
{
    if a.len() != b.len() {
        return false;
    }
    let mut i: usize = 0;
    while i < a.len()
        invariant
            i <= a@.len(),
            a@.len() == b@.len(),
            forall|j: int| 0 <= j < i ==> a@[j] == b@[j],
        decreases a@.len() - i,
    {
        if a[i] != b[i] {
            return false;
        }
        i += 1;
    }
    assert(a@ =~= b@);
    true
}

/// The bytes `p[from..to]`.
pub fn bytes_of(p: &[u8], from: usize, to: usize) -> (r: Vec<u8>)
    requires
        from <= to <= p@.len(),
    ensures
        r@ == p@.subrange(from as int, to as int),
{
    let mut r: Vec<u8> = Vec::new();
    let mut i: usize = from;
    while i < to
        invariant
            from <= i <= to <= p@.len(),
            r@ == p@.subrange(from as int, i as int),
        decreases to - i,
    {
        r.push(p[i]);
        i += 1;
    }
    r
}

/// Whether `p` is an absolute path.
pub fn path_is_absolute(p: &[u8]) -> (r: bool)
    ensures
        r == is_absolute(p@),
{
    p.len() > 0 && p[0] == SLASH
}

/// Where the body of `p` starts.
fn body_start_of(p: &[u8]) -> (r: usize)
    ensures
        r == body_start(p@),
        r <= p@.len(),
{
    if path_is_absolute(p) || (p.len() > 0 && p[0] == DOT && (p.len() == 1 || p[1] == SLASH)) {
        1
    } else {
        0
    }
}

/// The ranges of the components in the body of `p`.
fn component_ranges(p: &[u8]) -> (r: Vec<(usize, usize)>)
    ensures
        int_ranges(r@) == body_ranges(p@, body_start(p@)),
        forall|k: int| 0 <= k < r@.len() ==> (#[trigger] r@[k]).0 <= r@[k].1 <= p@.len(),
{
    let start = body_start_of(p);
    let total: usize = p.len();
    let mut r: Vec<(usize, usize)> = Vec::new();
    let mut from: usize = start;
    assert(int_ranges(r@) + body_ranges(p@, start as int) =~= body_ranges(p@, start as int));
    while from < total
        invariant
            from <= total == p@.len(),
            int_ranges(r@) + body_ranges(p@, from as int) == body_ranges(p@, start as int),
            forall|k: int| 0 <= k < r@.len() ==> (#[trigger] r@[k]).0 <= r@[k].1 <= p@.len(),
        decreases total - from,
    {
        let mut e: usize = from;
        while e < total && p[e] != SLASH
            invariant
                from <= e <= total == p@.len(),
                piece_end(p@, e as int) == piece_end(p@, from as int),
            decreases total - e,
        {
            e += 1;
        }
        let ghost before = r@;
        if !(e == from || (e - from == 1 && p[from] == DOT)) {
            r.push((from, e));
        }
        proof {
            assert(e == piece_end(p@, from as int));
            let piece = p@.subrange(from as int, e as int);
            if e - from == 1 {
                assert(piece =~= seq![p@[from as int]]);
                assert(piece[0] == p@[from as int]);
                assert(seq![DOT][0] == DOT);
            }
            assert(is_void(piece) <==> r@.len() == before.len());
            if is_void(piece) {
                assert(int_ranges(r@) + body_ranges(p@, e + 1) =~= int_ranges(before) + body_ranges(
                    p@,
                    from as int,
                ));
            } else {
                assert(int_ranges(r@) =~= int_ranges(before).push((from as int, e as int)));
                assert(int_ranges(r@) + body_ranges(p@, e + 1) =~= int_ranges(before) + body_ranges(
                    p@,
                    from as int,
                ));
            }
        }
        if e == total {
            assert(body_ranges(p@, e + 1) =~= Seq::<(int, int)>::empty());
            assert(body_ranges(p@, e as int) =~= Seq::<(int, int)>::empty());
            from = e;
        } else {
            from = e + 1;
        }
    }
    assert(int_ranges(r@) =~= body_ranges(p@, start as int));
    r
}

/// The components of `p`.
pub fn path_components(p: &[u8]) -> (r: Vec<Vec<u8>>)
    ensures
        byte_texts(r@) == components(p@),
{
    let ranges = component_ranges(p);
    let ghost ints = int_ranges(ranges@);
    let mut r: Vec<Vec<u8>> = Vec::new();
    if body_start_of(p) == 1 {
        let lead = bytes_of(p, 0, 1);
        assert(lead@ =~= p@.take(1));
        r.push(lead);
    }
    let ghost lead = byte_texts(r@);
    assert(lead =~= if body_start(p@) == 1 {
        seq![p@.take(1)]
    } else {
        seq![]
    });
    let mut k: usize = 0;
    assert(lead + parts(p@, ints.take(0)) =~= lead);
    while k < ranges.len()
        invariant
            k <= ranges@.len(),
            ints == int_ranges(ranges@),
            forall|k: int| 0 <= k < ranges@.len() ==> (#[trigger] ranges@[k]).0 <= ranges@[k].1
                <= p@.len(),
            byte_texts(r@) == lead + parts(p@, ints.take(k as int)),
        decreases ranges@.len() - k,
    {
        let (from, to) = ranges[k];
        let piece = bytes_of(p, from, to);
        let ghost before = r@;
        r.push(piece);
        k += 1;
        proof {
            assert(ints[k - 1] == (from as int, to as int));
            assert(byte_texts(r@) =~= byte_texts(before).push(piece@));
            assert(byte_texts(r@) =~= lead + parts(p@, ints.take(k as int)));
        }
    }
    assert(ints.take(k as int) =~= ints);
    r
}

/// Whether `path` is `base` or lies below it.
pub fn path_starts_with(path: &[u8], base: &[u8]) -> (r: bool)
    ensures
        r == starts_with(path@, base@),
{
    let c = path_components(path);
    let b = path_components(base);
    let ghost cs = byte_texts(c@);
    let ghost bs = byte_texts(b@);
    if b.len() > c.len() {
        return false;
    }
    let mut i: usize = 0;
    while i < b.len()
        invariant
            i <= b@.len() <= c@.len(),
            cs == byte_texts(c@),
            bs == byte_texts(b@),
            cs == components(path@),
            bs == components(base@),
            forall|j: int| 0 <= j < i ==> cs[j] == bs[j],
        decreases b@.len() - i,
    {
        if !same_bytes(c[i].as_slice(), b[i].as_slice()) {
            assert(cs[i as int] != bs[i as int]);
            assert(cs.subrange(0, bs.len() as int)[i as int] != bs[i as int]);
            return false;
        }
        i += 1;
    }
    assert(bs =~= cs.subrange(0, bs.len() as int));
    true
}

/// The last component of `p`, where it is a name.
pub fn path_file_name(p: &[u8]) -> (r: Option<Vec<u8>>)
    ensures
        match r {
            Some(name) => file_name(p@) == Some(name@),
            None => file_name(p@) is None,
        },
{
    let ranges = component_ranges(p);
    if ranges.len() == 0 {
        return None;
    }
    assert(int_ranges(ranges@).last() == (
        ranges@.last().0 as int,
        ranges@.last().1 as int,
    ));
    let (from, to) = ranges[ranges.len() - 1];
    let name = bytes_of(p, from, to);
    if name.len() == 2 && name[0] == DOT && name[1] == DOT {
        assert(name@ =~= seq![DOT, DOT]);
        return None;
    }
    Some(name)
}

/// `p` without its last component, where it has one other than `/`.
pub fn path_parent(p: &[u8]) -> (r: Option<Vec<u8>>)
    ensures
        match r {
            Some(q) => parent(p@) == Some(q@),
            None => parent(p@) is None,
        },
{
    let ranges = component_ranges(p);
    let n: usize = ranges.len();
    if n >= 2 {
        let to = ranges[n - 2].1;
        assert(int_ranges(ranges@)[n - 2].1 == to);
        let q = bytes_of(p, 0, to);
        assert(q@ =~= p@.take(to as int));
        Some(q)
    } else if n == 1 {
        let q = bytes_of(p, 0, body_start_of(p));
        assert(q@ =~= p@.take(body_start(p@)));
        Some(q)
    } else if p.len() > 0 && p[0] == DOT && (p.len() == 1 || p[1] == SLASH) {
        let q: Vec<u8> = Vec::new();
        assert(q@ =~= Seq::<u8>::empty());
        Some(q)
    } else {
        None
    }
}

/// The extension of the name of the file that `p` leads to.
pub fn path_extension(p: &[u8]) -> (r: Option<Vec<u8>>)
    ensures
        match r {
            Some(e) => extension(p@) == Some(e@),
            None => extension(p@) is None,
        },
{
    let name = match path_file_name(p) {
        Some(name) => name,
        None => {
            return None;
        },
    };
    let mut i: usize = name.len();
    while i > 0 && name[i - 1] != DOT
        invariant
            i <= name@.len(),
            last_dot(name@, i as int) == last_dot(name@, name@.len() as int),
        decreases i,
    {
        i -= 1;
    }
    if i <= 1 {
        return None;
    }
    let e = bytes_of(name.as_slice(), i, name.len());
    assert(e@ =~= name@.skip(i as int));
    Some(e)
}

/// `p` taken from `base`.
pub fn path_join(base: &[u8], p: &[u8]) -> (r: Vec<u8>)
    ensures
        r@ == join(base@, p@),
{
    if path_is_absolute(p) {
        let r = bytes_of(p, 0, p.len());
        assert(r@ =~= p@);
        return r;
    }
    let mut r = bytes_of(base, 0, base.len());
    if base.len() > 0 && base[base.len() - 1] != SLASH {
        r.push(SLASH);
    }
    let mut tail = bytes_of(p, 0, p.len());
    r.append(&mut tail);
    assert(r@ =~= join(base@, p@));
    r
}

/// The components of a path without a leading `/` or `.`.
pub open spec fn names_of(p: Seq<u8>) -> Seq<Seq<u8>> {
    if p.len() > 0 && (p[0] == 47 || (p[0] == 46 && (p.len() == 1 || p[1] == 47))) {
        components(p).skip(1)
    } else {
        components(p)
    }
}

proof fn lemma_body_shifts(q: Seq<u8>, p: Seq<u8>, n: int, from: int)
    requires
        0 <= n,
        0 <= from,
        q.len() == n + p.len(),
        q.skip(n) == p,
    ensures
        parts(q, body_ranges(q, n + from)) == parts(p, body_ranges(p, from)),
    decreases p.len() + 1 - from,
{
    if from < p.len() {
        lemma_piece_end(p, from);
        lemma_piece_end(q, n + from);
        let e = piece_end(p, from);
        let f = piece_end(q, n + from);
        assert forall|i: int| 0 <= i < p.len() implies q[n + i] == #[trigger] p[i] by {
            assert(q.skip(n)[i] == q[n + i]);
        }
        if f < n + e {
            assert(p[f - n] == q[f]);
        }
        if n + e < f {
            assert(p[e] == q[n + e]);
        }
        assert(f == n + e);
        lemma_body_shifts(q, p, n, e + 1);
        assert(q.subrange(n + from, f) =~= p.subrange(from, e));
        let (a, b) = (body_ranges(q, n + from), body_ranges(p, from));
        let (c, d) = (body_ranges(q, f + 1), body_ranges(p, e + 1));
        if is_void(p.subrange(from, e)) {
            assert(a =~= c && b =~= d);
        } else {
            assert(a =~= seq![(n + from, f)] + c);
            assert(b =~= seq![(from, e)] + d);
            assert(parts(q, a) =~= seq![q.subrange(n + from, f)] + parts(q, c));
            assert(parts(p, b) =~= seq![p.subrange(from, e)] + parts(p, d));
        }
    } else {
        assert(parts(q, body_ranges(q, n + from)) =~= parts(p, body_ranges(p, from)));
    }
}

proof fn lemma_names_of(p: Seq<u8>)
    ensures
        parts(p, body_ranges(p, 0)) == names_of(p),
{
    if body_start(p) == 1 {
        let rest = parts(p, body_ranges(p, 1));
        assert(components(p).skip(1) =~= rest);
        if p[0] == SLASH {
            assert(piece_end(p, 0) == 0);
            assert(p.subrange(0, 0) =~= Seq::<u8>::empty());
            assert(body_ranges(p, 0) =~= body_ranges(p, 1));
        } else {
            reveal_with_fuel(piece_end, 3);
            assert(piece_end(p, 0) == 1);
            assert(p.subrange(0, 1) =~= seq![DOT]);
            assert(body_ranges(p, 0) =~= body_ranges(p, 2));
            if p.len() > 1 {
                assert(p.subrange(1, 1) =~= Seq::<u8>::empty());
                assert(body_ranges(p, 1) =~= body_ranges(p, 2));
            } else {
                assert(body_ranges(p, 1) =~= body_ranges(p, 2));
            }
        }
    } else {
        assert(components(p) =~= parts(p, body_ranges(p, 0)));
    }
}

/// A path is taken apart at its separators: an empty path has no component, one without a
/// separator is one component, a separator in front is a component of its own, and behind
/// any other come the components of what follows it, but for a `/` or `.` in front of that.
pub proof fn law_path_is_taken_apart_at_separators(b: Seq<u8>, p: Seq<u8>)
    ensures
        components(Seq::<u8>::empty()) == Seq::<Seq<u8>>::empty(),
        b.len() > 0 && !b.contains(47) ==> components(b) == seq![b],
        b.len() > 0 ==> components(b.push(47) + p) == components(b) + names_of(p),
        components(seq![47u8] + p) == seq![seq![47u8]] + names_of(p),
        is_absolute(b) <==> b.len() > 0 && b[0] == 47,
{
    lemma_names_of(p);
    assert(components(Seq::<u8>::empty()) =~= Seq::<Seq<u8>>::empty());
    if b.len() > 0 {
        if !b.contains(47) {
            assert forall|i: int| 0 <= i < b.len() implies b[i] != SLASH by {
                assert(b.contains(b[i]));
            }
            if b == seq![DOT] {
                assert(b.take(1) =~= b);
                assert(body_ranges(b, 1) =~= Seq::<(int, int)>::empty());
                assert(components(b) =~= seq![b]);
            } else {
                assert(!starts_at_current(b)) by {
                    if b.len() == 1 && b[0] == DOT {
                        assert(b =~= seq![DOT]);
                    }
                }
                assert(is_name(b));
                assert(b.skip(0) =~= b);
                lemma_last_name(b, 0);
                assert(components(b) =~= seq![b]);
            }
        }
        let q = b.push(SLASH) + p;
        lemma_body_splits(b, p, body_start(b));
        assert(q.take(1) =~= b.take(1));
        assert(q.skip(b.len() as int + 1) =~= p);
        lemma_body_shifts(q, p, b.len() as int + 1, 0);
        assert(body_start(q) == body_start(b));
        assert(components(q) =~= components(b) + names_of(p));
    }
    let q = seq![SLASH] + p;
    assert(q.skip(1) =~= p);
    lemma_body_shifts(q, p, 1, 0);
    assert(q.take(1) =~= seq![SLASH]);
    assert(components(q) =~= seq![seq![SLASH]] + names_of(p));
}

/// A path taken from another is that path itself where it is absolute, and else comes behind
/// it, with one separator between them, unless there is one already or nothing before it.
pub proof fn law_path_is_taken_from_base(base: Seq<u8>, p: Seq<u8>)
    ensures
        join(base, p) == if p.len() > 0 && p[0] == 47 {
            p
        } else if base.len() == 0 || base[base.len() - 1] == 47 {
            base + p
        } else {
            base + seq![47u8] + p
        },
{
    assert(base.push(47) + p =~= base + seq![47u8] + p);
}

/// The name of a file is the last component of its path, where that is neither `..` nor a
/// leading `/` or `.`; and its extension what is behind the last dot of its name, where that
/// dot does not start it.
pub proof fn law_file_is_named_by_last_component(p: Seq<u8>)
    ensures
        match file_name(p) {
            Some(n) => names_of(p).len() > 0 && n == names_of(p).last() && n != seq![46u8, 46u8],
            None => names_of(p).len() == 0 || names_of(p).last() == seq![46u8, 46u8],
        },
        match (file_name(p), extension(p)) {
            (Some(n), Some(e)) => exists|d: int|
                0 < d < n.len() && #[trigger] n[d] == 46 && e == n.skip(d + 1) && forall|i: int|
                    d < i < n.len() ==> #[trigger] n[i] != 46,
            (Some(n), None) => forall|i: int| 0 < i < n.len() ==> #[trigger] n[i] != 46,
            (None, e) => e is None,
        },
{
    lemma_names_of(p);
    let ranges = body_ranges(p, body_start(p));
    assert(names_of(p) =~= parts(p, ranges)) by {
        if body_start(p) == 1 {
            assert(components(p).skip(1) =~= parts(p, ranges));
        } else {
            assert(components(p) =~= parts(p, ranges));
        }
    }
    if ranges.len() > 0 {
        assert(names_of(p).last() == p.subrange(ranges.last().0, ranges.last().1));
    }
    if let Some(n) = file_name(p) {
        lemma_last_dot(n, n.len() as int);
    }
}

proof fn lemma_last_dot(name: Seq<u8>, i: int)
    requires
        0 <= i <= name.len(),
    ensures
        -1 <= last_dot(name, i) < i || last_dot(name, i) == -1,
        last_dot(name, i) >= 0 ==> name[last_dot(name, i)] == DOT,
        forall|k: int| last_dot(name, i) < k < i ==> #[trigger] name[k] != DOT,
    decreases i,
{
    if i > 0 && name[i - 1] != DOT {
        lemma_last_dot(name, i - 1);
    }
}

/// The directory of a path has all of its components but the last; and a path has one unless
/// it has no component but a leading `/`.
pub proof fn law_directory_has_all_but_last_component(p: Seq<u8>)
    ensures
        match parent(p) {
            Some(q) => components(p).len() > 0 && components(q) == components(p).drop_last(),
            None => components(p).len() == 0 || components(p) == seq![seq![47u8]],
        },
{
    let start = body_start(p);
    let ranges = body_ranges(p, start);
    lemma_body_ranges(p, start);
    if ranges.len() >= 1 {
        let q = parent(p)->Some_0;
        let k = ranges.len() - 1;
        let to = if k >= 1 {
            ranges[k - 1].1
        } else {
            start
        };
        assert(q == p.take(to));
        lemma_body_of_prefix(p, start, start, to, k);
        if start == 1 {
            assert(q.take(1) =~= p.take(1));
        }
        assert(body_start(q) == start) by {
            if start == 1 && p[0] == DOT {
                assert(q[0] == DOT);
                if to > 1 {
                    assert(q[1] == p[1]);
                }
            }
            if start == 0 && k >= 1 {
                assert(q[0] == p[0]);
                if to > 1 {
                    assert(q[1] == p[1]);
                } else {
                    lemma_first_range_is_name(p);
                }
            }
        }
        assert forall|i: int| 0 <= i < k implies #[trigger] parts(q, ranges.take(k))[i] == parts(
            p,
            ranges,
        )[i] by {
            if i < k - 1 {
                assert(ranges[i].1 < ranges[k - 1].0);
            }
            assert(ranges[i].1 <= to);
            assert(q.subrange(ranges[i].0, ranges[i].1) =~= p.subrange(ranges[i].0, ranges[i].1));
        }
        assert(parts(q, body_ranges(q, start)) =~= parts(p, ranges).drop_last());
        assert(components(q) =~= components(p).drop_last());
    } else if starts_at_current(p) {
        assert(components(p) =~= seq![p.take(1)]);
        assert(components(Seq::<u8>::empty()) =~= Seq::<Seq<u8>>::empty());
        assert(components(p).drop_last() =~= Seq::<Seq<u8>>::empty());
    } else if start == 1 {
        assert(p.take(1) =~= seq![47u8]);
        assert(components(p) =~= seq![seq![47u8]]);
    } else {
        assert(components(p) =~= Seq::<Seq<u8>>::empty());
    }
}

proof fn lemma_first_range_is_name(p: Seq<u8>)
    requires
        body_start(p) == 0,
        body_ranges(p, 0).len() >= 2,
        body_ranges(p, 0)[body_ranges(p, 0).len() - 2].1 == 1,
    ensures
        p[0] != DOT,
        p[0] != SLASH,
{
    lemma_body_ranges(p, 0);
    lemma_body_is_names(p, 0);
    let r = body_ranges(p, 0);
    let k = r.len() - 2;
    assert(r[k].0 == 0);
    let n = parts(p, r)[k];
    assert(n == p.subrange(0, 1));
    assert(is_name(n));
    if p[0] == DOT {
        assert(n =~= seq![DOT]);
    }
    if p[0] == SLASH {
        assert(n[0] == SLASH);
        assert(n.contains(SLASH));
    }
}

/// The ranges of the components of a path that end where its prefix ends are those of the
/// prefix.
#[verifier::rlimit(40)]
#[verifier::spinoff_prover]
proof fn lemma_body_of_prefix(p: Seq<u8>, start: int, from: int, to: int, k: int)
    requires
        0 <= start <= from,
        start <= to <= p.len(),
        k >= 0,
        k < body_ranges(p, from).len(),
        k >= 1 ==> to == body_ranges(p, from)[k - 1].1,
        k == 0 ==> to <= from,
    ensures
        body_ranges(p.take(to), from) == body_ranges(p, from).take(k),
    decreases p.len() + 1 - from,
{
    let q = p.take(to);
    let all = body_ranges(p, from);
    if k == 0 {
        assert(body_ranges(q, from) =~= all.take(0));
    } else {
        lemma_piece_end(p, from);
        lemma_body_ranges(p, from);
        let e = piece_end(p, from);
        let rest = body_ranges(p, e + 1);
        lemma_body_ranges(p, e + 1);
        let shift: int = if is_void(p.subrange(from, e)) {
            0
        } else {
            1
        };
        assert(from < to) by {
            assert(from <= all[k - 1].0 < all[k - 1].1);
        }
        assert(e <= to) by {
            if shift == 1 {
                assert(all[0] == (from, e));
                if k - 1 > 0 {
                    assert(all[0].1 < all[k - 1].0);
                }
            } else {
                assert(all[k - 1] == rest[k - 1]);
            }
        }
        lemma_piece_end(q, from);
        let f = piece_end(q, from);
        if f < e {
            assert(q[f] == p[f]);
        }
        if e < f {
            assert(q[e] == p[e]);
        }
        assert(f == e);
        assert(q.subrange(from, e) =~= p.subrange(from, e));
        if shift == 1 && k == 1 {
            assert(to == e);
            assert(body_ranges(q, e + 1) =~= Seq::<(int, int)>::empty());
            assert(body_ranges(q, from) =~= seq![(from, e)]);
            assert(all.take(1) =~= seq![(from, e)]);
        } else {
            assert(all[k] == rest[k - shift] && all[k - 1] == rest[k - 1 - shift]);
            lemma_body_of_prefix(p, start, e + 1, to, k - shift);
            assert(body_ranges(q, from) =~= all.take(k));
        }
    }
}

} // verus!
