//! Finding files by name: which of the entries of a walk are found, in which order
//! they are listed, and how many of them.

use vstd::prelude::*;
use vstd::utf8::*;

use crate::lines::texts;
use crate::matchers::{glob_matches, Glob};
use crate::outputs::GlobSearchOutput;
use crate::paths::{
    byte_texts, components, file_name, path_components, path_file_name, same_bytes, HOST,
};
use crate::text::{lossy_text, path_text};
use crate::workspace::{
    is_ignored_dir, normalize_glob_pattern_text, pattern_text, should_skip_glob_dir,
};

verus! {

/// How many files are listed at most.
pub const MAX_LISTED: usize = 100;

/// An entry that the host met on a walk below a directory.
#[derive(Debug, PartialEq, Eq)]
pub struct WalkEntry {
    pub path: Vec<u8>,
    pub is_file: bool,
    /// It is a directory, and no link to one.
    pub is_dir: bool,
}

/// Two paths that have the same components.
pub open spec fn same_path(a: Seq<u8>, b: Seq<u8>) -> bool {
    components(a) == components(b)
}

/// One of `paths` has the components of `p`.
pub open spec fn holds_path(paths: Seq<Seq<u8>>, p: Seq<u8>) -> bool {
    exists|i: int| 0 <= i < paths.len() && #[trigger] same_path(paths[i], p)
}

/// The entry is a file, and the glob matches its path.
pub open spec fn is_match(entry: WalkEntry, glob: Seq<char>) -> bool {
    entry.is_file && glob_matches(glob, pattern_text(lossy_text(entry.path@), HOST))
}

/// The walk starts from a directory that searches for files pass by.
pub open spec fn starts_ignored(entries: Seq<WalkEntry>, start: Seq<u8>) -> bool {
    &&& file_name(start) matches Some(name) && is_ignored_dir(name)
    &&& exists|i: int|
        0 <= i < entries.len() && (#[trigger] entries[i]).is_dir && same_path(
            entries[i].path@,
            start,
        )
}

/// Between the directory that a walk starts from and the path, there is a directory that
/// searches for files pass by.
pub open spec fn goes_through_ignored(path: Seq<u8>, start: Seq<u8>) -> bool {
    exists|k: int|
        components(start).len() <= k < components(path).len() - 1 && is_ignored_dir(
            #[trigger] components(path)[k],
        )
}

/// The path lies at or below a directory that a search for files passes by, on a walk
/// from `start`.
pub open spec fn is_passed_by(entries: Seq<WalkEntry>, start: Seq<u8>, path: Seq<u8>) -> bool {
    starts_ignored(entries, start) || goes_through_ignored(path, start)
}

/// Which of the entries of a walk from `start` match, and are not passed by.
pub open spec fn matches_of(
    entries: Seq<WalkEntry>,
    start: Seq<u8>,
    glob: Seq<char>,
) -> Seq<bool> {
    entries.map_values(
        |e: WalkEntry| is_match(e, glob) && !is_passed_by(entries, start, e.path@),
    )
}

/// The paths of the entries that match, in their order, without those that are among
/// `seen` and without any a second time.
pub open spec fn fresh(entries: Seq<WalkEntry>, matched: Seq<bool>, seen: Seq<Seq<u8>>) -> Seq<
    Seq<u8>,
>
    decreases entries.len(),
{
    if entries.len() == 0 {
        seq![]
    } else {
        let earlier = fresh(entries.drop_last(), matched.drop_last(), seen);
        let p = entries.last().path@;
        if matched.last() && !holds_path(seen, p) && !holds_path(earlier, p) {
            earlier.push(p)
        } else {
            earlier
        }
    }
}

/// The files that are found are those of the entries that match and were not seen: none
/// of them was seen, none is there twice, and every entry that matches was seen or is
/// among them.
pub proof fn law_fresh_files(entries: Seq<WalkEntry>, matched: Seq<bool>, seen: Seq<Seq<u8>>)
    requires
        matched.len() == entries.len(),
    ensures
        forall|i: int|
            0 <= i < fresh(entries, matched, seen).len() ==> !holds_path(
                seen,
                #[trigger] fresh(entries, matched, seen)[i],
            ),
        forall|i: int, j: int|
            0 <= i < j < fresh(entries, matched, seen).len() ==> !same_path(
                #[trigger] fresh(entries, matched, seen)[i],
                #[trigger] fresh(entries, matched, seen)[j],
            ),
        forall|i: int|
            0 <= i < fresh(entries, matched, seen).len() ==> exists|k: int|
                0 <= k < entries.len() && matched[k] && (#[trigger] entries[k]).path@
                    == #[trigger] fresh(entries, matched, seen)[i],
        forall|k: int|
            0 <= k < entries.len() && matched[k] ==> holds_path(seen, (#[trigger] entries[k]).path@)
                || holds_path(fresh(entries, matched, seen), entries[k].path@),
    decreases entries.len(),
{
    if entries.len() > 0 {
        let es = entries.drop_last();
        let ms = matched.drop_last();
        let earlier = fresh(es, ms, seen);
        let all = fresh(entries, matched, seen);
        let n = entries.len() - 1;
        let p = entries[n].path@;
        law_fresh_files(es, ms, seen);
        assert forall|i: int| 0 <= i < all.len() implies !holds_path(seen, #[trigger] all[i]) by {
            if i < earlier.len() {
                assert(all[i] == earlier[i]);
            }
        }
        assert forall|i: int, j: int| 0 <= i < j < all.len() implies !same_path(
            #[trigger] all[i],
            #[trigger] all[j],
        ) by {
            assert(all[i] == earlier[i]);
            if j < earlier.len() {
                assert(all[j] == earlier[j]);
            } else {
                assert(!same_path(earlier[i], p));
            }
        }
        assert forall|i: int| 0 <= i < all.len() implies exists|k: int|
            0 <= k < entries.len() && matched[k] && (#[trigger] entries[k]).path@
                == #[trigger] all[i] by {
            if i < earlier.len() {
                assert(all[i] == earlier[i]);
                let k = choose|k: int|
                    0 <= k < es.len() && ms[k] && (#[trigger] es[k]).path@ == earlier[i];
                assert(entries[k] == es[k]);
            } else {
                assert(entries[n].path@ == all[i]);
            }
        }
        assert forall|k: int| 0 <= k < entries.len() && matched[k] implies holds_path(
            seen,
            (#[trigger] entries[k]).path@,
        ) || holds_path(all, entries[k].path@) by {
            let q = entries[k].path@;
            if k < n {
                assert(es[k] == entries[k]);
                if holds_path(earlier, q) {
                    let i = choose|i: int| 0 <= i < earlier.len() && #[trigger] same_path(earlier[i], q);
                    assert(all[i] == earlier[i]);
                    assert(same_path(all[i], q));
                }
            } else if !holds_path(seen, p) {
                if holds_path(earlier, p) {
                    let i = choose|i: int| 0 <= i < earlier.len() && #[trigger] same_path(earlier[i], p);
                    assert(same_path(all[i], p));
                } else {
                    let l = all.len() - 1;
                    assert(same_path(all[l], p));
                }
            }
        }
    }
}

/// No file that is found on a walk is passed by.
pub proof fn law_found_files_are_not_passed_by(
    entries: Seq<WalkEntry>,
    start: Seq<u8>,
    glob: Seq<char>,
    seen: Seq<Seq<u8>>,
)
    ensures
        ({
            let found = fresh(entries, matches_of(entries, start, glob), seen);
            forall|i: int| 0 <= i < found.len() ==> !is_passed_by(entries, start, #[trigger] found[i])
        }),
{
    let matched = matches_of(entries, start, glob);
    let found = fresh(entries, matched, seen);
    law_fresh_files(entries, matched, seen);
    assert forall|i: int| 0 <= i < found.len() implies !is_passed_by(
        entries,
        start,
        #[trigger] found[i],
    ) by {
        let k = choose|k: int|
            0 <= k < entries.len() && matched[k] && (#[trigger] entries[k]).path@ == found[i];
        assert(matched[k] == (is_match(entries[k], glob) && !is_passed_by(
            entries,
            start,
            entries[k].path@,
        )));
    }
}

/// Whether a walk starts from a directory that searches for files pass by.
fn walk_starts_ignored(entries: &Vec<WalkEntry>, start: &Vec<u8>) -> (r: bool)
    ensures
        r == starts_ignored(entries@, start@),
{
    let named = match path_file_name(start.as_slice()) {
        Some(name) => should_skip_glob_dir(true, name.as_slice()),
        None => false,
    };
    if !named {
        return false;
    }
    let parts = path_components(start.as_slice());
    let mut i: usize = 0;
    while i < entries.len()
        invariant
            i <= entries@.len(),
            file_name(start@) matches Some(name) && is_ignored_dir(name),
            byte_texts(parts@) == components(start@),
            forall|j: int|
                0 <= j < i ==> !((#[trigger] entries@[j]).is_dir && same_path(
                    entries@[j].path@,
                    start@,
                )),
        decreases entries@.len() - i,
    {
        if entries[i].is_dir {
            let own = path_components(entries[i].path.as_slice());
            if same_components(&own, &parts) {
                assert(same_path(entries@[i as int].path@, start@));
                return true;
            }
        }
        i += 1;
    }
    false
}

/// Whether there is a directory that searches for files pass by between the one that a
/// walk starts from, which has `depth` components, and the path.
fn path_goes_through_ignored(path: &Vec<u8>, depth: usize, Ghost(start): Ghost<Seq<u8>>) -> (r:
    bool)
    requires
        depth == components(start).len(),
    ensures
        r == goes_through_ignored(path@, start),
{
    let parts = path_components(path.as_slice());
    let ghost cs = components(path@);
    if parts.len() == 0 {
        assert(cs.len() == 0);
        return false;
    }
    let last: usize = parts.len() - 1;
    let mut k: usize = depth;
    while k < last
        invariant
            depth <= k,
            depth == components(start).len(),
            last == parts@.len() - 1,
            byte_texts(parts@) == cs,
            cs == components(path@),
            forall|j: int| depth <= j < k && j < last ==> !is_ignored_dir(#[trigger] cs[j]),
        decreases last - k,
    {
        assert(cs[k as int] == parts@[k as int]@);
        if should_skip_glob_dir(true, parts[k].as_slice()) {
            assert(is_ignored_dir(components(path@)[k as int]));
            return true;
        }
        k += 1;
    }
    false
}

/// Which of the entries of a walk from `start` match, and are not passed by.
pub fn match_entries(
    glob: &Glob,
    entries: &Vec<WalkEntry>,
    start: &Vec<u8>,
) -> (r: Vec<bool>)
    ensures
        r@ == matches_of(entries@, start@, glob@),
{
    let ignored = walk_starts_ignored(entries, start);
    let depth = path_components(start.as_slice()).len();
    let mut r: Vec<bool> = Vec::new();
    let ghost wanted = matches_of(entries@, start@, glob@);
    let mut i: usize = 0;
    while i < entries.len()
        invariant
            i <= entries@.len(),
            ignored == starts_ignored(entries@, start@),
            depth == components(start@).len(),
            wanted == matches_of(entries@, start@, glob@),
            r@ == wanted.take(i as int),
        decreases entries@.len() - i,
    {
        let matched = if entries[i].is_file {
            let text = path_text(&entries[i].path);
            let name = normalize_glob_pattern_text(text.as_str(), HOST);
            glob.matches(name.as_str())
        } else {
            false
        };
        let taken = matched && !ignored && !path_goes_through_ignored(
            &entries[i].path,
            depth,
            Ghost(start@),
        );
        r.push(taken);
        i += 1;
        assert(r@ =~= wanted.take(i as int));
    }
    assert(r@ =~= wanted);
    r
}

/// Whether two lists of components are the same.
fn same_components(a: &Vec<Vec<u8>>, b: &Vec<Vec<u8>>) -> (r: bool)
    ensures
        r == (byte_texts(a@) == byte_texts(b@)),
{
    if a.len() != b.len() {
        assert(byte_texts(a@).len() != byte_texts(b@).len());
        return false;
    }
    let mut i: usize = a.len();
    while i > 0
        invariant
            i <= a@.len(),
            a@.len() == b@.len(),
            forall|j: int| i <= j < a@.len() ==> a@[j]@ == b@[j]@,
        decreases i,
    {
        i -= 1;
        if !same_bytes(a[i].as_slice(), b[i].as_slice()) {
            assert(byte_texts(a@)[i as int] != byte_texts(b@)[i as int]);
            return false;
        }
    }
    assert(byte_texts(a@) =~= byte_texts(b@));
    true
}

/// `lists` are the components of `paths`.
spec fn split_paths(lists: Seq<Vec<Vec<u8>>>, paths: Seq<Seq<u8>>) -> bool {
    &&& lists.len() == paths.len()
    &&& forall|i: int|
        0 <= i < lists.len() ==> byte_texts((#[trigger] lists[i])@) == components(paths[i])
}

/// Whether one of the paths, whose components are `lists`, has the components `parts`.
fn holds_components(
    lists: &Vec<Vec<Vec<u8>>>,
    parts: &Vec<Vec<u8>>,
    Ghost(paths): Ghost<Seq<Seq<u8>>>,
    Ghost(p): Ghost<Seq<u8>>,
) -> (r: bool)
    requires
        split_paths(lists@, paths),
        byte_texts(parts@) == components(p),
    ensures
        r == holds_path(paths, p),
{
    let mut i: usize = 0;
    while i < lists.len()
        invariant
            i <= lists@.len(),
            split_paths(lists@, paths),
            byte_texts(parts@) == components(p),
            forall|j: int| 0 <= j < i ==> !#[trigger] same_path(paths[j], p),
        decreases lists@.len() - i,
    {
        let ghost list = lists@[i as int];
        if same_components(&lists[i], parts) {
            assert(byte_texts(list@) == components(paths[i as int]));
            assert(same_path(paths[i as int], p));
            return true;
        }
        i += 1;
    }
    false
}

/// The paths of the entries that match, in their order, without those that are among
/// `seen` and without any a second time.
pub fn select_fresh(entries: &Vec<WalkEntry>, matched: &Vec<bool>, seen: &Vec<Vec<u8>>) -> (r: Vec<
    Vec<u8>,
>)
    requires
        matched@.len() == entries@.len(),
    ensures
        byte_texts(r@) == fresh(entries@, matched@, byte_texts(seen@)),
{
    let ghost old_paths = byte_texts(seen@);
    let mut lists: Vec<Vec<Vec<u8>>> = Vec::new();
    let mut i: usize = 0;
    while i < seen.len()
        invariant
            i <= seen@.len(),
            old_paths == byte_texts(seen@),
            split_paths(lists@, old_paths.take(i as int)),
        decreases seen@.len() - i,
    {
        let ghost before = lists@;
        let parts = path_components(seen[i].as_slice());
        lists.push(parts);
        i += 1;
        assert forall|j: int| 0 <= j < lists@.len() implies byte_texts((#[trigger] lists@[j])@)
            == components(old_paths.take(i as int)[j]) by {
            if j < i - 1 {
                assert(lists@[j] == before[j]);
                assert(old_paths.take(i as int)[j] == old_paths.take(i - 1)[j]);
            }
        }
    }
    assert(old_paths.take(i as int) =~= old_paths);
    let mut r: Vec<Vec<u8>> = Vec::new();
    let mut fresh_lists: Vec<Vec<Vec<u8>>> = Vec::new();
    let mut k: usize = 0;
    assert(byte_texts(r@) =~= fresh(entries@.take(0), matched@.take(0), old_paths));
    while k < entries.len()
        invariant
            k <= entries@.len(),
            matched@.len() == entries@.len(),
            split_paths(lists@, old_paths),
            split_paths(fresh_lists@, byte_texts(r@)),
            byte_texts(r@) == fresh(
                entries@.take(k as int),
                matched@.take(k as int),
                old_paths,
            ),
        decreases entries@.len() - k,
    {
        let ghost before = byte_texts(r@);
        let ghost lists_before = fresh_lists@;
        let ghost p = entries@[k as int].path@;
        proof {
            let es = entries@.take(k + 1);
            let ms = matched@.take(k + 1);
            assert(es.drop_last() =~= entries@.take(k as int));
            assert(ms.drop_last() =~= matched@.take(k as int));
            assert(es.last() == entries@[k as int]);
            assert(ms.last() == matched@[k as int]);
        }
        if matched[k] {
            let path = &entries[k].path;
            let parts = path_components(path.as_slice());
            let known = holds_components(&lists, &parts, Ghost(old_paths), Ghost(p));
            if !known && !holds_components(&fresh_lists, &parts, Ghost(before), Ghost(p)) {
                r.push(path.clone());
                fresh_lists.push(parts);
                proof {
                    assert(r@.last()@ =~= p);
                    assert(byte_texts(r@) =~= before.push(p));
                    assert forall|j: int| 0 <= j < fresh_lists@.len() implies byte_texts(
                        (#[trigger] fresh_lists@[j])@,
                    ) == components(byte_texts(r@)[j]) by {
                        if j < lists_before.len() {
                            assert(fresh_lists@[j] == lists_before[j]);
                            assert(byte_texts(r@)[j] == before[j]);
                        }
                    }
                }
            }
        }
        k += 1;
    }
    assert(entries@.take(k as int) =~= entries@);
    assert(matched@.take(k as int) =~= matched@);
    r
}

/// A file whose time is `a` is listed before one whose time is `b`: the newer before
/// the older, and those without a time before all others.
pub open spec fn precedes(a: Option<i128>, b: Option<i128>) -> bool {
    match (a, b) {
        (None, Some(_)) => true,
        (Some(x), Some(y)) => x > y,
        _ => false,
    }
}

/// Where a file whose time is `time` goes among the first `upto` of those listed as
/// `order` says: behind the last that it does not precede.
pub open spec fn slot(
    times: Seq<Option<i128>>,
    order: Seq<int>,
    time: Option<i128>,
    upto: int,
) -> int
    decreases upto,
{
    if upto > 0 && precedes(time, times[order[upto - 1]]) {
        slot(times, order, time, upto - 1)
    } else {
        upto
    }
}

/// The order in which files are listed that have these times.
pub open spec fn ranking(times: Seq<Option<i128>>) -> Seq<int>
    decreases times.len(),
{
    if times.len() == 0 {
        seq![]
    } else {
        let rest = ranking(times.drop_last());
        rest.insert(
            slot(times, rest, times.last(), rest.len() as int),
            times.len() - 1,
        )
    }
}

/// The file whose number is `i` is listed before the one whose number is `j`: by their
/// times, and by their numbers where their times do not say.
pub open spec fn ranks_before(times: Seq<Option<i128>>, i: int, j: int) -> bool {
    precedes(times[i], times[j]) || (!precedes(times[j], times[i]) && i < j)
}

proof fn lemma_slot(times: Seq<Option<i128>>, order: Seq<int>, time: Option<i128>, upto: int)
    requires
        0 <= upto <= order.len(),
    ensures
        0 <= slot(times, order, time, upto) <= upto,
        forall|i: int|
            slot(times, order, time, upto) <= i < upto ==> precedes(time, times[#[trigger] order[i]]),
        slot(times, order, time, upto) > 0 ==> !precedes(
            time,
            times[order[slot(times, order, time, upto) - 1]],
        ),
    decreases upto,
{
    if upto > 0 && precedes(time, times[order[upto - 1]]) {
        lemma_slot(times, order, time, upto - 1);
    }
}

/// The listing is in order: it holds each file once, and of any two files the one that
/// ranks before the other stands before it. So the newer file comes first, and files of
/// the same time keep the order in which they were found.
pub proof fn law_ranking_is_stable_order(times: Seq<Option<i128>>)
    ensures
        ranking(times).len() == times.len(),
        forall|i: int| 0 <= i < times.len() ==> 0 <= #[trigger] ranking(times)[i] < times.len(),
        forall|i: int, j: int|
            #![trigger ranking(times)[i], ranking(times)[j]]
            0 <= i < j < times.len() ==> ranks_before(times, ranking(times)[i], ranking(times)[j]),
        forall|k: int| 0 <= k < times.len() ==> #[trigger] ranking(times).contains(k),
    decreases times.len(),
{
    if times.len() > 0 {
        let fewer = times.drop_last();
        let rest = ranking(fewer);
        let n = times.len() - 1;
        let at = slot(times, rest, times.last(), rest.len() as int);
        let order = ranking(times);
        law_ranking_is_stable_order(fewer);
        lemma_slot(times, rest, times.last(), rest.len() as int);
        assert(order == rest.insert(at, n));
        assert forall|i: int| 0 <= i < n implies 0 <= #[trigger] rest[i] < n by {
            assert(0 <= ranking(fewer)[i] < fewer.len());
        }
        assert forall|i: int, j: int|
            #![trigger order[i], order[j]]
            0 <= i < j < times.len() implies ranks_before(times, order[i], order[j]) by {
            let a = if i < at { i } else { i - 1 };
            let b = if j < at { j } else { j - 1 };
            if i != at && j != at {
                assert(order[i] == rest[a] && order[j] == rest[b]);
                assert(ranks_before(fewer, rest[a], rest[b]));
                assert(times[rest[a]] == fewer[rest[a]] && times[rest[b]] == fewer[rest[b]]);
            } else if i == at {
                assert(order[j] == rest[j - 1]);
                assert(precedes(times.last(), times[rest[j - 1]]));
            } else {
                assert(order[i] == rest[i]);
                if i < at - 1 {
                    assert(ranks_before(fewer, rest[i], rest[at - 1]));
                    assert(times[rest[i]] == fewer[rest[i]]);
                    assert(times[rest[at - 1]] == fewer[rest[at - 1]]);
                }
                assert(!precedes(times[n], times[rest[i]]));
            }
        }
        assert forall|k: int| 0 <= k < times.len() implies #[trigger] order.contains(k) by {
            if k == n {
                assert(order[at] == n);
            } else {
                assert(ranking(fewer).contains(k));
                let i = choose|i: int| 0 <= i < rest.len() && rest[i] == k;
                if i < at {
                    assert(order[i] == k);
                } else {
                    assert(order[i + 1] == k);
                }
            }
        }
    }
}

/// Whether a file whose time is `a` is listed before one whose time is `b`.
fn comes_before(a: Option<i128>, b: Option<i128>) -> (r: bool)
    ensures
        r == precedes(a, b),
{
    match (a, b) {
        (None, Some(_)) => true,
        (Some(x), Some(y)) => x > y,
        _ => false,
    }
}

/// The numbers of a list.
pub open spec fn numbers(v: Seq<usize>) -> Seq<int> {
    v.map_values(|n: usize| n as int)
}

/// The order in which files are listed that have these times.
pub fn rank(times: &Vec<Option<i128>>) -> (r: Vec<usize>)
    ensures
        numbers(r@) == ranking(times@),
{
    let mut order: Vec<usize> = Vec::new();
    let mut n: usize = 0;
    assert(numbers(order@) =~= ranking(times@.take(0)));
    while n < times.len()
        invariant
            n <= times@.len(),
            numbers(order@) == ranking(times@.take(n as int)),
        decreases times@.len() - n,
    {
        let ghost some = times@.take(n as int);
        let ghost more = times@.take(n + 1);
        let ghost rest = ranking(some);
        proof {
            law_ranking_is_stable_order(some);
            assert(more.drop_last() =~= some);
            assert(more.last() == times@[n as int]);
        }
        let time = times[n];
        let mut at: usize = order.len();
        while at > 0 && comes_before(time, times[order[at - 1]])
            invariant
                at <= order@.len() == n < times@.len(),
                more == times@.take(n + 1),
                rest == numbers(order@),
                time == times@[n as int],
                forall|i: int|
                    0 <= i < order@.len() ==> (#[trigger] order@[i]) as int == rest[i],
                forall|i: int| 0 <= i < rest.len() ==> 0 <= #[trigger] rest[i] < n,
                slot(more, rest, time, at as int) == slot(more, rest, time, rest.len() as int),
            decreases at,
        {
            at -= 1;
        }
        let ghost before = order@;
        order.insert(at, n);
        n += 1;
        assert(numbers(order@) =~= numbers(before).insert(at as int, n - 1));
    }
    assert(times@.take(n as int) =~= times@);
    order
}

/// How many of `count` files are listed.
pub open spec fn listed_count(count: nat) -> nat {
    if count < MAX_LISTED {
        count
    } else {
        MAX_LISTED as nat
    }
}

/// The names of the files that are listed, first those that rank first.
pub open spec fn listed(
    paths: Seq<Seq<u8>>,
    times: Seq<Option<i128>>,
) -> Seq<Seq<char>> {
    Seq::new(
        listed_count(paths.len()),
        |i: int| pattern_text(lossy_text(paths[ranking(times)[i]]), HOST),
    )
}

/// What is reported of the files `paths`, which were found in `duration_ms`
/// milliseconds and have the times `times`.
pub open spec fn is_glob_output(
    output: GlobSearchOutput,
    paths: Seq<Seq<u8>>,
    times: Seq<Option<i128>>,
    duration_ms: u128,
) -> bool {
    &&& output.duration_ms == duration_ms
    &&& output.num_files == listed_count(paths.len())
    &&& texts(output.filenames@) == listed(paths, times)
    &&& output.truncated == (paths.len() > MAX_LISTED)
}

/// The report of the files that were found.
pub fn build_glob_output(
    paths: &Vec<Vec<u8>>,
    times: &Vec<Option<i128>>,
    duration_ms: u128,
) -> (r: GlobSearchOutput)
    requires
        times@.len() == paths@.len(),
    ensures
        is_glob_output(r, byte_texts(paths@), times@, duration_ms),
        forall|i: int|
            0 <= i < r.filenames@.len() && valid_utf8(paths@[ranking(times@)[i]]@)
                ==> (#[trigger] r.filenames@[i])@ == pattern_text(
                decode_utf8(paths@[ranking(times@)[i]]@),
                HOST,
            ),
{
    let order = rank(times);
    let truncated = paths.len() > MAX_LISTED;
    let count: usize = if truncated {
        MAX_LISTED
    } else {
        paths.len()
    };
    let ghost wanted = listed(byte_texts(paths@), times@);
    proof {
        law_ranking_is_stable_order(times@);
    }
    let mut filenames: Vec<String> = Vec::new();
    let mut i: usize = 0;
    assert(texts(filenames@) =~= wanted.take(0));
    while i < count
        invariant
            i <= count <= paths@.len(),
            count == wanted.len(),
            wanted == listed(byte_texts(paths@), times@),
            numbers(order@) == ranking(times@),
            order@.len() == times@.len() == paths@.len(),
            forall|j: int|
                0 <= j < times@.len() ==> 0 <= #[trigger] ranking(times@)[j] < times@.len(),
            texts(filenames@) == wanted.take(i as int),
            filenames@.len() == i,
            forall|j: int|
                0 <= j < i && valid_utf8(paths@[ranking(times@)[j]]@)
                    ==> (#[trigger] filenames@[j])@ == pattern_text(
                    decode_utf8(paths@[ranking(times@)[j]]@),
                    HOST,
                ),
        decreases count - i,
    {
        let k = order[i];
        assert(k == numbers(order@)[i as int]);
        let text = path_text(&paths[k]);
        let name = normalize_glob_pattern_text(text.as_str(), HOST);
        let ghost before = filenames@;
        filenames.push(name);
        i += 1;
        assert(texts(filenames@) =~= texts(before).push(name@));
        assert(texts(filenames@) =~= wanted.take(i as int));
    }
    assert(wanted.take(i as int) =~= wanted);
    GlobSearchOutput { duration_ms, num_files: filenames.len(), filenames, truncated }
}

/// `at` are the numbers of the entries whose paths are `found`, in their order.
pub open spec fn are_found_at(
    entries: Seq<WalkEntry>,
    matched: Seq<bool>,
    seen: Seq<Seq<u8>>,
    found: Seq<Seq<u8>>,
    at: Seq<int>,
) -> bool {
    &&& at.len() == found.len()
    &&& forall|i: int|
        0 <= i < at.len() ==> 0 <= #[trigger] at[i] < entries.len() && matched[at[i]]
            && entries[at[i]].path@ == found[i]
    &&& forall|i: int, j: int| 0 <= i < j < at.len() ==> #[trigger] at[i] < #[trigger] at[j]
    &&& forall|k: int|
        0 <= k < entries.len() && matched[k] ==> at.contains(k) || holds_path(
            seen,
            (#[trigger] entries[k]).path@,
        ) || exists|j: int|
            0 <= j < at.len() && at[j] < k && #[trigger] same_path(found[j], entries[k].path@)
}

/// The files that are found come in the order of the entries, each at its first entry: every
/// entry that matches is among them, unless its path was seen before, on an earlier walk or
/// on this one.
pub proof fn law_found_files_keep_order(
    entries: Seq<WalkEntry>,
    matched: Seq<bool>,
    seen: Seq<Seq<u8>>,
)
    requires
        matched.len() == entries.len(),
    ensures
        exists|at: Seq<int>| #[trigger]
            are_found_at(entries, matched, seen, fresh(entries, matched, seen), at),
    decreases entries.len(),
{
    let all = fresh(entries, matched, seen);
    if entries.len() == 0 {
        let none = Seq::<int>::empty();
        assert(are_found_at(entries, matched, seen, all, none));
    } else {
        let es = entries.drop_last();
        let ms = matched.drop_last();
        let earlier = fresh(es, ms, seen);
        law_found_files_keep_order(es, ms, seen);
        let before = choose|at: Seq<int>| #[trigger] are_found_at(es, ms, seen, earlier, at);
        let n = entries.len() - 1;
        let p = entries[n].path@;
        let taken = matched.last() && !holds_path(seen, p) && !holds_path(earlier, p);
        let at = if taken {
            before.push(n)
        } else {
            before
        };
        assert forall|i: int| 0 <= i < at.len() implies 0 <= #[trigger] at[i] < entries.len()
            && matched[at[i]] && entries[at[i]].path@ == all[i] by {
            if i < before.len() {
                assert(at[i] == before[i]);
                assert(all[i] == earlier[i]);
            }
        }
        assert forall|i: int, j: int| 0 <= i < j < at.len() implies #[trigger] at[i]
            < #[trigger] at[j] by {
            assert(at[i] == before[i]);
            if j < before.len() {
                assert(at[j] == before[j]);
            }
        }
        assert forall|k: int| 0 <= k < entries.len() && matched[k] implies at.contains(k)
            || holds_path(seen, (#[trigger] entries[k]).path@) || exists|j: int|
            0 <= j < at.len() && at[j] < k && #[trigger] same_path(all[j], entries[k].path@) by {
            if k < n {
                assert(es[k] == entries[k] && ms[k] == matched[k]);
                if before.contains(k) {
                    let i = choose|i: int| 0 <= i < before.len() && before[i] == k;
                    assert(at[i] == k);
                } else if !holds_path(seen, entries[k].path@) {
                    let j = choose|j: int|
                        0 <= j < before.len() && before[j] < k && #[trigger] same_path(
                            earlier[j],
                            es[k].path@,
                        );
                    assert(at[j] == before[j] && all[j] == earlier[j]);
                    assert(same_path(all[j], entries[k].path@));
                }
            } else if taken {
                assert(at[before.len() as int] == n);
            } else if !holds_path(seen, p) {
                let j = choose|j: int| 0 <= j < earlier.len() && #[trigger] same_path(earlier[j], p);
                assert(at[j] < n && all[j] == earlier[j]);
                assert(same_path(all[j], entries[k].path@));
            }
        }
        assert(are_found_at(entries, matched, seen, all, at));
    }
}

/// An entry of a walk is found where it is a file, where the glob matches what its path reads
/// as, and where no directory is passed by on the way to it: neither that which the walk
/// starts from, nor any below it that the path goes through.
pub proof fn law_entry_is_found_where_glob_matches(
    entries: Seq<WalkEntry>,
    start: Seq<u8>,
    glob: Seq<char>,
    k: int,
)
    requires
        0 <= k < entries.len(),
    ensures
        matches_of(entries, start, glob).len() == entries.len(),
        matches_of(entries, start, glob)[k] <==> {
            let cs = components(entries[k].path@);
            &&& entries[k].is_file
            &&& glob_matches(glob, lossy_text(entries[k].path@))
            &&& !(exists|i: int|
                components(start).len() <= i < cs.len() - 1 && is_ignored_dir(#[trigger] cs[i]))
            &&& !((file_name(start) matches Some(name) && is_ignored_dir(name)) && exists|i: int|
                0 <= i < entries.len() && (#[trigger] entries[i]).is_dir && components(
                    entries[i].path@,
                ) == components(start))
        },
{
}

/// Of two files the one that was modified later is listed first, and one whose time is not
/// known before any whose time is; of those of which neither goes before the other, the one
/// that was found first. Every file has one place.
pub proof fn law_newest_file_is_listed_first(times: Seq<Option<i128>>, i: int, j: int)
    requires
        0 <= i < j < times.len(),
    ensures
        ranking(times).len() == times.len(),
        ({
            let (x, y) = (ranking(times)[i], ranking(times)[j]);
            &&& 0 <= x < times.len() && 0 <= y < times.len() && x != y
            &&& match (times[x], times[y]) {
                (Some(s), Some(t)) => s > t || (s == t && x < y),
                (None, Some(_)) => true,
                (Some(_), None) => false,
                (None, None) => x < y,
            }
        }),
{
    law_ranking_is_stable_order(times);
    assert(ranks_before(times, ranking(times)[i], ranking(times)[j]));
}

/// The first hundred files are listed, or all where there are no more, by what their paths
/// read as; and it is said whether there are more.
pub proof fn law_hundred_files_are_listed(
    output: GlobSearchOutput,
    paths: Seq<Seq<u8>>,
    times: Seq<Option<i128>>,
    duration_ms: u128,
)
    requires
        is_glob_output(output, paths, times, duration_ms),
    ensures
        output.filenames@.len() == if paths.len() < 100 {
            paths.len() as int
        } else {
            100
        },
        forall|i: int|
            0 <= i < output.filenames@.len() ==> (#[trigger] output.filenames@[i])@ == lossy_text(
                paths[ranking(times)[i]],
            ),
        output.num_files == output.filenames@.len(),
        output.truncated <==> paths.len() > 100,
        output.duration_ms == duration_ms,
{
    let names = texts(output.filenames@);
    assert(names.len() == output.filenames@.len());
    assert forall|i: int| 0 <= i < output.filenames@.len() implies (
    #[trigger] output.filenames@[i])@ == lossy_text(paths[ranking(times)[i]]) by {
        assert(names[i] == output.filenames@[i]@);
        assert(names[i] == listed(paths, times)[i]);
    }
}

} // verus!
