//! Where an annotation goes in a Markdown text, and the text with the annotation in
//! it.

use vstd::prelude::*;
use vstd::string::*;
use vstd::utf8::*;

use crate::block::{block_of, build_ai_annotation_block, law_block_ends_with_newline};
use crate::endings::{
    detect_line_ending_style, lemma_with_plain_newlines, newline_of, normalize_line_endings_to,
    normalized,
};
use crate::error::FileError;
use crate::lines::{lemma_line_end, line_end};
use crate::offsets::{
    lemma_offset_table, lemma_origin, lemma_origin_keeps_pairs, lemma_origin_normalized,
    normalize_text_with_offsets, origin,
};
use crate::search::{
    find_all, law_occurrences_are_all_places, lemma_occurrences, occurrences, occurs_at, stands,
    stands_at,
};
use crate::style::leads_back;
use crate::text::{
    byte_len, byte_slice, char_offsets, chars_of, lemma_boundary_is_prefix, lemma_byte_len_take,
    lemma_encode_injective, lemma_encode_subrange, lemma_prefix_is_boundary, same_text, text_option,
    trim, trimmed,
};

verus! {

/// The position that is meant by `position`, which is `after` or `end` where it is
/// not given.
pub open spec fn position_of(position: Option<Seq<char>>, has_anchor: bool) -> Result<
    Seq<char>,
    FileError,
> {
    let p = match position {
        Some(p) => p,
        None => if has_anchor {
            "after"@
        } else {
            "end"@
        },
    };
    if p == "before"@ || p == "after"@ || p == "end"@ {
        Ok(p)
    } else {
        Err(FileError::UnknownPosition)
    }
}

/// The position that is meant by `position`.
pub fn normalize_annotation_position(position: Option<&str>, has_anchor: bool) -> (r: Result<
    &'static str,
    FileError,
>)
    ensures
        match r {
            Ok(p) => position_of(text_option(position), has_anchor) == Ok::<Seq<char>, FileError>(
                p@,
            ),
            Err(e) => position_of(text_option(position), has_anchor) == Err::<
                Seq<char>,
                FileError,
            >(e),
        },
{
    let p = match position {
        Some(p) => p,
        None => if has_anchor {
            "after"
        } else {
            "end"
        },
    };
    if same_text(p, "before") {
        Ok("before")
    } else if same_text(p, "after") {
        Ok("after")
    } else if same_text(p, "end") {
        Ok("end")
    } else {
        Err(FileError::UnknownPosition)
    }
}

/// The one place in `original` where `anchor` stands, or where what is equal to it
/// but for the form of line endings stands, as a range of characters.
pub open spec fn anchor_range(original: Seq<char>, anchor: Seq<char>) -> Result<
    (int, int),
    FileError,
> {
    if trimmed(anchor).len() == 0 {
        Err(FileError::EmptyAnchor)
    } else {
        let exact = occurrences(original, anchor, 0);
        if exact.len() == 1 {
            Ok((exact[0], exact[0] + anchor.len()))
        } else if exact.len() > 1 {
            Err(FileError::AmbiguousAnchor)
        } else {
            let found = occurrences(normalized(original), normalized(anchor), 0);
            if found.len() == 0 {
                Err(FileError::AnchorNotFound)
            } else if found.len() == 1 {
                Ok(
                    (
                        origin(original, found[0]),
                        origin(original, found[0] + normalized(anchor).len()),
                    ),
                )
            } else {
                Err(FileError::AmbiguousAnchor)
            }
        }
    }
}

/// The byte range `r` of `text` is its character range `want`.
pub open spec fn is_byte_range(text: Seq<char>, want: (int, int), r: (usize, usize)) -> bool {
    &&& 0 <= want.0 <= want.1 <= text.len()
    &&& r.0 == byte_len(text.take(want.0))
    &&& r.1 == byte_len(text.take(want.1))
}

/// The byte range of the one place in `original` that `anchor` leads to.
pub fn find_unique_anchor_range(original: &str, anchor: &str) -> (r: Result<
    (usize, usize),
    FileError,
>)
    ensures
        match r {
            Ok(range) => anchor_range(original@, anchor@) is Ok && is_byte_range(
                original@,
                anchor_range(original@, anchor@)->Ok_0,
                range,
            ),
            Err(e) => anchor_range(original@, anchor@) == Err::<(int, int), FileError>(e),
        },
{
    if trim(anchor).as_str().is_empty() {
        return Err(FileError::EmptyAnchor);
    }
    let chars = chars_of(original);
    let anchor_chars = chars_of(anchor);
    proof {
        if anchor@.len() == 0 {
            assert(trimmed(anchor@).len() == 0);
        }
        lemma_occurrences(original@, anchor@, 0);
    }
    let exact = find_all(&chars, &anchor_chars);
    let ghost exact_ints = exact@.map_values(|i: usize| i as int);
    if exact.len() == 1 {
        assert(exact_ints[0] == exact@[0]);
        let offset_of = char_offsets(original);
        let start = exact[0];
        assert(start + anchor_chars@.len() <= chars.len());
        let end: usize = start + anchor_chars.len();
        assert(offset_of@[start as int] == byte_len(original@.take(start as int)));
        assert(offset_of@[end as int] == byte_len(original@.take(end as int)));
        return Ok((offset_of[start], offset_of[end]));
    }
    if exact.len() > 1 {
        return Err(FileError::AmbiguousAnchor);
    }
    let normalized_original = normalize_text_with_offsets(original);
    let normalized_anchor = normalize_line_endings_to(anchor, "\n");
    let haystack = chars_of(normalized_original.text.as_str());
    let needle = chars_of(normalized_anchor.as_str());
    proof {
        reveal_strlit("\n");
        assert("\n"@ =~= seq!['\n']);
        lemma_with_plain_newlines(normalized(anchor@));
        assert(needle@.len() > 0);
        lemma_occurrences(haystack@, needle@, 0);
    }
    let found = find_all(&haystack, &needle);
    let ghost found_ints = found@.map_values(|i: usize| i as int);
    if found.len() == 0 {
        return Err(FileError::AnchorNotFound);
    }
    if found.len() > 1 {
        return Err(FileError::AmbiguousAnchor);
    }
    assert(found_ints[0] == found@[0]);
    let start = found[0];
    assert(start + needle@.len() <= haystack.len());
    let end: usize = start + needle.len();
    let offset_of = char_offsets(normalized_original.text.as_str());
    proof {
        lemma_offset_table(original@, start as int);
        lemma_offset_table(original@, end as int);
        lemma_origin(original@, start as int);
        lemma_origin(original@, end as int);
        assert(offset_of@[start as int] == byte_len(haystack@.take(start as int)));
        assert(offset_of@[end as int] == byte_len(haystack@.take(end as int)));
        let offsets = normalized_original.original_offsets@;
        let mapped = offsets.map_values(|o: usize| o as int);
        assert(mapped[offset_of@[start as int] as int] == offsets[offset_of@[start as int] as int]);
        assert(mapped[offset_of@[end as int] as int] == offsets[offset_of@[end as int] as int]);
    }
    Ok(
        (
            normalized_original.original_offsets[offset_of[start]],
            normalized_original.original_offsets[offset_of[end]],
        ),
    )
}

/// The start of the line that the first `k` characters of `s` end in.
pub open spec fn line_start(s: Seq<char>, k: int) -> int
    decreases k,
{
    if k <= 0 {
        0
    } else if s[k - 1] == '\n' {
        k
    } else {
        line_start(s, k - 1)
    }
}

/// The position after the first newline of `s` that is not before `k`, or the end of
/// `s` where there is none.
pub open spec fn line_after(s: Seq<char>, k: int) -> int {
    let e = line_end(s, k);
    if e < s.len() {
        e + 1
    } else {
        s.len() as int
    }
}

/// The number of characters of `text` that end at byte `index`.
fn char_index(offset_of: &Vec<usize>, text: &str, index: usize) -> (k: usize)
    requires
        is_char_boundary(encode_utf8(text@), index as int),
        offset_of@.len() == text@.len() + 1,
        forall|k: int| 0 <= k <= text@.len() ==> #[trigger] offset_of@[k] == byte_len(text@.take(k)),
    ensures
        k <= text@.len(),
        byte_len(text@.take(k as int)) == index,
{
    let ghost want = lemma_boundary_is_prefix(text@, index as int);
    let count: usize = offset_of.len();
    let mut k: usize = 0;
    while offset_of[k] != index
        invariant
            k <= want <= text@.len() < count,
            byte_len(text@.take(want)) == index,
            offset_of@.len() == text@.len() + 1,
            forall|k: int|
                0 <= k <= text@.len() ==> #[trigger] offset_of@[k] == byte_len(text@.take(k)),
        decreases want - k,
    {
        assert(offset_of@[want] == index);
        k += 1;
    }
    k
}

/// A prefix is the only one with its byte length.
pub proof fn lemma_prefix_unique(s: Seq<char>, k: int, l: int)
    requires
        0 <= k <= s.len(),
        0 <= l <= s.len(),
        byte_len(s.take(k)) == byte_len(s.take(l)),
    ensures
        k == l,
{
    if k < l {
        lemma_byte_len_take(s, k, l);
    }
    if l < k {
        lemma_byte_len_take(s, l, k);
    }
}

/// The byte offset at which the line starts that byte `index` is in.
pub fn line_start_for_index(text: &str, index: usize) -> (r: usize)
    requires
        is_char_boundary(encode_utf8(text@), index as int),
    ensures
        forall|k: int|
            0 <= k <= text@.len() && byte_len(#[trigger] text@.take(k)) == index ==> r == byte_len(
                text@.take(line_start(text@, k)),
            ),
{
    let chars = chars_of(text);
    let offset_of = char_offsets(text);
    let k = char_index(&offset_of, text, index);
    let mut i: usize = k;
    while i > 0 && chars[i - 1] != '\n'
        invariant
            i <= k <= chars@.len(),
            chars@ == text@,
            line_start(text@, i as int) == line_start(text@, k as int),
        decreases i,
    {
        i -= 1;
    }
    proof {
        assert forall|l: int|
            0 <= l <= text@.len() && byte_len(#[trigger] text@.take(l)) == index implies offset_of@[i as int]
            == byte_len(text@.take(line_start(text@, l))) by {
            lemma_prefix_unique(text@, k as int, l);
        }
    }
    offset_of[i]
}

/// The byte offset after the newline that ends the line that byte `index` is in, or
/// the end of `text` where no newline follows.
pub fn line_end_for_index(text: &str, index: usize) -> (r: usize)
    requires
        is_char_boundary(encode_utf8(text@), index as int),
    ensures
        forall|k: int|
            0 <= k <= text@.len() && byte_len(#[trigger] text@.take(k)) == index ==> r == byte_len(
                text@.take(line_after(text@, k)),
            ),
{
    let chars = chars_of(text);
    let offset_of = char_offsets(text);
    let k = char_index(&offset_of, text, index);
    let mut i: usize = k;
    while i < chars.len() && chars[i] != '\n'
        invariant
            k <= i <= chars@.len(),
            chars@ == text@,
            line_end(text@, i as int) == line_end(text@, k as int),
        decreases chars@.len() - i,
    {
        i += 1;
    }
    let end: usize = if i < chars.len() {
        i + 1
    } else {
        i
    };
    proof {
        assert(end == line_after(text@, k as int));
        assert forall|l: int|
            0 <= l <= text@.len() && byte_len(#[trigger] text@.take(l)) == index implies offset_of@[end as int]
            == byte_len(text@.take(line_after(text@, l))) by {
            lemma_prefix_unique(text@, k as int, l);
        }
    }
    offset_of[end]
}

/// `s` ends with `p`.
pub open spec fn ends_with(s: Seq<char>, p: Seq<char>) -> bool {
    p.len() <= s.len() && s.skip(s.len() - p.len()) == p
}

/// Whether `text` ends with `p`.
fn text_ends_with(text: &str, p: &str) -> (r: bool)
    ensures
        r == ends_with(text@, p@),
{
    let s = chars_of(text);
    let q = chars_of(p);
    if q.len() > s.len() {
        return false;
    }
    proof {
        let i = s@.len() - q@.len();
        assert(s@.skip(i) =~= s@.subrange(i, i + q@.len()));
    }
    stands_at(&s, &q, s.len() - q.len())
}

/// What separates a block from the text `before` it: what it takes for a blank line
/// to stand between them.
pub open spec fn separation(before: Seq<char>, newline: Seq<char>) -> Seq<char> {
    if before.len() == 0 || ends_with(before, "\r\n\r\n"@) || ends_with(before, "\n\n"@) {
        seq![]
    } else if before.last() == '\n' {
        newline
    } else {
        newline + newline
    }
}

/// What is put in a text for a block to stand after `before`, where the text goes on
/// after that exactly if `more`.
pub open spec fn insertion(
    before: Seq<char>,
    more: bool,
    block: Seq<char>,
    newline: Seq<char>,
) -> Seq<char> {
    let body = separation(before, newline) + block;
    if more && !ends_with(body, newline) {
        body + newline
    } else {
        body
    }
}

/// `original` with a block put in after its first `k` characters.
pub open spec fn inserted(
    original: Seq<char>,
    k: int,
    block: Seq<char>,
    newline: Seq<char>,
) -> Seq<char> {
    original.take(k) + insertion(original.take(k), k < original.len(), block, newline)
        + original.skip(k)
}

/// `original` with `block` put in at byte `insert_at`.
pub fn insert_annotation_block(
    original: &str,
    insert_at: usize,
    block: &str,
    newline: &str,
) -> (r: String)
    requires
        is_char_boundary(encode_utf8(original@), insert_at as int),
    ensures
        forall|k: int|
            0 <= k <= original@.len() && byte_len(#[trigger] original@.take(k)) == insert_at ==> r@
                == inserted(original@, k, block@, newline@),
{
    let total: usize = original.as_bytes().len();
    let ghost k = lemma_boundary_is_prefix(original@, insert_at as int);
    proof {
        encode_utf8_valid_utf8(original@);
        is_char_boundary_start_end_of_seq(encode_utf8(original@));
        lemma_byte_len_take(original@, k, original@.len() as int);
        assert(original@.take(original@.len() as int) =~= original@);
    }
    let before = byte_slice(original, 0, insert_at);
    let after = byte_slice(original, insert_at, total);
    proof {
        lemma_encode_subrange(original@, 0, k);
        lemma_encode_subrange(original@, k, original@.len() as int);
        assert(original@.take(0) =~= Seq::<char>::empty());
        assert(original@.take(k) =~= original@.subrange(0, k));
        assert(original@.skip(k) =~= original@.subrange(k, original@.len() as int));
        lemma_encode_injective(before@, original@.take(k));
        lemma_encode_injective(after@, original@.skip(k));
        reveal_strlit("\n");
        assert("\n"@ =~= seq!['\n']);
    }
    let mut insertion_text = String::new();
    if insert_at > 0 {
        if text_ends_with(before, "\r\n\r\n") || text_ends_with(before, "\n\n") {
        } else if text_ends_with(before, "\n") {
            insertion_text.append(newline);
        } else {
            insertion_text.append(newline);
            insertion_text.append(newline);
        }
    }
    proof {
        let b = original@.take(k);
        if k == 0 {
            assert(b =~= Seq::<char>::empty());
        } else {
            lemma_byte_len_take(original@, 0, k);
            assert(b.skip(b.len() - 1) =~= seq![b.last()]);
            if b.last() != '\n' {
                assert(b.skip(b.len() - 1)[0] != "\n"@[0]);
            }
        }
        assert(insertion_text@ =~= separation(b, newline@));
        lemma_byte_len_take(original@, k, original@.len() as int);
    }
    insertion_text.append(block);
    if insert_at < total && !text_ends_with(insertion_text.as_str(), newline) {
        insertion_text.append(newline);
    }
    proof {
        if k == original@.len() {
            assert(original@.take(k) =~= original@);
        }
    }
    let mut updated = String::new();
    updated.append(before);
    updated.append(insertion_text.as_str());
    updated.append(after);
    proof {
        assert(updated@ =~= inserted(original@, k, block@, newline@));
        assert forall|l: int|
            0 <= l <= original@.len() && byte_len(#[trigger] original@.take(l)) == insert_at implies updated@
            == inserted(original@, l, block@, newline@) by {
            lemma_prefix_unique(original@, k, l);
        }
    }
    updated
}

/// A Markdown text with an annotation in it, and the position that was meant.
pub struct Annotated {
    pub text: Seq<char>,
    pub position: Seq<char>,
}

/// The outcome of annotating `original`.
pub open spec fn annotated(
    original: Seq<char>,
    annotation: Seq<char>,
    anchor: Option<Seq<char>>,
    position: Option<Seq<char>>,
) -> Result<Annotated, FileError> {
    let newline = newline_of(original);
    match position_of(position, anchor is Some) {
        Err(e) => Err(e),
        Ok(p) => match block_of(annotation, newline) {
            Err(e) => Err(e),
            Ok(block) => if p == "end"@ {
                Ok(
                    Annotated {
                        text: inserted(original, original.len() as int, block, newline),
                        position: p,
                    },
                )
            } else {
                match anchor {
                    None => Err(FileError::AnchorRequired),
                    Some(a) => match anchor_range(original, a) {
                        Err(e) => Err(e),
                        Ok((from, to)) => {
                            let at = if p == "before"@ {
                                line_start(original, from)
                            } else {
                                line_after(original, to)
                            };
                            Ok(
                                Annotated {
                                    text: inserted(original, at, block, newline),
                                    position: p,
                                },
                            )
                        },
                    },
                }
            },
        },
    }
}

proof fn lemma_line_start(s: Seq<char>, k: int)
    requires
        0 <= k <= s.len(),
    ensures
        0 <= line_start(s, k) <= k,
        line_start(s, k) > 0 ==> s[line_start(s, k) - 1] == '\n',
    decreases k,
{
    if k > 0 && s[k - 1] != '\n' {
        lemma_line_start(s, k - 1);
    }
}

/// `original` with `annotation` in it, and the position that was meant.
pub fn annotate_text(
    original: &str,
    annotation: &str,
    anchor: Option<&str>,
    position: Option<&str>,
) -> (r: Result<(String, &'static str), FileError>)
    ensures
        match r {
            Ok((t, p)) => annotated(
                original@,
                annotation@,
                text_option(anchor),
                text_option(position),
            ) == Ok::<Annotated, FileError>(Annotated { text: t@, position: p@ }),
            Err(e) => annotated(
                original@,
                annotation@,
                text_option(anchor),
                text_option(position),
            ) == Err::<Annotated, FileError>(e),
        },
{
    let newline = detect_line_ending_style(original);
    let p = match normalize_annotation_position(position, anchor.is_some()) {
        Ok(p) => p,
        Err(e) => {
            return Err(e);
        },
    };
    let block = match build_ai_annotation_block(annotation, newline) {
        Ok(b) => b,
        Err(e) => {
            return Err(e);
        },
    };
    let ghost at: int;
    let insert_at: usize;
    proof {
        encode_utf8_valid_utf8(original@);
        is_char_boundary_start_end_of_seq(encode_utf8(original@));
    }
    if same_text(p, "end") {
        insert_at = original.as_bytes().len();
        proof {
            at = original@.len() as int;
            assert(original@.take(at) =~= original@);
        }
    } else {
        let anchor_text = match anchor {
            Some(a) => a,
            None => {
                return Err(FileError::AnchorRequired);
            },
        };
        let (anchor_start, anchor_end) = match find_unique_anchor_range(original, anchor_text) {
            Ok(range) => range,
            Err(e) => {
                return Err(e);
            },
        };
        let ghost (from, to) = anchor_range(original@, anchor_text@)->Ok_0;
        proof {
            lemma_prefix_is_boundary(original@, from);
            lemma_prefix_is_boundary(original@, to);
            lemma_line_start(original@, from);
            lemma_line_end(original@, to);
        }
        if same_text(p, "before") {
            insert_at = line_start_for_index(original, anchor_start);
            proof {
                at = line_start(original@, from);
                assert(byte_len(original@.take(from)) == anchor_start);
            }
        } else {
            insert_at = line_end_for_index(original, anchor_end);
            proof {
                at = line_after(original@, to);
                assert(byte_len(original@.take(to)) == anchor_end);
            }
        }
        proof {
            lemma_prefix_is_boundary(original@, at);
        }
    }
    let updated = insert_annotation_block(original, insert_at, block.as_str(), newline);
    assert(byte_len(original@.take(at)) == insert_at);
    Ok((updated, p))
}

/// `text` is `original` with `block` put in after its first `k` characters, which end a
/// line or are all there are, set off by no more than line endings.
pub open spec fn puts_in(
    text: Seq<char>,
    original: Seq<char>,
    k: int,
    lead: Seq<char>,
    block: Seq<char>,
    tail: Seq<char>,
) -> bool {
    let newline = newline_of(original);
    &&& 0 <= k <= original.len()
    &&& k == 0 || k == original.len() || original[k - 1] == '\n'
    &&& lead.len() == 0 || lead == newline || lead == newline + newline
    &&& tail.len() == 0 || tail == newline
    &&& text == original.take(k) + (lead + block + tail) + original.skip(k)
}

/// An annotation leaves the text that was there as it was: what comes out is that text
/// with the block put in at one place, between two lines or at the end.
pub proof fn law_annotation_only_adds(
    original: Seq<char>,
    annotation: Seq<char>,
    anchor: Option<Seq<char>>,
    position: Option<Seq<char>>,
)
    ensures
        annotated(original, annotation, anchor, position) matches Ok(a) ==> block_of(
            annotation,
            newline_of(original),
        ) matches Ok(block) && exists|k: int, lead: Seq<char>, tail: Seq<char>| #[trigger]
            puts_in(a.text, original, k, lead, block, tail),
{
    if let Ok(a) = annotated(original, annotation, anchor, position) {
        let newline = newline_of(original);
        let p = position_of(position, anchor is Some)->Ok_0;
        let block = block_of(annotation, newline)->Ok_0;
        let at = if p == "end"@ {
            original.len() as int
        } else {
            let (from, to) = anchor_range(original, anchor->Some_0)->Ok_0;
            lemma_anchor_range(original, anchor->Some_0);
            lemma_line_start(original, from);
            lemma_line_end(original, to);
            if p == "before"@ {
                line_start(original, from)
            } else {
                line_after(original, to)
            }
        };
        let before = original.take(at);
        let lead = separation(before, newline);
        let body = lead + block;
        let tail = if at < original.len() && !ends_with(body, newline) {
            newline
        } else {
            seq![]
        };
        assert(insertion(before, at < original.len(), block, newline) =~= lead + block + tail);
        assert(puts_in(a.text, original, at, lead, block, tail));
    }
}

/// An anchor leads to a range of the text.
pub proof fn lemma_anchor_range(original: Seq<char>, anchor: Seq<char>)
    ensures
        match anchor_range(original, anchor) {
            Ok((from, to)) => 0 <= from <= to <= original.len(),
            Err(_) => true,
        },
{
    if anchor.len() == 0 {
        assert(trimmed(anchor).len() == 0);
    } else {
        lemma_occurrences(original, anchor, 0);
        let exact = occurrences(original, anchor, 0);
        if exact.len() == 0 {
            let n = normalized(anchor);
            assert(n.len() > 0);
            lemma_occurrences(normalized(original), n, 0);
            let found = occurrences(normalized(original), n, 0);
            if found.len() == 1 {
                assert(occurs_at(normalized(original), n, found[0]));
                lemma_origin(original, found[0]);
                lemma_origin(original, found[0] + n.len());
            }
        } else if exact.len() == 1 {
            assert(occurs_at(original, anchor, exact[0]));
        }
    }
}

/// `p` stands in `s` at `i`, and wherever else it stands, it overlaps what is at `i` to the
/// right: so a search from the left comes by it once.
pub open spec fn stands_once(s: Seq<char>, p: Seq<char>, i: int) -> bool {
    &&& stands(s, p, i)
    &&& forall|j: int| #[trigger] stands(s, p, j) ==> i <= j < i + p.len()
}

/// The part of `original` from `from` to `to` is the anchor: it stands there, and once;
/// or, where it stands nowhere, what it is with plain line endings does in what the text is
/// with plain line endings.
pub open spec fn is_anchor_at(original: Seq<char>, anchor: Seq<char>, from: int, to: int) -> bool {
    if stands_somewhere(original, anchor) {
        stands_once(original, anchor, from) && to == from + anchor.len()
    } else {
        exists|i: int|
            {
                &&& #[trigger] stands_once(normalized(original), normalized(anchor), i)
                &&& leads_back(original, i, from)
                &&& leads_back(original, i + normalized(anchor).len(), to)
            }
    }
}

/// `p` stands somewhere in `s`.
pub open spec fn stands_somewhere(s: Seq<char>, p: Seq<char>) -> bool {
    exists|i: int| #[trigger] stands(s, p, i)
}

/// `p` stands in `s` at two places that do not overlap.
pub open spec fn stands_twice(s: Seq<char>, p: Seq<char>) -> bool {
    exists|i: int, j: int| #[trigger]
        stands(s, p, i) && #[trigger] stands(s, p, j) && i + p.len() <= j
}

/// What a search from the left comes by once stands once, and what it comes by more often
/// stands twice.
proof fn lemma_places_are_counted(s: Seq<char>, p: Seq<char>)
    requires
        p.len() > 0,
    ensures
        occurrences(s, p, 0).len() == 0 <==> !stands_somewhere(s, p),
        occurrences(s, p, 0).len() == 1 ==> stands_once(s, p, occurrences(s, p, 0)[0]),
        occurrences(s, p, 0).len() > 1 <==> stands_twice(s, p),
{
    let at = occurrences(s, p, 0);
    law_occurrences_are_all_places(s, p);
    if at.len() > 0 {
        assert(stands(s, p, at[0]));
    }
    if at.len() > 1 {
        assert(stands(s, p, at[0]) && stands(s, p, at[1]) && at[0] + p.len() <= at[1]);
    }
    if at.len() == 1 {
        assert forall|j: int| #[trigger] stands(s, p, j) implies at[0] <= j < at[0] + p.len() by {
            assert(at.last() == at[0]);
        }
        if stands_twice(s, p) {
            let (i, j) = choose|i: int, j: int| #[trigger]
                stands(s, p, i) && #[trigger] stands(s, p, j) && i + p.len() <= j;
            assert(at[0] <= i);
        }
    }
}

/// An anchor is refused where it is blank, where it stands at two places that do not
/// overlap, and where it stands nowhere; and in between it leads to where it stands. Where it
/// stands nowhere as it is, it is looked for with plain line endings.
pub proof fn law_anchor_leads_to_its_one_place(original: Seq<char>, anchor: Seq<char>)
    ensures
        trimmed(anchor).len() == 0 ==> anchor_range(original, anchor) == Err::<
            (int, int),
            FileError,
        >(FileError::EmptyAnchor),
        trimmed(anchor).len() > 0 && stands_somewhere(original, anchor) ==> match anchor_range(
            original,
            anchor,
        ) {
            Ok(_) => !stands_twice(original, anchor),
            Err(e) => stands_twice(original, anchor) && e == FileError::AmbiguousAnchor,
        },
        trimmed(anchor).len() > 0 && !stands_somewhere(original, anchor) ==> match anchor_range(
            original,
            anchor,
        ) {
            Ok(_) => stands_somewhere(normalized(original), normalized(anchor)) && !stands_twice(
                normalized(original),
                normalized(anchor),
            ),
            Err(e) => if stands_somewhere(normalized(original), normalized(anchor)) {
                stands_twice(normalized(original), normalized(anchor)) && e
                    == FileError::AmbiguousAnchor
            } else {
                e == FileError::AnchorNotFound
            },
        },
        match anchor_range(original, anchor) {
            Ok((from, to)) => 0 <= from <= to <= original.len() && is_anchor_at(
                original,
                anchor,
                from,
                to,
            ),
            Err(_) => true,
        },
{
    lemma_anchor_range(original, anchor);
    if anchor.len() == 0 {
        assert(trimmed(anchor).len() == 0);
    } else {
        let y = normalized(anchor);
        assert(y.len() > 0);
        lemma_places_are_counted(original, anchor);
        lemma_places_are_counted(normalized(original), y);
        let exact = occurrences(original, anchor, 0);
        let found = occurrences(normalized(original), y, 0);
        if trimmed(anchor).len() > 0 && exact.len() == 0 && found.len() == 1 {
            let i = found[0];
            assert(stands_once(normalized(original), y, i));
            lemma_origin_normalized(original, i);
            lemma_origin_normalized(original, i + y.len());
            lemma_origin_keeps_pairs(original, i);
            lemma_origin_keeps_pairs(original, i + y.len());
            assert(leads_back(original, i, origin(original, i)));
            assert(leads_back(original, i + y.len(), origin(original, i + y.len())));
            assert(is_anchor_at(
                original,
                anchor,
                origin(original, i),
                origin(original, i + y.len()),
            ));
        }
        if trimmed(anchor).len() > 0 && exact.len() == 1 {
            assert(stands(original, anchor, exact[0]));
            assert(is_anchor_at(original, anchor, exact[0], exact[0] + anchor.len()));
        }
    }
}

/// The position that is meant: that which is given, and else behind the anchor, or at the
/// end where there is none.
pub open spec fn meant_position(position: Option<Seq<char>>, has_anchor: bool) -> Seq<char> {
    match position {
        Some(p) => p,
        None => if has_anchor {
            "after"@
        } else {
            "end"@
        },
    }
}

/// The place `k` is behind the end `to` of an anchor: at the start of the next line, or at
/// the end of the text.
pub open spec fn is_right_behind(s: Seq<char>, to: int, k: int) -> bool {
    &&& to <= k <= s.len()
    &&& k < s.len() ==> k > to && s[k - 1] == '\n'
    &&& forall|i: int| to <= i < k - 1 ==> #[trigger] s[i] != '\n'
}

/// The place `k` is before the start `from` of an anchor: at the start of its line.
pub open spec fn is_right_before(s: Seq<char>, from: int, k: int) -> bool {
    &&& 0 <= k <= from
    &&& k > 0 ==> s[k - 1] == '\n'
    &&& forall|i: int| k <= i < from ==> #[trigger] s[i] != '\n'
}

/// `lead` is what it takes for a blank line to stand before a block that is put behind
/// `before`, and no more.
pub open spec fn makes_blank_line(before: Seq<char>, lead: Seq<char>, newline: Seq<char>) -> bool {
    let n = before.len() as int;
    let ended = n >= 1 && before[n - 1] == '\n';
    let blank = (n >= 2 && before[n - 1] == '\n' && before[n - 2] == '\n') || (n >= 4 && before[n
        - 1] == '\n' && before[n - 2] == '\r' && before[n - 3] == '\n' && before[n - 4] == '\r');
    if n == 0 || blank {
        lead.len() == 0
    } else if ended {
        lead == newline
    } else {
        lead == newline + newline
    }
}

/// The place `k` is where the annotation is meant to go.
pub open spec fn is_meant_place(
    original: Seq<char>,
    anchor: Option<Seq<char>>,
    meant: Seq<char>,
    k: int,
) -> bool {
    if meant == "end"@ {
        k == original.len()
    } else {
        anchor matches Some(a) && exists|from: int, to: int|
            {
                &&& #[trigger] is_anchor_at(original, a, from, to)
                &&& 0 <= from <= to <= original.len()
                &&& meant == "before"@ ==> is_right_before(original, from, k)
                &&& meant == "after"@ ==> is_right_behind(original, to, k)
            }
    }
}

/// The block of an annotation stands where it is meant to: at the end of the text; or behind
/// the whole of its anchor, where the line ends that the anchor ends in; or before it, where
/// the line starts that the anchor starts in. So the anchor stays in one piece. A blank line
/// sets the block off from what is before it.
pub proof fn law_annotation_stands_where_it_is_meant(
    original: Seq<char>,
    annotation: Seq<char>,
    anchor: Option<Seq<char>>,
    position: Option<Seq<char>>,
)
    requires
        annotated(original, annotation, anchor, position) is Ok,
    ensures
        ({
            let a = annotated(original, annotation, anchor, position)->Ok_0;
            let meant = meant_position(position, anchor is Some);
            &&& a.position == meant
            &&& block_of(annotation, newline_of(original)) is Ok
            &&& exists|k: int, lead: Seq<char>, tail: Seq<char>|
                {
                    &&& #[trigger] puts_in(
                        a.text,
                        original,
                        k,
                        lead,
                        block_of(annotation, newline_of(original))->Ok_0,
                        tail,
                    )
                    &&& is_meant_place(original, anchor, meant, k)
                    &&& makes_blank_line(original.take(k), lead, newline_of(original))
                    &&& tail.len() == 0
                }
        }),
{
    let a = annotated(original, annotation, anchor, position)->Ok_0;
    let newline = newline_of(original);
    let p = position_of(position, anchor is Some)->Ok_0;
    let block = block_of(annotation, newline)->Ok_0;
    reveal_strlit("end");
    reveal_strlit("before");
    reveal_strlit("after");
    assert("end"@.len() == 3 && "before"@.len() == 6 && "after"@.len() == 5);
    let at = if p == "end"@ {
        original.len() as int
    } else {
        let (from, to) = anchor_range(original, anchor->Some_0)->Ok_0;
        law_anchor_leads_to_its_one_place(original, anchor->Some_0);
        lemma_line_start(original, from);
        lemma_line_start_has_no_newline(original, from);
        lemma_line_end(original, to);
        let at = if p == "before"@ {
            line_start(original, from)
        } else {
            line_after(original, to)
        };
        assert(is_anchor_at(original, anchor->Some_0, from, to));
        assert(is_meant_place(original, anchor, p, at));
        at
    };
    let before = original.take(at);
    let lead = separation(before, newline);
    lemma_separation_makes_blank_line(before, newline);
    let body = lead + block;
    let tail = if at < original.len() && !ends_with(body, newline) {
        newline
    } else {
        seq![]
    };
    law_block_ends_with_newline(annotation, newline);
    assert(ends_with(body, newline)) by {
        assert(body.skip(body.len() - newline.len()) =~= block.skip(block.len() - newline.len()));
    }
    assert(insertion(before, at < original.len(), block, newline) =~= lead + block + tail);
    assert(puts_in(a.text, original, at, lead, block, tail));
}

proof fn lemma_line_start_has_no_newline(s: Seq<char>, k: int)
    requires
        0 <= k <= s.len(),
    ensures
        forall|i: int| line_start(s, k) <= i < k ==> #[trigger] s[i] != '\n',
    decreases k,
{
    if k > 0 && s[k - 1] != '\n' {
        lemma_line_start_has_no_newline(s, k - 1);
    }
}

proof fn lemma_separation_makes_blank_line(before: Seq<char>, newline: Seq<char>)
    ensures
        makes_blank_line(before, separation(before, newline), newline),
{
    reveal_strlit("\r\n\r\n");
    reveal_strlit("\n\n");
    let four = seq!['\r', '\n', '\r', '\n'];
    let two = seq!['\n', '\n'];
    assert("\r\n\r\n"@ =~= four);
    assert("\n\n"@ =~= two);
    let n = before.len() as int;
    if n >= 2 {
        let t = before.skip(n - 2);
        assert(t[0] == before[n - 2] && t[1] == before[n - 1]);
        assert(t == two <==> t[0] == '\n' && t[1] == '\n') by {
            if t[0] == '\n' && t[1] == '\n' {
                assert(t =~= two);
            }
        }
    }
    if n >= 4 {
        let t = before.skip(n - 4);
        assert(t[0] == before[n - 4] && t[1] == before[n - 3] && t[2] == before[n - 2] && t[3]
            == before[n - 1]);
        assert(t == four <==> t[0] == '\r' && t[1] == '\n' && t[2] == '\r' && t[3] == '\n') by {
            if t[0] == '\r' && t[1] == '\n' && t[2] == '\r' && t[3] == '\n' {
                assert(t =~= four);
            }
        }
    }
}

/// An annotation is refused for what is wrong with it, the first thing first: a position
/// that there is none of, a blank annotation, no anchor for a place that needs one, and an
/// anchor that does not lead to one place.
pub proof fn law_annotation_is_refused_for_what_is_wrong(
    original: Seq<char>,
    annotation: Seq<char>,
    anchor: Option<Seq<char>>,
    position: Option<Seq<char>>,
)
    ensures
        ({
            let r = annotated(original, annotation, anchor, position);
            let meant = meant_position(position, anchor is Some);
            let known = meant == "before"@ || meant == "after"@ || meant == "end"@;
            let blank = trimmed(annotation).len() == 0;
            &&& !known ==> r == Err::<Annotated, FileError>(FileError::UnknownPosition)
            &&& known && blank ==> r == Err::<Annotated, FileError>(FileError::EmptyAnnotation)
            &&& known && !blank && meant == "end"@ ==> r is Ok
            &&& known && !blank && meant != "end"@ ==> match anchor {
                None => r == Err::<Annotated, FileError>(FileError::AnchorRequired),
                Some(a) => match anchor_range(original, a) {
                    Ok(_) => r is Ok,
                    Err(e) => r == Err::<Annotated, FileError>(e),
                },
            }
        }),
{
}

/// A block is put in a text at one place. What is before it and what is behind it stay as
/// they are. A blank line is made before it where there is none, and a line ending behind it
/// where the text goes on and there is none.
pub proof fn law_block_is_put_in_at_place(
    original: Seq<char>,
    k: int,
    block: Seq<char>,
    newline: Seq<char>,
)
    requires
        0 <= k <= original.len(),
    ensures
        exists|lead: Seq<char>|
            {
                let body = lead + block;
                &&& #[trigger] makes_blank_line(original.take(k), lead, newline)
                &&& inserted(original, k, block, newline) == original.take(k) + (body + if k
                    < original.len() && !(newline.len() <= body.len() && body.skip(
                    body.len() - newline.len(),
                ) == newline) {
                    newline
                } else {
                    Seq::<char>::empty()
                }) + original.skip(k)
            },
{
    let before = original.take(k);
    let lead = separation(before, newline);
    lemma_separation_makes_blank_line(before, newline);
    let body = lead + block;
    assert(body + Seq::<char>::empty() =~= body);
    assert(makes_blank_line(before, lead, newline));
}

/// The start of the line that a place is in is behind the last newline before the place, or
/// at the start of the text; and the end of the line is behind the first newline that is not
/// before the place, or at the end of the text.
pub proof fn law_line_goes_from_newline_to_newline(s: Seq<char>, k: int)
    requires
        0 <= k <= s.len(),
    ensures
        is_right_before(s, k, line_start(s, k)),
        is_right_behind(s, k, line_after(s, k)),
{
    lemma_line_start(s, k);
    lemma_line_start_has_no_newline(s, k);
    lemma_line_end(s, k);
}

/// A position is one of three words, and where none is given it is that behind the anchor, or
/// at the end where there is none. Any other word is refused.
pub proof fn law_position_is_one_of_three(position: Option<Seq<char>>, has_anchor: bool)
    ensures
        match position {
            None => position_of(position, has_anchor) == Ok::<Seq<char>, FileError>(
                if has_anchor {
                    "after"@
                } else {
                    "end"@
                },
            ),
            Some(p) => if p == "before"@ || p == "after"@ || p == "end"@ {
                position_of(position, has_anchor) == Ok::<Seq<char>, FileError>(p)
            } else {
                position_of(position, has_anchor) == Err::<Seq<char>, FileError>(
                    FileError::UnknownPosition,
                )
            },
        },
{
}

} // verus!
