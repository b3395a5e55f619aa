//! Replacing a piece of a text by another one, in the style of the text.

use vstd::prelude::*;
use vstd::string::*;
use vstd::utf8::*;

use crate::endings::{
    detect_line_ending_style, lemma_with_plain_newlines, newline_of, normalize_line_endings_to,
    normalized, normalized_to,
};
use crate::error::FileError;
use crate::offsets::{
    lemma_offset_table, lemma_origin, normalize_text_with_offsets, offset_table, origin,
};
use crate::search::{
    find_all, find_from, int_ranges, lemma_first_from, lemma_occurrences, lemma_occurs, occurrences,
    occurs, ranges_at, replaced_all, replaced_first, splice,
};
use crate::text::{
    byte_len, byte_slice, char_offsets, chars_of, lemma_boundary_is_prefix, lemma_byte_len_take,
    lemma_encode_concat, lemma_encode_injective, lemma_encode_subrange, lemma_prefix_is_boundary,
    string_of,
};

verus! {

/// The ranges start and end between characters, and none starts before the end of the
/// one before it.
pub open spec fn byte_ranges_fit(text: Seq<char>, ranges: Seq<(usize, usize)>) -> bool {
    &&& forall|k: int|
        0 <= k < ranges.len() ==> {
            &&& is_char_boundary(encode_utf8(text), (#[trigger] ranges[k]).0 as int)
            &&& is_char_boundary(encode_utf8(text), ranges[k].1 as int)
        }
    &&& forall|k: int| 0 < k < ranges.len() ==> ranges[k - 1].1 <= (#[trigger] ranges[k]).0
}

/// `original` with `replacement` in place of each of the byte ranges.
pub fn replace_mapped_ranges(
    original: &str,
    ranges: &[(usize, usize)],
    replacement: &str,
) -> (r: String)
    requires
        byte_ranges_fit(original@, ranges@),
    ensures
        encode_utf8(r@) == splice(
            encode_utf8(original@),
            int_ranges(ranges@),
            encode_utf8(replacement@),
            0,
        ),
{
    let total: usize = original.as_bytes().len();
    let mut updated = String::new();
    let mut cursor: usize = 0;
    let mut k: usize = 0;
    let ghost bytes = encode_utf8(original@);
    let ghost rep = encode_utf8(replacement@);
    let ghost all = int_ranges(ranges@);
    proof {
        encode_utf8_valid_utf8(original@);
        is_char_boundary_start_end_of_seq(bytes);
        assert(all.skip(0) =~= all);
        assert(encode_utf8(updated@) =~= Seq::<u8>::empty());
        assert(encode_utf8(updated@) + splice(bytes, all, rep, 0) =~= splice(bytes, all, rep, 0));
    }
    while k < ranges.len()
        invariant
            byte_ranges_fit(original@, ranges@),
            bytes == encode_utf8(original@),
            rep == encode_utf8(replacement@),
            all == int_ranges(ranges@),
            k <= ranges@.len(),
            is_char_boundary(bytes, cursor as int),
            k < ranges@.len() ==> cursor <= ranges@[k as int].0,
            encode_utf8(updated@) + splice(bytes, all.skip(k as int), rep, cursor as int) == splice(
                bytes,
                all,
                rep,
                0,
            ),
        decreases ranges@.len() - k,
    {
        let (start, end) = ranges[k];
        let ghost before = updated@;
        let piece = byte_slice(original, cursor, start);
        updated.append(piece);
        updated.append(replacement);
        proof {
            lemma_encode_concat(before, piece@);
            lemma_encode_concat(before + piece@, replacement@);
            let rest = all.skip(k as int);
            assert(rest[0] == (start as int, end as int));
            assert(rest.drop_first() =~= all.skip(k + 1));
            assert(encode_utf8(updated@) + splice(bytes, all.skip(k + 1), rep, end as int)
                =~= encode_utf8(before) + splice(bytes, rest, rep, cursor as int));
        }
        cursor = end;
        k += 1;
    }
    let ghost before = updated@;
    proof {
        let c = lemma_boundary_is_prefix(original@, cursor as int);
        lemma_byte_len_take(original@, c, original@.len() as int);
    }
    let tail = byte_slice(original, cursor, total);
    updated.append(tail);
    proof {
        lemma_encode_concat(before, tail@);
        assert(bytes.subrange(cursor as int, total as int) =~= bytes.skip(cursor as int));
    }
    updated
}

/// Splicing a text and splicing its UTF-8 form agree.
pub proof fn lemma_splice_encode(
    s: Seq<char>,
    ranges: Seq<(int, int)>,
    bytes: Seq<(int, int)>,
    rep: Seq<char>,
    from: int,
)
    requires
        0 <= from <= s.len(),
        ranges.len() == bytes.len(),
        forall|k: int|
            0 <= k < ranges.len() ==> {
                &&& from <= (#[trigger] ranges[k]).0 <= ranges[k].1 <= s.len()
                &&& bytes[k].0 == byte_len(s.take(ranges[k].0))
                &&& bytes[k].1 == byte_len(s.take(ranges[k].1))
            },
        forall|k: int, l: int|
            0 <= k < l < ranges.len() ==> (#[trigger] ranges[k]).1 <= (#[trigger] ranges[l]).0,
    ensures
        encode_utf8(splice(s, ranges, rep, from)) == splice(
            encode_utf8(s),
            bytes,
            encode_utf8(rep),
            byte_len(s.take(from)) as int,
        ),
    decreases ranges.len(),
{
    if ranges.len() == 0 {
        lemma_encode_subrange(s, from, s.len() as int);
        assert(s.take(s.len() as int) =~= s);
        assert(s.skip(from) =~= s.subrange(from, s.len() as int));
        assert(encode_utf8(s).skip(byte_len(s.take(from)) as int) =~= encode_utf8(s).subrange(
            byte_len(s.take(from)) as int,
            byte_len(s) as int,
        ));
    } else {
        let (a, b) = ranges[0];
        lemma_encode_subrange(s, from, a);
        lemma_splice_encode(s, ranges.drop_first(), bytes.drop_first(), rep, b);
        let piece = s.subrange(from, a);
        let tail = splice(s, ranges.drop_first(), rep, b);
        lemma_encode_concat(piece, rep);
        lemma_encode_concat(piece + rep, tail);
    }
}

/// The ranges of `s` that stand for the ranges of `n` characters, at the positions
/// `at`, of its form with plain newlines.
pub open spec fn origin_ranges(s: Seq<char>, at: Seq<int>, n: int) -> Seq<(int, int)> {
    at.map_values(|i: int| (origin(s, i), origin(s, i + n)))
}

/// The outcome of an edit. Where `old` occurs in the text, its occurrences are
/// replaced. Where it does not, what is equal to it but for the form of line
/// endings is. The replacement takes the line endings of the text.
pub open spec fn edited(
    original: Seq<char>,
    old: Seq<char>,
    new: Seq<char>,
    replace_all: bool,
) -> Result<Seq<char>, FileError> {
    let rep = normalized_to(new, newline_of(original));
    if old.len() == 0 {
        Err(FileError::EmptyOldString)
    } else if occurs(original, old) {
        if replace_all {
            Ok(replaced_all(original, old, rep))
        } else {
            Ok(replaced_first(original, old, rep))
        }
    } else {
        let at = occurrences(normalized(original), normalized(old), 0);
        if at.len() == 0 {
            Err(FileError::OldStringNotFound)
        } else {
            let chosen = if replace_all {
                at
            } else {
                at.take(1)
            };
            Ok(splice(original, origin_ranges(original, chosen, normalized(old).len() as int), rep, 0))
        }
    }
}

/// A result with its text taken as characters.
pub open spec fn text_result(r: Result<String, FileError>) -> Result<Seq<char>, FileError> {
    match r {
        Ok(s) => Ok(s@),
        Err(e) => Err(e),
    }
}

/// `s` with `rep` in place of the `n` characters at each of the positions `at`.
fn replace_at(s: &Vec<char>, at: &Vec<usize>, n: usize, rep: &str) -> (r: String)
    requires
        forall|k: int| 0 <= k < at@.len() ==> (#[trigger] at@[k]) + n <= s@.len(),
        forall|k: int, l: int|
            0 <= k < l < at@.len() ==> (#[trigger] at@[k]) + n <= (#[trigger] at@[l]),
    ensures
        r@ == splice(s@, ranges_at(at@.map_values(|i: usize| i as int), n as int), rep@, 0),
{
    let ghost all = ranges_at(at@.map_values(|i: usize| i as int), n as int);
    let total: usize = s.len();
    let mut out = String::new();
    let mut cursor: usize = 0;
    let mut k: usize = 0;
    assert(all.skip(0) =~= all);
    assert(out@ + splice(s@, all, rep@, 0) =~= splice(s@, all, rep@, 0));
    while k < at.len()
        invariant
            forall|k: int| 0 <= k < at@.len() ==> (#[trigger] at@[k]) + n <= s@.len(),
            forall|k: int, l: int|
                0 <= k < l < at@.len() ==> (#[trigger] at@[k]) + n <= (#[trigger] at@[l]),
            all == ranges_at(at@.map_values(|i: usize| i as int), n as int),
            k <= at@.len(),
            cursor <= s@.len(),
            total == s@.len(),
            k < at@.len() ==> cursor <= at@[k as int],
            out@ + splice(s@, all.skip(k as int), rep@, cursor as int) == splice(s@, all, rep@, 0),
        decreases at@.len() - k,
    {
        let start = at[k];
        let ghost before = out@;
        let ghost rest = all.skip(k as int);
        let ghost cursor0 = cursor as int;
        let piece = string_of(s, cursor, start);
        out.append(piece.as_str());
        out.append(rep);
        cursor = start + n;
        k += 1;
        proof {
            assert(rest[0] == (start as int, start + n));
            assert(rest.drop_first() =~= all.skip(k as int));
            assert(out@ + splice(s@, all.skip(k as int), rep@, cursor as int) =~= before + splice(
                s@,
                rest,
                rep@,
                cursor0,
            ));
        }
    }
    let tail = string_of(s, cursor, total);
    out.append(tail.as_str());
    assert(tail@ =~= s@.skip(cursor as int));
    out
}

/// `original` with `new_string` in place of `old_string`, in the style of
/// `original`.
pub fn replace_text_preserving_style(
    original: &str,
    old_string: &str,
    new_string: &str,
    replace_all: bool,
) -> (r: Result<String, FileError>)
    ensures
        text_result(r) == edited(original@, old_string@, new_string@, replace_all),
{
    let chars = chars_of(original);
    let old_chars = chars_of(old_string);
    if old_chars.len() == 0 {
        return Err(FileError::EmptyOldString);
    }
    let replacement = normalize_line_endings_to(new_string, detect_line_ending_style(original));
    proof {
        lemma_occurs(original@, old_string@);
        lemma_first_from(original@, old_string@, 0);
        lemma_occurrences(original@, old_string@, 0);
    }
    match find_from(&chars, &old_chars, 0) {
        Some(first) => {
            let at = if replace_all {
                find_all(&chars, &old_chars)
            } else {
                vec![first]
            };
            proof {
                let ints = at@.map_values(|i: usize| i as int);
                assert forall|k: int| 0 <= k < at@.len() implies (#[trigger] at@[k])
                    + old_chars@.len() <= chars@.len() by {
                    assert(ints[k] == at@[k]);
                }
                assert forall|k: int, l: int| 0 <= k < l < at@.len() implies (#[trigger] at@[k])
                    + old_chars@.len() <= (#[trigger] at@[l]) by {
                    assert(ints[k] == at@[k] && ints[l] == at@[l]);
                }
                if !replace_all {
                    let ranges = ranges_at(ints, old_chars@.len() as int);
                    reveal_with_fuel(splice, 2);
                    assert(ranges[0] == (first as int, first + old_chars@.len()));
                    assert(ranges.drop_first() =~= Seq::<(int, int)>::empty());
                    assert(chars@.subrange(0, first as int) =~= chars@.take(first as int));
                    assert(splice(chars@, ranges, replacement@, 0) =~= replaced_first(
                        original@,
                        old_string@,
                        replacement@,
                    ));
                }
            }
            return Ok(replace_at(&chars, &at, old_chars.len(), replacement.as_str()));
        },
        None => {},
    }
    let normalized_original = normalize_text_with_offsets(original);
    let normalized_old = normalize_line_endings_to(old_string, "\n");
    let haystack = chars_of(normalized_original.text.as_str());
    let needle = chars_of(normalized_old.as_str());
    let total: usize = haystack.len();
    proof {
        reveal_strlit("\n");
        assert("\n"@ =~= seq!['\n']);
        lemma_with_plain_newlines(normalized(old_string@));
        assert(needle@ == normalized(old_string@));
        assert(needle@.len() > 0);
        lemma_first_from(haystack@, needle@, 0);
        lemma_occurrences(haystack@, needle@, 0);
    }
    let at = if replace_all {
        find_all(&haystack, &needle)
    } else {
        match find_from(&haystack, &needle, 0) {
            Some(i) => vec![i],
            None => vec![],
        }
    };
    let ghost ints = at@.map_values(|i: usize| i as int);
    let ghost found = occurrences(haystack@, needle@, 0);
    let ghost n = needle@.len() as int;
    proof {
        if !replace_all && found.len() > 0 {
            assert(ints =~= found.take(1));
        }
        if !replace_all && found.len() == 0 {
            assert(ints =~= Seq::<int>::empty());
        }
        assert forall|k: int| 0 <= k < at@.len() implies (#[trigger] at@[k]) + n
            <= haystack@.len() by {
            assert(ints[k] == found[k]);
        }
        assert forall|k: int, l: int| 0 <= k < l < at@.len() implies (#[trigger] at@[k]) + n <= (
        #[trigger] at@[l]) by {
            assert(ints[k] == found[k] && ints[l] == found[l]);
        }
    }
    if at.len() == 0 {
        return Err(FileError::OldStringNotFound);
    }
    let offset_of = char_offsets(normalized_original.text.as_str());
    let ghost table = offset_table(original@);
    let ghost targets = origin_ranges(original@, ints, n);
    let mut ranges: Vec<(usize, usize)> = Vec::new();
    let mut k: usize = 0;
    while k < at.len()
        invariant
            k <= at@.len(),
            ranges@.len() == k,
            n == needle@.len(),
            n > 0,
            haystack@ == normalized(original@),
            haystack@.len() == total,
            offset_of@.len() == haystack@.len() + 1,
            forall|i: int| 0 <= i <= haystack@.len() ==> #[trigger] offset_of@[i] == byte_len(
                haystack@.take(i),
            ),
            normalized_original.original_offsets@.map_values(|o: usize| o as int) == offset_table(
                original@,
            ),
            ints == at@.map_values(|i: usize| i as int),
            targets == origin_ranges(original@, ints, n),
            forall|k: int| 0 <= k < at@.len() ==> (#[trigger] at@[k]) + n <= haystack@.len(),
            forall|j: int|
                0 <= j < k ==> {
                    &&& (#[trigger] ranges@[j]).0 == byte_len(original@.take(targets[j].0))
                    &&& ranges@[j].1 == byte_len(original@.take(targets[j].1))
                },
        decreases at@.len() - k,
    {
        let i = at[k];
        proof {
            lemma_offset_table(original@, i as int);
            lemma_offset_table(original@, i + n);
            let offsets = normalized_original.original_offsets@;
            let mapped = offsets.map_values(|o: usize| o as int);
            assert(mapped[byte_len(haystack@.take(i as int)) as int]
                == offsets[byte_len(haystack@.take(i as int)) as int]);
            assert(mapped[byte_len(haystack@.take(i + n)) as int]
                == offsets[byte_len(haystack@.take(i + n)) as int]);
            assert(offset_of@[i as int] == byte_len(haystack@.take(i as int)));
            assert(offset_of@[i + n] == byte_len(haystack@.take(i + n)));
            assert(targets[k as int] == (origin(original@, i as int), origin(original@, i + n)));
        }
        ranges.push(
            (
                normalized_original.original_offsets[offset_of[i]],
                normalized_original.original_offsets[offset_of[i + needle.len()]],
            ),
        );
        k += 1;
    }
    proof {
        assert forall|k: int| 0 <= k < ranges@.len() implies {
            &&& 0 <= (#[trigger] targets[k]).0 <= targets[k].1 <= original@.len()
            &&& ranges@[k].0 <= ranges@[k].1
            &&& is_char_boundary(encode_utf8(original@), ranges@[k].0 as int)
            &&& is_char_boundary(encode_utf8(original@), ranges@[k].1 as int)
        } by {
            let i = at@[k] as int;
            lemma_origin(original@, i + n);
            lemma_origin(original@, i);
            lemma_byte_len_take(original@, targets[k].0, targets[k].1);
            lemma_prefix_is_boundary(original@, targets[k].0);
            lemma_prefix_is_boundary(original@, targets[k].1);
        }
        assert forall|k: int, l: int| 0 <= k < l < ranges@.len() implies {
            &&& (#[trigger] targets[k]).1 <= (#[trigger] targets[l]).0
            &&& ranges@[k].1 <= ranges@[l].0
        } by {
            let i = at@[k] as int;
            let j = at@[l] as int;
            lemma_origin(original@, j);
            lemma_byte_len_take(original@, targets[k].1, targets[l].0);
        }
        assert forall|k: int| 0 <= k < ranges@.len() implies {
            &&& is_char_boundary(encode_utf8(original@), (#[trigger] ranges@[k]).0 as int)
            &&& is_char_boundary(encode_utf8(original@), ranges@[k].1 as int)
        } by {
            assert(targets[k] == targets[k]);
        }
        assert forall|k: int| 0 < k < ranges@.len() implies ranges@[k - 1].1 <= (#[trigger] ranges@[k]).0 by {
            assert(targets[k - 1].1 <= targets[k].0);
        }
        lemma_splice_encode(original@, targets, int_ranges(ranges@), replacement@, 0);
        assert(original@.take(0) =~= Seq::<char>::empty());
    }
    let updated = replace_mapped_ranges(original, ranges.as_slice(), replacement.as_str());
    proof {
        lemma_encode_injective(updated@, splice(original@, targets, replacement@, 0));
    }
    Ok(updated)
}

} // verus!
