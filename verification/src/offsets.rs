//! The map from a text with plain newlines back to the text it was made from, by
//! byte offsets.

use vstd::prelude::*;
use vstd::string::*;

use crate::endings::{normalized, unit_char, unit_len};
use crate::text::{
    byte_len, char_len, char_width, chars_of, lemma_byte_len_take, lemma_encode_concat,
    lemma_encode_one,
};

verus! {

/// A text with plain newlines, and for each of its byte offsets an offset of the
/// text it was made from.
pub struct NormalizedText {
    pub text: String,
    pub original_offsets: Vec<usize>,
}

/// The number of characters of `s` that the first `k` characters of
/// `normalized(s)` stand for.
pub open spec fn origin(s: Seq<char>, k: int) -> int
    decreases k,
{
    if k <= 0 || s.len() == 0 {
        0
    } else {
        unit_len(s) + origin(s.skip(unit_len(s)), k - 1)
    }
}

/// The entries for the bytes of a character `c` that stands for the bytes from
/// `start` to `end`: its last byte leads to `end`, each other one to `start`.
pub open spec fn mapped_entries<T>(c: char, start: T, end: T) -> Seq<T> {
    Seq::new(
        char_len(c),
        |j: int|
            if j == char_len(c) - 1 {
                end
            } else {
                start
            },
    )
}

/// The entries for all bytes of `normalized(s)`, where `s` starts at byte `base`.
pub open spec fn offset_entries(s: Seq<char>, base: int) -> Seq<int>
    decreases s.len(),
{
    if s.len() == 0 {
        seq![]
    } else {
        let end = base + byte_len(s.take(unit_len(s)));
        mapped_entries(unit_char(s), base, end) + offset_entries(s.skip(unit_len(s)), end)
    }
}

/// For each byte offset of `normalized(s)`, its end included, the offset of `s` that
/// it leads to.
pub open spec fn offset_table(s: Seq<char>) -> Seq<int> {
    seq![0] + offset_entries(s, 0)
}

/// The first `k` units of a text end inside it, more units end later, and all of
/// them end where the text does.
pub proof fn lemma_origin(s: Seq<char>, k: int)
    requires
        0 <= k <= normalized(s).len(),
    ensures
        k <= origin(s, k) <= s.len(),
        k == normalized(s).len() ==> origin(s, k) == s.len(),
        forall|l: int| #![trigger origin(s, l)] 0 <= l < k ==> origin(s, l) < origin(s, k),
    decreases k,
{
    if s.len() > 0 && k > 0 {
        let t = s.skip(unit_len(s));
        assert(normalized(s).drop_first() =~= normalized(t));
        lemma_origin(t, k - 1);
        assert forall|l: int| #![trigger origin(s, l)] 0 <= l < k implies origin(s, l) < origin(
            s,
            k,
        ) by {
            if l > 0 {
                assert(origin(t, l - 1) < origin(t, k - 1));
            }
        }
    }
}

/// What `k` units stand for normalizes to them, and what follows to what follows.
pub proof fn lemma_origin_normalized(s: Seq<char>, k: int)
    requires
        0 <= k <= normalized(s).len(),
    ensures
        0 <= origin(s, k) <= s.len(),
        normalized(s.take(origin(s, k))) == normalized(s).take(k),
        normalized(s.skip(origin(s, k))) == normalized(s).skip(k),
    decreases k,
{
    lemma_origin(s, k);
    if k == 0 {
        assert(s.take(0) =~= Seq::<char>::empty());
        assert(normalized(s).take(0) =~= Seq::<char>::empty());
        assert(s.skip(0) =~= s);
        assert(normalized(s).skip(0) =~= normalized(s));
    } else {
        let u = unit_len(s);
        let t = s.skip(u);
        assert(normalized(s).drop_first() =~= normalized(t));
        lemma_origin_normalized(t, k - 1);
        let o = origin(t, k - 1);
        let p = s.take(u + o);
        assert(unit_len(p) == u);
        assert(unit_char(p) == unit_char(s));
        assert(p.skip(u) =~= t.take(o));
        assert(normalized(s).take(k) =~= seq![unit_char(s)] + normalized(t).take(k - 1));
        assert(s.skip(u + o) =~= t.skip(o));
        assert(normalized(s).skip(k) =~= normalized(t).skip(k - 1));
    }
}

/// What the units from the `k`th to the `l`th stand for normalizes to them.
pub proof fn lemma_origin_range(s: Seq<char>, k: int, l: int)
    requires
        0 <= k <= l <= normalized(s).len(),
    ensures
        0 <= origin(s, k) <= origin(s, l) <= s.len(),
        normalized(s.subrange(origin(s, k), origin(s, l))) == normalized(s).subrange(k, l),
{
    lemma_origin(s, l);
    lemma_origin_normalized(s, k);
    let t = s.skip(origin(s, k));
    assert(normalized(t) =~= normalized(s).skip(k));
    lemma_origin_split(s, k, l);
    lemma_origin_normalized(t, l - k);
    assert(t.take(origin(t, l - k)) =~= s.subrange(origin(s, k), origin(s, l)));
    assert(normalized(t).take(l - k) =~= normalized(s).subrange(k, l));
}

/// Counting units in two steps.
proof fn lemma_origin_split(s: Seq<char>, k: int, l: int)
    requires
        0 <= k <= l <= normalized(s).len(),
    ensures
        0 <= origin(s, k) <= s.len(),
        origin(s, l) == origin(s, k) + origin(s.skip(origin(s, k)), l - k),
    decreases k,
{
    lemma_origin(s, k);
    if k == 0 {
        assert(s.skip(0) =~= s);
    } else {
        let t = s.skip(unit_len(s));
        assert(normalized(s).drop_first() =~= normalized(t));
        lemma_origin_split(t, k - 1, l - 1);
        lemma_origin(t, k - 1);
        assert(s.skip(origin(s, k)) =~= t.skip(origin(t, k - 1)));
    }
}

/// The table has one entry per byte of the normalized text and one more, and at the
/// end of the first `k` characters it leads to the end of what they stand for.
pub proof fn lemma_offset_table(s: Seq<char>, k: int)
    requires
        0 <= k <= normalized(s).len(),
    ensures
        offset_table(s).len() == byte_len(normalized(s)) + 1,
        byte_len(normalized(s).take(k)) <= byte_len(normalized(s)),
        offset_table(s)[byte_len(normalized(s).take(k)) as int] == byte_len(s.take(origin(s, k))),
{
    lemma_offset_entries(s, 0, k);
    lemma_byte_len_take(normalized(s), k, normalized(s).len() as int);
}

proof fn lemma_offset_entries(s: Seq<char>, base: int, k: int)
    requires
        0 <= k <= normalized(s).len(),
    ensures
        offset_entries(s, base).len() == byte_len(normalized(s)),
        byte_len(normalized(s).take(k)) <= byte_len(normalized(s)),
        (seq![base] + offset_entries(s, base))[byte_len(normalized(s).take(k)) as int] == base
            + byte_len(s.take(origin(s, k))),
    decreases s.len(),
{
    let n = normalized(s);
    if s.len() == 0 {
        assert(n.take(k) =~= Seq::<char>::empty());
        assert(s.take(0) =~= Seq::<char>::empty());
    } else {
        let u = unit_len(s);
        let t = s.skip(u);
        let c = unit_char(s);
        let end = base + byte_len(s.take(u));
        assert(n =~= seq![c] + normalized(t));
        lemma_encode_concat(seq![c], normalized(t));
        lemma_encode_one(c);
        let whole = seq![base] + offset_entries(s, base);
        let inner = seq![end] + offset_entries(t, end);
        if k == 0 {
            lemma_offset_entries(t, end, 0);
            assert(n.take(0) =~= Seq::<char>::empty());
            assert(s.take(0) =~= Seq::<char>::empty());
        } else {
            lemma_offset_entries(t, end, k - 1);
            assert(n.take(k) =~= seq![c] + normalized(t).take(k - 1));
            lemma_encode_concat(seq![c], normalized(t).take(k - 1));
            lemma_origin(t, k - 1);
            let o = origin(t, k - 1);
            assert(s.take(u + o) =~= s.take(u) + t.take(o));
            lemma_encode_concat(s.take(u), t.take(o));
            let w = char_len(c) as int;
            let j = byte_len(normalized(t).take(k - 1)) as int;
            assert(byte_len(n.take(k)) == w + j);
            assert(whole[w + j] == inner[j]);
        }
    }
}

/// Appends `ch` to the normalized text, and its entries to the offsets.
pub fn push_mapped_char(
    normalized: &mut String,
    offsets: &mut Vec<usize>,
    ch: char,
    original_start: usize,
    original_end: usize,
)
    ensures
        final(normalized)@ == old(normalized)@.push(ch),
        final(offsets)@ == old(offsets)@ + mapped_entries(ch, original_start, original_end),
{
    let width = char_width(ch);
    normalized.push(ch);
    let mut index: usize = 1;
    while index < width
        invariant
            1 <= index <= width,
            width == char_len(ch),
            offsets@ == old(offsets)@ + Seq::new(
                (index - 1) as nat,
                |j: int| original_start,
            ),
        decreases width - index,
    {
        offsets.push(original_start);
        index += 1;
        assert(offsets@ =~= old(offsets)@ + Seq::new((index - 1) as nat, |j: int| original_start));
    }
    offsets.push(original_end);
    assert(offsets@ =~= old(offsets)@ + mapped_entries(ch, original_start, original_end));
}

/// `original` with plain newlines, and the map back to its byte offsets.
pub fn normalize_text_with_offsets(original: &str) -> (r: NormalizedText)
    ensures
        r.text@ == normalized(original@),
        r.original_offsets@.map_values(|o: usize| o as int) == offset_table(original@),
{
    let chars = chars_of(original);
    let total: usize = original.as_bytes().len();
    let mut text = String::new();
    let mut offsets: Vec<usize> = Vec::new();
    offsets.push(0);
    let mut i: usize = 0;
    let mut index: usize = 0;
    proof {
        assert(chars@.skip(0) =~= chars@);
        assert(chars@.take(0) =~= Seq::<char>::empty());
        assert(text@ + normalized(chars@) =~= normalized(chars@));
        assert(offsets@.map_values(|o: usize| o as int) + offset_entries(chars@, 0)
            =~= offset_table(original@));
    }
    while i < chars.len()
        invariant
            i <= chars@.len(),
            chars@ == original@,
            total == byte_len(original@),
            index == byte_len(chars@.take(i as int)),
            text@ + normalized(chars@.skip(i as int)) == normalized(original@),
            offsets@.map_values(|o: usize| o as int) + offset_entries(
                chars@.skip(i as int),
                index as int,
            ) == offset_table(original@),
        decreases chars@.len() - i,
    {
        let ghost rest = chars@.skip(i as int);
        let ghost text0 = text@;
        let ghost offsets0 = offsets@;
        let ghost i0 = i as int;
        let ghost index0 = index as int;
        let c = chars[i];
        proof {
            let u = unit_len(rest);
            lemma_byte_len_take(chars@, i as int, i + u);
            assert(chars@.subrange(i as int, i + u) =~= rest.take(u));
            if u == 2 {
                assert(rest.take(2) =~= seq!['\r'] + seq!['\n']);
                lemma_encode_concat(seq!['\r'], seq!['\n']);
                lemma_encode_one('\r');
                lemma_encode_one('\n');
            } else {
                assert(rest.take(1) =~= seq![c]);
                lemma_encode_one(c);
            }
        }
        if c == '\r' {
            if i + 1 < chars.len() && chars[i + 1] == '\n' {
                push_mapped_char(&mut text, &mut offsets, '\n', index, index + 2);
                i += 2;
                index += 2;
            } else {
                push_mapped_char(&mut text, &mut offsets, '\n', index, index + 1);
                i += 1;
                index += 1;
            }
        } else {
            let end: usize = index + char_width(c);
            push_mapped_char(&mut text, &mut offsets, c, index, end);
            i += 1;
            index = end;
        }
        proof {
            let u = unit_len(rest);
            assert(i == i0 + u);
            assert(rest.skip(u) =~= chars@.skip(i as int));
            assert(text@ + normalized(rest.skip(u)) =~= text0 + normalized(rest));
            assert(index == index0 + byte_len(rest.take(u)));
            let pushed = mapped_entries(unit_char(rest), index0 as usize, index);
            assert(offsets@ == offsets0 + pushed);
            assert(pushed.map_values(|o: usize| o as int) =~= mapped_entries(
                unit_char(rest),
                index0,
                index as int,
            ));
            assert(offsets@.map_values(|o: usize| o as int) + offset_entries(
                rest.skip(u),
                index as int,
            ) =~= offsets0.map_values(|o: usize| o as int) + offset_entries(rest, index0));
        }
    }
    proof {
        assert(chars@.skip(i as int) =~= Seq::<char>::empty());
        assert(text@ =~= normalized(original@));
        assert(offsets@.map_values(|o: usize| o as int) =~= offset_table(original@));
    }
    NormalizedText { text, original_offsets: offsets }
}

/// The end of what units stand for is not between a carriage return and the newline that
/// belongs to it.
pub proof fn lemma_origin_keeps_pairs(s: Seq<char>, k: int)
    requires
        0 <= k <= normalized(s).len(),
    ensures
        ({
            let o = origin(s, k);
            !(0 < o < s.len() && s[o - 1] == '\r' && s[o] == '\n')
        }),
    decreases k,
{
    lemma_origin(s, k);
    if k > 0 {
        let u = unit_len(s);
        let t = s.skip(u);
        assert(normalized(s).drop_first() =~= normalized(t));
        lemma_origin_keeps_pairs(t, k - 1);
        lemma_origin(t, k - 1);
        let o = origin(t, k - 1);
        if 0 < o < t.len() {
            assert(s[u + o - 1] == t[o - 1] && s[u + o] == t[o]);
        }
    }
}

proof fn lemma_inner_entries(s: Seq<char>, base: int, k: int, j: int)
    requires
        0 <= k < normalized(s).len(),
        0 < j < char_len(normalized(s)[k]),
    ensures
        byte_len(normalized(s).take(k)) + j < byte_len(normalized(s)) + 1,
        (seq![base] + offset_entries(s, base))[byte_len(normalized(s).take(k)) + j] == base
            + byte_len(s.take(origin(s, k))),
    decreases s.len(),
{
    let n = normalized(s);
    let u = unit_len(s);
    let t = s.skip(u);
    let c = unit_char(s);
    let end = base + byte_len(s.take(u));
    assert(n =~= seq![c] + normalized(t));
    lemma_encode_concat(seq![c], normalized(t));
    lemma_encode_one(c);
    let whole = seq![base] + offset_entries(s, base);
    let w = char_len(c) as int;
    if k == 0 {
        assert(n.take(0) =~= Seq::<char>::empty());
        assert(s.take(0) =~= Seq::<char>::empty());
        assert(offset_entries(s, base)[j - 1] == mapped_entries(c, base, end)[j - 1]);
        assert(whole[j] == base);
    } else {
        assert(n[k] == normalized(t)[k - 1]);
        lemma_inner_entries(t, end, k - 1, j);
        lemma_offset_entries(t, end, k - 1);
        assert(n.take(k) =~= seq![c] + normalized(t).take(k - 1));
        lemma_encode_concat(seq![c], normalized(t).take(k - 1));
        lemma_origin(t, k - 1);
        let o = origin(t, k - 1);
        assert(s.take(u + o) =~= s.take(u) + t.take(o));
        lemma_encode_concat(s.take(u), t.take(o));
        let inner = seq![end] + offset_entries(t, end);
        let x = byte_len(normalized(t).take(k - 1)) + j;
        assert(byte_len(n.take(k)) + j == w + x);
        assert(whole[w + x] == inner[x]);
    }
}

/// Each byte offset of a text with plain line endings leads back to one of the text that it
/// was made from: the end of a character to the end of what it stands for, and an offset
/// inside a character to the start of what that stands for. There is one for the end of the
/// text as well.
pub proof fn law_offsets_lead_back(s: Seq<char>, k: int, j: int)
    requires
        0 <= k <= normalized(s).len(),
    ensures
        offset_table(s).len() == byte_len(normalized(s)) + 1,
        exists|o: int|
            {
                &&& 0 <= o <= s.len()
                &&& #[trigger] normalized(s.take(o)) == normalized(s).take(k)
                &&& !(0 < o < s.len() && s[o - 1] == '\r' && s[o] == '\n')
                &&& offset_table(s)[byte_len(normalized(s).take(k)) as int] == byte_len(s.take(o))
                &&& k < normalized(s).len() && 0 < j < char_len(normalized(s)[k]) ==> offset_table(
                    s,
                )[byte_len(normalized(s).take(k)) + j] == byte_len(s.take(o))
            },
{
    lemma_offset_table(s, k);
    lemma_origin_normalized(s, k);
    lemma_origin_keeps_pairs(s, k);
    if k < normalized(s).len() && 0 < j < char_len(normalized(s)[k]) {
        lemma_inner_entries(s, 0, k, j);
    }
    let o = origin(s, k);
    assert(normalized(s.take(o)) == normalized(s).take(k));
}

} // verus!
