//! The block of marked-up lines that an annotation is shown as.

use vstd::prelude::*;
use vstd::string::*;

use crate::endings::{lemma_with_plain_newlines, normalize_line_endings_to, normalized};
use crate::edit::text_result;
use crate::error::FileError;
use crate::lines::{lines, split_lines, texts};
use crate::search::{lemma_stands, occurs_at, stands, stands_at};
use crate::text::{
    chars_of, is_trimmed_to, law_trimming_takes_white_space_at_ends, string_of, trim, trimmed,
    white_space,
};

verus! {

/// What stands for `c` in HTML text.
pub open spec fn escaped_char(c: char) -> Seq<char> {
    if c == '&' {
        "&amp;"@
    } else if c == '<' {
        "&lt;"@
    } else if c == '>' {
        "&gt;"@
    } else if c == '"' {
        "&quot;"@
    } else {
        seq![c]
    }
}

/// `s` as HTML text.
pub open spec fn escaped(s: Seq<char>) -> Seq<char>
    decreases s.len(),
{
    if s.len() == 0 {
        seq![]
    } else {
        escaped_char(s[0]) + escaped(s.drop_first())
    }
}

/// HTML text holds no character that would begin or end a tag or an attribute.
pub proof fn law_escaped_text_is_inert(s: Seq<char>)
    ensures
        !escaped(s).contains('<'),
        !escaped(s).contains('>'),
        !escaped(s).contains('"'),
    decreases s.len(),
{
    if s.len() > 0 {
        let head = escaped_char(s[0]);
        let tail = escaped(s.drop_first());
        law_escaped_text_is_inert(s.drop_first());
        reveal_strlit("&amp;");
        reveal_strlit("&lt;");
        reveal_strlit("&gt;");
        reveal_strlit("&quot;");
        assert forall|i: int| 0 <= i < (head + tail).len() implies (#[trigger] (head + tail)[i]) != '<'
            && (head + tail)[i] != '>' && (head + tail)[i] != '"' by {
            if i >= head.len() {
                assert(tail.contains(tail[i - head.len()]));
            }
        }
    }
}

/// `text` as HTML text.
pub fn escape_html_text(text: &str) -> (r: String)
    ensures
        r@ == escaped(text@),
{
    let chars = chars_of(text);
    let mut out = String::new();
    let mut i: usize = 0;
    assert(chars@.skip(0) =~= chars@);
    assert(out@ + escaped(chars@) =~= escaped(chars@));
    while i < chars.len()
        invariant
            i <= chars@.len(),
            chars@ == text@,
            out@ + escaped(chars@.skip(i as int)) == escaped(text@),
        decreases chars@.len() - i,
    {
        let ghost rest = chars@.skip(i as int);
        let ghost before = out@;
        let c = chars[i];
        if c == '&' {
            out.append("&amp;");
        } else if c == '<' {
            out.append("&lt;");
        } else if c == '>' {
            out.append("&gt;");
        } else if c == '"' {
            out.append("&quot;");
        } else {
            out.push(c);
        }
        i += 1;
        proof {
            assert(rest.drop_first() =~= chars@.skip(i as int));
            assert(out@ =~= before + escaped_char(c));
            assert(out@ + escaped(rest.drop_first()) =~= before + escaped(rest));
        }
    }
    assert(chars@.skip(i as int) =~= Seq::<char>::empty());
    assert(out@ =~= escaped(text@));
    out
}

/// `s` without the copies of `p` that it starts with.
pub open spec fn without_prefixes(s: Seq<char>, p: Seq<char>) -> Seq<char>
    decreases s.len(),
{
    if p.len() > 0 && occurs_at(s, p, 0) {
        without_prefixes(s.skip(p.len() as int), p)
    } else {
        s
    }
}

/// `text` without the copies of `prefix` that it starts with.
pub fn strip_prefixes(text: &str, prefix: &str) -> (r: String)
    ensures
        r@ == without_prefixes(text@, prefix@),
{
    let chars = chars_of(text);
    let p = chars_of(prefix);
    let total: usize = chars.len();
    let mut from: usize = 0;
    assert(chars@.skip(0) =~= chars@);
    while p.len() > 0 && stands_at(&chars, &p, from)
        invariant
            from <= chars@.len(),
            total == chars@.len(),
            p@ == prefix@,
            chars@ == text@,
            without_prefixes(chars@.skip(from as int), p@) == without_prefixes(text@, p@),
        decreases chars@.len() - from,
    {
        proof {
            let rest = chars@.skip(from as int);
            assert(rest.subrange(0, p@.len() as int) =~= chars@.subrange(
                from as int,
                from + p@.len(),
            ));
            assert(rest.skip(p@.len() as int) =~= chars@.skip(from + p@.len()));
        }
        from += p.len();
    }
    proof {
        let rest = chars@.skip(from as int);
        if p@.len() > 0 && occurs_at(rest, p@, 0) {
            assert(rest.subrange(0, p@.len() as int) =~= chars@.subrange(
                from as int,
                from + p@.len(),
            ));
        }
        assert(rest =~= chars@.subrange(from as int, total as int));
    }
    string_of(&chars, from, total)
}

/// A line of an annotation without quote marks, without the labels that annotations
/// are introduced by, and without white space around it.
pub open spec fn cleaned(line: Seq<char>) -> Seq<char> {
    let unquoted = trimmed(without_prefixes(trimmed(line), ">"@));
    let first = without_prefixes(unquoted, "AI 批注："@);
    let second = without_prefixes(first, "AI批注："@);
    trimmed(without_prefixes(second, "批注："@))
}

/// What a line of an annotation is shown as.
pub open spec fn rendered(line: Seq<char>, newline: Seq<char>) -> Seq<char> {
    if cleaned(line).len() == 0 {
        newline
    } else {
        "<mark style=\"background:#d3f8b6;\">"@ + escaped(cleaned(line)) + "</mark>"@ + newline
    }
}

/// What the lines of an annotation are shown as.
pub open spec fn rendered_all(ls: Seq<Seq<char>>, newline: Seq<char>) -> Seq<char>
    decreases ls.len(),
{
    if ls.len() == 0 {
        seq![]
    } else {
        rendered_all(ls.drop_last(), newline) + rendered(ls.last(), newline)
    }
}

/// The block that `annotation` is shown as.
pub open spec fn block_of(annotation: Seq<char>, newline: Seq<char>) -> Result<
    Seq<char>,
    FileError,
> {
    if trimmed(annotation).len() == 0 {
        Err(FileError::EmptyAnnotation)
    } else {
        Ok(rendered_all(lines(normalized(trimmed(annotation))), newline))
    }
}

/// A line of an annotation without quote marks and labels.
fn clean_line(line: &str) -> (r: String)
    ensures
        r@ == cleaned(line@),
{
    let unquoted = trim(strip_prefixes(trim(line).as_str(), ">").as_str());
    let first = strip_prefixes(unquoted.as_str(), "AI 批注：");
    let second = strip_prefixes(first.as_str(), "AI批注：");
    let third = strip_prefixes(second.as_str(), "批注：");
    trim(third.as_str())
}

/// The block that `annotation` is shown as, with `newline` at the end of each of its
/// lines.
pub fn build_ai_annotation_block(annotation: &str, newline: &str) -> (r: Result<String, FileError>)
    ensures
        text_result(r) == block_of(annotation@, newline@),
{
    let annotation_text = trim(annotation);
    if annotation_text.as_str().is_empty() {
        return Err(FileError::EmptyAnnotation);
    }
    let plain = normalize_line_endings_to(annotation_text.as_str(), "\n");
    proof {
        reveal_strlit("\n");
        assert("\n"@ =~= seq!['\n']);
        lemma_with_plain_newlines(normalized(annotation_text@));
    }
    let ls = split_lines(plain.as_str());
    let ghost all = texts(ls@);
    let mut block = String::new();
    let mut i: usize = 0;
    assert(all.take(0) =~= Seq::<Seq<char>>::empty());
    while i < ls.len()
        invariant
            i <= ls@.len(),
            all == texts(ls@),
            block@ == rendered_all(all.take(i as int), newline@),
        decreases ls@.len() - i,
    {
        let cleaned_line = clean_line(ls[i].as_str());
        let ghost before = block@;
        if cleaned_line.as_str().is_empty() {
            block.append(newline);
        } else {
            block.append("<mark style=\"background:#d3f8b6;\">");
            block.append(escape_html_text(cleaned_line.as_str()).as_str());
            block.append("</mark>");
            block.append(newline);
        }
        i += 1;
        proof {
            assert(all.take(i as int).drop_last() =~= all.take(i - 1));
            assert(all.take(i as int).last() == ls@[i - 1]@);
            assert(block@ =~= before + rendered(ls@[i - 1]@, newline@));
        }
    }
    assert(all.take(i as int) =~= all);
    Ok(block)
}

/// HTML text is made character by character: `&`, `<`, `>` and `"` are written as what
/// stands for them, and every other character as it is.
pub proof fn law_each_character_is_escaped(a: Seq<char>, b: Seq<char>, c: char)
    ensures
        escaped(Seq::<char>::empty()) == Seq::<char>::empty(),
        escaped(a + b) == escaped(a) + escaped(b),
        escaped(seq!['&']) == "&amp;"@,
        escaped(seq!['<']) == "&lt;"@,
        escaped(seq!['>']) == "&gt;"@,
        escaped(seq!['"']) == "&quot;"@,
        c != '&' && c != '<' && c != '>' && c != '"' ==> escaped(seq![c]) == seq![c],
    decreases a.len(),
{
    lemma_escaped_one('&');
    lemma_escaped_one('<');
    lemma_escaped_one('>');
    lemma_escaped_one('"');
    lemma_escaped_one(c);
    if a.len() == 0 {
        assert(a + b =~= b);
        assert(escaped(a) + escaped(b) =~= escaped(b));
    } else {
        law_each_character_is_escaped(a.drop_first(), b, c);
        assert((a + b).drop_first() =~= a.drop_first() + b);
        assert(escaped(a + b) =~= escaped(a) + escaped(b));
    }
}

proof fn lemma_escaped_one(c: char)
    ensures
        escaped(seq![c]) == escaped_char(c),
{
    reveal_with_fuel(escaped, 2);
    assert(seq![c].drop_first() =~= Seq::<char>::empty());
    assert(escaped(seq![c]) =~= escaped_char(c));
}

/// A text without the copies of a prefix that it starts with is the same with one copy more
/// in front; and a text that does not start with the prefix stays as it is.
pub proof fn law_all_copies_of_prefix_are_taken(s: Seq<char>, p: Seq<char>)
    requires
        p.len() > 0,
    ensures
        without_prefixes(p + s, p) == without_prefixes(s, p),
        !stands(s, p, 0) ==> without_prefixes(s, p) == s,
        !stands(without_prefixes(s, p), p, 0),
    decreases s.len(),
{
    let t = p + s;
    assert(t.subrange(0, p.len() as int) =~= p);
    assert(t.skip(p.len() as int) =~= s);
    lemma_stands(s, p, 0);
    if occurs_at(s, p, 0) {
        law_all_copies_of_prefix_are_taken(s.skip(p.len() as int), p);
    }
}

/// A line of an annotation is shown without the quote marks before it, and without the three
/// labels, in this order; each time without the white space around what is left of it.
pub proof fn law_line_is_shown_without_marks_and_labels(line: Seq<char>)
    ensures
        ({
            let unquoted = trimmed(without_prefixes(trimmed(line), seq!['>']));
            let first = without_prefixes(unquoted, "AI 批注："@);
            let second = without_prefixes(first, "AI批注："@);
            cleaned(line) == trimmed(without_prefixes(second, "批注："@))
        }),
        !(trimmed(line).len() > 0 && trimmed(line)[0] == '>') && !stands(
            trimmed(line),
            "AI 批注："@,
            0,
        ) && !stands(trimmed(line), "AI批注："@, 0) && !stands(trimmed(line), "批注："@, 0)
            ==> cleaned(line) == trimmed(line),
{
    reveal_strlit(">");
    assert(">"@ =~= seq!['>']);
    reveal_strlit("AI 批注：");
    reveal_strlit("AI批注：");
    reveal_strlit("批注：");
    let t = trimmed(line);
    if !(t.len() > 0 && t[0] == '>') && !stands(t, "AI 批注："@, 0) && !stands(t, "AI批注："@, 0)
        && !stands(t, "批注："@, 0) {
        assert(!stands(t, seq!['>'], 0)) by {
            if stands(t, seq!['>'], 0) {
                assert(seq!['>'][0] == '>');
            }
        }
        law_all_copies_of_prefix_are_taken(t, seq!['>']);
        lemma_trimmed_twice(line);
        law_all_copies_of_prefix_are_taken(t, "AI 批注："@);
        law_all_copies_of_prefix_are_taken(t, "AI批注："@);
        law_all_copies_of_prefix_are_taken(t, "批注："@);
    }
}

/// Trimming a second time changes nothing.
proof fn lemma_trimmed_twice(s: Seq<char>)
    ensures
        trimmed(trimmed(s)) == trimmed(s),
{
    law_trimming_takes_white_space_at_ends(s);
    let t = trimmed(s);
    law_trimming_takes_white_space_at_ends(t);
    let (from, to) = choose|from: int, to: int| #[trigger]
        is_trimmed_to(s, from, to) && trimmed(s) == s.subrange(from, to);
    let (f, u) = choose|f: int, u: int| #[trigger]
        is_trimmed_to(t, f, u) && trimmed(t) == t.subrange(f, u);
    if t.len() > 0 {
        assert(t[0] == s[from] && t[t.len() - 1] == s[to - 1]);
        if f > 0 {
            assert(white_space(t[0]));
        }
        if u < t.len() {
            assert(white_space(t[t.len() - 1]));
        }
    }
    assert(t.subrange(f, u) =~= t);
}

/// The block of an annotation shows its lines one below the other, each with a line ending
/// behind it: a line that nothing is left of as that ending alone, and any other as HTML text
/// between the tags. A blank annotation has no block.
pub proof fn law_block_shows_each_line(
    annotation: Seq<char>,
    newline: Seq<char>,
    a: Seq<Seq<char>>,
    b: Seq<Seq<char>>,
    line: Seq<char>,
)
    ensures
        trimmed(annotation).len() == 0 ==> block_of(annotation, newline) == Err::<
            Seq<char>,
            FileError,
        >(FileError::EmptyAnnotation),
        trimmed(annotation).len() > 0 ==> block_of(annotation, newline) == Ok::<
            Seq<char>,
            FileError,
        >(rendered_all(lines(normalized(trimmed(annotation))), newline)),
        rendered_all(Seq::<Seq<char>>::empty(), newline) == Seq::<char>::empty(),
        rendered_all(a + b, newline) == rendered_all(a, newline) + rendered_all(b, newline),
        rendered_all(seq![line], newline) == if cleaned(line).len() == 0 {
            newline
        } else {
            "<mark style=\"background:#d3f8b6;\">"@ + escaped(cleaned(line)) + "</mark>"@ + newline
        },
    decreases b.len(),
{
    reveal_with_fuel(rendered_all, 2);
    assert(seq![line].drop_last() =~= Seq::<Seq<char>>::empty());
    assert(rendered_all(seq![line], newline) =~= rendered(line, newline));
    if b.len() == 0 {
        assert(a + b =~= a);
        assert(rendered_all(a, newline) + rendered_all(b, newline) =~= rendered_all(a, newline));
    } else {
        law_block_shows_each_line(annotation, newline, a, b.drop_last(), line);
        assert((a + b).drop_last() =~= a + b.drop_last());
        assert((a + b).last() == b.last());
        assert(rendered_all(a + b, newline) =~= rendered_all(a, newline) + rendered_all(b, newline));
    }
}

/// A block ends with a line ending.
pub proof fn law_block_ends_with_newline(annotation: Seq<char>, newline: Seq<char>)
    ensures
        block_of(annotation, newline) matches Ok(b) ==> newline.len() <= b.len() && b.skip(
            b.len() - newline.len(),
        ) == newline,
{
    if let Ok(b) = block_of(annotation, newline) {
        let x = normalized(trimmed(annotation));
        assert(x.len() > 0);
        let ls = lines(x);
        assert(ls.len() > 0);
        let line = ls.last();
        let r = rendered(line, newline);
        assert(r.skip(r.len() - newline.len()) =~= newline);
        let head = rendered_all(ls.drop_last(), newline);
        assert(b == head + r);
        assert(b.skip(b.len() - newline.len()) =~= r.skip(r.len() - newline.len()));
    }
}

} // verus!
