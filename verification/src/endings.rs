//! Line endings: the style of a text, and rewriting a text to a style.

use vstd::prelude::*;
use vstd::string::*;

use crate::search::{find_from, lemma_occurs, occurs};
use crate::text::chars_of;

verus! {

/// The byte order mark that a text file may start with.
pub const BYTE_ORDER_MARK: char = '\u{feff}';

/// The number of characters of the first unit of `s`: a carriage return and the
/// newline after it are one unit, every other character is a unit of its own.
pub open spec fn unit_len(s: Seq<char>) -> int {
    if s.len() >= 2 && s[0] == '\r' && s[1] == '\n' {
        2
    } else {
        1
    }
}

/// The character that stands for the first unit of `s` once line endings are
/// plain newlines.
pub open spec fn unit_char(s: Seq<char>) -> char {
    if s[0] == '\r' {
        '\n'
    } else {
        s[0]
    }
}

/// `s` with a plain newline for each `\r\n` and for each other `\r`.
pub open spec fn normalized(s: Seq<char>) -> Seq<char>
    decreases s.len(),
{
    if s.len() == 0 {
        seq![]
    } else {
        seq![unit_char(s)] + normalized(s.skip(unit_len(s)))
    }
}

/// `s` with `newline` in place of each plain newline.
pub open spec fn with_newlines(s: Seq<char>, newline: Seq<char>) -> Seq<char>
    decreases s.len(),
{
    if s.len() == 0 {
        seq![]
    } else {
        (if s[0] == '\n' {
            newline
        } else {
            seq![s[0]]
        }) + with_newlines(s.drop_first(), newline)
    }
}

/// `s` with every line ending, of whatever form, written as `newline`.
pub open spec fn normalized_to(s: Seq<char>, newline: Seq<char>) -> Seq<char> {
    with_newlines(normalized(s), newline)
}

/// The line ending of the style of `s`: `\r\n` where one occurs, else `\n`.
pub open spec fn newline_of(s: Seq<char>) -> Seq<char> {
    if occurs(s, seq!['\r', '\n']) {
        seq!['\r', '\n']
    } else {
        seq!['\n']
    }
}

/// `s` starts with a byte order mark.
pub open spec fn has_mark(s: Seq<char>) -> bool {
    s.len() > 0 && s[0] == BYTE_ORDER_MARK
}

/// `content` in the style of the text it is to replace: its line endings, and its
/// byte order mark where it has one. Where there is no such text, `content`.
pub open spec fn styled(content: Seq<char>, original: Option<Seq<char>>) -> Seq<char> {
    match original {
        None => content,
        Some(o) => {
            let t = normalized_to(content, newline_of(o));
            if has_mark(o) && !has_mark(t) {
                seq![BYTE_ORDER_MARK] + t
            } else {
                t
            }
        },
    }
}

/// Writing plain newlines as plain newlines changes nothing.
pub proof fn lemma_with_plain_newlines(s: Seq<char>)
    ensures
        with_newlines(s, seq!['\n']) == s,
    decreases s.len(),
{
    if s.len() > 0 {
        lemma_with_plain_newlines(s.drop_first());
        assert(with_newlines(s, seq!['\n']) =~= s);
    }
}

/// The line ending of the style of `text`.
pub fn detect_line_ending_style(text: &str) -> (r: &'static str)
    ensures
        r@ == newline_of(text@),
{
    let chars = chars_of(text);
    let crlf: Vec<char> = vec!['\r', '\n'];
    assert(crlf@ =~= seq!['\r', '\n']);
    proof {
        lemma_occurs(text@, crlf@);
        reveal_strlit("\r\n");
        reveal_strlit("\n");
        assert("\r\n"@ =~= seq!['\r', '\n']);
        assert("\n"@ =~= seq!['\n']);
    }
    if find_from(&chars, &crlf, 0).is_some() {
        "\r\n"
    } else {
        "\n"
    }
}

/// `text` with every line ending written as `newline`.
pub fn normalize_line_endings_to(text: &str, newline: &str) -> (r: String)
    ensures
        r@ == normalized_to(text@, newline@),
{
    let chars = chars_of(text);
    let mut out = String::new();
    let mut i: usize = 0;
    proof {
        assert(chars@.skip(0) =~= chars@);
    }
    while i < chars.len()
        invariant
            i <= chars@.len(),
            chars@ == text@,
            out@ + normalized_to(chars@.skip(i as int), newline@) == normalized_to(
                text@,
                newline@,
            ),
        decreases chars@.len() - i,
    {
        let ghost rest = chars@.skip(i as int);
        let ghost before = out@;
        let ghost i0 = i as int;
        let c = chars[i];
        if c == '\r' {
            out.append(newline);
            if i + 1 < chars.len() && chars[i + 1] == '\n' {
                i += 2;
            } else {
                i += 1;
            }
        } else if c == '\n' {
            out.append(newline);
            i += 1;
        } else {
            out.push(c);
            i += 1;
        }
        proof {
            assert(i == i0 + unit_len(rest));
            assert(rest.skip(unit_len(rest)) =~= chars@.skip(i as int));
            let n = normalized(rest);
            assert(n.drop_first() =~= normalized(chars@.skip(i as int)));
            let piece = if unit_char(rest) == '\n' {
                newline@
            } else {
                seq![unit_char(rest)]
            };
            assert(with_newlines(n, newline@) == piece + with_newlines(n.drop_first(), newline@));
            assert(out@ =~= before + piece);
            assert(out@ + normalized_to(chars@.skip(i as int), newline@) =~= before + (piece
                + with_newlines(n.drop_first(), newline@)));
        }
    }
    proof {
        assert(chars@.skip(i as int) =~= Seq::<char>::empty());
        assert(normalized_to(Seq::<char>::empty(), newline@) =~= Seq::<char>::empty());
        assert(out@ =~= normalized_to(text@, newline@));
    }
    out
}

/// `content` in the style of the text that it is to replace.
pub fn preserve_existing_text_style(content: &str, original: Option<&str>) -> (r: String)
    ensures
        r@ == styled(
            content@,
            match original {
                Some(o) => Some(o@),
                None => None,
            },
        ),
{
    match original {
        None => content.to_owned(),
        Some(original) => {
            let newline = detect_line_ending_style(original);
            let styled_text = normalize_line_endings_to(content, newline);
            let original_chars = chars_of(original);
            let chars = chars_of(styled_text.as_str());
            if original_chars.len() > 0 && original_chars[0] == BYTE_ORDER_MARK && !(chars.len() > 0
                && chars[0] == BYTE_ORDER_MARK) {
                let mut marked = String::new();
                marked.push(BYTE_ORDER_MARK);
                marked.append(styled_text.as_str());
                assert(marked@ =~= seq![BYTE_ORDER_MARK] + styled_text@);
                marked
            } else {
                styled_text
            }
        },
    }
}

} // verus!
