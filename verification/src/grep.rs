//! Searching text with a regular expression: which files are searched, what is noted
//! of each, and what is reported in the end.

use vstd::prelude::*;
use vstd::string::*;
use vstd::utf8::*;

use crate::lines::{join_range, joined, lines, split_lines, texts};
use crate::matchers::{glob_matches, Expression, Glob, Query};
use crate::outputs::{GrepSearchInput, GrepSearchOutput};
use crate::paths::{extension, path_extension, same_bytes, HOST};
use crate::reports::{asked_offset, in_lines};
use crate::text::{
    decimal, decimal_string, lossy_text, path_text, same_text, string_option, text_option,
    utf8_string, utf8_text,
};
use crate::workspace::{normalize_glob_pattern_text, pattern_text};

verus! {

/// How many items are reported where no limit is given.
pub const DEFAULT_LIMIT: usize = 250;

/// An optional glob, as it is written.
pub open spec fn glob_option(g: Option<&Glob>) -> Option<Seq<char>> {
    match g {
        Some(g) => Some(g@),
        None => None,
    }
}

/// The file at `path` is searched, where `glob_matched` says whether the glob matched
/// it, if there is one, and where it has to be of the type, if there is one.
pub open spec fn admitted(
    path: Seq<u8>,
    glob_matched: Option<bool>,
    file_type: Option<Seq<char>>,
) -> bool {
    &&& glob_matched != Some(false)
    &&& file_type matches Some(t) ==> extension(path) == Some(encode_utf8(t))
}

/// Whether the file at `path` is searched, where `glob_matched` says whether the glob
/// matched it, if there is one.
pub fn admits(path: &Vec<u8>, glob_matched: Option<bool>, file_type: Option<&str>) -> (r: bool)
    ensures
        r == admitted(path@, glob_matched, text_option(file_type)),
{
    if let Some(matched) = glob_matched {
        if !matched {
            return false;
        }
    }
    if let Some(wanted) = file_type {
        match path_extension(path.as_slice()) {
            Some(found) => {
                return same_bytes(found.as_slice(), wanted.as_bytes());
            },
            None => {
                return false;
            },
        }
    }
    true
}

/// The glob matches the file at `path`: its text in the form that globs are written in,
/// or the path as it stands where that is UTF-8.
pub open spec fn glob_accepts(glob: Seq<char>, path: Seq<u8>) -> bool {
    ||| glob_matches(glob, pattern_text(lossy_text(path), HOST))
    ||| utf8_text(path) matches Some(t) && glob_matches(glob, t)
}

/// The file at `path` passes the glob and has the type, as far as they are given.
pub open spec fn passes_filters(
    path: Seq<u8>,
    glob: Option<Seq<char>>,
    file_type: Option<Seq<char>>,
) -> bool {
    let glob_matched = match glob {
        Some(g) => Some(glob_accepts(g, path)),
        None => None,
    };
    admitted(path, glob_matched, file_type)
}

/// Whether the file at `path` passes the glob and has the type, as far as they are
/// given.
pub fn matches_optional_filters(
    path: &Vec<u8>,
    glob_filter: Option<&Glob>,
    file_type: Option<&str>,
) -> (r: bool)
    ensures
        r == passes_filters(path@, glob_option(glob_filter), text_option(file_type)),
{
    let glob_matched = match glob_filter {
        Some(glob) => {
            let text = path_text(path);
            let path_string = normalize_glob_pattern_text(text.as_str(), HOST);
            let matched = glob.matches(path_string.as_str()) || match utf8_string(path) {
                Some(plain) => glob.matches_path(plain.as_str()),
                None => false,
            };
            Some(matched)
        },
        None => None,
    };
    admits(path, glob_matched, file_type)
}

/// An optional number, or what stands in for it.
pub open spec fn or_else(n: Option<usize>, other: usize) -> usize {
    match n {
        Some(n) => n,
        None => other,
    }
}

/// The items that are left of `items` once the first `offset` were passed over and the
/// rest was cut to the limit, which is none where it is zero.
pub open spec fn limited<T>(items: Seq<T>, limit: Option<usize>, offset: Option<usize>) -> Seq<T> {
    let skipped = or_else(offset, 0);
    let most = or_else(limit, DEFAULT_LIMIT);
    let rest = if skipped <= items.len() {
        items.skip(skipped as int)
    } else {
        Seq::empty()
    };
    if most == 0 || rest.len() <= most {
        rest
    } else {
        rest.take(most as int)
    }
}

/// The limit, where it left items out that follow the offset.
pub open spec fn limit_applied(count: nat, limit: Option<usize>, offset: Option<usize>) -> Option<
    usize,
> {
    let most = or_else(limit, DEFAULT_LIMIT);
    if most != 0 && count > or_else(offset, 0) + most {
        Some(most)
    } else {
        None
    }
}

/// The offset, where there is one.
pub open spec fn offset_applied(offset: Option<usize>) -> Option<usize> {
    if or_else(offset, 0) > 0 {
        offset
    } else {
        None
    }
}

/// Items can be reported page by page: a page holds no more than the limit, what it
/// leaves out the pages behind it hold, and it says that it was cut exactly where it
/// left something out.
pub proof fn law_pages_join<T>(items: Seq<T>, limit: usize, offset: usize)
    requires
        limit > 0,
        offset + limit <= usize::MAX,
    ensures
        limited(items, Some(limit), Some(offset)).len() <= limit,
        limited(items, Some(limit), Some(offset)) + limited(
            items,
            Some(0),
            Some((offset + limit) as usize),
        ) == limited(items, Some(0), Some(offset)),
        limit_applied(items.len(), Some(limit), Some(offset)) is Some <==> limited(
            items,
            Some(limit),
            Some(offset),
        ).len() < limited(items, Some(0), Some(offset)).len(),
{
    assert(limited(items, Some(limit), Some(offset)) + limited(
        items,
        Some(0),
        Some((offset + limit) as usize),
    ) =~= limited(items, Some(0), Some(offset)));
}

/// Passes over the first `offset` items and cuts the rest to the limit. Returns what is
/// left, the limit where it left something out, and the offset where there is one.
pub fn apply_limit<T>(items: Vec<T>, limit: Option<usize>, offset: Option<usize>) -> (r: (
    Vec<T>,
    Option<usize>,
    Option<usize>,
))
    ensures
        r.0@ == limited(items@, limit, offset),
        r.1 == limit_applied(items@.len(), limit, offset),
        r.2 == offset_applied(offset),
{
    let skipped: usize = match offset {
        Some(n) => n,
        None => 0,
    };
    let mut items = items;
    let mut rest: Vec<T> = if skipped <= items.len() {
        items.split_off(skipped)
    } else {
        Vec::new()
    };
    let applied_offset = if skipped > 0 {
        Some(skipped)
    } else {
        None
    };
    let most: usize = match limit {
        Some(n) => n,
        None => DEFAULT_LIMIT,
    };
    if most == 0 {
        return (rest, None, applied_offset);
    }
    let truncated = rest.len() > most;
    if truncated {
        rest.truncate(most);
    }
    let applied_limit = if truncated {
        Some(most)
    } else {
        None
    };
    (rest, applied_limit, applied_offset)
}

/// The number of context lines that stand in for those before and after a match.
pub open spec fn context_of(input: GrepSearchInput) -> usize {
    or_else(input.context, or_else(input.context_short, 0))
}

/// What is reported: `content`, `count`, or else the names of the files that match.
pub open spec fn mode_of(input: GrepSearchInput) -> Seq<char> {
    match input.output_mode {
        Some(mode) => mode@,
        None => "files_with_matches"@,
    }
}

/// Lines are reported with their numbers.
pub open spec fn numbered(input: GrepSearchInput) -> bool {
    input.line_numbers != Some(false)
}

/// The line `lines[k]` as it is reported: behind the name of its file, and its number
/// where lines are numbered.
pub open spec fn reported(
    name: Seq<char>,
    lines: Seq<Seq<char>>,
    k: int,
    with_number: bool,
) -> Seq<char> {
    if with_number {
        name + seq![':'] + decimal((k + 1) as nat) + seq![':'] + lines[k]
    } else {
        name + seq![':'] + lines[k]
    }
}

/// The lines `lines[from..to]` as they are reported.
pub open spec fn reported_range(
    name: Seq<char>,
    lines: Seq<Seq<char>>,
    from: int,
    to: int,
    with_number: bool,
) -> Seq<Seq<char>> {
    Seq::new((to - from) as nat, |i: int| reported(name, lines, from + i, with_number))
}

/// Where the lines around line `k` start, with at most `before` of them before it.
pub open spec fn window_start(k: int, before: int) -> int {
    if k < before {
        0
    } else {
        k - before
    }
}

/// Where the lines around line `k` of `count` end, with at most `after` of them after
/// it.
pub open spec fn window_end(k: int, after: int, count: int) -> int {
    if k + after + 1 < count {
        k + after + 1
    } else {
        count
    }
}

/// What is reported of the matches among the first `upto` lines: each with the lines
/// around it, also where those were reported with the match before.
pub open spec fn excerpt(
    name: Seq<char>,
    lines: Seq<Seq<char>>,
    matched: Seq<bool>,
    input: GrepSearchInput,
    upto: int,
) -> Seq<Seq<char>>
    decreases upto,
{
    if upto <= 0 {
        seq![]
    } else {
        let k = upto - 1;
        let earlier = excerpt(name, lines, matched, input, k);
        if matched[k] {
            earlier + reported_range(
                name,
                lines,
                window_start(k, or_else(input.before, context_of(input)) as int),
                window_end(
                    k,
                    or_else(input.after, context_of(input)) as int,
                    lines.len() as int,
                ),
                numbered(input),
            )
        } else {
            earlier
        }
    }
}

/// Line `j` stands in the lines around a match in line `k`.
pub open spec fn in_window(k: int, j: int, count: int, input: GrepSearchInput) -> bool {
    window_start(k, or_else(input.before, context_of(input)) as int) <= j < window_end(
        k,
        or_else(input.after, context_of(input)) as int,
        count,
    )
}

/// `text` is reported of a line that stands around one of the first `upto` lines, which
/// matches.
pub open spec fn is_around_match(
    text: Seq<char>,
    name: Seq<char>,
    lines: Seq<Seq<char>>,
    matched: Seq<bool>,
    input: GrepSearchInput,
    upto: int,
) -> bool {
    exists|k: int, j: int|
        0 <= k < upto && matched[k] && #[trigger] in_window(k, j, lines.len() as int, input) && text
            == reported(name, lines, j, numbered(input))
}

/// Every line that matches is reported, and whatever is reported is a line that stands
/// around one that matches.
pub proof fn law_matches_are_reported(
    name: Seq<char>,
    lines: Seq<Seq<char>>,
    matched: Seq<bool>,
    input: GrepSearchInput,
    upto: int,
)
    requires
        matched.len() == lines.len(),
        0 <= upto <= lines.len(),
    ensures
        forall|k: int|
            0 <= k < upto && matched[k] ==> excerpt(name, lines, matched, input, upto).contains(
                #[trigger] reported(name, lines, k, numbered(input)),
            ),
        forall|i: int|
            0 <= i < excerpt(name, lines, matched, input, upto).len() ==> is_around_match(
                #[trigger] excerpt(name, lines, matched, input, upto)[i],
                name,
                lines,
                matched,
                input,
                upto,
            ),
    decreases upto,
{
    if upto > 0 {
        let last = upto - 1;
        let count = lines.len() as int;
        let with_number = numbered(input);
        let earlier = excerpt(name, lines, matched, input, last);
        let all = excerpt(name, lines, matched, input, upto);
        law_matches_are_reported(name, lines, matched, input, last);
        let from = window_start(last, or_else(input.before, context_of(input)) as int);
        let to = window_end(last, or_else(input.after, context_of(input)) as int, count);
        let now = reported_range(name, lines, from, to, with_number);
        assert forall|k: int| 0 <= k < upto && matched[k] implies all.contains(
            #[trigger] reported(name, lines, k, with_number),
        ) by {
            if k < last {
                let i = earlier.index_of(reported(name, lines, k, with_number));
                assert(earlier.contains(reported(name, lines, k, with_number)));
                assert(all[i] == earlier[i]);
            } else {
                assert(now[last - from] == reported(name, lines, last, with_number));
                assert(all[earlier.len() + (last - from)] == now[last - from]);
            }
        }
        assert forall|i: int| 0 <= i < all.len() implies is_around_match(
            #[trigger] all[i],
            name,
            lines,
            matched,
            input,
            upto,
        ) by {
            if i < earlier.len() {
                assert(all[i] == earlier[i]);
                assert(is_around_match(earlier[i], name, lines, matched, input, last));
            } else {
                let j = from + (i - earlier.len());
                assert(all[i] == now[i - earlier.len()]);
                assert(in_window(last, j, count, input));
            }
        }
    }
}

/// How many of the lines match.
pub open spec fn hit_count(matched: Seq<bool>) -> nat
    decreases matched.len(),
{
    if matched.len() == 0 {
        0
    } else {
        hit_count(matched.drop_last()) + if matched.last() {
            1nat
        } else {
            0nat
        }
    }
}

/// A count of matches as a machine word holds it.
pub open spec fn held(n: int) -> int {
    if n > usize::MAX {
        usize::MAX as int
    } else {
        n
    }
}

/// What a search has noted so far.
pub ghost struct Notes {
    pub filenames: Seq<Seq<char>>,
    pub content_lines: Seq<Seq<char>>,
    pub total_matches: int,
}

/// What a search has noted so far.
#[derive(Debug, PartialEq, Eq)]
pub struct Tally {
    /// The files with a match.
    pub filenames: Vec<String>,
    /// The lines around the matches, where lines are reported.
    pub content_lines: Vec<String>,
    /// The number of matches, or the largest number there is where they are more.
    pub total_matches: usize,
}

impl View for Tally {
    type V = Notes;

    open spec fn view(&self) -> Notes {
        Notes {
            filenames: texts(self.filenames@),
            content_lines: texts(self.content_lines@),
            total_matches: self.total_matches as int,
        }
    }
}

/// The notes once `count` matches were found in a file.
pub open spec fn with_count(notes: Notes, name: Seq<char>, count: int) -> Notes {
    if count == 0 {
        notes
    } else {
        Notes {
            filenames: notes.filenames.push(name),
            content_lines: notes.content_lines,
            total_matches: held(notes.total_matches + count),
        }
    }
}

/// The notes once the lines of a file were searched, of which those match that
/// `matched` says.
pub open spec fn with_lines(
    notes: Notes,
    name: Seq<char>,
    lines: Seq<Seq<char>>,
    matched: Seq<bool>,
    input: GrepSearchInput,
) -> Notes {
    let counted = with_count(notes, name, hit_count(matched) as int);
    if hit_count(matched) > 0 && mode_of(input) == "content"@ {
        Notes {
            content_lines: notes.content_lines + excerpt(
                name,
                lines,
                matched,
                input,
                lines.len() as int,
            ),
            ..counted
        }
    } else {
        counted
    }
}

/// The notes once a file was searched.
pub open spec fn with_file(
    notes: Notes,
    query: Query,
    name: Seq<char>,
    content: Seq<char>,
    input: GrepSearchInput,
) -> Notes {
    if mode_of(input) == "count"@ {
        with_count(notes, name, query.count(content) as int)
    } else {
        let ls = lines(content);
        with_lines(notes, name, ls, ls.map_values(|l: Seq<char>| query.matches(l)), input)
    }
}

/// An optional number, or what stands in for it.
fn number_or(n: Option<usize>, other: usize) -> (r: usize)
    ensures
        r == or_else(n, other),
{
    match n {
        Some(n) => n,
        None => other,
    }
}

/// The line as it is reported.
fn report_line(name: &str, lines: &Vec<String>, k: usize, with_number: bool) -> (r: String)
    requires
        k < lines@.len(),
    ensures
        r@ == reported(name@, texts(lines@), k as int, with_number),
{
    let mut r = name.to_owned();
    r.push(':');
    if with_number {
        assert(k < lines.len());
        let number = decimal_string((k + 1) as u64);
        r.append(number.as_str());
        r.push(':');
    }
    r.append(lines[k].as_str());
    assert(r@ =~= reported(name@, texts(lines@), k as int, with_number));
    r
}

/// Notes that `count` matches were found in the file `name`.
pub fn note_count(tally: &mut Tally, name: &str, count: usize)
    ensures
        final(tally)@ == with_count(old(tally)@, name@, count as int),
{
    if count > 0 {
        let ghost before = tally.filenames@;
        tally.filenames.push(name.to_owned());
        tally.total_matches = tally.total_matches.saturating_add(count);
        assert(texts(tally.filenames@) =~= texts(before).push(name@));
    }
}

/// Notes the lines around the match in line `k`.
fn note_window(
    content_lines: &mut Vec<String>,
    name: &str,
    lines: &Vec<String>,
    from: usize,
    to: usize,
    with_number: bool,
)
    requires
        from <= to <= lines@.len(),
    ensures
        texts(final(content_lines)@) == texts(old(content_lines)@) + reported_range(
            name@,
            texts(lines@),
            from as int,
            to as int,
            with_number,
        ),
{
    let ghost first = texts(content_lines@);
    let ghost ls = texts(lines@);
    let mut k: usize = from;
    assert(first + reported_range(name@, ls, from as int, from as int, with_number) =~= first);
    while k < to
        invariant
            from <= k <= to <= lines@.len(),
            ls == texts(lines@),
            texts(content_lines@) == first + reported_range(
                name@,
                ls,
                from as int,
                k as int,
                with_number,
            ),
        decreases to - k,
    {
        let line = report_line(name, lines, k, with_number);
        let ghost before = content_lines@;
        content_lines.push(line);
        k += 1;
        assert(texts(content_lines@) =~= texts(before).push(line@));
        assert(texts(content_lines@) =~= first + reported_range(
            name@,
            ls,
            from as int,
            k as int,
            with_number,
        ));
    }
}

/// How many of the lines match.
fn count_hits(matched: &Vec<bool>) -> (r: usize)
    ensures
        r == hit_count(matched@),
{
    let mut n: usize = 0;
    let mut i: usize = 0;
    while i < matched.len()
        invariant
            i <= matched@.len(),
            n <= i,
            n == hit_count(matched@.take(i as int)),
        decreases matched@.len() - i,
    {
        assert(matched@.take(i + 1).drop_last() =~= matched@.take(i as int));
        if matched[i] {
            n += 1;
        }
        i += 1;
    }
    assert(matched@.take(i as int) =~= matched@);
    n
}

/// Notes the matches in the lines of the file `name`, which are those that `matched`
/// says.
pub fn note_lines(
    tally: &mut Tally,
    name: &str,
    lines: &Vec<String>,
    matched: &Vec<bool>,
    input: &GrepSearchInput,
)
    requires
        matched@.len() == lines@.len(),
    ensures
        final(tally)@ == with_lines(old(tally)@, name@, texts(lines@), matched@, *input),
{
    let hits = count_hits(matched);
    note_count(tally, name, hits);
    let content = match &input.output_mode {
        Some(mode) => same_text(mode.as_str(), "content"),
        None => {
            proof {
                reveal_strlit("files_with_matches");
                reveal_strlit("content");
                assert("files_with_matches"@.len() != "content"@.len());
            }
            false
        },
    };
    if hits == 0 || !content {
        return ;
    }
    let context = number_or(input.context, number_or(input.context_short, 0));
    let before = number_or(input.before, context);
    let after = number_or(input.after, context);
    let with_number = match input.line_numbers {
        Some(n) => n,
        None => true,
    };
    let ghost first = texts(tally.content_lines@);
    let ghost counted = *tally;
    let mut k: usize = 0;
    assert(first + excerpt(name@, texts(lines@), matched@, *input, 0) =~= first);
    while k < lines.len()
        invariant
            k <= lines@.len(),
            matched@.len() == lines@.len(),
            before == or_else(input.before, context_of(*input)),
            after == or_else(input.after, context_of(*input)),
            with_number == numbered(*input),
            tally.filenames == counted.filenames,
            tally.total_matches == counted.total_matches,
            texts(tally.content_lines@) == first + excerpt(
                name@,
                texts(lines@),
                matched@,
                *input,
                k as int,
            ),
        decreases lines@.len() - k,
    {
        if matched[k] {
            let from: usize = if k < before {
                0
            } else {
                k - before
            };
            let to: usize = if after < lines.len() - k - 1 {
                k + after + 1
            } else {
                lines.len()
            };
            let mut content_lines: Vec<String> = Vec::new();
            std::mem::swap(&mut content_lines, &mut tally.content_lines);
            note_window(&mut content_lines, name, lines, from, to, with_number);
            tally.content_lines = content_lines;
            assert(texts(tally.content_lines@) =~= first + excerpt(
                name@,
                texts(lines@),
                matched@,
                *input,
                k + 1,
            ));
        }
        k += 1;
    }
}

/// Searches the file `name` and notes what it finds.
pub fn search_file(
    tally: &mut Tally,
    expression: &Expression,
    name: &str,
    content: &str,
    input: &GrepSearchInput,
)
    ensures
        final(tally)@ == with_file(old(tally)@, expression@, name@, content@, *input),
{
    let counting = match &input.output_mode {
        Some(mode) => same_text(mode.as_str(), "count"),
        None => {
            proof {
                reveal_strlit("files_with_matches");
                reveal_strlit("count");
                assert("files_with_matches"@.len() != "count"@.len());
            }
            false
        },
    };
    if counting {
        let count = expression.count(content);
        note_count(tally, name, count);
        return ;
    }
    let ls = split_lines(content);
    let mut matched: Vec<bool> = Vec::new();
    let ghost wanted = lines(content@).map_values(|l: Seq<char>| expression@.matches(l));
    let mut i: usize = 0;
    while i < ls.len()
        invariant
            i <= ls@.len(),
            texts(ls@) == lines(content@),
            wanted == lines(content@).map_values(|l: Seq<char>| expression@.matches(l)),
            matched@ == wanted.take(i as int),
        decreases ls@.len() - i,
    {
        assert(ls@[i as int]@ == texts(ls@)[i as int]);
        matched.push(expression.is_match(ls[i].as_str()));
        i += 1;
        assert(matched@ =~= wanted.take(i as int));
    }
    assert(matched@ =~= wanted);
    note_lines(tally, name, &ls, &matched, input);
}

/// What is reported where lines are: the lines that are left under the limit and the
/// offset, joined.
pub open spec fn is_content_output(
    output: GrepSearchOutput,
    mode: Seq<char>,
    filenames: Seq<Seq<char>>,
    content_lines: Seq<Seq<char>>,
    limit: Option<usize>,
    offset: Option<usize>,
) -> bool {
    let kept = limited(content_lines, limit, offset);
    &&& string_option(output.mode) == Some(mode)
    &&& output.num_files == filenames.len()
    &&& texts(output.filenames@) == filenames
    &&& string_option(output.content) == Some(joined(kept, "\n"@))
    &&& output.num_lines matches Some(n) && n == kept.len()
    &&& output.num_matches is None
    &&& output.applied_limit == limit_applied(content_lines.len(), limit, offset)
    &&& output.applied_offset == offset_applied(offset)
}

/// The report where lines are reported.
pub fn build_grep_content_output(
    output_mode: String,
    filenames: Vec<String>,
    content_lines: Vec<String>,
    head_limit: Option<usize>,
    offset: Option<usize>,
) -> (r: GrepSearchOutput)
    ensures
        is_content_output(
            r,
            output_mode@,
            texts(filenames@),
            texts(content_lines@),
            head_limit,
            offset,
        ),
{
    let ghost all = texts(content_lines@);
    let (lines, applied_limit, applied_offset) = apply_limit(content_lines, head_limit, offset);
    let content = join_range(&lines, 0, lines.len(), "\n");
    assert(texts(lines@).subrange(0, lines@.len() as int) =~= texts(lines@));
    assert(texts(lines@) =~= limited(all, head_limit, offset));
    GrepSearchOutput {
        mode: Some(output_mode),
        num_files: filenames.len(),
        filenames,
        content: Some(content),
        num_lines: Some(lines.len()),
        num_matches: None,
        applied_limit,
        applied_offset,
    }
}

/// What is reported of a search that has noted `notes`.
pub open spec fn is_grep_output(
    output: GrepSearchOutput,
    notes: Notes,
    input: GrepSearchInput,
) -> bool {
    let filenames = limited(notes.filenames, input.head_limit, input.offset);
    if mode_of(input) == "content"@ {
        is_content_output(
            output,
            mode_of(input),
            filenames,
            notes.content_lines,
            input.head_limit,
            input.offset,
        )
    } else {
        &&& string_option(output.mode) == Some(mode_of(input))
        &&& output.num_files == filenames.len()
        &&& texts(output.filenames@) == filenames
        &&& output.content is None
        &&& output.num_lines is None
        &&& if mode_of(input) == "count"@ {
            output.num_matches matches Some(n) && n == notes.total_matches
        } else {
            output.num_matches is None
        }
        &&& output.applied_limit == limit_applied(
            notes.filenames.len(),
            input.head_limit,
            input.offset,
        )
        &&& output.applied_offset == offset_applied(input.offset)
    }
}

/// The report of a search.
pub fn build_grep_output(tally: Tally, input: &GrepSearchInput) -> (r: GrepSearchOutput)
    ensures
        is_grep_output(r, tally@, *input),
{
    let ghost all = texts(tally.filenames@);
    let mode = match &input.output_mode {
        Some(mode) => mode.clone(),
        None => "files_with_matches".to_owned(),
    };
    let (filenames, applied_limit, applied_offset) = apply_limit(
        tally.filenames,
        input.head_limit,
        input.offset,
    );
    assert(texts(filenames@) =~= limited(all, input.head_limit, input.offset));
    if same_text(mode.as_str(), "content") {
        return build_grep_content_output(
            mode,
            filenames,
            tally.content_lines,
            input.head_limit,
            input.offset,
        );
    }
    let num_matches = if same_text(mode.as_str(), "count") {
        Some(tally.total_matches)
    } else {
        None
    };
    GrepSearchOutput {
        mode: Some(mode),
        num_files: filenames.len(),
        filenames,
        content: None,
        num_lines: None,
        num_matches,
        applied_limit,
        applied_offset,
    }
}

/// How many lines are shown before a match: the number for that, else the number for both
/// sides, under its longer or its shorter name, else none.
pub open spec fn asked_before(input: GrepSearchInput) -> int {
    match (input.before, input.context, input.context_short) {
        (Some(n), _, _) => n as int,
        (None, Some(n), _) => n as int,
        (None, None, Some(n)) => n as int,
        (None, None, None) => 0,
    }
}

/// How many lines are shown after a match.
pub open spec fn asked_after(input: GrepSearchInput) -> int {
    match (input.after, input.context, input.context_short) {
        (Some(n), _, _) => n as int,
        (None, Some(n), _) => n as int,
        (None, None, Some(n)) => n as int,
        (None, None, None) => 0,
    }
}

/// `text` is line `j` behind the name of its file, and behind its number, counted from one,
/// unless numbers are not wanted.
pub open spec fn shows_line(
    text: Seq<char>,
    name: Seq<char>,
    lines: Seq<Seq<char>>,
    j: int,
    input: GrepSearchInput,
) -> bool {
    match input.line_numbers {
        Some(false) => text == name + seq![':'] + lines[j],
        _ => text == name + seq![':'] + decimal((j + 1) as nat) + seq![':'] + lines[j],
    }
}

/// `shown` are the lines around line `k`: line `j` is among them just where it is no more
/// than the number asked for before or behind line `k`; and they stand in their order, the
/// first of them line `low`.
pub open spec fn shows_lines_around(
    shown: Seq<Seq<char>>,
    name: Seq<char>,
    lines: Seq<Seq<char>>,
    k: int,
    low: int,
    input: GrepSearchInput,
) -> bool {
    &&& forall|j: int|
        #![trigger in_lines(low, low + shown.len(), j)]
        in_lines(low, low + shown.len(), j) <==> (0 <= j < lines.len() && k - asked_before(input)
            <= j <= k + asked_after(input))
    &&& forall|i: int|
        0 <= i < shown.len() ==> shows_line(#[trigger] shown[i], name, lines, low + i, input)
}

/// What is noted of line `k` stands in `noted` from `ends[k]` up to `ends[k + 1]`: where it
/// matches, it and the lines around it, and nothing where it does not.
pub open spec fn is_noted_of_line(
    noted: Seq<Seq<char>>,
    name: Seq<char>,
    lines: Seq<Seq<char>>,
    matched: Seq<bool>,
    input: GrepSearchInput,
    ends: Seq<int>,
    k: int,
) -> bool {
    &&& 0 <= ends[k] <= ends[k + 1] <= noted.len()
    &&& !matched[k] ==> ends[k] == ends[k + 1]
    &&& matched[k] ==> exists|low: int| #[trigger]
        shows_lines_around(noted.subrange(ends[k], ends[k + 1]), name, lines, k, low, input)
}

/// What is noted of the first `upto` lines of a file, of which those match that `matched`
/// says: of each line that matches, in their order, it and the lines around it, no fewer and
/// no more than were asked for.
pub open spec fn notes_lines_around_matches(
    noted: Seq<Seq<char>>,
    name: Seq<char>,
    lines: Seq<Seq<char>>,
    matched: Seq<bool>,
    input: GrepSearchInput,
    ends: Seq<int>,
    upto: int,
) -> bool {
    &&& ends.len() == upto + 1
    &&& ends[0] == 0
    &&& ends[upto] == noted.len()
    &&& forall|k: int|
        0 <= k < upto ==> #[trigger] is_noted_of_line(noted, name, lines, matched, input, ends, k)
}

proof fn lemma_window_shows_lines_around(
    name: Seq<char>,
    lines: Seq<Seq<char>>,
    k: int,
    input: GrepSearchInput,
)
    requires
        0 <= k < lines.len(),
    ensures
        ({
            let from = window_start(k, or_else(input.before, context_of(input)) as int);
            let to = window_end(
                k,
                or_else(input.after, context_of(input)) as int,
                lines.len() as int,
            );
            shows_lines_around(
                reported_range(name, lines, from, to, numbered(input)),
                name,
                lines,
                k,
                from,
                input,
            )
        }),
{
}

proof fn lemma_excerpt_notes_lines(
    name: Seq<char>,
    lines: Seq<Seq<char>>,
    matched: Seq<bool>,
    input: GrepSearchInput,
    upto: int,
) -> (ends: Seq<int>)
    requires
        matched.len() == lines.len(),
        0 <= upto <= lines.len(),
    ensures
        notes_lines_around_matches(
            excerpt(name, lines, matched, input, upto),
            name,
            lines,
            matched,
            input,
            ends,
            upto,
        ),
    decreases upto,
{
    if upto <= 0 {
        seq![0int]
    } else {
        let last = upto - 1;
        let before = lemma_excerpt_notes_lines(name, lines, matched, input, last);
        let earlier = excerpt(name, lines, matched, input, last);
        let noted = excerpt(name, lines, matched, input, upto);
        let ends = before.push(noted.len() as int);
        assert forall|k: int| 0 <= k < upto implies #[trigger] is_noted_of_line(
            noted,
            name,
            lines,
            matched,
            input,
            ends,
            k,
        ) by {
            if k < last {
                assert(is_noted_of_line(earlier, name, lines, matched, input, before, k));
                assert(before[k + 1] == ends[k + 1] && before[k] == ends[k]);
                assert(noted.subrange(ends[k], ends[k + 1]) =~= earlier.subrange(
                    before[k],
                    before[k + 1],
                ));
            } else if matched[k] {
                let from = window_start(k, or_else(input.before, context_of(input)) as int);
                let to = window_end(
                    k,
                    or_else(input.after, context_of(input)) as int,
                    lines.len() as int,
                );
                lemma_window_shows_lines_around(name, lines, k, input);
                let now = noted.subrange(ends[k], ends[k + 1]);
                assert(now =~= reported_range(name, lines, from, to, numbered(input)));
                assert(shows_lines_around(now, name, lines, k, from, input));
            }
        }
        ends
    }
}

/// A search notes what it is asked for. Where a line of a file matches, its name is noted,
/// and as many matches as there are lines that match; and nothing where none does. Where
/// lines are asked for, those around each line that matches are noted: just the lines `j`
/// of the file with `k - before <= j <= k + after`, for each line `k` that matches.
pub proof fn law_search_notes_lines_around_matches(
    notes: Notes,
    name: Seq<char>,
    lines: Seq<Seq<char>>,
    matched: Seq<bool>,
    input: GrepSearchInput,
)
    requires
        matched.len() == lines.len(),
    ensures
        ({
            let r = with_lines(notes, name, lines, matched, input);
            let found = exists|k: int| 0 <= k < matched.len() && #[trigger] matched[k];
            let shown = match input.output_mode {
                Some(m) => m@ == seq!['c', 'o', 'n', 't', 'e', 'n', 't'],
                None => false,
            };
            let n = matched.filter(|b: bool| b).len();
            &&& !found ==> r == notes
            &&& found ==> r.filenames == notes.filenames.push(name)
            &&& notes.total_matches + n <= usize::MAX ==> r.total_matches == notes.total_matches + n
            &&& found && !shown ==> r.content_lines == notes.content_lines
            &&& found && shown ==> exists|noted: Seq<Seq<char>>, ends: Seq<int>|
                r.content_lines == notes.content_lines + noted
                    && #[trigger] notes_lines_around_matches(
                    noted,
                    name,
                    lines,
                    matched,
                    input,
                    ends,
                    lines.len() as int,
                )
        }),
{
    lemma_hits_are_counted(matched);
    reveal_strlit("content");
    assert("content"@ =~= seq!['c', 'o', 'n', 't', 'e', 'n', 't']);
    reveal_strlit("files_with_matches");
    assert("files_with_matches"@.len() != "content"@.len());
    if hit_count(matched) > 0 && mode_of(input) == "content"@ {
        let noted = excerpt(name, lines, matched, input, lines.len() as int);
        let ends = lemma_excerpt_notes_lines(name, lines, matched, input, lines.len() as int);
        assert(notes_lines_around_matches(
            noted,
            name,
            lines,
            matched,
            input,
            ends,
            lines.len() as int,
        ));
    }
}

proof fn lemma_hits_are_counted(matched: Seq<bool>)
    ensures
        hit_count(matched) == matched.filter(|b: bool| b).len(),
        hit_count(matched) > 0 <==> exists|k: int| 0 <= k < matched.len() && #[trigger] matched[k],
    decreases matched.len(),
{
    reveal(Seq::filter);
    if matched.len() > 0 {
        let rest = matched.drop_last();
        lemma_hits_are_counted(rest);
        if exists|k: int| 0 <= k < rest.len() && #[trigger] rest[k] {
            let k = choose|k: int| 0 <= k < rest.len() && #[trigger] rest[k];
            assert(matched[k]);
        }
        if exists|k: int| 0 <= k < matched.len() && #[trigger] matched[k] {
            let k = choose|k: int| 0 <= k < matched.len() && #[trigger] matched[k];
            if k < rest.len() {
                assert(rest[k]);
            }
        }
        if matched.last() {
            assert(matched[matched.len() - 1]);
        }
    }
}

/// What is noted of a file is noted of its lines: those match that the expression matches.
/// Where only counts are asked for, all matches in the whole text are counted.
pub proof fn law_search_goes_through_lines(
    notes: Notes,
    query: Query,
    name: Seq<char>,
    content: Seq<char>,
    input: GrepSearchInput,
)
    ensures
        ({
            let counts = match input.output_mode {
                Some(m) => m@ == seq!['c', 'o', 'u', 'n', 't'],
                None => false,
            };
            let r = with_file(notes, query, name, content, input);
            let ls = lines(content);
            &&& !counts ==> exists|matched: Seq<bool>|
                {
                    &&& matched.len() == ls.len()
                    &&& forall|k: int|
                        0 <= k < ls.len() ==> (#[trigger] matched[k] <==> query.matches(ls[k]))
                    &&& r == #[trigger] with_lines(notes, name, ls, matched, input)
                }
            &&& counts && query.count(content) == 0 ==> r == notes
            &&& counts && query.count(content) > 0 ==> r.filenames == notes.filenames.push(name)
                && r.content_lines == notes.content_lines && (notes.total_matches + query.count(
                content,
            ) <= usize::MAX ==> r.total_matches == notes.total_matches + query.count(content))
        }),
{
    reveal_strlit("count");
    assert("count"@ =~= seq!['c', 'o', 'u', 'n', 't']);
    reveal_strlit("files_with_matches");
    assert("files_with_matches"@.len() != "count"@.len());
    let ls = lines(content);
    let matched = ls.map_values(|l: Seq<char>| query.matches(l));
    assert(matched.len() == ls.len());
    assert forall|k: int| 0 <= k < ls.len() implies (#[trigger] matched[k] <==> query.matches(
        ls[k],
    )) by {}
    if mode_of(input) != "count"@ {
        assert(with_file(notes, query, name, content, input) == with_lines(
            notes,
            name,
            ls,
            matched,
            input,
        ));
    }
}

/// What is left under an offset and a limit are the items from the offset on, in their
/// order, and no more of them than the limit: item `i` just where `offset <= i < offset +
/// limit`. No offset is an offset of zero, no limit is one of 250, and a limit of zero is
/// none.
pub proof fn law_limit_keeps_items_from_offset<T>(
    items: Seq<T>,
    limit: Option<usize>,
    offset: Option<usize>,
)
    ensures
        ({
            let o = asked_offset(offset);
            let most: int = match limit {
                Some(n) => n as int,
                None => 250,
            };
            let kept = limited(items, limit, offset);
            &&& forall|i: int|
                #![trigger in_lines(o, o + kept.len(), i)]
                in_lines(o, o + kept.len(), i) <==> (o <= i < items.len() && (most != 0 ==> i < o
                    + most))
            &&& forall|i: int| 0 <= i < kept.len() ==> (#[trigger] kept[i]) == items[o + i]
            &&& limit_applied(items.len(), limit, offset) == if most != 0 && items.len() > o + most {
                Some(most as usize)
            } else {
                None
            }
            &&& offset_applied(offset) == if o > 0 {
                Some(o as usize)
            } else {
                None
            }
        }),
{
}

/// A file is searched where it has the extension that is asked for, if any, and where the
/// glob that is asked for, if any, matches it.
pub proof fn law_filters_admit_what_is_asked_for(
    path: Seq<u8>,
    glob: Option<Seq<char>>,
    file_type: Option<Seq<char>>,
)
    ensures
        passes_filters(path, glob, file_type) <==> {
            &&& glob matches Some(g) ==> glob_matches(g, lossy_text(path)) || (valid_utf8(path)
                && glob_matches(g, decode_utf8(path)))
            &&& file_type matches Some(t) ==> extension(path) == Some(encode_utf8(t))
        },
{
}

/// What a search reports goes by its mode. Names are reported in every mode, under the
/// offset and the limit; lines where lines are asked for, also under them, joined by
/// newlines; and the number of all matches where counts are.
pub proof fn law_report_goes_by_mode(output: GrepSearchOutput, notes: Notes, input: GrepSearchInput)
    requires
        is_grep_output(output, notes, input),
    ensures
        ({
            let mode = match input.output_mode {
                Some(m) => m@,
                None => "files_with_matches"@,
            };
            let content = mode == seq!['c', 'o', 'n', 't', 'e', 'n', 't'];
            let counts = mode == seq!['c', 'o', 'u', 'n', 't'];
            let names = limited(notes.filenames, input.head_limit, input.offset);
            let lines = limited(notes.content_lines, input.head_limit, input.offset);
            &&& output.mode matches Some(m) && m@ == mode
            &&& texts(output.filenames@) == names
            &&& output.num_files == names.len()
            &&& content ==> (output.content matches Some(c) && c@ == joined(lines, seq!['\n']))
            &&& content ==> (output.num_lines matches Some(n) && n == lines.len())
            &&& !content ==> output.content is None && output.num_lines is None
            &&& counts ==> (output.num_matches matches Some(n) && n == notes.total_matches)
            &&& !counts ==> output.num_matches is None
            &&& output.applied_offset == offset_applied(input.offset)
            &&& output.applied_limit == limit_applied(
                if content {
                    notes.content_lines.len()
                } else {
                    notes.filenames.len()
                },
                input.head_limit,
                input.offset,
            )
        }),
{
    reveal_strlit("content");
    reveal_strlit("count");
    reveal_strlit("\n");
    assert("content"@ =~= seq!['c', 'o', 'n', 't', 'e', 'n', 't']);
    assert("count"@ =~= seq!['c', 'o', 'u', 'n', 't']);
    assert("\n"@ =~= seq!['\n']);
    assert("content"@.len() != "count"@.len());
}

} // verus!
