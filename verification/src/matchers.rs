//! Compiled patterns: globs, by which file names are chosen, and regular
//! expressions, by which text is searched.

use vstd::prelude::*;

verus! {

/// `glob::Pattern`, a compiled glob.
#[verifier::external_type_specification]
#[verifier::external_body]
pub struct ExGlobPattern(glob::Pattern);

/// `regex::Regex`, a compiled regular expression.
#[verifier::external_type_specification]
#[verifier::external_body]
pub struct ExRegex(regex::Regex);

/// What `glob::Pattern::new` makes of a text: the compiled glob, or the message that
/// says why it is none.
pub uninterp spec fn glob_build(text: Seq<char>) -> Result<glob::Pattern, Seq<char>>;

/// Whether the glob written `glob` matches `text`, as `glob::Pattern::matches` has it.
pub uninterp spec fn glob_matches(glob: Seq<char>, text: Seq<char>) -> bool;

/// What `regex::RegexBuilder::build` makes of a pattern under the two settings: the
/// compiled expression, or the message that says why it is none.
pub uninterp spec fn regex_build(
    pattern: Seq<char>,
    case_insensitive: bool,
    dot_matches_new_line: bool,
) -> Result<regex::Regex, Seq<char>>;

/// Whether the expression matches somewhere in `text`, as `regex::Regex::is_match`
/// has it.
pub uninterp spec fn regex_is_match(
    pattern: Seq<char>,
    case_insensitive: bool,
    dot_matches_new_line: bool,
    text: Seq<char>,
) -> bool;

/// How many matches `regex::Regex::find_iter` walks in `text`.
pub uninterp spec fn regex_match_count(
    pattern: Seq<char>,
    case_insensitive: bool,
    dot_matches_new_line: bool,
    text: Seq<char>,
) -> nat;

/// Calls `glob::Pattern::new`. On a given target its result depends on the text alone; of
/// its error the message is kept.
#[verifier::external_body]
fn build_glob(text: &str) -> (r: Result<glob::Pattern, String>)
    ensures
        match r {
            Ok(p) => glob_build(text@) == Ok::<glob::Pattern, Seq<char>>(p),
            Err(m) => glob_build(text@) == Err::<glob::Pattern, Seq<char>>(m@),
        },
{
    glob::Pattern::new(text).map_err(|error| error.to_string())
}

/// Calls `regex::RegexBuilder::build` under the settings `case_insensitive` and
/// `dot_matches_new_line`. On a given target its result depends on the pattern and the two
/// settings alone; of its error the message is kept.
#[verifier::external_body]
fn build_regex(pattern: &str, case_insensitive: bool, dot_matches_new_line: bool) -> (r: Result<
    regex::Regex,
    String,
>)
    ensures
        match r {
            Ok(p) => regex_build(pattern@, case_insensitive, dot_matches_new_line) == Ok::<
                regex::Regex,
                Seq<char>,
            >(p),
            Err(m) => regex_build(pattern@, case_insensitive, dot_matches_new_line) == Err::<
                regex::Regex,
                Seq<char>,
            >(m@),
        },
{
    regex::RegexBuilder::new(pattern)
        .case_insensitive(case_insensitive)
        .dot_matches_new_line(dot_matches_new_line)
        .build()
        .map_err(|error| error.to_string())
}

/// A compiled glob together with the text that it was compiled from.
pub struct Glob {
    text: String,
    compiled: glob::Pattern,
}

impl View for Glob {
    type V = Seq<char>;

    /// The text that the glob was compiled from.
    closed spec fn view(&self) -> Seq<char> {
        self.text@
    }
}

impl Glob {
    #[verifier::type_invariant]
    closed spec fn inv(self) -> bool {
        glob_build(self.text@) == Ok::<glob::Pattern, Seq<char>>(self.compiled)
    }

    /// Compiles a glob.
    pub fn new(text: &str) -> (r: Result<Glob, String>)
        ensures
            match r {
                Ok(g) => glob_build(text@) is Ok && g@ == text@,
                Err(m) => glob_build(text@) == Err::<glob::Pattern, Seq<char>>(m@),
            },
    {
        match build_glob(text) {
            Ok(compiled) => Ok(Glob { text: text.to_owned(), compiled }),
            Err(message) => Err(message),
        }
    }

    /// Calls `glob::Pattern::matches`. On a given target, which says what separates names,
    /// its result depends on the text that the glob was compiled from and on the text that
    /// it is held against, and on nothing else.
    #[verifier::external_body]
    pub(crate) fn matches(&self, text: &str) -> (r: bool)
        ensures
            r == glob_matches(self@, text@),
    {
        self.compiled.matches(text)
    }

    /// Calls `glob::Pattern::matches_path` on a path written in UTF-8. On such a path it
    /// is `glob::Pattern::matches` on the path's text.
    #[verifier::external_body]
    pub(crate) fn matches_path(&self, path: &str) -> (r: bool)
        ensures
            r == glob_matches(self@, path@),
    {
        self.compiled.matches_path(std::path::Path::new(path))
    }
}

/// A regular expression as it is written, and the settings that it is read under.
pub ghost struct Query {
    pub pattern: Seq<char>,
    pub case_insensitive: bool,
    pub dot_matches_new_line: bool,
}

impl Query {
    /// The expression compiles.
    pub open spec fn compiles(self) -> bool {
        regex_build(self.pattern, self.case_insensitive, self.dot_matches_new_line) is Ok
    }

    /// The expression matches somewhere in `text`.
    pub open spec fn matches(self, text: Seq<char>) -> bool {
        regex_is_match(self.pattern, self.case_insensitive, self.dot_matches_new_line, text)
    }

    /// How many matches the expression has in `text`.
    pub open spec fn count(self, text: Seq<char>) -> nat {
        regex_match_count(self.pattern, self.case_insensitive, self.dot_matches_new_line, text)
    }
}

/// A compiled regular expression together with what it was compiled from.
pub struct Expression {
    pattern: String,
    case_insensitive: bool,
    dot_matches_new_line: bool,
    compiled: regex::Regex,
}

impl View for Expression {
    type V = Query;

    /// What the expression was compiled from.
    closed spec fn view(&self) -> Query {
        Query {
            pattern: self.pattern@,
            case_insensitive: self.case_insensitive,
            dot_matches_new_line: self.dot_matches_new_line,
        }
    }
}

impl Expression {
    #[verifier::type_invariant]
    closed spec fn inv(self) -> bool {
        regex_build(self.pattern@, self.case_insensitive, self.dot_matches_new_line) == Ok::<
            regex::Regex,
            Seq<char>,
        >(self.compiled)
    }

    /// Compiles a regular expression.
    pub fn new(pattern: &str, case_insensitive: bool, dot_matches_new_line: bool) -> (r: Result<
        Expression,
        String,
    >)
        ensures
            match r {
                Ok(e) => e@.compiles() && e@ == (Query {
                    pattern: pattern@,
                    case_insensitive,
                    dot_matches_new_line,
                }),
                Err(m) => regex_build(pattern@, case_insensitive, dot_matches_new_line) == Err::<
                    regex::Regex,
                    Seq<char>,
                >(m@),
            },
    {
        match build_regex(pattern, case_insensitive, dot_matches_new_line) {
            Ok(compiled) => Ok(
                Expression {
                    pattern: pattern.to_owned(),
                    case_insensitive,
                    dot_matches_new_line,
                    compiled,
                },
            ),
            Err(message) => Err(message),
        }
    }

    /// Calls `regex::Regex::is_match`. On a given target its result depends on what the
    /// expression was compiled from and on the text, and on nothing else.
    #[verifier::external_body]
    pub(crate) fn is_match(&self, text: &str) -> (r: bool)
        ensures
            r == regex_is_match(
                self@.pattern,
                self@.case_insensitive,
                self@.dot_matches_new_line,
                text@,
            ),
    {
        self.compiled.is_match(text)
    }

    /// Calls `regex::Regex::find_iter` and counts what it walks. On a given target the count
    /// depends on what the expression was compiled from and on the text, and on nothing
    /// else.
    #[verifier::external_body]
    pub(crate) fn count(&self, text: &str) -> (r: usize)
        ensures
            r == regex_match_count(
                self@.pattern,
                self@.case_insensitive,
                self@.dot_matches_new_line,
                text@,
            ),
    {
        self.compiled.find_iter(text).count()
    }
}

/// What an expression matches, and how often, goes by its pattern and its two settings.
pub proof fn law_expression_goes_by_pattern_and_settings(q: Query, text: Seq<char>)
    ensures
        q.matches(text) == regex_is_match(
            q.pattern,
            q.case_insensitive,
            q.dot_matches_new_line,
            text,
        ),
        q.count(text) == regex_match_count(
            q.pattern,
            q.case_insensitive,
            q.dot_matches_new_line,
            text,
        ),
        q.compiles() <==> regex_build(
            q.pattern,
            q.case_insensitive,
            q.dot_matches_new_line,
        ) is Ok,
{
}

} // verus!
