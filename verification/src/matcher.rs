//! The match predicate: a pattern taken literally, or a compiled regular
//! expression from the `regex` crate behind trusted wrappers.
use vstd::prelude::*;

verus! {

/// How the pattern is interpreted.
#[derive(Clone, Copy, PartialEq, Eq, Structural, Debug)]
pub enum MatchMode {
    Literal,
    Regex,
}

/// The pattern was to be a regular expression and did not compile.
#[derive(Clone, Copy, PartialEq, Eq, Structural, Debug)]
pub struct PatternError;

/// Abstract view of a matcher: its mode and the pattern it applies.
pub struct MatcherModel {
    pub mode: MatchMode,
    pub pattern: Seq<char>,
}

/// `pat` occurs as a contiguous subsequence of `line`.
pub open spec fn is_substring(pat: Seq<char>, line: Seq<char>) -> bool {
    exists|i: int|
        0 <= i && i + pat.len() <= line.len() && #[trigger] line.subrange(i, i + pat.len()) == pat
}

/// Names the result of `regex::Regex::new`: whether the pattern is a valid
/// regular expression.
pub uninterp spec fn regex_ok(pattern: Seq<char>) -> bool;

/// Names the pattern held by a compiled `regex::Regex` (what
/// `regex::Regex::as_str` returns).
pub uninterp spec fn regex_pattern(re: regex::Regex) -> Seq<char>;

/// Names the result of `regex::Regex::is_match` on the regex compiled from
/// `pattern`: whether it matches anywhere in `line`. The result depends on
/// the pattern and the line alone.
pub uninterp spec fn regex_match(pattern: Seq<char>, line: Seq<char>) -> bool;

impl MatcherModel {
    /// Whether this matcher accepts the line.
    pub open spec fn accepts(self, line: Seq<char>) -> bool {
        match self.mode {
            MatchMode::Literal => is_substring(self.pattern, line),
            MatchMode::Regex => regex_match(self.pattern, line),
        }
    }
}

/// The matcher's predicate as a function of the line.
pub open spec fn accepts_fn(m: MatcherModel) -> spec_fn(Seq<char>) -> bool {
    |line: Seq<char>| m.accepts(line)
}

#[verifier::external_type_specification]
#[verifier::external_body]
pub struct ExRegex(regex::Regex);

/// Relies on `regex::Regex::new`: compiles `pattern`, succeeding iff the
/// pattern is a valid regular expression; the compiled regex keeps `pattern`
/// as its source string (`regex::Regex::as_str` returns it).
#[verifier::external_body]
fn regex_new(pattern: &str) -> (r: Option<regex::Regex>)
    ensures
        r is Some <==> regex_ok(pattern@),
        (r matches Some(re) ==> regex_pattern(re) == pattern@),
{
    regex::Regex::new(pattern).ok()
}

/// Relies on `regex::Regex::is_match`: true iff the regex matches somewhere
/// in `line`; a pure function of the regex's pattern and the line.
#[verifier::external_body]
fn regex_is_match(re: &regex::Regex, line: &str) -> (r: bool)
    ensures
        r == regex_match(regex_pattern(*re), line@),
{
    re.is_match(line)
}

/// Relies on `str::contains`: true iff `pat` occurs as a substring of `line`.
#[verifier::external_body]
fn str_contains(line: &str, pat: &str) -> (r: bool)
    ensures
        r == is_substring(pat@, line@),
{
    line.contains(pat)
}

/// Wraps a pattern and reports whether a line matches it. Built once from
/// the configuration; stateless afterwards.
pub struct Matcher {
    pub mode: MatchMode,
    pub pattern: String,
    pub re: Option<regex::Regex>,
}

impl View for Matcher {
    type V = MatcherModel;

    open spec fn view(&self) -> MatcherModel {
        MatcherModel {
            mode: self.mode,
            pattern: match self.mode {
                MatchMode::Literal => self.pattern@,
                MatchMode::Regex => if self.re is Some {
                    regex_pattern(self.re->0)
                } else {
                    Seq::empty()
                },
            },
        }
    }
}

impl Matcher {
    /// Internal consistency: regex mode holds a compiled regex.
    pub open spec fn wf(&self) -> bool {
        self.mode is Regex ==> self.re is Some
    }

    /// Builds a matcher. Literal mode always succeeds; regex mode succeeds
    /// iff the pattern compiles, and fails with `PatternError` otherwise.
    pub fn new(pattern: String, mode: MatchMode) -> (r: Result<Matcher, PatternError>)
        ensures
            mode is Literal ==> r is Ok,
            mode is Regex ==> (r is Ok <==> regex_ok(pattern@)),
            (r matches Ok(m) ==> m.wf() && m@ == (MatcherModel { mode, pattern: pattern@ })),
    {
        match mode {
            MatchMode::Literal => Ok(Matcher { mode, pattern, re: None }),
            MatchMode::Regex => {
                match regex_new(pattern.as_str()) {
                    Some(re) => Ok(Matcher { mode, pattern, re: Some(re) }),
                    None => Err(PatternError),
                }
            },
        }
    }

    /// Whether the line matches. Never fails.
    pub fn test(&self, line: &str) -> (r: bool)
        requires
            self.wf(),
        ensures
            r == self@.accepts(line@),
    {
        match self.mode {
            MatchMode::Literal => str_contains(line, self.pattern.as_str()),
            MatchMode::Regex => regex_is_match(self.re.as_ref().unwrap(), line),
        }
    }
}

} // verus!
