//! Regular expressions: a compiled pattern together with its source.

use vstd::prelude::*;

verus! {

/// `regex::Regex`, a compiled regular expression. Nothing of it is known.
#[verifier::external_type_specification]
#[verifier::external_body]
pub struct ExRegex(regex::Regex);

/// `regex::Error`, the reason why a pattern was refused. Nothing of it is
/// known.
#[verifier::external_type_specification]
#[verifier::external_body]
pub struct ExRegexError(regex::Error);

/// What `regex::Regex::captures_len` gives for the compiled pattern: the
/// number of its groups, the whole match counted as one.
pub uninterp spec fn regex_group_count(pattern: Seq<char>) -> usize;

/// What `regex::Regex::captures` makes of `text` for the compiled pattern:
/// `None` where the pattern matches nowhere, and for the first match the
/// byte offsets between which each group matched, or `None` for a group
/// that took no part in the match.
pub uninterp spec fn regex_match(pattern: Seq<char>, text: Seq<char>) -> Option<
    Seq<Option<(usize, usize)>>,
>;

/// A compiled regular expression and the pattern it was compiled from.
/// A value of this type is made by `compile` alone, so the expression is
/// always that of the pattern.
pub struct Pattern {
    regex: regex::Regex,
    source: String,
}

impl View for Pattern {
    type V = Seq<char>;

    /// The pattern.
    closed spec fn view(&self) -> Seq<char> {
        self.source@
    }
}

/// Calls `regex::Regex::new`, which compiles the pattern or reports why it
/// cannot, and keeps the pattern beside the compiled expression. A pattern
/// is refused for its syntax or for the size of what it compiles to, so the
/// contract says nothing of when the call succeeds: only that the value it
/// gives holds the pattern.
#[verifier::external_body]
fn regex_new(pattern: &str) -> (r: Result<Pattern, regex::Error>)
    ensures
        r matches Ok(p) ==> p@ == pattern@,
{
    regex::Regex::new(pattern).map(|regex| Pattern { regex, source: pattern.to_owned() })
}

/// Calls `regex::Regex::captures_len`. The number of groups depends on the
/// pattern alone: the contract equates it with `regex_group_count`.
#[verifier::external_body]
fn regex_captures_len(p: &Pattern) -> (n: usize)
    ensures
        n == regex_group_count(p@),
{
    p.regex.captures_len()
}

/// Calls `regex::Regex::captures` and hands out, for each group that
/// `Captures::iter` yields for the first match, the byte offsets that
/// `Match::start` and `Match::end` give, or `None` for a group that took no
/// part in the match. The match depends on the pattern and the text alone:
/// the contract equates it with `regex_match`, and claims nothing of the
/// offsets.
#[verifier::external_body]
fn regex_captures(p: &Pattern, text: &str) -> (r: Option<Vec<Option<(usize, usize)>>>)
    ensures
        match r {
            Some(groups) => regex_match(p@, text@) == Some(groups@),
            None => regex_match(p@, text@) is None,
        },
{
    p.regex.captures(text).map(|c| c.iter().map(|m| m.map(|m| (m.start(), m.end()))).collect())
}

impl Pattern {
    /// Compiles the pattern, or returns `None` where the regular
    /// expression engine refuses it.
    pub fn compile(pattern: &str) -> (r: Option<Pattern>)
        ensures
            r matches Some(p) ==> p@ == pattern@,
    {
        match regex_new(pattern) {
            Ok(p) => Some(p),
            Err(_) => None,
        }
    }

    /// The number of groups of the pattern, the whole match counted as one.
    pub fn group_count(&self) -> (n: usize)
        ensures
            n == regex_group_count(self@),
    {
        regex_captures_len(self)
    }

    /// The first match of the pattern in `text`: for each group the byte
    /// offsets between which it matched, if it took part in the match.
    pub fn captures(&self, text: &str) -> (r: Option<Vec<Option<(usize, usize)>>>)
        ensures
            match r {
                Some(groups) => regex_match(self@, text@) == Some(groups@),
                None => regex_match(self@, text@) is None,
            },
    {
        regex_captures(self, text)
    }
}

} // verus!
