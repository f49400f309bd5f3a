//! The regular-expression engine, as far as the solvers use it.
//!
//! Everything in this file is believed, not proved: the engine is the
//! `regex` crate, and the contracts below say what its documentation says.
//! The wrappers are private to the crate, and `compile` is the only way the
//! crate builds an expression: every expression that reaches the other two
//! wrappers was built by `Regex::new` with its default settings, so that
//! what it matches is settled by its pattern text.

use crate::text::string_views;
use regex::Regex;
use vstd::prelude::*;

verus! {

/// A compiled regular expression, `regex::Regex`, carried as an opaque value.
#[verifier::external_type_specification]
#[verifier::external_body]
pub struct ExRegex(regex::Regex);

/// The engine's reason for refusing a pattern, `regex::Error`, carried as an
/// opaque value.
#[verifier::external_type_specification]
#[verifier::external_body]
pub struct ExRegexError(regex::Error);

/// Whether `Regex::new` accepts the pattern text.
pub uninterp spec fn pattern_compiles(pattern: Seq<char>) -> bool;

/// The pattern text that a compiled expression was built from: what
/// `Regex::as_str` returns.
pub uninterp spec fn compiled_pattern(re: Regex) -> Seq<char>;

/// The successive non-overlapping matches, left to right, that
/// `Regex::find_iter` yields for a pattern on a text, each as its matched text.
pub uninterp spec fn token_matches(pattern: Seq<char>, text: Seq<char>) -> Seq<Seq<char>>;

/// The text of the capture group with the given index in the leftmost
/// match that `Regex::captures` finds for a pattern on a text; `None` where
/// there is no match, the pattern has no such group, or the group took no
/// part in the match.
pub uninterp spec fn group_text(pattern: Seq<char>, text: Seq<char>, index: int) -> Option<
    Seq<char>,
>;

/// Calls `Regex::new`. Claims that it succeeds exactly on the patterns that
/// `pattern_compiles` names, and that the compiled expression keeps the
/// pattern text it was given.
#[verifier::external_body]
pub(crate) fn compile(pattern: &str) -> (res: Result<Regex, regex::Error>)
    ensures
        res is Ok <==> pattern_compiles(pattern@),
        res matches Ok(re) ==> compiled_pattern(re) == pattern@,
{
    Regex::new(pattern)
}

/// Calls `Regex::find_iter` and copies out the text of each match. Claims
/// that the matches depend on the pattern text and the searched text alone.
#[verifier::external_body]
pub(crate) fn find_all(re: &Regex, text: &Vec<char>) -> (tokens: Vec<String>)
    ensures
        string_views(tokens@) == token_matches(compiled_pattern(*re), text@),
{
    let haystack: String = text.iter().collect();
    re.find_iter(&haystack).map(|m| m.as_str().to_string()).collect()
}

/// Calls `Regex::captures` and copies out the text of one capture group.
/// Claims that the result depends on the pattern text, the searched text and
/// the group's index alone.
#[verifier::external_body]
pub(crate) fn capture_group(re: &Regex, text: &Vec<char>, index: usize) -> (group: Option<String>)
    ensures
        match group {
            Some(g) => group_text(compiled_pattern(*re), text@, index as int) == Some(g@),
            None => group_text(compiled_pattern(*re), text@, index as int) is None,
        },
{
    let haystack: String = text.iter().collect();
    re.captures(&haystack).and_then(|c| c.get(index)).map(|m| m.as_str().to_string())
}

} // verus!
