//! Regular expressions.
use vstd::prelude::*;

verus! {

/// A compiled regular expression.
#[verifier::external_type_specification]
#[verifier::external_body]
pub struct ExRegex(regex::Regex);

/// The pattern that an expression was compiled from.
pub uninterp spec fn regex_source(expression: regex::Regex) -> Seq<char>;

/// Whether `regex::Regex::new` accepts a pattern.
pub uninterp spec fn regex_accepts(pattern: Seq<char>) -> bool;

/// Whether `regex::Regex::is_match` finds a match of the pattern in a text.
pub uninterp spec fn regex_finds(pattern: Seq<char>, text: Seq<char>) -> bool;

/// `regex::Regex::new`: compiles a pattern, or rejects it. Whether it does depends on the pattern
/// alone; the grammar is left to the name.
#[verifier::external_body]
pub(crate) fn compile(pattern: &str) -> (expression: Option<regex::Regex>)
    ensures
        expression is Some <==> regex_accepts(pattern@),
        expression matches Some(compiled) ==> regex_source(compiled) == pattern@,
{
    regex::Regex::new(pattern).ok()
}

/// `regex::Regex::is_match`: whether there is a match anywhere in the text. That depends on the
/// pattern and the text alone.
pub assume_specification[ regex::Regex::is_match ](
    expression: &regex::Regex,
    haystack: &str,
) -> (found: bool)
    ensures
        found == regex_finds(regex_source(*expression), haystack@),
;

/// The pattern compiles.
pub open spec fn compiles(pattern: Seq<char>) -> bool {
    regex_accepts(pattern)
}

/// The pattern compiles and matches somewhere in the text.
pub open spec fn matches_pattern(pattern: Seq<char>, text: Seq<char>) -> bool {
    regex_accepts(pattern) && regex_finds(pattern, text)
}

} // verus!
