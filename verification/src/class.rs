use regex::Regex;
use vstd::prelude::*;

verus! {

/// `regex::Regex`, a compiled regular expression. Nothing of its inside is
/// known here: it is carried, cloned, asked for its pattern and searched
/// with.
#[verifier::external_type_specification]
#[verifier::external_body]
pub struct ExRegex(regex::Regex);

/// `regex::Error`, the reason why a pattern was refused.
#[verifier::external_type_specification]
#[verifier::external_body]
pub struct ExRegexError(regex::Error);

/// Whether `Regex::new` accepts the pattern.
pub uninterp spec fn regex_compiles(pattern: Seq<char>) -> bool;

/// The pattern that a regular expression was compiled from, as
/// `Regex::as_str` gives it.
pub uninterp spec fn regex_source(regex: Regex) -> Seq<char>;

/// Where the first match that `Regex::find` reports in the haystack starts,
/// as a byte offset; `None` where nothing matches.
pub uninterp spec fn regex_find_start(regex: Regex, haystack: Seq<char>) -> Option<usize>;

/// Calls `Regex::new`, which compiles a pattern or refuses it. Which patterns
/// it accepts is left to the regex crate; a compiled expression remembers its
/// pattern.
#[verifier::external_body]
pub(crate) fn compile(pattern: &str) -> (compiled: Result<Regex, regex::Error>)
    ensures
        compiled is Ok <==> regex_compiles(pattern@),
        compiled matches Ok(regex) ==> regex_source(regex) == pattern@,
{
    Regex::new(pattern)
}

/// `Regex::as_str` returns the pattern that the expression was compiled from.
pub assume_specification<'a>[ Regex::as_str ](regex: &'a Regex) -> (pattern: &'a str)
    ensures
        pattern@ == regex_source(*regex),
;

/// A clone of a compiled expression is the same expression: it has the same
/// pattern and finds the same matches.
pub assume_specification[ <Regex as Clone>::clone ](regex: &Regex) -> (copy: Regex)
    ensures
        copy == *regex,
;

/// Calls `Regex::find`, which searches the haystack for the first match, and
/// keeps the offset at which that match starts.
#[verifier::external_body]
pub(crate) fn find_start(regex: &Regex, haystack: &str) -> (start: Option<usize>)
    ensures
        start == regex_find_start(*regex, haystack@),
{
    regex.find(haystack).map(|found| found.start())
}

} // verus!
