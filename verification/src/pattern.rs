//! Regular-expression search, done by the `regex` crate.

use regex::Regex;
use vstd::prelude::*;

verus! {

/// What the `regex` crate answers when it is asked to compile `pattern` and
/// to search `haystack` for it: `None` where the pattern does not compile,
/// else whether a match exists anywhere in the haystack.
pub uninterp spec fn regex_search(pattern: Seq<char>, haystack: Seq<char>) -> Option<bool>;

/// Compiles `pattern` with `regex::Regex::new` and, where that succeeds, asks
/// `regex::Regex::is_match` whether `haystack` holds a match. The contract
/// only names the answer: both calls depend on their arguments alone.
#[verifier::external_body]
pub(crate) fn search(pattern: &str, haystack: &str) -> (r: Option<bool>)
    ensures
        r == regex_search(pattern@, haystack@),
{
    match Regex::new(pattern) {
        Ok(re) => Some(re.is_match(haystack)),
        Err(_) => None,
    }
}

/// Whether a search of `haystack` for `pattern` finds a match.
pub open spec fn found(pattern: Seq<char>, haystack: Seq<char>) -> bool {
    regex_search(pattern, haystack) == Some(true)
}

/// Tells whether `haystack` holds a match of `pattern`; a pattern that does
/// not compile matches nothing.
pub fn is_match(pattern: &str, haystack: &str) -> (r: bool)
    ensures
        r == found(pattern@, haystack@),
{
    outcome(search(pattern, haystack))
}

/// Reads the answer of a search: only a match that was found counts.
pub fn outcome(answer: Option<bool>) -> (r: bool)
    ensures
        r == (answer == Some(true)),
{
    match answer {
        Some(b) => b,
        None => false,
    }
}

} // verus!
