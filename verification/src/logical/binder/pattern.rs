//! Regular expressions over column names.

use vstd::prelude::*;

verus! {

/// Whether `pattern` is a regular expression that the `regex` crate
/// compiles.
pub uninterp spec fn pattern_compiles(pattern: Seq<char>) -> bool;

/// Whether the regular expression `pattern`, once compiled, has a match
/// anywhere in `haystack`.
pub uninterp spec fn pattern_matches(pattern: Seq<char>, haystack: Seq<char>) -> bool;

/// A pattern that is no regular expression, or one too large to compile.
#[derive(Debug, Clone, Copy, PartialEq, Eq, Structural)]
pub struct InvalidPattern;

/// Compiles `pattern` with `regex::Regex::new` and asks the result, with
/// `Regex::is_match`, whether it has a match anywhere in `haystack`.
///
/// Taken on trust: whether `Regex::new` compiles a pattern depends on the
/// pattern alone, and so does, together with the haystack, what `is_match`
/// then returns. Neither call panics. What the two decide is not spelled
/// out here: it goes by the names `pattern_compiles` and `pattern_matches`.
#[verifier::external_body]
pub(crate) fn is_match(pattern: &str, haystack: &str) -> (result: Result<bool, InvalidPattern>)
    ensures
        result.is_ok() == pattern_compiles(pattern@),
        result matches Ok(found) ==> found == pattern_matches(pattern@, haystack@),
{
    match regex::Regex::new(pattern) {
        Ok(regex) => Ok(regex.is_match(haystack)),
        Err(_) => Err(InvalidPattern),
    }
}

} // verus!
