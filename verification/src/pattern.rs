//! Regular-expression extraction of values from header text, done by the `regex` crate.

use vstd::prelude::*;

verus! {

/// What the `regex` crate finds in `haystack` for `pattern`: the text of capture group 1
/// of the leftmost-first match, or nothing when the pattern does not compile, does not
/// match, or group 1 took no part in the match.
pub uninterp spec fn regex_group_one(pattern: Seq<char>, haystack: Seq<char>) -> Option<Seq<char>>;

/// Compiles `pattern` with `regex::Regex::new`, runs `Regex::captures` on `haystack`,
/// and returns the text of group 1 (`Captures::get(1)`, `Match::as_str`); a pattern that
/// does not compile gives `None`.  The contract claims only that the result is a
/// function of the pattern and the haystack, named `regex_group_one`: what the regular
/// expression matches is the crate's and is not written out here.
#[verifier::external_body]
pub(crate) fn capture_group_one(pattern: &str, haystack: &str) -> (r: Option<String>)
    ensures
        match r {
            Some(g) => regex_group_one(pattern@, haystack@) == Some(g@),
            None => regex_group_one(pattern@, haystack@) is None,
        },
{
    match regex::Regex::new(pattern) {
        Ok(re) => re.captures(haystack).and_then(|c| c.get(1)).map(|m| m.as_str().to_string()),
        Err(_) => None,
    }
}

} // verus!
