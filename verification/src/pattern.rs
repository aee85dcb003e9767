//! Searching a text for a regular expression, by the `regex` crate.

use vstd::prelude::*;

verus! {

/// Whether the regular expression `pattern` matches somewhere in `text`;
/// `None` where `regex` does not take the pattern.
pub uninterp spec fn regex_search(pattern: Seq<char>, text: Seq<char>) -> Option<bool>;

/// Calls `Regex::new` on `pattern` and `Regex::is_match` on `text`. Claimed:
/// the answer depends on the two texts alone.
#[verifier::external_body]
pub(crate) fn search(pattern: &str, text: &str) -> (res: Option<bool>)
    ensures
        res == regex_search(pattern@, text@),
{
    regex::Regex::new(pattern).ok().map(|compiled| compiled.is_match(text))
}

} // verus!
