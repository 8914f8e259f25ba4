//! Matching text against a regular expression.
//!
//! The matching itself is done by the `regex` crate and is not verified.

use vstd::prelude::*;

verus! {

/// What capture group `group` of `pattern` holds in the leftmost match of
/// `pattern` in `text`. It is `None` where `pattern` is no regular
/// expression that the `regex` crate accepts, where `text` has no match,
/// and where the group is missing or took no part in the match.
pub uninterp spec fn captured(pattern: Seq<char>, text: Seq<char>, group: usize) -> Option<Seq<char>>;

/// Compiles `pattern` with `regex::Regex::new`, searches `text` with
/// `Regex::captures`, and hands out the text of capture group `group`
/// (`Captures::get`, `Match::as_str`). The contract gives the result the
/// name `captured`: it claims only that the result is determined by the
/// three arguments. What the result is, is the `regex` crate's business.
#[verifier::external_body]
pub(crate) fn capture(pattern: &str, text: &str, group: usize) -> (r: Option<String>)
    ensures
        captured(pattern@, text@, group) == match r {
            Some(found) => Some(found@),
            None => None,
        },
{
    match regex::Regex::new(pattern) {
        Ok(re) => re.captures(text).and_then(|caps| caps.get(group)).map(
            |found| found.as_str().to_string(),
        ),
        Err(_) => None,
    }
}

} // verus!
