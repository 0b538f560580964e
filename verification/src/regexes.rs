//! Regular expressions of the crate `regex`.

use vstd::prelude::*;

use crate::strings::opt_text;

verus! {

/// What `Regex::new` says against a pattern: the text of its error, `None` where it accepts the
/// pattern.
pub uninterp spec fn pattern_error(pattern: Seq<char>) -> Option<Seq<char>>;

/// Whether `Regex::is_match` finds a match of an accepted pattern in a text.
pub uninterp spec fn pattern_matches(pattern: Seq<char>, text: Seq<char>) -> bool;

/// `regex::Regex::new`: the text of its error, if it does not accept the pattern.
#[verifier::external_body]
pub(crate) fn pattern_problem(pattern: &str) -> (r: Option<String>)
    ensures
        opt_text(r) == pattern_error(pattern@),
{
    match regex::Regex::new(pattern) {
        Ok(_) => None,
        Err(err) => Some(err.to_string()),
    }
}

/// `regex::Regex::is_match` of a pattern that `Regex::new` accepts.
#[verifier::external_body]
pub(crate) fn pattern_found(pattern: &str, text: &str) -> (r: bool)
    requires
        pattern_error(pattern@) is None,
    ensures
        r == pattern_matches(pattern@, text@),
{
    match regex::Regex::new(pattern) {
        Ok(re) => re.is_match(text),
        Err(_) => false,
    }
}

/// Whether a pattern matches; a pattern that is not accepted matches nothing.
pub open spec fn found(pattern: Seq<char>, text: Seq<char>) -> bool {
    pattern_error(pattern) is None && pattern_matches(pattern, text)
}

/// Whether a pattern matches; a pattern that is not accepted matches nothing.
pub fn matches_text(pattern: &str, text: &str) -> (r: bool)
    ensures
        r == found(pattern@, text@),
{
    match pattern_problem(pattern) {
        None => pattern_found(pattern, text),
        Some(_) => false,
    }
}

} // verus!
