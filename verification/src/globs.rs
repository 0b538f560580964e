//! Globs of the crate `ignore`.

use vstd::prelude::*;

use crate::strings::opt_text;

verus! {

/// What `OverrideBuilder::add` says against a rule: the text of its error, `None` where it takes the
/// rule.
pub uninterp spec fn rule_error(rule: Seq<char>) -> Option<Seq<char>>;

/// `OverrideBuilder::add` of the crate `ignore`: the text of its error, if it does not take the rule.
/// That is a function of the rule: neither the directory that the rules are for nor the rules that
/// were added before have a part in it.
#[verifier::external_body]
pub(crate) fn rule_problem(rule: &str) -> (r: Option<String>)
    ensures
        opt_text(r) == rule_error(rule@),
{
    match ignore::overrides::OverrideBuilder::new("").add(rule) {
        Ok(_) => None,
        Err(err) => Some(err.to_string()),
    }
}

} // verus!
