//! What a tool may do, and whether somebody has to agree.

use vstd::prelude::*;

verus! {

/// What a tool may do.
#[derive(Debug, Clone, Copy, PartialEq, Eq, PartialOrd, Ord, Structural)]
pub enum Tier {
    /// It changes nothing.
    Read,
    /// It changes files.
    Write,
    /// It runs anything.
    Exec,
}

/// Whether a tool may run beside others.
#[derive(Debug, Clone, Copy, PartialEq, Eq, Structural)]
pub enum Concurrency {
    Shared,
    Exclusive,
}

/// What a tool call is, as far as it needs somebody's agreement.
#[derive(Debug, Clone, PartialEq, Eq)]
pub struct ApprovalDecision {
    pub tier: Tier,
    /// Whether somebody is asked whatever the settings say.
    pub override_mode: bool,
    /// Why.
    pub reason: Option<String>,
}

impl ApprovalDecision {
    /// A call that the settings decide on.
    pub fn tier(tier: Tier) -> (r: Self)
        ensures
            r.tier == tier,
            !r.override_mode,
            r.reason is None,
    {
        ApprovalDecision { tier, override_mode: false, reason: None }
    }

    /// A call that somebody has to agree to.
    pub fn require_confirmation(tier: Tier, reason: &str) -> (r: Self)
        ensures
            r.tier == tier,
            r.override_mode,
            r.reason matches Some(text) && text@ == reason@,
    {
        ApprovalDecision { tier, override_mode: true, reason: Some(reason.to_owned()) }
    }
}

} // verus!
