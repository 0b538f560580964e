//! The names that values without fields have on the wire. A name that is not known here is no error:
//! it stands for a value that a newer end knows.

use vstd::prelude::*;

use crate::protocol::error::ErrorCode;
use crate::protocol::wire::types::{
    ApprovalMode, ApprovalReply, CompactionReason, DisplayRole, Policy, StopReason, Tier,
};
use crate::strings::str_eq;

verus! {

/// The name of an error code.
pub open spec fn error_code_name(x: ErrorCode) -> Seq<char> {
    match x {
        ErrorCode::VersionMismatch => "version_mismatch"@,
        ErrorCode::UnsupportedRequest => "unsupported_request"@,
        ErrorCode::MalformedFrame => "malformed_frame"@,
        ErrorCode::FrameTooLarge => "frame_too_large"@,
        ErrorCode::HandshakeRequired => "handshake_required"@,
        ErrorCode::Unknown => "unknown"@,
    }
}

/// What a name stands for.
pub open spec fn error_code_named(name: Seq<char>) -> ErrorCode {
    if name == "version_mismatch"@ {
        ErrorCode::VersionMismatch
    } else if name == "unsupported_request"@ {
        ErrorCode::UnsupportedRequest
    } else if name == "malformed_frame"@ {
        ErrorCode::MalformedFrame
    } else if name == "frame_too_large"@ {
        ErrorCode::FrameTooLarge
    } else if name == "handshake_required"@ {
        ErrorCode::HandshakeRequired
    } else {
        ErrorCode::Unknown
    }
}

impl ErrorCode {
    /// The name on the wire.
    pub fn wire_name(self) -> (r: &'static str)
        ensures
            r@ == error_code_name(self),
    {
        match self {
            ErrorCode::VersionMismatch => "version_mismatch",
            ErrorCode::UnsupportedRequest => "unsupported_request",
            ErrorCode::MalformedFrame => "malformed_frame",
            ErrorCode::FrameTooLarge => "frame_too_large",
            ErrorCode::HandshakeRequired => "handshake_required",
            ErrorCode::Unknown => "unknown",
        }
    }

    /// What a name on the wire stands for.
    pub fn from_wire(name: &str) -> (r: Self)
        ensures
            r == error_code_named(name@),
    {
        if str_eq(name, "version_mismatch") {
            ErrorCode::VersionMismatch
        } else if str_eq(name, "unsupported_request") {
            ErrorCode::UnsupportedRequest
        } else if str_eq(name, "malformed_frame") {
            ErrorCode::MalformedFrame
        } else if str_eq(name, "frame_too_large") {
            ErrorCode::FrameTooLarge
        } else if str_eq(name, "handshake_required") {
            ErrorCode::HandshakeRequired
        } else {
            ErrorCode::Unknown
        }
    }
}

/// An error code that goes over the wire comes back as it was.
pub proof fn lemma_error_code_round_trip(x: ErrorCode)
    ensures
        error_code_named(error_code_name(x)) == x,
{
    reveal_strlit("version_mismatch");
    assert("version_mismatch"@.len() == 16);
    reveal_strlit("unsupported_request");
    assert("unsupported_request"@.len() == 19);
    reveal_strlit("malformed_frame");
    assert("malformed_frame"@.len() == 15);
    reveal_strlit("frame_too_large");
    assert("frame_too_large"@.len() == 15);
    reveal_strlit("handshake_required");
    assert("handshake_required"@.len() == 18);
    reveal_strlit("unknown");
    assert("unknown"@.len() == 7);
    assert("malformed_frame"@[0] != "frame_too_large"@[0]);
}

/// The name of a reason to stop.
pub open spec fn stop_reason_name(x: StopReason) -> Seq<char> {
    match x {
        StopReason::Stop => "stop"@,
        StopReason::Length => "length"@,
        StopReason::ToolUse => "tool_use"@,
        StopReason::Error => "error"@,
        StopReason::Aborted => "aborted"@,
        StopReason::Unknown => "unknown"@,
    }
}

/// What a name stands for.
pub open spec fn stop_reason_named(name: Seq<char>) -> StopReason {
    if name == "stop"@ {
        StopReason::Stop
    } else if name == "length"@ {
        StopReason::Length
    } else if name == "tool_use"@ {
        StopReason::ToolUse
    } else if name == "error"@ {
        StopReason::Error
    } else if name == "aborted"@ {
        StopReason::Aborted
    } else {
        StopReason::Unknown
    }
}

impl StopReason {
    /// The name on the wire.
    pub fn wire_name(self) -> (r: &'static str)
        ensures
            r@ == stop_reason_name(self),
    {
        match self {
            StopReason::Stop => "stop",
            StopReason::Length => "length",
            StopReason::ToolUse => "tool_use",
            StopReason::Error => "error",
            StopReason::Aborted => "aborted",
            StopReason::Unknown => "unknown",
        }
    }

    /// What a name on the wire stands for.
    pub fn from_wire(name: &str) -> (r: Self)
        ensures
            r == stop_reason_named(name@),
    {
        if str_eq(name, "stop") {
            StopReason::Stop
        } else if str_eq(name, "length") {
            StopReason::Length
        } else if str_eq(name, "tool_use") {
            StopReason::ToolUse
        } else if str_eq(name, "error") {
            StopReason::Error
        } else if str_eq(name, "aborted") {
            StopReason::Aborted
        } else {
            StopReason::Unknown
        }
    }
}

/// A reason to stop that goes over the wire comes back as it was.
pub proof fn lemma_stop_reason_round_trip(x: StopReason)
    ensures
        stop_reason_named(stop_reason_name(x)) == x,
{
    reveal_strlit("stop");
    assert("stop"@.len() == 4);
    reveal_strlit("length");
    assert("length"@.len() == 6);
    reveal_strlit("tool_use");
    assert("tool_use"@.len() == 8);
    reveal_strlit("error");
    assert("error"@.len() == 5);
    reveal_strlit("aborted");
    assert("aborted"@.len() == 7);
    reveal_strlit("unknown");
    assert("unknown"@.len() == 7);
    assert("aborted"@[0] != "unknown"@[0]);
}

/// The name of a way to show a message.
pub open spec fn display_role_name(x: DisplayRole) -> Seq<char> {
    match x {
        DisplayRole::System => "system"@,
        DisplayRole::BackgroundTask => "background_task"@,
        DisplayRole::Unknown => "unknown"@,
    }
}

/// What a name stands for.
pub open spec fn display_role_named(name: Seq<char>) -> DisplayRole {
    if name == "system"@ {
        DisplayRole::System
    } else if name == "background_task"@ {
        DisplayRole::BackgroundTask
    } else {
        DisplayRole::Unknown
    }
}

impl DisplayRole {
    /// The name on the wire.
    pub fn wire_name(self) -> (r: &'static str)
        ensures
            r@ == display_role_name(self),
    {
        match self {
            DisplayRole::System => "system",
            DisplayRole::BackgroundTask => "background_task",
            DisplayRole::Unknown => "unknown",
        }
    }

    /// What a name on the wire stands for.
    pub fn from_wire(name: &str) -> (r: Self)
        ensures
            r == display_role_named(name@),
    {
        if str_eq(name, "system") {
            DisplayRole::System
        } else if str_eq(name, "background_task") {
            DisplayRole::BackgroundTask
        } else {
            DisplayRole::Unknown
        }
    }
}

/// A way to show a message that goes over the wire comes back as it was.
pub proof fn lemma_display_role_round_trip(x: DisplayRole)
    ensures
        display_role_named(display_role_name(x)) == x,
{
    reveal_strlit("system");
    assert("system"@.len() == 6);
    reveal_strlit("background_task");
    assert("background_task"@.len() == 15);
    reveal_strlit("unknown");
    assert("unknown"@.len() == 7);
}

/// The name of a reason to compact.
pub open spec fn compaction_reason_name(x: CompactionReason) -> Seq<char> {
    match x {
        CompactionReason::Threshold => "threshold"@,
        CompactionReason::Overflow => "overflow"@,
        CompactionReason::Manual => "manual"@,
        CompactionReason::Unknown => "unknown"@,
    }
}

/// What a name stands for.
pub open spec fn compaction_reason_named(name: Seq<char>) -> CompactionReason {
    if name == "threshold"@ {
        CompactionReason::Threshold
    } else if name == "overflow"@ {
        CompactionReason::Overflow
    } else if name == "manual"@ {
        CompactionReason::Manual
    } else {
        CompactionReason::Unknown
    }
}

impl CompactionReason {
    /// The name on the wire.
    pub fn wire_name(self) -> (r: &'static str)
        ensures
            r@ == compaction_reason_name(self),
    {
        match self {
            CompactionReason::Threshold => "threshold",
            CompactionReason::Overflow => "overflow",
            CompactionReason::Manual => "manual",
            CompactionReason::Unknown => "unknown",
        }
    }

    /// What a name on the wire stands for.
    pub fn from_wire(name: &str) -> (r: Self)
        ensures
            r == compaction_reason_named(name@),
    {
        if str_eq(name, "threshold") {
            CompactionReason::Threshold
        } else if str_eq(name, "overflow") {
            CompactionReason::Overflow
        } else if str_eq(name, "manual") {
            CompactionReason::Manual
        } else {
            CompactionReason::Unknown
        }
    }
}

/// A reason to compact that goes over the wire comes back as it was.
pub proof fn lemma_compaction_reason_round_trip(x: CompactionReason)
    ensures
        compaction_reason_named(compaction_reason_name(x)) == x,
{
    reveal_strlit("threshold");
    assert("threshold"@.len() == 9);
    reveal_strlit("overflow");
    assert("overflow"@.len() == 8);
    reveal_strlit("manual");
    assert("manual"@.len() == 6);
    reveal_strlit("unknown");
    assert("unknown"@.len() == 7);
}

/// The name of a tier.
pub open spec fn tier_name(x: Tier) -> Seq<char> {
    match x {
        Tier::Read => "read"@,
        Tier::Write => "write"@,
        Tier::Exec => "exec"@,
        Tier::Unknown => "unknown"@,
    }
}

/// What a name stands for.
pub open spec fn tier_named(name: Seq<char>) -> Tier {
    if name == "read"@ {
        Tier::Read
    } else if name == "write"@ {
        Tier::Write
    } else if name == "exec"@ {
        Tier::Exec
    } else {
        Tier::Unknown
    }
}

impl Tier {
    /// The name on the wire.
    pub fn wire_name(self) -> (r: &'static str)
        ensures
            r@ == tier_name(self),
    {
        match self {
            Tier::Read => "read",
            Tier::Write => "write",
            Tier::Exec => "exec",
            Tier::Unknown => "unknown",
        }
    }

    /// What a name on the wire stands for.
    pub fn from_wire(name: &str) -> (r: Self)
        ensures
            r == tier_named(name@),
    {
        if str_eq(name, "read") {
            Tier::Read
        } else if str_eq(name, "write") {
            Tier::Write
        } else if str_eq(name, "exec") {
            Tier::Exec
        } else {
            Tier::Unknown
        }
    }
}

/// A tier that goes over the wire comes back as it was.
pub proof fn lemma_tier_round_trip(x: Tier)
    ensures
        tier_named(tier_name(x)) == x,
{
    reveal_strlit("read");
    assert("read"@.len() == 4);
    reveal_strlit("write");
    assert("write"@.len() == 5);
    reveal_strlit("exec");
    assert("exec"@.len() == 4);
    reveal_strlit("unknown");
    assert("unknown"@.len() == 7);
    assert("read"@[0] != "exec"@[0]);
}

/// The name of a policy.
pub open spec fn policy_name(x: Policy) -> Seq<char> {
    match x {
        Policy::Allow => "allow"@,
        Policy::Deny => "deny"@,
        Policy::Prompt => "prompt"@,
        Policy::Unknown => "unknown"@,
    }
}

/// What a name stands for.
pub open spec fn policy_named(name: Seq<char>) -> Policy {
    if name == "allow"@ {
        Policy::Allow
    } else if name == "deny"@ {
        Policy::Deny
    } else if name == "prompt"@ {
        Policy::Prompt
    } else {
        Policy::Unknown
    }
}

impl Policy {
    /// The name on the wire.
    pub fn wire_name(self) -> (r: &'static str)
        ensures
            r@ == policy_name(self),
    {
        match self {
            Policy::Allow => "allow",
            Policy::Deny => "deny",
            Policy::Prompt => "prompt",
            Policy::Unknown => "unknown",
        }
    }

    /// What a name on the wire stands for.
    pub fn from_wire(name: &str) -> (r: Self)
        ensures
            r == policy_named(name@),
    {
        if str_eq(name, "allow") {
            Policy::Allow
        } else if str_eq(name, "deny") {
            Policy::Deny
        } else if str_eq(name, "prompt") {
            Policy::Prompt
        } else {
            Policy::Unknown
        }
    }
}

/// A policy that goes over the wire comes back as it was.
pub proof fn lemma_policy_round_trip(x: Policy)
    ensures
        policy_named(policy_name(x)) == x,
{
    reveal_strlit("allow");
    assert("allow"@.len() == 5);
    reveal_strlit("deny");
    assert("deny"@.len() == 4);
    reveal_strlit("prompt");
    assert("prompt"@.len() == 6);
    reveal_strlit("unknown");
    assert("unknown"@.len() == 7);
}

/// The name of a mode.
pub open spec fn approval_mode_name(x: ApprovalMode) -> Seq<char> {
    match x {
        ApprovalMode::AlwaysAsk => "always-ask"@,
        ApprovalMode::Write => "write"@,
        ApprovalMode::Yolo => "yolo"@,
        ApprovalMode::Unknown => "unknown"@,
    }
}

/// What a name stands for.
pub open spec fn approval_mode_named(name: Seq<char>) -> ApprovalMode {
    if name == "always-ask"@ {
        ApprovalMode::AlwaysAsk
    } else if name == "write"@ {
        ApprovalMode::Write
    } else if name == "yolo"@ {
        ApprovalMode::Yolo
    } else {
        ApprovalMode::Unknown
    }
}

impl ApprovalMode {
    /// The name on the wire.
    pub fn wire_name(self) -> (r: &'static str)
        ensures
            r@ == approval_mode_name(self),
    {
        match self {
            ApprovalMode::AlwaysAsk => "always-ask",
            ApprovalMode::Write => "write",
            ApprovalMode::Yolo => "yolo",
            ApprovalMode::Unknown => "unknown",
        }
    }

    /// What a name on the wire stands for.
    pub fn from_wire(name: &str) -> (r: Self)
        ensures
            r == approval_mode_named(name@),
    {
        if str_eq(name, "always-ask") {
            ApprovalMode::AlwaysAsk
        } else if str_eq(name, "write") {
            ApprovalMode::Write
        } else if str_eq(name, "yolo") {
            ApprovalMode::Yolo
        } else {
            ApprovalMode::Unknown
        }
    }
}

/// A mode that goes over the wire comes back as it was.
pub proof fn lemma_approval_mode_round_trip(x: ApprovalMode)
    ensures
        approval_mode_named(approval_mode_name(x)) == x,
{
    reveal_strlit("always-ask");
    assert("always-ask"@.len() == 10);
    reveal_strlit("write");
    assert("write"@.len() == 5);
    reveal_strlit("yolo");
    assert("yolo"@.len() == 4);
    reveal_strlit("unknown");
    assert("unknown"@.len() == 7);
}

/// The name of an answer.
pub open spec fn approval_reply_name(x: ApprovalReply) -> Seq<char> {
    match x {
        ApprovalReply::Once => "once"@,
        ApprovalReply::Always => "always"@,
        ApprovalReply::Reject => "reject"@,
        ApprovalReply::Unknown => "unknown"@,
    }
}

/// What a name stands for.
pub open spec fn approval_reply_named(name: Seq<char>) -> ApprovalReply {
    if name == "once"@ {
        ApprovalReply::Once
    } else if name == "always"@ {
        ApprovalReply::Always
    } else if name == "reject"@ {
        ApprovalReply::Reject
    } else {
        ApprovalReply::Unknown
    }
}

impl ApprovalReply {
    /// The name on the wire.
    pub fn wire_name(self) -> (r: &'static str)
        ensures
            r@ == approval_reply_name(self),
    {
        match self {
            ApprovalReply::Once => "once",
            ApprovalReply::Always => "always",
            ApprovalReply::Reject => "reject",
            ApprovalReply::Unknown => "unknown",
        }
    }

    /// What a name on the wire stands for.
    pub fn from_wire(name: &str) -> (r: Self)
        ensures
            r == approval_reply_named(name@),
    {
        if str_eq(name, "once") {
            ApprovalReply::Once
        } else if str_eq(name, "always") {
            ApprovalReply::Always
        } else if str_eq(name, "reject") {
            ApprovalReply::Reject
        } else {
            ApprovalReply::Unknown
        }
    }
}

/// An answer that goes over the wire comes back as it was.
pub proof fn lemma_approval_reply_round_trip(x: ApprovalReply)
    ensures
        approval_reply_named(approval_reply_name(x)) == x,
{
    reveal_strlit("once");
    assert("once"@.len() == 4);
    reveal_strlit("always");
    assert("always"@.len() == 6);
    reveal_strlit("reject");
    assert("reject"@.len() == 6);
    reveal_strlit("unknown");
    assert("unknown"@.len() == 7);
    assert("always"@[0] != "reject"@[0]);
}

/// A name stands for something known only where it is the name of that: any other one, from whichever
/// version, is unknown.
pub proof fn lemma_other_names_are_unknown(name: Seq<char>)
    ensures
        error_code_named(name) == ErrorCode::Unknown || error_code_name(error_code_named(name)) == name,
        stop_reason_named(name) == StopReason::Unknown || stop_reason_name(stop_reason_named(name)) == name,
        display_role_named(name) == DisplayRole::Unknown || display_role_name(display_role_named(name)) == name,
        compaction_reason_named(name) == CompactionReason::Unknown || compaction_reason_name(compaction_reason_named(name)) == name,
        tier_named(name) == Tier::Unknown || tier_name(tier_named(name)) == name,
        policy_named(name) == Policy::Unknown || policy_name(policy_named(name)) == name,
        approval_mode_named(name) == ApprovalMode::Unknown || approval_mode_name(approval_mode_named(name)) == name,
        approval_reply_named(name) == ApprovalReply::Unknown || approval_reply_name(approval_reply_named(name)) == name,
{
}

} // verus!
