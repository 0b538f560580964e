//! What the runtime tells its clients.

use vstd::prelude::*;

use crate::protocol::wire::types::{
    ApprovalId, CallId, EntryId, Message, PendingApproval, PendingStdin, SessionId, SessionSummary,
    StdinId, ToolProgress, Usage,
};

verus! {

/// What the runtime tells. An event may be lost.
#[derive(Debug, Clone, PartialEq, Eq)]
pub enum Event {
    TurnStart { session: SessionId, user_entry: EntryId },
    MessageStart { session: SessionId, entry: EntryId },
    TextDelta { session: SessionId, entry: EntryId, index: u32, delta: String },
    ThinkingDelta { session: SessionId, entry: EntryId, index: u32, delta: String },
    ToolCallDelta { session: SessionId, entry: EntryId, index: u32, call_id: CallId, delta: String },
    MessageEnd { session: SessionId, entry: EntryId, message: Box<Message>, usage: Usage },
    ToolStart { session: SessionId, call_id: CallId, name: String },
    ToolProgress { session: SessionId, call_id: CallId, progress: ToolProgress },
    ToolEnd { session: SessionId, call_id: CallId, entry: EntryId, is_error: bool },
    ApprovalRequested { session: SessionId, pending: PendingApproval },
    ApprovalResolved { session: SessionId, request_id: ApprovalId, approved: bool },
    StdinRequested { session: SessionId, pending: PendingStdin },
    StdinResolved { session: SessionId, request_id: StdinId, submitted: bool },
    Compacted { session: SessionId, entry: EntryId },
    SessionUpdated { session: SessionId, summary: SessionSummary, head: EntryId },
    TurnEnd { session: SessionId },
    Failed { session: SessionId, message: String },
    /// Events were lost. The stream goes on.
    Resync { session: SessionId, dropped: u64 },
    /// An event that is not known here. It is passed over.
    Unknown,
}

} // verus!
