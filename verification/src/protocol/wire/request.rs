//! What a client asks for, and what it is answered.

use vstd::prelude::*;

use crate::protocol::envelope::Envelope;
use crate::protocol::error::{unsupported_text, ErrorCode, ProtocolError};
use crate::protocol::version::PROTOCOL_MAJOR;
use crate::protocol::wire::types::{
    ApprovalId, ApprovalMode, ApprovalReply, ClientId, Entry, EntryId, PendingApproval, PendingStdin,
    SessionId, SessionSummary, StdinId, UserContent,
};
use crate::strings::{opt_text, str_eq};

verus! {

/// What a client asks for. Each request is answered by one frame.
#[derive(Debug, Clone, PartialEq, Eq)]
pub enum Request {
    Ping,
    SessionList { cwd: Option<String> },
    SessionCreate { cwd: String, model: String },
    Subscribe {
        session: SessionId,
        client: ClientId,
        has_local_history: bool,
        takeover: bool,
        since: Option<EntryId>,
    },
    Unsubscribe { session: SessionId },
    HistoryFetch { session: SessionId, since: Option<EntryId> },
    Prompt { session: SessionId, content: Vec<UserContent> },
    Cancel { session: SessionId },
    Compact { session: SessionId },
    SetHead { session: SessionId, entry: EntryId },
    SetModel { session: SessionId, model: String },
    SetTitle { session: SessionId, title: String },
    SetApprovalMode { session: SessionId, mode: ApprovalMode },
    ApprovalRespond { request_id: ApprovalId, reply: ApprovalReply },
    StdinRespond { request_id: StdinId, text: String },
    PendingList { session: SessionId },
}

/// The answer to a request.
#[derive(Debug, Clone, PartialEq, Eq)]
pub enum Reply {
    Done,
    Pong,
    Sessions { sessions: Vec<SessionSummary> },
    SessionCreated { summary: SessionSummary, root: Entry },
    Subscribed {
        summary: SessionSummary,
        head: EntryId,
        entries: Vec<Entry>,
        pending: Pending,
        turn_active: bool,
    },
    SessionBusy { holder: ClientId },
    History { entries: Vec<Entry> },
    TurnStarted { user_entry: EntryId },
    Pending { pending: Pending },
    /// An answer that is not known here. The request is taken for one that is not supported.
    Unknown,
}

/// The questions of a session that wait for an answer.
#[derive(Debug, Clone, PartialEq, Eq)]
pub struct Pending {
    pub approvals: Vec<PendingApproval>,
    pub stdin: Vec<PendingStdin>,
}

impl Default for Pending {
    fn default() -> (r: Self)
        ensures
            r.approvals@.len() == 0,
            r.stdin@.len() == 0,
    {
        Pending { approvals: Vec::new(), stdin: Vec::new() }
    }
}

impl Pending {
    /// Whether there are none.
    pub fn is_empty(&self) -> (r: bool)
        ensures
            r == (self.approvals@.len() == 0 && self.stdin@.len() == 0),
    {
        self.approvals.len() == 0 && self.stdin.len() == 0
    }
}

/// What can be seen of a payload that is not understood.
#[derive(Debug, Clone)]
pub struct FrameProbe {
    /// What kind of frame it is.
    pub kind: Option<String>,
    /// The name of the request.
    pub name: Option<String>,
}

impl Default for FrameProbe {
    fn default() -> (r: Self)
        ensures
            r.kind is None,
            r.name is None,
    {
        FrameProbe { kind: None, name: None }
    }
}

/// Whether a payload that is not understood is a request.
pub open spec fn is_request(probe: FrameProbe) -> bool {
    opt_text(probe.kind) == Some("request"@)
}

/// What is said of a payload that is not understood.
pub open spec fn refusal_text(probe: FrameProbe) -> Seq<char> {
    if is_request(probe) {
        unsupported_text(
            match probe.name {
                Some(name) => name@,
                None => "<unnamed>"@,
            },
        )
    } else {
        "payload 结构不符"@
    }
}

/// The error for a payload that is not understood: a request that is not known here, or else a
/// frame that is not what the protocol asks for.
pub fn refuse(probe: &FrameProbe) -> (r: ProtocolError)
    ensures
        r.code == if is_request(*probe) {
            ErrorCode::UnsupportedRequest
        } else {
            ErrorCode::MalformedFrame
        },
        r.message@ == refusal_text(*probe),
{
    if let Some(kind) = &probe.kind {
        if str_eq(kind.as_str(), "request") {
            return match &probe.name {
                Some(name) => ProtocolError::unsupported_request(name.as_str()),
                None => ProtocolError::unsupported_request("<unnamed>"),
            };
        }
    }
    ProtocolError::new(ErrorCode::MalformedFrame, "payload 结构不符".to_owned())
}

/// The answer to a frame whose payload is not understood. It carries the frame's number, so that
/// nobody waits for ever.
pub fn answer_unreadable(id: u64, request: u64, probe: &FrameProbe) -> (r: Envelope<ProtocolError>)
    ensures
        r.v == PROTOCOL_MAJOR,
        r.id == id,
        r.reply_to == Some(request),
        r.payload.code == if is_request(*probe) {
            ErrorCode::UnsupportedRequest
        } else {
            ErrorCode::MalformedFrame
        },
        r.payload.message@ == refusal_text(*probe),
{
    Envelope::reply_to(id, request, refuse(probe))
}

} // verus!
