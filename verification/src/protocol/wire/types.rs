//! What frames are made of.

use vstd::prelude::*;

verus! {

/// The id of a session. Their alphabetical order is the order in time.
#[derive(Debug, Clone, PartialEq, Eq, PartialOrd, Ord, Hash)]
pub struct SessionId(String);

impl View for SessionId {
    type V = Seq<char>;

    closed spec fn view(&self) -> Seq<char> {
        self.0@
    }
}

impl SessionId {
    /// The id of a text.
    pub fn from(value: &str) -> (r: Self)
        ensures
            r@ == value@,
    {
        SessionId(value.to_owned())
    }

    /// The text.
    pub fn as_str(&self) -> (r: &str)
        ensures
            r@ == self@,
    {
        self.0.as_str()
    }

    /// The text.
    pub fn into_string(self) -> (r: String)
        ensures
            r@ == self@,
    {
        self.0
    }
}

/// The id of an entry of a session. Their alphabetical order is the order in time.
#[derive(Debug, Clone, PartialEq, Eq, PartialOrd, Ord, Hash)]
pub struct EntryId(String);

impl View for EntryId {
    type V = Seq<char>;

    closed spec fn view(&self) -> Seq<char> {
        self.0@
    }
}

impl EntryId {
    /// The id of a text.
    pub fn from(value: &str) -> (r: Self)
        ensures
            r@ == value@,
    {
        EntryId(value.to_owned())
    }

    /// The text.
    pub fn as_str(&self) -> (r: &str)
        ensures
            r@ == self@,
    {
        self.0.as_str()
    }

    /// The text.
    pub fn into_string(self) -> (r: String)
        ensures
            r@ == self@,
    {
        self.0
    }
}

/// The id of a tool call, as its provider gave it.
#[derive(Debug, Clone, PartialEq, Eq, PartialOrd, Ord, Hash)]
pub struct CallId(String);

impl View for CallId {
    type V = Seq<char>;

    closed spec fn view(&self) -> Seq<char> {
        self.0@
    }
}

impl CallId {
    /// The id of a text.
    pub fn from(value: &str) -> (r: Self)
        ensures
            r@ == value@,
    {
        CallId(value.to_owned())
    }

    /// The text.
    pub fn as_str(&self) -> (r: &str)
        ensures
            r@ == self@,
    {
        self.0.as_str()
    }

    /// The text.
    pub fn into_string(self) -> (r: String)
        ensures
            r@ == self@,
    {
        self.0
    }
}

/// The id of a question whether a tool may run.
#[derive(Debug, Clone, PartialEq, Eq, PartialOrd, Ord, Hash)]
pub struct ApprovalId(String);

impl View for ApprovalId {
    type V = Seq<char>;

    closed spec fn view(&self) -> Seq<char> {
        self.0@
    }
}

impl ApprovalId {
    /// The id of a text.
    pub fn from(value: &str) -> (r: Self)
        ensures
            r@ == value@,
    {
        ApprovalId(value.to_owned())
    }

    /// The text.
    pub fn as_str(&self) -> (r: &str)
        ensures
            r@ == self@,
    {
        self.0.as_str()
    }

    /// The text.
    pub fn into_string(self) -> (r: String)
        ensures
            r@ == self@,
    {
        self.0
    }
}

/// The id of a question for a line of input.
#[derive(Debug, Clone, PartialEq, Eq, PartialOrd, Ord, Hash)]
pub struct StdinId(String);

impl View for StdinId {
    type V = Seq<char>;

    closed spec fn view(&self) -> Seq<char> {
        self.0@
    }
}

impl StdinId {
    /// The id of a text.
    pub fn from(value: &str) -> (r: Self)
        ensures
            r@ == value@,
    {
        StdinId(value.to_owned())
    }

    /// The text.
    pub fn as_str(&self) -> (r: &str)
        ensures
            r@ == self@,
    {
        self.0.as_str()
    }

    /// The text.
    pub fn into_string(self) -> (r: String)
        ensures
            r@ == self@,
    {
        self.0
    }
}

/// The id of a client. A client that starts again has a new one.
#[derive(Debug, Clone, PartialEq, Eq, PartialOrd, Ord, Hash)]
pub struct ClientId(String);

impl View for ClientId {
    type V = Seq<char>;

    closed spec fn view(&self) -> Seq<char> {
        self.0@
    }
}

impl ClientId {
    /// The id of a text.
    pub fn from(value: &str) -> (r: Self)
        ensures
            r@ == value@,
    {
        ClientId(value.to_owned())
    }

    /// The text.
    pub fn as_str(&self) -> (r: &str)
        ensures
            r@ == self@,
    {
        self.0.as_str()
    }

    /// The text.
    pub fn into_string(self) -> (r: String)
        ensures
            r@ == self@,
    {
        self.0
    }
}

/// A picture.
#[derive(Debug, Clone, PartialEq, Eq)]
pub struct Image {
    pub media_type: String,
    /// The bytes in base64.
    pub data: String,
}

/// A part of what a user says.
#[derive(Debug, Clone, PartialEq, Eq)]
pub enum UserContent {
    Text { text: String },
    Image { image: Image },
}

/// A part of what the assistant says.
#[derive(Debug, Clone, PartialEq, Eq)]
pub enum AssistantContent {
    Text { text: String },
    Thinking { text: String, signature: Option<String> },
    /// Thinking that only the provider can read. It is never cut.
    RedactedThinking { data: String },
    /// A tool call. The arguments are JSON, as they came.
    ToolCall { id: CallId, name: String, arguments: String },
}

/// A part of what a tool gives back.
#[derive(Debug, Clone, PartialEq, Eq)]
pub enum ToolResultContent {
    Text { text: String },
    Image { image: Image },
}

/// How many tokens were used.
#[derive(Debug, Clone, Copy, PartialEq, Eq, Structural)]
pub struct Usage {
    /// Read, and not from the cache.
    pub input: u64,
    /// Written.
    pub output: u64,
    /// Read from the cache.
    pub cache_read: u64,
    /// Written to the cache.
    pub cache_write: u64,
    /// Of those written, those for thinking.
    pub reasoning: u64,
}

/// No tokens.
pub open spec fn no_usage() -> Usage {
    Usage { input: 0, output: 0, cache_read: 0, cache_write: 0, reasoning: 0 }
}

impl Default for Usage {
    fn default() -> (r: Self)
        ensures
            r == no_usage(),
    {
        Usage { input: 0, output: 0, cache_read: 0, cache_write: 0, reasoning: 0 }
    }
}

impl Usage {
    /// Whether no tokens were used.
    pub fn is_empty(&self) -> (r: bool)
        ensures
            r == (*self == no_usage()),
    {
        self.input == 0 && self.output == 0 && self.cache_read == 0 && self.cache_write == 0
            && self.reasoning == 0
    }
}

/// Why the assistant stopped.
#[derive(Debug, Clone, Copy, PartialEq, Eq, Structural)]
pub enum StopReason {
    Stop,
    Length,
    ToolUse,
    Error,
    Aborted,
    /// A reason that is not known here. It is shown like `Stop`.
    Unknown,
}

impl Default for StopReason {
    fn default() -> (r: Self)
        ensures
            r == StopReason::Stop,
    {
        StopReason::Stop
    }
}

/// How a message is shown.
#[derive(Debug, Clone, Copy, PartialEq, Eq, Structural)]
pub enum DisplayRole {
    System,
    BackgroundTask,
    /// A role that is not known here.
    Unknown,
}

/// A message.
#[derive(Debug, Clone, PartialEq, Eq)]
pub enum Message {
    User { content: Vec<UserContent>, display_role: Option<DisplayRole> },
    Assistant {
        content: Vec<AssistantContent>,
        model: Option<String>,
        usage: Usage,
        stop_reason: StopReason,
    },
    ToolResult {
        tool_call_id: CallId,
        tool_name: String,
        content: Vec<ToolResultContent>,
        is_error: bool,
    },
}

/// Why a context was compacted.
#[derive(Debug, Clone, Copy, PartialEq, Eq, Structural)]
pub enum CompactionReason {
    Threshold,
    Overflow,
    Manual,
    /// A reason that is not known here.
    Unknown,
}

/// What an entry of a session is.
#[derive(Debug, Clone, PartialEq, Eq)]
pub enum EntryKind {
    SessionInit { cwd: String, model: String },
    Message { message: Message },
    ModelChange { model: String },
    TitleChange { title: String },
    Compaction { summary: String, first_kept: Option<EntryId>, reason: CompactionReason },
}

/// An entry of a session. The entries are a tree.
#[derive(Debug, Clone, PartialEq, Eq)]
pub struct Entry {
    pub id: EntryId,
    pub parent_id: Option<EntryId>,
    pub timestamp_ms: u64,
    pub kind: EntryKind,
}

/// A session in a list.
#[derive(Debug, Clone, PartialEq, Eq)]
pub struct SessionSummary {
    pub id: SessionId,
    pub title: Option<String>,
    pub cwd: String,
    pub model: String,
    pub created_ms: u64,
    pub updated_ms: u64,
}

/// What a running tool tells.
#[derive(Debug, Clone, PartialEq, Eq)]
pub enum ToolProgress {
    Chunk { text: String },
    Status { text: String },
}

/// What a tool may do.
#[derive(Debug, Clone, Copy, PartialEq, Eq, PartialOrd, Ord, Structural)]
pub enum Tier {
    Read,
    Write,
    Exec,
    /// A tier that is not known here. It is taken for the most dangerous one.
    Unknown,
}

/// What becomes of a tool call.
#[derive(Debug, Clone, Copy, PartialEq, Eq, Structural)]
pub enum Policy {
    Allow,
    Deny,
    Prompt,
    /// A policy that is not known here.
    Unknown,
}

/// Up to which tier nobody is asked.
#[derive(Debug, Clone, Copy, PartialEq, Eq, Structural)]
pub enum ApprovalMode {
    AlwaysAsk,
    Write,
    Yolo,
    /// A mode that is not known here.
    Unknown,
}

impl Default for ApprovalMode {
    fn default() -> (r: Self)
        ensures
            r == ApprovalMode::Yolo,
    {
        ApprovalMode::Yolo
    }
}

/// The answer to a question whether a tool may run.
#[derive(Debug, Clone, Copy, PartialEq, Eq, Structural)]
pub enum ApprovalReply {
    Once,
    Always,
    Reject,
    /// An answer that is not known here. It is taken for a refusal.
    Unknown,
}

/// A question whether a tool may run.
#[derive(Debug, Clone, PartialEq, Eq)]
pub struct PendingApproval {
    pub request_id: ApprovalId,
    pub call_id: CallId,
    pub tool_name: String,
    /// What an answer for all later calls is about.
    pub scope: String,
    pub prompt: String,
}

/// A question for a line of input.
#[derive(Debug, Clone, PartialEq, Eq)]
pub struct PendingStdin {
    pub request_id: StdinId,
    pub call_id: CallId,
    pub prompt: String,
    /// Whether the line is a password.
    pub is_password: bool,
}

} // verus!
