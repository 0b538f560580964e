//! What frames carry.

use zcode::protocol::error::ErrorCode;
use zcode::protocol::wire::event::Event;
use zcode::protocol::wire::request::{answer_unreadable, refuse, FrameProbe, Pending, Reply, Request};
use zcode::protocol::wire::types::{CompactionReason, DisplayRole, Policy, Tier};
use zcode::protocol::wire::types::{ApprovalId, ApprovalMode, ApprovalReply, AssistantContent, CallId, ClientId, Entry, EntryId, EntryKind, Message, PendingApproval, PendingStdin, SessionId, SessionSummary, StdinId, StopReason, ToolProgress, Usage, UserContent};

const REQUEST_VARIANTS: usize = 16;
const REPLY_VARIANTS: usize = 10;
const EVENT_VARIANTS: usize = 19;
#[allow(dead_code)]
fn _exhaustive_request(value: &Request) {
    match value {
        Request::Ping => {}
        Request::SessionList { .. } => {}
        Request::SessionCreate { .. } => {}
        Request::Subscribe { .. } => {}
        Request::Unsubscribe { .. } => {}
        Request::HistoryFetch { .. } => {}
        Request::Prompt { .. } => {}
        Request::Cancel { .. } => {}
        Request::Compact { .. } => {}
        Request::SetHead { .. } => {}
        Request::SetModel { .. } => {}
        Request::SetTitle { .. } => {}
        Request::SetApprovalMode { .. } => {}
        Request::ApprovalRespond { .. } => {}
        Request::StdinRespond { .. } => {}
        Request::PendingList { .. } => {}
    }
}
#[allow(dead_code)]
fn _exhaustive_reply(value: &Reply) {
    match value {
        Reply::Done => {}
        Reply::Pong => {}
        Reply::Sessions { .. } => {}
        Reply::SessionCreated { .. } => {}
        Reply::Subscribed { .. } => {}
        Reply::SessionBusy { .. } => {}
        Reply::History { .. } => {}
        Reply::TurnStarted { .. } => {}
        Reply::Pending { .. } => {}
        Reply::Unknown => {}
    }
}
#[allow(dead_code)]
fn _exhaustive_event(value: &Event) {
    match value {
        Event::TurnStart { .. } => {}
        Event::MessageStart { .. } => {}
        Event::TextDelta { .. } => {}
        Event::ThinkingDelta { .. } => {}
        Event::ToolCallDelta { .. } => {}
        Event::MessageEnd { .. } => {}
        Event::ToolStart { .. } => {}
        Event::ToolProgress { .. } => {}
        Event::ToolEnd { .. } => {}
        Event::ApprovalRequested { .. } => {}
        Event::ApprovalResolved { .. } => {}
        Event::StdinRequested { .. } => {}
        Event::StdinResolved { .. } => {}
        Event::Compacted { .. } => {}
        Event::SessionUpdated { .. } => {}
        Event::TurnEnd { .. } => {}
        Event::Failed { .. } => {}
        Event::Resync { .. } => {}
        Event::Unknown => {}
    }
}
fn session_summary() -> SessionSummary {
    SessionSummary {
        id: SessionId::from("ses_1"),
        title: Some("协议冒烟会话".to_owned()),
        cwd: "/workspace/zcode".to_owned(),
        model: "model-large".to_owned(),
        created_ms: 1_700_000_000_000,
        updated_ms: 1_700_000_060_000,
    }
}
fn assistant_message() -> Message {
    Message::Assistant {
        content: vec![
            AssistantContent::Text {
                text: "已定位问题。".to_owned(),
            },
            AssistantContent::ToolCall {
                id: CallId::from("call_1"),
                name: "bash".to_owned(),
                arguments: r#"{"cmd":"tail -n 20 app.log"}"#.to_owned(),
            },
        ],
        model: Some("model-large-20260101".to_owned()),
        usage: Usage {
            input: 128,
            output: 64,
            cache_read: 32,
            cache_write: 0,
            reasoning: 16,
        },
        stop_reason: StopReason::ToolUse,
    }
}
fn entry() -> Entry {
    Entry {
        id: EntryId::from("ent_2"),
        parent_id: Some(EntryId::from("ent_1")),
        timestamp_ms: 1_700_000_030_000,
        kind: EntryKind::Message {
            message: assistant_message(),
        },
    }
}
fn pending_approval() -> PendingApproval {
    PendingApproval {
        request_id: ApprovalId::from("apr_1"),
        call_id: CallId::from("call_1"),
        tool_name: "bash".to_owned(),
        scope: "bash".to_owned(),
        prompt: "允许执行 `tail -n 20 app.log`？".to_owned(),
    }
}
fn pending_stdin() -> PendingStdin {
    PendingStdin {
        request_id: StdinId::from("stdin_1"),
        call_id: CallId::from("call_2"),
        prompt: "password:".to_owned(),
        is_password: true,
    }
}
fn pending() -> Pending {
    Pending {
        approvals: vec![pending_approval()],
        stdin: vec![pending_stdin()],
    }
}
fn sample_requests() -> Vec<Request> {
    vec![
        Request::Ping,
        Request::SessionList {
            cwd: Some("/workspace/zcode".to_owned()),
        },
        Request::SessionCreate {
            cwd: "/workspace/zcode".to_owned(),
            model: "model-large".to_owned(),
        },
        Request::Subscribe {
            session: SessionId::from("ses_1"),
            client: ClientId::from("cli_1"),
            has_local_history: true,
            takeover: false,
            since: Some(EntryId::from("ent_1")),
        },
        Request::Unsubscribe {
            session: SessionId::from("ses_1"),
        },
        Request::HistoryFetch {
            session: SessionId::from("ses_1"),
            since: Some(EntryId::from("ent_1")),
        },
        Request::Prompt {
            session: SessionId::from("ses_1"),
            content: vec![UserContent::Text {
                text: "帮我看看这段日志".to_owned(),
            }],
        },
        Request::Cancel {
            session: SessionId::from("ses_1"),
        },
        Request::Compact {
            session: SessionId::from("ses_1"),
        },
        Request::SetHead {
            session: SessionId::from("ses_1"),
            entry: EntryId::from("ent_2"),
        },
        Request::SetModel {
            session: SessionId::from("ses_1"),
            model: "model-small".to_owned(),
        },
        Request::SetTitle {
            session: SessionId::from("ses_1"),
            title: "日志排查".to_owned(),
        },
        Request::SetApprovalMode {
            session: SessionId::from("ses_1"),
            mode: ApprovalMode::Write,
        },
        Request::ApprovalRespond {
            request_id: ApprovalId::from("apr_1"),
            reply: ApprovalReply::Once,
        },
        Request::StdinRespond {
            request_id: StdinId::from("stdin_1"),
            text: "y".to_owned(),
        },
        Request::PendingList {
            session: SessionId::from("ses_1"),
        },
    ]
}
fn sample_replies() -> Vec<Reply> {
    vec![
        Reply::Done,
        Reply::Pong,
        Reply::Sessions {
            sessions: vec![session_summary()],
        },
        Reply::SessionCreated {
            summary: session_summary(),
            root: Entry {
                id: EntryId::from("ent_1"),
                parent_id: None,
                timestamp_ms: 1_700_000_000_000,
                kind: EntryKind::SessionInit {
                    cwd: "/workspace/zcode".to_owned(),
                    model: "model-large".to_owned(),
                },
            },
        },
        Reply::Subscribed {
            summary: session_summary(),
            head: EntryId::from("ent_2"),
            entries: vec![entry()],
            pending: pending(),
            turn_active: true,
        },
        Reply::SessionBusy {
            holder: ClientId::from("cli_2"),
        },
        Reply::History {
            entries: vec![entry()],
        },
        Reply::TurnStarted {
            user_entry: EntryId::from("ent_1"),
        },
        Reply::Pending { pending: pending() },
        Reply::Unknown,
    ]
}
fn sample_events() -> Vec<Event> {
    vec![
        Event::TurnStart {
            session: SessionId::from("ses_1"),
            user_entry: EntryId::from("ent_1"),
        },
        Event::MessageStart {
            session: SessionId::from("ses_1"),
            entry: EntryId::from("ent_2"),
        },
        Event::TextDelta {
            session: SessionId::from("ses_1"),
            entry: EntryId::from("ent_2"),
            index: 0,
            delta: "已定位".to_owned(),
        },
        Event::ThinkingDelta {
            session: SessionId::from("ses_1"),
            entry: EntryId::from("ent_2"),
            index: 0,
            delta: "分析日志中".to_owned(),
        },
        Event::ToolCallDelta {
            session: SessionId::from("ses_1"),
            entry: EntryId::from("ent_2"),
            index: 1,
            call_id: CallId::from("call_1"),
            delta: r#"{"cmd":"#.to_owned(),
        },
        Event::MessageEnd {
            session: SessionId::from("ses_1"),
            entry: EntryId::from("ent_2"),
            message: Box::new(assistant_message()),
            usage: Usage {
                input: 128,
                output: 64,
                cache_read: 32,
                cache_write: 0,
                reasoning: 16,
            },
        },
        Event::ToolStart {
            session: SessionId::from("ses_1"),
            call_id: CallId::from("call_1"),
            name: "bash".to_owned(),
        },
        Event::ToolProgress {
            session: SessionId::from("ses_1"),
            call_id: CallId::from("call_1"),
            progress: ToolProgress::Chunk {
                text: "tail 输出片段".to_owned(),
            },
        },
        Event::ToolEnd {
            session: SessionId::from("ses_1"),
            call_id: CallId::from("call_1"),
            entry: EntryId::from("ent_3"),
            is_error: false,
        },
        Event::ApprovalRequested {
            session: SessionId::from("ses_1"),
            pending: pending_approval(),
        },
        Event::ApprovalResolved {
            session: SessionId::from("ses_1"),
            request_id: ApprovalId::from("apr_1"),
            approved: true,
        },
        Event::StdinRequested {
            session: SessionId::from("ses_1"),
            pending: pending_stdin(),
        },
        Event::StdinResolved {
            session: SessionId::from("ses_1"),
            request_id: StdinId::from("stdin_1"),
            submitted: true,
        },
        Event::Compacted {
            session: SessionId::from("ses_1"),
            entry: EntryId::from("ent_4"),
        },
        Event::SessionUpdated {
            session: SessionId::from("ses_1"),
            summary: session_summary(),
            head: EntryId::from("ent_2"),
        },
        Event::TurnEnd {
            session: SessionId::from("ses_1"),
        },
        Event::Failed {
            session: SessionId::from("ses_1"),
            message: "提供商请求超时".to_owned(),
        },
        Event::Resync {
            session: SessionId::from("ses_1"),
            dropped: 3,
        },
        Event::Unknown,
    ]
}
#[test]
fn variant_inventories_match_declared_counts() {
    assert_eq!(
        sample_requests().len(),
        REQUEST_VARIANTS,
        "Request 样本数量与 REQUEST_VARIANTS 不一致：新增/删除变体后，\
         请同步更新 sample_requests() 与这个常量"
    );
    assert_eq!(
        sample_replies().len(),
        REPLY_VARIANTS,
        "Reply 样本数量与 REPLY_VARIANTS 不一致：新增/删除变体后，\
         请同步更新 sample_replies() 与这个常量"
    );
    assert_eq!(
        sample_events().len(),
        EVENT_VARIANTS,
        "Event 样本数量与 EVENT_VARIANTS 不一致：新增/删除变体后，\
         请同步更新 sample_events() 与这个常量"
    );
}

#[test]
fn unknown_fieldless_variants_degrade_instead_of_failing() {
    assert_eq!(StopReason::from_wire("quantum_collapse"), StopReason::Unknown);
    assert_eq!(Tier::from_wire("nuclear"), Tier::Unknown);
    assert_eq!(ApprovalReply::from_wire("maybe"), ApprovalReply::Unknown);
}

#[test]
fn values_come_back_from_the_wire_as_they_were() {
    for x in [StopReason::Stop, StopReason::ToolUse, StopReason::Aborted, StopReason::Unknown] {
        assert_eq!(StopReason::from_wire(x.wire_name()), x);
    }
    assert_eq!(StopReason::ToolUse.wire_name(), "tool_use");
    for x in [ApprovalMode::AlwaysAsk, ApprovalMode::Write, ApprovalMode::Yolo] {
        assert_eq!(ApprovalMode::from_wire(x.wire_name()), x);
    }
    assert_eq!(ApprovalMode::AlwaysAsk.wire_name(), "always-ask");
    assert_eq!(DisplayRole::BackgroundTask.wire_name(), "background_task");
    assert_eq!(CompactionReason::from_wire("manual"), CompactionReason::Manual);
    assert_eq!(Policy::from_wire("deny"), Policy::Deny);
    assert_eq!(Tier::from_wire("exec"), Tier::Exec);
}

#[test]
fn a_request_that_is_not_known_is_answered_by_name() {
    let probe = FrameProbe { kind: Some("request".to_owned()), name: Some("teleport".to_owned()) };
    let answer = answer_unreadable(1, 42, &probe);
    assert_eq!(answer.reply_to, Some(42));
    assert_eq!(answer.id, 1);
    assert_eq!(answer.payload.code, ErrorCode::UnsupportedRequest);
    assert!(answer.payload.message.contains("teleport"));

    let unnamed = refuse(&FrameProbe { kind: Some("request".to_owned()), name: None });
    assert!(unnamed.message.contains("<unnamed>"));
}

#[test]
fn anything_else_that_is_not_understood_is_malformed() {
    assert_eq!(refuse(&FrameProbe::default()).code, ErrorCode::MalformedFrame);
    let event = FrameProbe { kind: Some("event".to_owned()), name: Some("x".to_owned()) };
    assert_eq!(refuse(&event).code, ErrorCode::MalformedFrame);
}

#[test]
fn nothing_pending_and_nothing_used() {
    assert!(Pending::default().is_empty());
    assert!(Usage::default().is_empty());
    let some = Usage { output: 1, ..Usage::default() };
    assert!(!some.is_empty());
}

#[test]
fn ids_keep_their_text() {
    let id = EntryId::from("ent_01K");
    assert_eq!(id.as_str(), "ent_01K");
    assert_eq!(id.into_string(), "ent_01K");
    assert!(SessionId::from("ses_1") < SessionId::from("ses_2"));
}
