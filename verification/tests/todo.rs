//! The todo list.

use zcode::tools::calls::{load_phases, report_todo, state_file, TodoFile};
use zcode::tools::output::{ToolError, ToolOutput};
use zcode::tools::todo::{
    apply_entry, normalize_blocker, normalize_in_progress, InitListEntry, TodoArgs, TodoItem, TodoOp, TodoPhase,
    TodoStatus,
};
use zcode::tools::todo_markdown::{markdown_to_phases, phases_to_markdown};
use zcode::tools::todo_run::run_todo;

/// A session: what is on disk, if anything is.
struct Session {
    file: Option<String>,
}

impl Session {
    fn new() -> Self {
        Session { file: None }
    }

    fn run(&mut self, args: TodoArgs) -> Result<ToolOutput, ToolError> {
        let file = match &self.file {
            Some(text) => TodoFile::Text(text.clone()),
            None => TodoFile::Missing,
        };
        let previous = load_phases(&file)?;
        let run = run_todo(previous, &args);
        if let Ok(done) = &run {
            if done.save {
                self.file = Some(phases_to_markdown(&done.phases));
            }
        }
        report_todo(run)
    }
}

fn call(op: TodoOp) -> TodoArgs {
    TodoArgs { op, list: None, task: None, phase: None, items: None, reason: None }
}

fn on_task(op: TodoOp, task: &str) -> TodoArgs {
    TodoArgs { task: Some(task.to_owned()), ..call(op) }
}

fn entry(phase: &str, items: &[&str]) -> InitListEntry {
    InitListEntry {
        phase: phase.to_owned(),
        items: items.iter().map(|s| (*s).to_owned()).collect(),
    }
}

fn init_args() -> TodoArgs {
    TodoArgs {
        list: Some(vec![
            entry("Foundation", &["Scaffold crate", "Wire workspace"]),
            entry("Verification", &["Run cargo test"]),
        ]),
        ..call(TodoOp::Init)
    }
}

fn begun() -> Session {
    let mut session = Session::new();
    session.run(init_args()).expect("init");
    session
}

#[test]
fn init_creates_phased_list() {
    let mut session = Session::new();
    let text = session.run(init_args()).expect("init succeeds").text;
    assert!(text.contains("Foundation"));
    assert!(text.contains("Scaffold crate"));
    assert!(text.contains("[/] Scaffold crate"));
    let markdown = session.file.unwrap_or_default();
    assert!(markdown.contains("# Foundation"));
    assert!(markdown.contains("# Verification"));
}

#[test]
fn start_marks_single_task_in_progress() {
    let text = begun().run(on_task(TodoOp::Start, "Wire workspace")).expect("start succeeds").text;
    assert!(text.contains("[/] Wire workspace"));
    assert!(text.contains("[ ] Scaffold crate"));
}

#[test]
fn done_marks_task_completed() {
    let text = begun().run(on_task(TodoOp::Done, "Scaffold crate")).expect("done succeeds").text;
    assert!(text.contains("[x] Scaffold crate"));
    assert!(text.contains("[/] Wire workspace"));
}

#[test]
fn drop_marks_task_abandoned() {
    let text = begun().run(on_task(TodoOp::Drop, "Run cargo test")).expect("drop succeeds").text;
    assert!(text.contains("[-] Run cargo test"));
}

#[test]
fn block_sets_status_and_reason() {
    let mut args = on_task(TodoOp::Block, "Wire workspace");
    args.reason = Some("waiting on design review".to_owned());
    let text = begun().run(args).expect("block succeeds").text;
    assert!(text.contains("[!] Wire workspace"));
    assert!(text.contains("blocked: waiting on design review"));
}

#[test]
fn unblock_returns_task_to_pending() {
    let mut session = begun();
    session.run(on_task(TodoOp::Block, "Wire workspace")).expect("block");
    let text = session.run(on_task(TodoOp::Unblock, "Wire workspace")).expect("unblock succeeds").text;
    assert!(!text.contains("[!] Wire workspace"));
    assert!(text.contains("Wire workspace"));
}

#[test]
fn rm_removes_single_task() {
    let text = begun().run(on_task(TodoOp::Rm, "Scaffold crate")).expect("rm succeeds").text;
    assert!(!text.contains("Scaffold crate"));
}

#[test]
fn append_adds_tasks_to_existing_phase() {
    let args = TodoArgs {
        phase: Some("Foundation".to_owned()),
        items: Some(vec!["Handle retries".to_owned()]),
        ..call(TodoOp::Append)
    };
    let text = begun().run(args).expect("append succeeds").text;
    assert!(text.contains("Handle retries"));
}

#[test]
fn view_is_read_only_and_does_not_write_state() {
    let mut session = Session::new();
    let text = session.run(call(TodoOp::View)).expect("view succeeds").text;
    assert_eq!(text, "Todo list is empty.");
    assert!(session.file.is_none());
}

#[test]
fn in_progress_singleton_collapses_extra_in_progress() {
    let mut session =
        Session { file: Some("# Phase\n- [/] one\n- [/] two\n- [ ] three\n".to_owned()) };
    let text = session.run(on_task(TodoOp::Done, "three")).expect("done succeeds").text;
    assert_eq!(text.matches("[/]").count(), 1, "至多一个 in_progress: {text}");
    assert!(text.contains("[/] one"), "第一个 in_progress 保留: {text}");
    assert!(text.contains("[ ] two"), "第二个 in_progress 降回 pending: {text}");
}

#[test]
fn in_progress_singleton_promotes_first_pending_when_none_active() {
    let mut session = Session::new();
    let args = TodoArgs { list: Some(vec![entry("P", &["a", "b"])]), ..call(TodoOp::Init) };
    session.run(args).expect("init");
    let text = session.run(on_task(TodoOp::Done, "a")).expect("done").text;
    assert!(text.contains("[/] b"), "应当自动提升下一个 pending: {text}");
}

#[test]
fn failed_batch_rolls_back_state_completely() {
    let mut session = begun();
    let before = session.file.clone();
    let err = session
        .run(on_task(TodoOp::Done, "does not exist"))
        .expect_err("unresolvable target fails the call");
    assert!(matches!(err, ToolError::Failed(_)));
    assert_eq!(before, session.file, "失败的批次必须与执行前逐字节相同");
}

#[test]
fn append_batch_failure_does_not_partially_apply() {
    let mut session = begun();
    let before = session.file.clone();
    let args = TodoArgs {
        phase: Some("Foundation".to_owned()),
        items: Some(vec!["New task".to_owned(), "Scaffold crate".to_owned()]),
        ..call(TodoOp::Append)
    };
    let err = session.run(args).expect_err("duplicate in batch fails the whole call");
    assert!(matches!(err, ToolError::Failed(_)));
    assert_eq!(before, session.file);
}

#[test]
fn block_does_not_pull_back_completed_tasks() {
    let mut session = begun();
    session.run(on_task(TodoOp::Done, "Scaffold crate")).expect("done");
    let args = TodoArgs {
        phase: Some("Foundation".to_owned()),
        reason: Some("paused".to_owned()),
        ..call(TodoOp::Block)
    };
    let text = session.run(args).expect("block succeeds").text;
    assert!(text.contains("[x] Scaffold crate"), "已完成任务不应被 block 拉回: {text}");
    assert!(text.contains("[!] Wire workspace"), "开放任务应当被 block: {text}");
}

#[test]
fn block_can_reblock_already_blocked_task_to_update_reason() {
    let mut session = begun();
    let mut first = on_task(TodoOp::Block, "Wire workspace");
    first.reason = Some("first reason".to_owned());
    session.run(first).expect("first block");
    let mut second = on_task(TodoOp::Block, "Wire workspace");
    second.reason = Some("updated reason".to_owned());
    let text = session.run(second).expect("re-block on an already-blocked task succeeds").text;
    assert!(text.contains("[!] Wire workspace"), "仍然是 blocked: {text}");
    assert!(text.contains("blocked: updated reason"), "reason 应当被替换: {text}");
    assert!(!text.contains("first reason"), "旧 reason 不应残留: {text}");
}

#[test]
fn blocker_whitespace_is_collapsed() {
    assert_eq!(
        normalize_blocker(Some("waiting on\n  review\tplease")),
        Some("waiting on review please".to_owned())
    );
    assert_eq!(normalize_blocker(Some("   ")), None);
    assert_eq!(normalize_blocker(None), None);
}

#[test]
fn markdown_round_trip_preserves_blocked_and_blocker() {
    let mut phases = vec![TodoPhase {
        name: "Foundation".to_owned(),
        tasks: vec![
            TodoItem {
                content: "Scaffold crate".to_owned(),
                status: TodoStatus::Completed,
                blocker: None,
            },
            TodoItem {
                content: "Wire workspace".to_owned(),
                status: TodoStatus::Blocked,
                blocker: Some("waiting on design review".to_owned()),
            },
            TodoItem {
                content: "Third task".to_owned(),
                status: TodoStatus::Pending,
                blocker: None,
            },
        ],
    }];
    normalize_in_progress(&mut phases);

    let markdown = phases_to_markdown(&phases);
    assert!(markdown.contains("<!-- blocker: waiting on design review -->"));

    let (parsed, errors) = markdown_to_phases(&markdown);
    assert!(
        errors.is_empty(),
        "round trip should not produce parse errors: {errors:?}"
    );
    assert_eq!(parsed.len(), phases.len());
    assert_eq!(parsed[0].tasks.len(), phases[0].tasks.len());
    for (original, round_tripped) in phases[0].tasks.iter().zip(parsed[0].tasks.iter()) {
        assert_eq!(original.content, round_tripped.content);
        assert_eq!(original.status, round_tripped.status);
        assert_eq!(original.blocker, round_tripped.blocker);
    }
}

#[test]
fn markdown_round_trip_handles_all_statuses() {
    let phases = vec![TodoPhase {
        name: "All statuses".to_owned(),
        tasks: vec![
            TodoItem {
                content: "pending task".to_owned(),
                status: TodoStatus::Pending,
                blocker: None,
            },
            TodoItem {
                content: "abandoned task".to_owned(),
                status: TodoStatus::Abandoned,
                blocker: None,
            },
        ],
    }];
    let markdown = phases_to_markdown(&phases);
    let (parsed, errors) = markdown_to_phases(&markdown);
    assert!(errors.is_empty());
    let statuses: Vec<TodoStatus> = parsed[0].tasks.iter().map(|task| task.status).collect();
    assert!(
        statuses.contains(&TodoStatus::InProgress) || statuses.contains(&TodoStatus::Pending)
    );
    assert!(statuses.contains(&TodoStatus::Abandoned));
}

#[test]
fn the_list_is_kept_by_session() {
    assert_eq!(state_file("ses_1"), "ses_1.todo.md");
    let refused = load_phases(&TodoFile::Failed("disk".to_owned())).expect_err("no list");
    assert_eq!(refused, ToolError::Failed("Failed to read todo state: disk".to_owned()));
}

#[test]
fn lines_that_cannot_be_read_are_told_and_passed_over() {
    let (phases, errors) = markdown_to_phases("# A\nnonsense\n- [x] done\n- [?] odd\n");
    assert_eq!(phases.len(), 1);
    assert_eq!(phases[0].tasks.len(), 1);
    assert_eq!(errors.len(), 2);
    assert!(errors[0].starts_with("Line 2: unrecognized syntax"));
}

#[test]
fn titles_count_what_is_done() {
    let out = begun().run(on_task(TodoOp::Done, "Scaffold crate")).expect("done");
    assert_eq!(out.title, "todo done (1/3 done)");
}

#[test]
fn the_empty_list_reads_back_as_no_list() {
    let markdown = phases_to_markdown(&Vec::new());
    assert_eq!(markdown, "# Todos\n");
    let (phases, errors) = markdown_to_phases(&markdown);
    assert!(phases.is_empty() && errors.is_empty());

    let bare = vec![TodoPhase { name: "Todos".to_owned(), tasks: Vec::new() }];
    let (phases, errors) = markdown_to_phases(&phases_to_markdown(&bare));
    assert_eq!(phases.len(), 1);
    assert_eq!(phases[0].name, "Todos");
    assert!(phases[0].tasks.is_empty() && errors.is_empty());
}

#[test]
fn a_refused_operation_leaves_the_list() {
    let mut phases = vec![TodoPhase {
        name: "One".to_owned(),
        tasks: vec![TodoItem {
            content: "first".to_owned(),
            status: TodoStatus::Pending,
            blocker: None,
        }],
    }];
    let mut errors = vec!["earlier".to_owned()];
    apply_entry(&mut phases, &on_task(TodoOp::Done, "no such task"), &mut errors);
    assert_eq!(errors.len(), 2);
    assert_eq!(errors[0], "earlier");
    assert_eq!(phases.len(), 1);
    assert_eq!(phases[0].tasks[0].content, "first");
    assert_eq!(phases[0].tasks[0].status, TodoStatus::Pending);

    apply_entry(&mut phases, &call(TodoOp::Init), &mut errors);
    assert_eq!(errors.len(), 3);
    assert!(phases.is_empty());
}
