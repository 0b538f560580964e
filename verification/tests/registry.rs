//! Which tools there are, and what they say when something outside fails.

use zcode::schema::error::SchemaError;
use zcode::tools::calls::{failed, Failure};
use zcode::tools::output::ToolError;
use zcode::tools::registry::{
    enabled_tools, known_tool_names, registered, unknown_tools, ToolInitError,
};
use zcode::utf8::text_of;

#[test]
fn tools_can_be_switched_off() {
    let all = known_tool_names();
    assert_eq!(all, ["read", "ls", "write", "edit", "bash", "glob", "grep", "todo"]);
    let disabled = vec!["bash".to_owned(), "telepathy".to_owned()];
    let enabled = enabled_tools(&disabled);
    assert_eq!(enabled.len(), 7);
    assert!(!enabled.contains(&"bash".to_owned()));
    assert_eq!(unknown_tools(&disabled), ["telepathy"]);
}

#[test]
fn a_tool_that_cannot_be_registered_is_told() {
    assert!(registered("ls", Ok(false)).is_ok());
    let twice = registered("ls", Ok(true)).expect_err("twice");
    assert!(matches!(&twice, ToolInitError::Duplicate { name } if name == "ls"));
    assert_eq!(twice.to_string(), "工具名 `ls` 被重复注册");
    let source = SchemaError::RefDepthExceeded { reference: "#/a".to_owned() };
    let bad = registered("ls", Err(source)).expect_err("no schema");
    assert!(matches!(bad, ToolInitError::Schema { .. }));
}

#[test]
fn failures_name_what_was_done() {
    let said = |what: Failure| match failed(&what, "why") {
        ToolError::Failed(text) => text,
        other => panic!("{other:?}"),
    };
    assert_eq!(said(Failure::Arguments), "参数解析失败：why");
    assert_eq!(said(Failure::TodoArguments), "Invalid todo arguments: why");
    assert_eq!(said(Failure::MakeSessionDirectory), "Failed to create session directory: why");
    assert_eq!(said(Failure::SaveTodo), "Failed to persist todo state: why");
    assert_eq!(said(Failure::OpenFile), "无法打开文件: why");
    assert_eq!(said(Failure::ReadFile), "无法读取文件: why");
    assert_eq!(said(Failure::Read("f".to_owned())), "无法读取 'f': why");
    assert_eq!(said(Failure::ReadExisting("f".to_owned())), "读取既有文件 f 失败：why");
    assert_eq!(said(Failure::Write("f".to_owned())), "写入 f 失败：why");
    assert_eq!(said(Failure::ReadTask), "读取任务失败: why");
    assert_eq!(said(Failure::ListTask), "目录遍历任务失败: why");
    assert_eq!(said(Failure::GlobTask), "glob 遍历任务异常终止");
    assert_eq!(said(Failure::GrepTask), "grep 搜索任务异常终止");
}

#[test]
fn only_text_is_text() {
    assert_eq!(text_of("中文".as_bytes()), Some("中文".to_owned()));
    assert_eq!(text_of(&[0xe4, 0xb8]), None);
}
