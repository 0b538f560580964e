//! Writing files.

use zcode::text::path::PathCase;
use zcode::tools::approval::{Concurrency, Tier};
use zcode::tools::calls::locate_file;
use zcode::tools::output::ToolError;
use zcode::tools::write::{
    guard_read_selector_misfire, report_write, symlink_note, tmp_sibling, write_approval,
    write_concurrency, SymlinkResolution,
};
use zcode::workspace::{components, Workspace};

fn plain(path: &str) -> SymlinkResolution {
    SymlinkResolution { path: path.to_owned(), was_symlink: false, resolved: true }
}

#[test]
fn creates_a_new_file() {
    let result = report_write("hello.txt", &plain("hello.txt"), None, "hi\n");
    assert!(result.text.contains("已创建"), "新建文案应说明是创建");
}

#[test]
fn overwrites_existing_file_with_a_diff() {
    let text = report_write("hello.txt", &plain("hello.txt"), Some(b"old\n"), "new\n").text;
    assert!(text.contains("已覆写"), "覆写文案应说明是覆写：{text}");
    assert!(text.contains("- old"), "覆写应附带 diff 的删除行：{text}");
    assert!(text.contains("+ new"), "覆写应附带 diff 的新增行：{text}");
}

#[test]
fn blocks_read_selector_shaped_target_with_empty_content() {
    let err = guard_read_selector_misfire("report.md:50-100", "", true)
        .expect_err("读选择器误触必须被拦截");
    match err {
        ToolError::Failed(message) => {
            assert!(message.contains("read("), "错误应引导模型改用 read：{message}");
        }
        other => panic!("{other:?}"),
    }
}

#[test]
fn non_empty_content_is_never_blocked_by_the_selector_guard() {
    let result = guard_read_selector_misfire("report.md:50-100", "real content\n", true);
    assert!(result.is_ok(), "非空 content 不应被这条防护拦截");
}

#[test]
fn an_existing_file_or_an_ordinary_name_is_never_blocked() {
    assert!(guard_read_selector_misfire("report.md:50-100", "", false).is_ok());
    assert!(guard_read_selector_misfire("report.md", "", true).is_ok());
}

#[test]
fn links_are_told() {
    assert_eq!(symlink_note("a", &plain("b")), None);
    let link = SymlinkResolution { path: "target.txt".to_owned(), was_symlink: true, resolved: true };
    let note = symlink_note("a", &link).expect("a note");
    assert!(note.contains("target.txt"), "{note}");
    let lost = SymlinkResolution { path: "a".to_owned(), was_symlink: true, resolved: false };
    assert_ne!(symlink_note("a", &lost), Some(note));
}

#[test]
fn the_file_beside_has_the_process_in_its_name() {
    let name = tmp_sibling("a.txt", 42);
    assert!(name.contains("a.txt") && name.contains("42"), "{name}");
    assert_ne!(name, tmp_sibling("a.txt", 43));
    assert_eq!(write_approval().tier, Tier::Write);
    assert_eq!(write_concurrency(), Concurrency::Exclusive);
}

#[test]
fn places_are_resolved_and_shown() {
    let ws = Workspace::new(components("/w"), PathCase::Sensitive);
    let place = locate_file(&ws, "a/../b.txt", None).expect("a place");
    assert_eq!(place.path, components("/w/b.txt"));
    assert_eq!(place.display, "b.txt");
    assert!(matches!(locate_file(&ws, "", None), Err(ToolError::Failed(_))));
}
