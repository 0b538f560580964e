//! Editing files.

use zcode::text::path::PathCase;
use zcode::tools::approval::{Concurrency, Tier};
use zcode::tools::calls::{
    begin_edit, edit_approval, edit_concurrency, edit_file, report_edit, EditArgs, FileRead,
};
use zcode::tools::edit_report::compact_diff;
use zcode::tools::output::{ToolError, ToolOutput};
use zcode::tools::write::SymlinkResolution;
use zcode::workspace::{components, Workspace};

fn args(path: &str, old: &str, new: &str, replace_all: bool) -> EditArgs {
    EditArgs {
        path: path.to_owned(),
        old_string: old.to_owned(),
        new_string: new.to_owned(),
        replace_all,
    }
}

fn plain(path: &str) -> SymlinkResolution {
    SymlinkResolution { path: path.to_owned(), was_symlink: false, resolved: true }
}

/// Edits a file that holds `content`; gives the report and what the file holds then.
fn edit(content: &str, args: &EditArgs) -> Result<(ToolOutput, String), ToolError> {
    let ws = Workspace::new(components("/w"), PathCase::Sensitive);
    let place = begin_edit(&ws, args, None)?;
    let file = FileRead::Bytes(content.as_bytes().to_vec());
    let edited = edit_file(&place.display, &file, args)?;
    let report = report_edit(&place.display, &plain(&args.path), &edited);
    Ok((report, edited.plan.new_content.clone()))
}

fn message(e: ToolError) -> String {
    match e {
        ToolError::Failed(text) => text,
        other => panic!("{other:?}"),
    }
}

#[test]
fn exact_match_replaces_unique_occurrence() {
    let (report, on_disk) =
        edit("fn foo() {\n    1\n}\n", &args("a.txt", "    1\n", "    2\n", false))
            .expect("edit should succeed");
    assert!(report.text.contains('1'), "标题应带替换处数");
    assert_eq!(on_disk, "fn foo() {\n    2\n}\n");
}

#[test]
fn line_trimmed_level_tolerates_trailing_whitespace_only() {
    let (_, on_disk) =
        edit("foo();  \nbar();  \n", &args("a.txt", "foo();\nbar();", "baz();", false))
            .expect("行尾空白无关匹配应命中");
    assert_eq!(on_disk, "baz();\n");
}

#[test]
fn indent_normalized_level_tolerates_uniform_offset() {
    let (_, on_disk) = edit(
        "class Foo:\n    def bar(self):\n        return 1\n",
        &args("a.py", "def bar(self):\n    return 1", "def bar(self):\n    return 2", false),
    )
    .expect("缩进归一匹配应命中");
    assert_eq!(on_disk, "class Foo:\n    def bar(self):\n        return 2\n");
}

#[test]
fn block_anchor_level_tolerates_a_drifted_middle_line() {
    let (_, on_disk) = edit(
        "function calc() {\n    // step one\n    const a = compute();\n    return a;\n}\n",
        &args(
            "a.js",
            "function calc() {\n    // outdated comment\n    const a = compute();\n    return a;\n}",
            "function calc() {\n    // refreshed\n    const a = compute();\n    return a;\n}",
            false,
        ),
    )
    .expect("块首尾锚点匹配应命中");
    assert!(on_disk.contains("// refreshed"));
}

#[test]
fn multiple_matches_without_replace_all_reports_every_line() {
    let err = edit("foo\nfoo\n", &args("a.txt", "foo", "bar", false))
        .expect_err("多处命中且未 replace_all 必须报错");
    let message = message(err);
    assert!(message.contains("2 处"), "消息应说明命中处数：{message}");
    assert!(message.contains("第 1 行"), "消息应带第一处行号：{message}");
    assert!(message.contains("第 2 行"), "消息应带第二处行号：{message}");
}

#[test]
fn replace_all_rewrites_every_occurrence() {
    let (_, on_disk) = edit("foo\nfoo\nfoo\n", &args("a.txt", "foo", "bar", true))
        .expect("replace_all 应成功");
    assert_eq!(on_disk, "bar\nbar\nbar\n");
}

#[test]
fn not_found_reports_nearest_candidate() {
    let err = edit(
        "const total = compute();\n",
        &args("a.txt", "const totall = compute();", "x", false),
    )
    .expect_err("找不到匹配必须报错");
    let message = message(err);
    assert!(message.contains("最接近"), "应给出最接近候选提示：{message}");
    assert!(message.contains("compute();"), "候选提示应带上那一行的原文：{message}");
}

#[test]
fn identical_old_and_new_is_rejected_as_noop() {
    let err = edit("", &args("does-not-matter.txt", "x", "x", false))
        .expect_err("old==new 必须直接拒绝");
    assert!(
        message(err).contains("没有产生任何变化"),
        "文案必须点名这是无变化而非没找到"
    );
}

#[test]
fn compact_diff_only_shows_changed_span_with_context() {
    let old = "a\nb\nc\nd\ne\nf\ng\n";
    let new = "a\nb\nc\nX\ne\nf\ng\n";
    let diff = compact_diff(old, new, 3);
    assert!(diff.contains("- d"));
    assert!(diff.contains("+ X"));
    assert!(diff.contains('a'), "应带前置上下文");
    assert!(diff.contains('g'), "应带后置上下文");
}

#[test]
fn what_cannot_be_edited_is_told() {
    let call = args("a.txt", "x", "y", false);
    let missing = edit_file("a.txt", &FileRead::Missing, &call).expect_err("no file");
    assert!(message(missing).contains("a.txt"));
    let broken = edit_file("a.txt", &FileRead::Failed("busy".to_owned()), &call);
    assert!(message(broken.expect_err("no bytes")).contains("busy"));
    let bytes = edit_file("a.txt", &FileRead::Bytes(vec![0xff, 0xfe]), &call);
    assert!(matches!(bytes, Err(ToolError::Failed(_))));
    let nothing = edit("abc", &args("a.txt", "", "y", false)).expect_err("an empty text to find");
    assert!(matches!(nothing, ToolError::Failed(_)));
    assert_eq!(edit_approval().tier, Tier::Write);
    assert_eq!(edit_concurrency(), Concurrency::Exclusive);
}

#[test]
fn an_edit_that_is_undone_gives_the_file_back() {
    let before = "one\ntwo\nthree\n";
    let (_, after) = edit(before, &args("a.txt", "two", "zwei", false)).expect("there");
    let (_, again) = edit(&after, &args("a.txt", "zwei", "two", false)).expect("and back");
    assert_eq!(again, before);
}

#[test]
fn half_of_the_middle_lines_is_not_enough() {
    let err = edit("a\nX\nm\nz", &args("a.txt", "a\nY\nm\nz", "b", false)).unwrap_err();
    assert!(matches!(err, ToolError::Failed(_)));
    let (_, on_disk) = edit("a\nX\nm\nn\nz", &args("a.txt", "a\nY\nm\nn\nz", "b", false))
        .expect("two of three lines are more than half");
    assert_eq!(on_disk, "b");
    let (_, on_disk) = edit(" a\n\nz", &args("a.txt", "a\n  \nz ", "b", false))
        .expect("blank lines have no vote");
    assert_eq!(on_disk, "b");
}

#[test]
fn where_only_line_ends_differ_no_indentation_is_exchanged() {
    let (_, on_disk) =
        edit("  a \n    b\t\n", &args("a.txt", "  a\n    b\n", "  c\n    d", false)).expect("a match");
    assert_eq!(on_disk, "  c\n    d\n");
}
