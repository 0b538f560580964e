//! What tools give back.

use zcode::text::width::visible_width;
use zcode::tools::output::{error, finish, ToolError};

#[test]
fn tabs_are_replaced_with_spaces() {
    let output = finish("a\tb\tc".to_owned(), "t".to_owned());
    let text = output.text.as_str();
    assert!(!text.contains('\t'), "制表符应已被展开：{text:?}");
    assert!(
        text.starts_with("a "),
        "首个制表符应展开成对齐空格：{text:?}"
    );
}

#[test]
fn wide_lines_are_truncated_by_display_width_not_bytes() {
    let wide_line = "测".repeat(600);
    let output = finish(wide_line, "t".to_owned());
    let text = output.text.as_str();
    let mut lines = text.lines();
    let capped = lines.next().expect("至少应保留一行");
    assert!(lines.next().is_none(), "单行输入不应被拆成多行");

    let width = visible_width(capped);
    assert!(width <= 512, "截断后显示宽度 {width} 超过 512 列上限");
    assert!(
        width > 480,
        "按显示宽度截断应逼近列上限，实际只有 {width} 列"
    );
    assert!(capped.ends_with('…'), "触顶的行应以省略号收尾：{capped:?}");
}

#[test]
fn wide_emoji_lines_are_truncated_by_display_width_not_bytes() {
    let emoji_line = "🙂".repeat(600);
    let output = finish(emoji_line, "t".to_owned());
    let text = output.text.as_str();
    let mut lines = text.lines();
    let capped = lines.next().expect("至少应保留一行");
    assert!(lines.next().is_none(), "单行输入不应被拆成多行");

    let width = visible_width(capped);
    assert!(width <= 512, "截断后显示宽度 {width} 超过 512 列上限");
    assert!(capped.ends_with('…'), "触顶的行应以省略号收尾：{capped:?}");
    let content_bytes = capped.trim_end_matches('…').len();
    assert_eq!(
        content_bytes % 4,
        0,
        "每个 emoji 占 4 字节，截断必须停在完整字符边界上，不能切碎：{capped:?}"
    );
}

#[test]
fn excess_lines_are_capped_with_an_explicit_notice() {
    let body = "x\n".repeat(3005);
    let output = finish(body, "t".to_owned());
    let text = output.text.as_str();

    assert!(
        text.contains("[Output truncated:"),
        "超行数应追加明示行：{text:?}"
    );
    assert!(
        text.lines().count() < 3005,
        "截断后行数应少于原始行数，实际 {} 行",
        text.lines().count()
    );
    assert!(
        text.lines().take(3000).all(|line| line == "x"),
        "保留下来的应是原始头部内容，未被篡改"
    );
}

#[test]
fn untouched_input_is_returned_byte_for_byte() {
    let body = "short line\nanother line\n".to_owned();
    let output = finish(body.clone(), "t".to_owned());
    assert_eq!(output.text.as_str(), body, "未超限时不应产生任何字节差异");
}

#[test]
fn error_messages_are_cleaned_the_same_way() {
    let ToolError::Failed(text) = error("bad\tpath\tvalue") else {
        unreachable!("error() 恒定返回 ToolError::Failed");
    };
    assert!(!text.contains('\t'), "错误文案的制表符也应被清理：{text:?}");
}

#[test]
fn the_notice_counts_what_is_gone() {
    let output = finish("x\n".repeat(3005), "t".to_owned());
    assert!(output.text.contains("5 more line(s) (10 bytes)"), "{}", output.text);
    assert_eq!(output.title, "t");
    assert!(!output.useless);
    assert!(output.mark_useless().useless);
}
