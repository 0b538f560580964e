//! The tool that writes a file.

use vstd::prelude::*;

use crate::strings::{byte_len, dec, push_dec, str_len};
use crate::text::truncate::{count_lines, line_count};
use crate::tools::approval::{ApprovalDecision, Concurrency, Tier};
use crate::tools::edit_report::{compact_diff, diff_of, DIFF_CONTEXT_LINES};
use crate::tools::output::{cleaned, error, finish, ToolError, ToolOutput};
use crate::tools::selector::{
    asked, list_error, parse_selector, selector_colon, split_path_and_selector, Asked,
};
use crate::strings::split_on;
use crate::utf8::{lossy, lossy_text};

verus! {

broadcast use vstd::seq::group_seq_axioms;

/// To write changes files.
pub fn write_approval() -> (r: ApprovalDecision)
    ensures
        r.tier == Tier::Write,
        !r.override_mode,
        r.reason is None,
{
    ApprovalDecision::tier(Tier::Write)
}

/// A file is written by one at a time.
pub fn write_concurrency() -> (r: Concurrency)
    ensures
        r == Concurrency::Exclusive,
{
    Concurrency::Exclusive
}

/// Whether a text can be read as a selector.
pub open spec fn is_readable(sel: Seq<char>) -> bool {
    match asked(sel) {
        Asked::Invalid => false,
        Asked::Lines(list, _) => {
            let parts = split_on(list, ',');
            list_error(parts, parts.len() as int) is None
        },
        _ => true,
    }
}

/// Whether a call is one that was meant to read: the path ends with a selector, there is nothing to
/// write, and no file has that name.
pub open spec fn is_misfire(path: Seq<char>, content: Seq<char>, missing: bool) -> bool {
    content.len() == 0 && missing && match selector_colon(path) {
        Some(i) => is_readable(path.skip(i + 1)),
        None => false,
    }
}

/// What is said of such a call.
pub open spec fn misfire_text(path: Seq<char>, selector: Seq<char>) -> Seq<char> {
    "write 的目标 '"@ + path + "' 以一个能解析成 read 选择器的后缀 ':"@ + selector
        + "' 结尾，且磁盘上不存在这个字面文件名——拒绝把它当成新文件名静默创建。如果你是想读取这段内容，改用 read（例如 read(path=\""@
        + path
        + "\")）。如果确实要创建这个（形似选择器的）文件名，把内容放进 content 参数——非空 content 永远不会被这条防护拦截。"@
}

/// Refuses a call that was meant to read. `missing` is whether it is certain that no file has the
/// name.
pub fn guard_read_selector_misfire(path: &str, content: &str, missing: bool) -> (r: Result<
    (),
    ToolError,
>)
    ensures
        match r {
            Ok(()) => !is_misfire(path@, content@, missing),
            Err(e) => {
                &&& is_misfire(path@, content@, missing)
                &&& e matches ToolError::Failed(text) && text@ == cleaned(
                    misfire_text(path@, path@.skip(selector_colon(path@)->Some_0 + 1)),
                )
            },
        },
{
    if !content.is_empty() {
        return Ok(());
    }
    let selector = match split_path_and_selector(path).1 {
        Some(selector) => selector,
        None => {
            return Ok(());
        },
    };
    if parse_selector(selector).is_err() {
        return Ok(());
    }
    if !missing {
        return Ok(());
    }
    let mut text = "write 的目标 '".to_owned();
    text.append(path);
    text.append("' 以一个能解析成 read 选择器的后缀 ':");
    text.append(selector);
    text.append(
        "' 结尾，且磁盘上不存在这个字面文件名——拒绝把它当成新文件名静默创建。如果你是想读取这段内容，改用 read（例如 read(path=\"",
    );
    text.append(path);
    text.append(
        "\")）。如果确实要创建这个（形似选择器的）文件名，把内容放进 content 参数——非空 content 永远不会被这条防护拦截。",
    );
    Err(error(text.as_str()))
}

/// Something to write is never refused, whatever the file's name.
pub proof fn lemma_content_is_never_refused(path: Seq<char>, content: Seq<char>, missing: bool)
    requires
        content.len() > 0,
    ensures
        !is_misfire(path, content, missing),
{
}

/// What a link is, that a file is written through.
#[derive(Debug, Clone, PartialEq, Eq)]
pub struct SymlinkResolution {
    /// The path that is written, for people.
    pub path: String,
    pub was_symlink: bool,
    /// Whether what the link points to is there.
    pub resolved: bool,
}

/// What is said of a link.
pub open spec fn link_text(display: Seq<char>, link: SymlinkResolution) -> Option<Seq<char>> {
    if !link.was_symlink {
        None
    } else if link.resolved {
        Some(
            display + " 是符号链接，已写穿到真实路径 "@ + link.path@
                + "（tmp+rename 若直接落在链接名上会把链接本身换成普通文件）。"@,
        )
    } else {
        Some(
            display
                + " 是指向不存在目标的悬空符号链接，已在链接路径本身创建普通文件，原链接已被替换。"@,
        )
    }
}

/// Says what a link is.
pub fn symlink_note(display: &str, link: &SymlinkResolution) -> (r: Option<String>)
    ensures
        match r {
            Some(text) => link_text(display@, *link) == Some(text@),
            None => link_text(display@, *link) is None,
        },
{
    if !link.was_symlink {
        return None;
    }
    let mut text = display.to_owned();
    if link.resolved {
        text.append(" 是符号链接，已写穿到真实路径 ");
        text.append(link.path.as_str());
        text.append("（tmp+rename 若直接落在链接名上会把链接本身换成普通文件）。");
    } else {
        text.append(
            " 是指向不存在目标的悬空符号链接，已在链接路径本身创建普通文件，原链接已被替换。",
        );
    }
    Some(text)
}

/// The name of the file that is written first.
pub open spec fn temporary_name(name: Seq<char>, pid: nat) -> Seq<char> {
    name + ".zcode.tmp-"@ + dec(pid)
}

/// The name of the file that is written first, beside the one that it takes the place of.
pub fn tmp_sibling(name: &str, pid: u32) -> (r: String)
    ensures
        r@ == temporary_name(name@, pid as nat),
{
    let mut r = name.to_owned();
    r.append(".zcode.tmp-");
    push_dec(&mut r, pid as u64);
    r
}

/// What is told of a file that was written.
pub open spec fn written_text(
    display: Seq<char>,
    link: SymlinkResolution,
    old: Option<Seq<u8>>,
    new: Seq<char>,
) -> Seq<char> {
    let front = match link_text(display, link) {
        Some(text) => text + "\n\n"@,
        None => Seq::empty(),
    };
    match old {
        None => front + "已创建 "@ + display + "（"@ + dec(byte_len(new)) + " 字节，"@ + dec(
            line_count(new),
        ) + " 行）。"@,
        Some(bytes) => {
            let said = front + "已覆写 "@ + display + "（"@ + dec(bytes.len()) + " 字节 → "@ + dec(
                byte_len(new),
            ) + " 字节）。"@;
            let diff = diff_of(lossy(bytes), new, DIFF_CONTEXT_LINES as int);
            if diff.len() > 0 {
                said + "\n\n"@ + diff
            } else {
                said
            }
        },
    }
}

/// What is there.
pub open spec fn opt_bytes(b: Option<&[u8]>) -> Option<Seq<u8>> {
    match b {
        Some(x) => Some(x@),
        None => None,
    }
}

/// Says what was written.
fn success_body(display: &str, link: &SymlinkResolution, old: Option<&[u8]>, new: &str) -> (r: String)
    ensures
        r@ == written_text(display@, *link, opt_bytes(old), new@),
{
    let mut body = String::new();
    if let Some(text) = symlink_note(display, link) {
        body.append(text.as_str());
        body.append("\n\n");
    }
    let ghost front = match link_text(display@, *link) {
        Some(text) => text + "\n\n"@,
        None => Seq::empty(),
    };
    assert(body@ =~= front);
    match old {
        None => {
            body.append("已创建 ");
            body.append(display);
            body.append("（");
            push_dec(&mut body, str_len(new) as u64);
            body.append(" 字节，");
            push_dec(&mut body, count_lines(new) as u64);
            body.append(" 行）。");
        },
        Some(bytes) => {
            body.append("已覆写 ");
            body.append(display);
            body.append("（");
            push_dec(&mut body, bytes.len() as u64);
            body.append(" 字节 → ");
            push_dec(&mut body, str_len(new) as u64);
            body.append(" 字节）。");
            let before = lossy_text(bytes);
            let diff = compact_diff(before.as_str(), new, DIFF_CONTEXT_LINES);
            if !diff.as_str().is_empty() {
                body.append("\n\n");
                body.append(diff.as_str());
            }
        },
    }
    body
}

/// What the tool gives back for a file that was written. `old` is what was there.
pub fn report_write(display: &str, link: &SymlinkResolution, old: Option<&[u8]>, new: &str) -> (r:
    ToolOutput)
    ensures
        r.text@ == cleaned(written_text(display@, *link, opt_bytes(old), new@)),
        r.title@ == (if old is Some {
            "覆写 "@
        } else {
            "新建 "@
        }) + display@,
        !r.useless,
{
    let body = success_body(display, link, old, new);
    let mut title = if old.is_some() {
        "覆写 ".to_owned()
    } else {
        "新建 ".to_owned()
    };
    title.append(display);
    finish(body, title)
}

} // verus!
