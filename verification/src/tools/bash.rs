//! The tool that runs a command in a shell.

use vstd::prelude::*;

use crate::regexes::{found, matches_text};
use crate::schema::json::{member, Json, JsonView};
use crate::strings::{
    chars_of, dec, is_space, join_texts, joined, part_to, push_dec, space, string_of, texts, trim,
    trimmed,
};
use crate::tools::approval::{ApprovalDecision, Concurrency, Tier};
use crate::tools::bash_stream::Cause;
use crate::tools::output::{cleaned, error, finish, ToolError, ToolOutput};
use crate::utf8::{lossy, lossy_text};
use crate::workspace::{is_inside, led, normal, parts_view, Resolved, Workspace};

verus! {

broadcast use vstd::seq::group_seq_axioms;

/// The shortest time that a command is given, in seconds.
pub const MIN_TIMEOUT_SECS: u64 = 1;

/// The longest time that a command is given, in seconds.
pub const MAX_TIMEOUT_SECS: u64 = 3600;

/// A time within the limits.
pub open spec fn within_limits(requested: u64) -> u64 {
    if requested < MIN_TIMEOUT_SECS {
        MIN_TIMEOUT_SECS
    } else if requested > MAX_TIMEOUT_SECS {
        MAX_TIMEOUT_SECS
    } else {
        requested
    }
}

/// Brings a time within the limits.
pub fn clamp_timeout(requested: u64) -> (r: u64)
    ensures
        r == within_limits(requested),
{
    if requested < MIN_TIMEOUT_SECS {
        MIN_TIMEOUT_SECS
    } else if requested > MAX_TIMEOUT_SECS {
        MAX_TIMEOUT_SECS
    } else {
        requested
    }
}

/// The regular expressions of commands that somebody has to agree to.
pub open spec fn critical_list() -> Seq<Seq<char>> {
    seq![
        r"(?i)\brm\s+-[a-z]*[rRfF][a-z]*\s+/"@,
        r"(?i)\bsudo\s+rm\b"@,
        r"(?i)\bchmod\s+-R\s+[0-7]+\s+/"@,
        r"\bchmod\s+-R\s+[ugoa+\-=rwxXst,]+\s+/"@,
        r"(?i)\bchown\s+-R\s+\S+\s+/"@,
        r"(?i):\(\)\s*\{\s*:\s*\|\s*:"@,
        r"(?i)>\s*/dev/sd[a-z]"@,
        r"(?i)\bmkfs(\.|\b)"@,
        r"(?i)\bdd\s+if=.+of=/dev/"@,
        r"(?i)\bshred\s+/dev/"@,
        r"(?i)\bcryptsetup\b"@,
        r"(?i)>\s*/etc/(?:passwd|shadow|sudoers)\b"@,
        r"(?i)\btee\s+(?:-a\s+)?/etc/(?:passwd|shadow|sudoers)\b"@,
        r"(?i)\b(?:curl|wget|fetch)\b[^|]*\|\s*(?:bash|sh|zsh|fish)\b"@,
        r"(?i)(?:^|[\s;&|(])(?:bash|sh|zsh|source|\.)\s+<\(\s*(?:curl|wget|fetch)\b"@,
        r#"(?i)\beval\s+["'`]?\$\(\s*(?:curl|wget|fetch)\b|\beval\s+`\s*(?:curl|wget|fetch)\b"#@,
        r"\bkill\s+-9\s+1\b"@,
        r"(?i)(?:^|[\s;&|(])(?:shutdown|poweroff|reboot|halt)(?:\s|$|[;|&])"@,
        r"(?i)(?:^|[\s;&|(])init\s+0\b"@,
        r"(?i)\bnc\b[^|;]*\s-[a-zA-Z]*[ec][a-zA-Z]*\s"@,
    ]
}

/// The regular expressions of commands that somebody has to agree to: those that delete or change
/// everything, that make processes without end, that write to disks and to the files of the system,
/// that run what was just downloaded, that control the machine, and that open it to the network.
fn critical_patterns() -> (r: Vec<&'static str>)
    ensures
        names(r@) == critical_list(),
{
    let r: Vec<&'static str> = vec![
        r"(?i)\brm\s+-[a-z]*[rRfF][a-z]*\s+/",
        r"(?i)\bsudo\s+rm\b",
        r"(?i)\bchmod\s+-R\s+[0-7]+\s+/",
        r"\bchmod\s+-R\s+[ugoa+\-=rwxXst,]+\s+/",
        r"(?i)\bchown\s+-R\s+\S+\s+/",
        r"(?i):\(\)\s*\{\s*:\s*\|\s*:",
        r"(?i)>\s*/dev/sd[a-z]",
        r"(?i)\bmkfs(\.|\b)",
        r"(?i)\bdd\s+if=.+of=/dev/",
        r"(?i)\bshred\s+/dev/",
        r"(?i)\bcryptsetup\b",
        r"(?i)>\s*/etc/(?:passwd|shadow|sudoers)\b",
        r"(?i)\btee\s+(?:-a\s+)?/etc/(?:passwd|shadow|sudoers)\b",
        r"(?i)\b(?:curl|wget|fetch)\b[^|]*\|\s*(?:bash|sh|zsh|fish)\b",
        r"(?i)(?:^|[\s;&|(])(?:bash|sh|zsh|source|\.)\s+<\(\s*(?:curl|wget|fetch)\b",
        r#"(?i)\beval\s+["'`]?\$\(\s*(?:curl|wget|fetch)\b|\beval\s+`\s*(?:curl|wget|fetch)\b"#,
        r"\bkill\s+-9\s+1\b",
        r"(?i)(?:^|[\s;&|(])(?:shutdown|poweroff|reboot|halt)(?:\s|$|[;|&])",
        r"(?i)(?:^|[\s;&|(])init\s+0\b",
        r"(?i)\bnc\b[^|;]*\s-[a-zA-Z]*[ec][a-zA-Z]*\s",
    ];
    assert(names(r@) =~= critical_list());
    r
}

/// What names are.
pub open spec fn names(list: Seq<&'static str>) -> Seq<Seq<char>> {
    Seq::new(list.len(), |i: int| list[i]@)
}

/// Whether one of the regular expressions matches.
pub open spec fn some_match(list: Seq<Seq<char>>, command: Seq<char>) -> bool {
    exists|i: int| 0 <= i < list.len() && found(#[trigger] list[i], command)
}

/// Whether somebody has to agree to a command.
pub open spec fn is_critical(command: Seq<char>) -> bool {
    command.len() > 0 && some_match(critical_list(), command)
}

/// Whether somebody has to agree to a command.
pub fn matches_critical_pattern(command: &str) -> (r: bool)
    ensures
        r == is_critical(command@),
{
    if command.is_empty() {
        return false;
    }
    let list = critical_patterns();
    let ghost all = critical_list();
    let mut i: usize = 0;
    while i < list.len()
        invariant
            i <= list@.len(),
            names(list@) == all,
            all == critical_list(),
            command@.len() > 0,
            forall|j: int| 0 <= j < i ==> !found(#[trigger] all[j], command@),
        decreases list@.len() - i,
    {
        assert(all[i as int] == list@[i as int]@);
        if matches_text(list[i], command) {
            return true;
        }
        i += 1;
    }
    false
}

/// What is asked of the tool.
#[derive(Debug, Clone)]
pub struct BashArgs {
    pub command: String,
    /// The time that the command is given, in seconds.
    pub timeout: Option<u64>,
    /// The directory that the command runs in.
    pub cwd: Option<String>,
}

/// How a command is run.
#[derive(Debug)]
pub struct BashPlan {
    /// The directory; none where it is the one that the session is in.
    pub cwd: Option<Resolved>,
    pub timeout_secs: u64,
}

/// The tool.
#[derive(Debug)]
pub struct BashTool {
    workspace: Workspace,
    default_timeout_secs: u64,
}

/// The command of a call; an empty one where the call has none.
pub open spec fn command_of(args: JsonView) -> Seq<char> {
    match member(args, "command"@) {
        Some(JsonView::Text(s)) => s,
        _ => Seq::empty(),
    }
}

impl BashTool {
    /// The time that a command is given where the call does not say.
    pub closed spec fn default_timeout(&self) -> u64 {
        self.default_timeout_secs
    }

    /// The workspace.
    pub closed spec fn place(&self) -> Workspace {
        self.workspace
    }

    /// The tool in a workspace.
    pub fn new(workspace: Workspace, bash_timeout_secs: u64) -> (r: Self)
        ensures
            r.place() == workspace,
            r.default_timeout() == within_limits(bash_timeout_secs),
    {
        BashTool { workspace, default_timeout_secs: clamp_timeout(bash_timeout_secs) }
    }

    /// Whether somebody has to agree to a call.
    pub fn approval(&self, args: &Json) -> (r: ApprovalDecision)
        ensures
            r.tier == Tier::Exec,
            r.override_mode == is_critical(command_of(args@)),
            r.reason is Some == is_critical(command_of(args@)),
            r.reason matches Some(text) ==> text@
                == "命中高危 bash 命令特征（递归删除根路径 / 远程拉取即执行 / 主机控制等），需要人工确认"@,
    {
        if let Some(Json::Text(command)) = args.get("command") {
            if matches_critical_pattern(command.as_str()) {
                return ApprovalDecision::require_confirmation(
                    Tier::Exec,
                    "命中高危 bash 命令特征（递归删除根路径 / 远程拉取即执行 / 主机控制等），需要人工确认",
                );
            }
        }
        ApprovalDecision::tier(Tier::Exec)
    }

    /// A command runs alone: what it does cannot be told.
    pub fn concurrency(&self) -> (r: Concurrency)
        ensures
            r == Concurrency::Exclusive,
    {
        Concurrency::Exclusive
    }

    /// A command is not stopped because the user has something to say.
    pub fn interruptible(&self) -> (r: bool)
        ensures
            !r,
    {
        false
    }

    /// How a command is run, or why it is not.
    pub fn plan(&self, args: &BashArgs) -> (r: Result<BashPlan, ToolError>)
        ensures
            match r {
                Ok(plan) => {
                    &&& trim(args.command@).len() > 0
                    &&& plan.timeout_secs == match args.timeout {
                        Some(t) => within_limits(t),
                        None => within_limits(self.default_timeout()),
                    }
                    &&& match (args.cwd, plan.cwd) {
                        (None, None) => true,
                        (Some(raw), Some(found)) => {
                            &&& raw@.len() > 0
                            &&& parts_view(found.path@) == normal(led(self.place().home(), raw@))
                            &&& found.outside_root == !is_inside(
                                normal(led(self.place().home(), raw@)),
                                self.place().home(),
                                self.place().naming(),
                            )
                        },
                        _ => false,
                    }
                },
                Err(e) => {
                    &&& e matches ToolError::Failed(text) && text@ == cleaned(
                        if trim(args.command@).len() == 0 {
                            "command 不能为空。"@
                        } else {
                            "cwd 不能是空字符串。"@
                        },
                    )
                    &&& trim(args.command@).len() == 0 || (args.cwd matches Some(raw)
                        && raw@.len() == 0)
                },
            },
    {
        let letters = chars_of(args.command.as_str());
        if trimmed(letters.as_slice()).len() == 0 {
            return Err(error("command 不能为空。"));
        }
        let cwd = match &args.cwd {
            None => None,
            Some(raw) => match self.workspace.resolve(raw.as_str()) {
                Ok(found) => Some(found),
                Err(_) => {
                    return Err(error("cwd 不能是空字符串。"));
                },
            },
        };
        let timeout_secs: u64 = match args.timeout {
            Some(t) => clamp_timeout(t),
            None => clamp_timeout(self.default_timeout_secs),
        };
        Ok(BashPlan { cwd, timeout_secs })
    }
}

// The title

/// The words of a text.
pub open spec fn words(s: Seq<char>) -> Seq<Seq<char>>
    decreases s.len(),
{
    if s.len() == 0 {
        Seq::empty()
    } else {
        let front = words(s.drop_last());
        if is_space(s.last()) {
            front
        } else if s.len() == 1 || is_space(s[s.len() - 2]) {
            front.push(seq![s.last()])
        } else {
            front.drop_last().push(front.last().push(s.last()))
        }
    }
}

/// The words of a text.
fn split_words(s: &[char]) -> (r: Vec<String>)
    ensures
        texts(r@) == words(s@),
{
    let mut r: Vec<String> = Vec::new();
    let mut word: Vec<char> = Vec::new();
    let n: usize = s.len();
    let mut i: usize = 0;
    assert(s@.take(0) =~= Seq::<char>::empty());
    while i < n
        invariant
            i <= n,
            n == s@.len(),
            i == 0 || is_space(s@[i - 1]) <==> word@.len() == 0,
            word@.len() == 0 ==> texts(r@) == words(s@.take(i as int)),
            word@.len() > 0 ==> texts(r@).push(word@) == words(s@.take(i as int)),
        decreases n - i,
    {
        let ghost t = s@.take(i + 1);
        let ghost front = words(s@.take(i as int));
        proof {
            assert(t.drop_last() =~= s@.take(i as int));
            assert(t.last() == s@[i as int]);
            if i > 0 {
                assert(t[t.len() - 2] == s@[i - 1]);
            }
        }
        let c = s[i];
        let ghost r0 = texts(r@);
        if space(c) {
            if word.len() > 0 {
                let text = string_of(word.as_slice());
                r.push(text);
                assert(texts(r@) =~= r0.push(word@));
                word = Vec::new();
            }
        } else {
            let ghost w0 = word@;
            word.push(c);
            proof {
                if w0.len() == 0 {
                    assert(word@ =~= seq![c]);
                    assert(texts(r@).push(word@) =~= front.push(seq![c]));
                } else {
                    assert(front.last() == w0);
                    assert(front.drop_last() =~= r0);
                }
            }
        }
        i += 1;
    }
    assert(s@.take(n as int) =~= s@);
    if word.len() > 0 {
        let ghost r0 = texts(r@);
        r.push(string_of(word.as_slice()));
        assert(texts(r@) =~= r0.push(word@));
    }
    r
}

/// How many characters of a command a title has.
pub const MAX_TITLE_CHARS: usize = 60;

/// A command as a title: its words with one space between them, cut where there are too many.
pub open spec fn title_of(command: Seq<char>) -> Seq<char> {
    let flat = joined(words(command), " "@);
    if flat.len() > MAX_TITLE_CHARS {
        flat.take(MAX_TITLE_CHARS as int).push('…')
    } else {
        flat
    }
}

/// A command as a title.
pub fn command_title(command: &str) -> (r: String)
    ensures
        r@ == title_of(command@),
{
    let letters = chars_of(command);
    let list = split_words(letters.as_slice());
    let flat = join_texts(&list, " ");
    let all = chars_of(flat.as_str());
    if all.len() > MAX_TITLE_CHARS {
        let mut r = string_of(part_to(all.as_slice(), MAX_TITLE_CHARS));
        r.push('…');
        return r;
    }
    flat
}

// What is told of a run

/// What a run wrote, as it is told.
pub open spec fn told(label: Seq<char>, buffer: Seq<u8>, dropped: nat) -> Seq<char> {
    let front = "$ "@ + label + "\n"@ + lossy(buffer);
    if dropped > 0 {
        front + "\n\n[已丢弃 "@ + dec(dropped)
            + " 字节原始输出——内联封顶是 30000 字节；最终展示给模型的内容还会再经过一轮独立的显示宽度/行数截断]"@
    } else {
        front
    }
}

/// What is told of a run that took too long.
pub open spec fn timeout_text(label: Seq<char>, buffer: Seq<u8>, dropped: nat, seconds: nat) -> Seq<
    char,
> {
    told(label, buffer, dropped) + "\n\n[命令超过 "@ + dec(seconds)
        + " 秒超时上限，已终止整个进程树（不只是 shell 本身）]"@
}

/// An exit code in words.
pub open spec fn code_text(code: Option<i32>) -> Seq<char> {
    match code {
        None => "未知（进程被信号终止）"@,
        Some(n) => if n < 0 {
            "-"@ + dec((-n) as nat)
        } else {
            dec(n as nat)
        },
    }
}

/// What is told of a run that failed.
pub open spec fn failure_text(label: Seq<char>, buffer: Seq<u8>, dropped: nat, code: Option<i32>) -> Seq<
    char,
> {
    told(label, buffer, dropped) + "\n\n[退出码: "@ + code_text(code) + "]"@
}

/// What comes of a run.
#[derive(Debug)]
pub struct Conclusion {
    /// What is shown, where the result cannot carry it.
    pub status: Option<String>,
    pub result: Result<ToolOutput, ToolError>,
}

/// Says what a run wrote.
fn tell(label: &str, buffer: &[u8], dropped: u64) -> (r: String)
    ensures
        r@ == told(label@, buffer@, dropped as nat),
{
    let mut r = "$ ".to_owned();
    r.append(label);
    r.append("\n");
    let text = lossy_text(buffer);
    r.append(text.as_str());
    if dropped > 0 {
        r.append("\n\n[已丢弃 ");
        push_dec(&mut r, dropped);
        r.append(
            " 字节原始输出——内联封顶是 30000 字节；最终展示给模型的内容还会再经过一轮独立的显示宽度/行数截断]",
        );
    }
    r
}

/// What comes of a run: what it wrote where it ended well, and else why it did not. What a run
/// wrote before its time was over is shown.
pub fn conclude(
    label: &str,
    command: &str,
    buffer: &[u8],
    dropped: u64,
    cause: Cause,
    timeout_secs: u64,
) -> (r: Conclusion)
    ensures
        match cause {
            Cause::Cancelled => r.status is None && (r.result matches Err(e) && e
                is Cancelled),
            Cause::TimedOut => {
                &&& r.status matches Some(text) && text@ == timeout_text(
                    label@,
                    buffer@,
                    dropped as nat,
                    timeout_secs as nat,
                )
                &&& r.result matches Err(ToolError::Timeout { seconds }) && seconds == timeout_secs
            },
            Cause::Completed(Some(0)) => {
                &&& r.status is None
                &&& r.result matches Ok(out) && out.text@ == cleaned(
                    told(label@, buffer@, dropped as nat),
                ) && out.title@ == title_of(command@)
            },
            Cause::Completed(code) => {
                &&& r.status is None
                &&& r.result matches Err(ToolError::Failed(text)) && text@ == cleaned(
                    failure_text(label@, buffer@, dropped as nat, code),
                )
            },
        },
{
    let mut body = tell(label, buffer, dropped);
    match cause {
        Cause::Cancelled => Conclusion { status: None, result: Err(ToolError::Cancelled) },
        Cause::TimedOut => {
            body.append("\n\n[命令超过 ");
            push_dec(&mut body, timeout_secs);
            body.append(" 秒超时上限，已终止整个进程树（不只是 shell 本身）]");
            Conclusion {
                status: Some(body),
                result: Err(ToolError::Timeout { seconds: timeout_secs }),
            }
        },
        Cause::Completed(Some(0)) => Conclusion {
            status: None,
            result: Ok(finish(body, command_title(command))),
        },
        Cause::Completed(code) => {
            body.append("\n\n[退出码: ");
            match code {
                None => {
                    body.append("未知（进程被信号终止）");
                },
                Some(n) => {
                    let ghost front = body@;
                    if n < 0 {
                        body.append("-");
                        let size: i64 = -(n as i64);
                        push_dec(&mut body, size as u64);
                    } else {
                        push_dec(&mut body, n as u64);
                    }
                    assert(body@ =~= front + code_text(code));
                },
            }
            body.append("]");
            Conclusion { status: None, result: Err(error(body.as_str())) }
        },
    }
}

} // verus!
