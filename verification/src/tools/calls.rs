//! Calls of the tools that work on one file or on the todo list: what is done before and after the
//! file system is asked.

use vstd::prelude::*;
use vstd::utf8::{decode_utf8, valid_utf8};

use crate::base64::{encode, encoded};
use crate::schema::json::{member, Json, JsonView};
use crate::strings::{dec, opt_str, opt_text, opt_view, split_on};
use crate::text::picture::{
    image_error_text, is_outcome, probe_dimensions, probe_of, room_for, try_process_image,
    ImageError, ImageMime, ProcessedImage, ResizeOptions,
};
use crate::tools::approval::{ApprovalDecision, Concurrency, Tier};
use crate::tools::edit::{located, replaced};
use crate::tools::edit_report::{
    ambiguous_text, check_edit, edit_body, edit_refusal, edited_text, not_found_text, plan_edit,
    EditPlan,
};
use crate::tools::ls::{
    approval_for, bad_path_text, entries_view, is_outside, listing, path_error_to_tool_error, render,
    WalkOptions, WalkResult,
};
use crate::tools::output::{cleaned, error, finish, ToolError, ToolOutput};
use crate::tools::read::{read_selected, read_text, READ_DIR_MAX_DEPTH, READ_DIR_PER_DIR_LIMIT};
use crate::tools::selector::{
    asked, invalid_text, is_selector, list_error, parse_selector, selector_colon,
    split_path_and_selector, Asked, Selector, SelectorError,
};
use crate::tools::todo::{phases_of, TodoPhase};
use crate::tools::todo_markdown::{markdown_to_phases, reading};
use crate::tools::todo_run::TodoRun;
use crate::tools::write::{link_text, symlink_note, SymlinkResolution};
use crate::utf8::text_of;
use crate::workspace::{
    displayed, led, normal, parts_view, path_text, to_text, Part, PartView, PathError, Workspace,
};

verus! {

broadcast use vstd::seq::group_seq_axioms;

// What goes wrong outside

/// Something outside that went wrong.
#[derive(Debug, Clone, PartialEq, Eq)]
pub enum Failure {
    /// The arguments cannot be read.
    Arguments,
    TodoArguments,
    ReadTodo,
    MakeSessionDirectory,
    SaveTodo,
    OpenFile,
    ReadFile,
    /// A file, for people, cannot be read.
    Read(String),
    /// A file, for people, that is to be written cannot be read.
    ReadExisting(String),
    /// A file, for people, cannot be written.
    Write(String),
    /// A part of the program that reads or lists ended early.
    ReadTask,
    ListTask,
    GlobTask,
    GrepTask,
}

/// What is said of it. `why` is what was said of it outside.
pub open spec fn failure_text(what: Failure, why: Seq<char>) -> Seq<char> {
    match what {
        Failure::Arguments => "参数解析失败："@ + why,
        Failure::TodoArguments => "Invalid todo arguments: "@ + why,
        Failure::ReadTodo => "Failed to read todo state: "@ + why,
        Failure::MakeSessionDirectory => "Failed to create session directory: "@ + why,
        Failure::SaveTodo => "Failed to persist todo state: "@ + why,
        Failure::OpenFile => "无法打开文件: "@ + why,
        Failure::ReadFile => "无法读取文件: "@ + why,
        Failure::Read(display) => "无法读取 '"@ + display@ + "': "@ + why,
        Failure::ReadExisting(display) => "读取既有文件 "@ + display@ + " 失败："@ + why,
        Failure::Write(display) => "写入 "@ + display@ + " 失败："@ + why,
        Failure::ReadTask => "读取任务失败: "@ + why,
        Failure::ListTask => "目录遍历任务失败: "@ + why,
        Failure::GlobTask => "glob 遍历任务异常终止"@,
        Failure::GrepTask => "grep 搜索任务异常终止"@,
    }
}

/// What a tool gives back where something outside went wrong.
pub fn failed(what: &Failure, why: &str) -> (r: ToolError)
    ensures
        r matches ToolError::Failed(text) && text@ == cleaned(failure_text(*what, why@)),
{
    let mut text = String::new();
    let mut told = true;
    match what {
        Failure::Arguments => {
            text.append("参数解析失败：");
        },
        Failure::TodoArguments => {
            text.append("Invalid todo arguments: ");
        },
        Failure::ReadTodo => {
            text.append("Failed to read todo state: ");
        },
        Failure::MakeSessionDirectory => {
            text.append("Failed to create session directory: ");
        },
        Failure::SaveTodo => {
            text.append("Failed to persist todo state: ");
        },
        Failure::OpenFile => {
            text.append("无法打开文件: ");
        },
        Failure::ReadFile => {
            text.append("无法读取文件: ");
        },
        Failure::Read(display) => {
            text.append("无法读取 '");
            text.append(display.as_str());
            text.append("': ");
        },
        Failure::ReadExisting(display) => {
            text.append("读取既有文件 ");
            text.append(display.as_str());
            text.append(" 失败：");
        },
        Failure::Write(display) => {
            text.append("写入 ");
            text.append(display.as_str());
            text.append(" 失败：");
        },
        Failure::ReadTask => {
            text.append("读取任务失败: ");
        },
        Failure::ListTask => {
            text.append("目录遍历任务失败: ");
        },
        Failure::GlobTask => {
            text.append("glob 遍历任务异常终止");
            told = false;
        },
        Failure::GrepTask => {
            text.append("grep 搜索任务异常终止");
            told = false;
        },
    }
    if told {
        text.append(why);
    }
    assert(text@ =~= failure_text(*what, why@));
    error(text.as_str())
}

// Where a file is

/// Where a path leads.
#[derive(Debug)]
pub struct Located {
    pub path: Vec<Part>,
    /// The same for people.
    pub display: String,
}

/// Where a path leads, for people.
pub open spec fn display_of(workspace: &Workspace, home: Option<Seq<char>>, path: Seq<PartView>) -> Seq<char> {
    displayed(workspace.home(), workspace.naming(), path, path_text(path), home)
}

/// Where the path of a file to write or edit leads.
pub fn locate_file(workspace: &Workspace, raw: &str, home: Option<&str>) -> (r: Result<
    Located,
    ToolError,
>)
    ensures
        ({
            let path = normal(led(workspace.home(), raw@));
            match r {
                Ok(f) => {
                    &&& raw@.len() > 0
                    &&& parts_view(f.path@) == path
                    &&& f.display@ == display_of(workspace, opt_view(home), path)
                },
                Err(e) => {
                    &&& raw@.len() == 0
                    &&& e matches ToolError::Failed(text) && text@ == cleaned(
                        "路径解析失败："@ + "路径不能为空"@,
                    )
                },
            }
        }),
{
    match workspace.resolve(raw) {
        Ok(resolved) => {
            let text = to_text(&resolved.path);
            let display = workspace.display(&resolved.path, text.as_str(), home);
            Ok(Located { path: resolved.path, display })
        },
        Err(e) => {
            let mut text = "路径解析失败：".to_owned();
            let why = e.to_string();
            text.append(why.as_str());
            Err(error(text.as_str()))
        },
    }
}

/// What reading a file gives.
#[derive(Debug)]
pub enum FileRead {
    Bytes(Vec<u8>),
    Missing,
    /// It cannot be read, and why.
    Failed(String),
}

// Edit

/// To edit changes files.
pub fn edit_approval() -> (r: ApprovalDecision)
    ensures
        r.tier == Tier::Write,
        !r.override_mode,
        r.reason is None,
{
    ApprovalDecision::tier(Tier::Write)
}

/// A file is edited by one at a time.
pub fn edit_concurrency() -> (r: Concurrency)
    ensures
        r == Concurrency::Exclusive,
{
    Concurrency::Exclusive
}

/// What is asked for.
#[derive(Debug, Clone)]
pub struct EditArgs {
    pub path: String,
    pub old_string: String,
    pub new_string: String,
    pub replace_all: bool,
}

/// Refuses an edit that makes no sense, else says which file it is about.
pub fn begin_edit(workspace: &Workspace, args: &EditArgs, home: Option<&str>) -> (r: Result<
    Located,
    ToolError,
>)
    ensures
        ({
            let refusal = edit_refusal(args.old_string@, args.new_string@);
            let path = normal(led(workspace.home(), args.path@));
            match r {
                Ok(f) => {
                    &&& refusal is None
                    &&& args.path@.len() > 0
                    &&& parts_view(f.path@) == path
                    &&& f.display@ == display_of(workspace, opt_view(home), path)
                },
                Err(e) => {
                    &&& refusal is Some || args.path@.len() == 0
                    &&& e matches ToolError::Failed(text) && text@ == cleaned(
                        match refusal {
                            Some(why) => why,
                            None => "路径解析失败："@ + "路径不能为空"@,
                        },
                    )
                },
            }
        }),
{
    if let Err(why) = check_edit(args.old_string.as_str(), args.new_string.as_str()) {
        return Err(error(why.as_str()));
    }
    locate_file(workspace, args.path.as_str(), home)
}

/// What an edit comes to.
#[derive(Debug)]
pub struct Edited {
    /// What was in the file.
    pub content: String,
    pub plan: EditPlan,
}

/// Why a file cannot be edited, if it cannot be.
pub open spec fn unreadable_text(display: Seq<char>, file: FileRead) -> Option<Seq<char>> {
    match file {
        FileRead::Missing => Some(
            display + " 不存在，无法编辑；先用 write 创建它，或确认路径是否写错。"@,
        ),
        FileRead::Failed(why) => Some("读取 "@ + display + " 失败："@ + why@),
        FileRead::Bytes(b) => if valid_utf8(b@) {
            None
        } else {
            Some(display + " 不是合法 UTF-8 文本，无法按文本编辑。"@)
        },
    }
}

/// What was in a file.
pub open spec fn file_text(file: FileRead) -> Seq<char> {
    match file {
        FileRead::Bytes(b) => decode_utf8(b@),
        _ => Seq::empty(),
    }
}

/// Why an edit comes to nothing, if it does.
pub open spec fn edit_problem(display: Seq<char>, file: FileRead, args: EditArgs) -> Option<Seq<char>> {
    match unreadable_text(display, file) {
        Some(why) => Some(why),
        None => {
            let content = file_text(file);
            let m = located(content, args.old_string@);
            if m.len() == 0 {
                Some(not_found_text(display, content, args.old_string@))
            } else if m.len() > 1 && !args.replace_all {
                Some(ambiguous_text(display, content, m))
            } else {
                None
            }
        },
    }
}

/// Works out what a file is to hold.
pub fn edit_file(display: &str, file: &FileRead, args: &EditArgs) -> (r: Result<Edited, ToolError>)
    ensures
        match r {
            Ok(e) => {
                let m = located(file_text(*file), args.old_string@);
                &&& edit_problem(display@, *file, *args) is None
                &&& e.content@ == file_text(*file)
                &&& e.plan.match_count == m.len()
                &&& e.plan.new_content@ == replaced(file_text(*file), m, args.new_string@)
            },
            Err(e) => {
                &&& edit_problem(display@, *file, *args) is Some
                &&& e matches ToolError::Failed(text) && text@ == cleaned(
                    edit_problem(display@, *file, *args)->Some_0,
                )
            },
        },
{
    let content = match file {
        FileRead::Missing => {
            let mut text = display.to_owned();
            text.append(" 不存在，无法编辑；先用 write 创建它，或确认路径是否写错。");
            return Err(error(text.as_str()));
        },
        FileRead::Failed(why) => {
            let mut text = "读取 ".to_owned();
            text.append(display);
            text.append(" 失败：");
            text.append(why.as_str());
            return Err(error(text.as_str()));
        },
        FileRead::Bytes(bytes) => match text_of(bytes.as_slice()) {
            Some(content) => content,
            None => {
                let mut text = display.to_owned();
                text.append(" 不是合法 UTF-8 文本，无法按文本编辑。");
                return Err(error(text.as_str()));
            },
        },
    };
    match plan_edit(
        display,
        content.as_str(),
        args.old_string.as_str(),
        args.new_string.as_str(),
        args.replace_all,
    ) {
        Ok(plan) => Ok(Edited { content, plan }),
        Err(why) => Err(error(why.as_str())),
    }
}

/// What the tool gives back for a file that was edited.
pub fn report_edit(display: &str, link: &SymlinkResolution, edited: &Edited) -> (r: ToolOutput)
    ensures
        r.text@ == cleaned(
            edited_text(
                display@,
                link_text(display@, *link),
                edited.plan.match_count as nat,
                edited.content@,
                edited.plan.new_content@,
            ),
        ),
        r.title@ == "edit "@ + display@,
        !r.useless,
{
    let note = symlink_note(display, link);
    assert(opt_text(note) == link_text(display@, *link));
    let body = edit_body(
        display,
        opt_str(&note),
        edited.plan.match_count,
        edited.content.as_str(),
        edited.plan.new_content.as_str(),
    );
    let mut title = "edit ".to_owned();
    title.append(display);
    finish(body, title)
}

// Todo

/// The list is the session's own: to change it takes no agreement.
pub fn todo_approval() -> (r: ApprovalDecision)
    ensures
        r.tier == Tier::Read,
        !r.override_mode,
        r.reason is None,
{
    ApprovalDecision::tier(Tier::Read)
}

/// Calls may run beside others.
pub fn todo_concurrency() -> (r: Concurrency)
    ensures
        r == Concurrency::Shared,
{
    Concurrency::Shared
}

/// The name of the file that a session's list is in.
pub fn state_file(session_id: &str) -> (r: String)
    ensures
        r@ == session_id@ + ".todo.md"@,
{
    let mut r = session_id.to_owned();
    r.append(".todo.md");
    r
}

/// What reading the list gives.
#[derive(Debug)]
pub enum TodoFile {
    Text(String),
    Missing,
    /// It cannot be read, and why.
    Failed(String),
}

/// The list that a file holds: where there is no file it is empty, and lines that cannot be read are
/// left out.
pub fn load_phases(file: &TodoFile) -> (r: Result<Vec<TodoPhase>, ToolError>)
    ensures
        match (r, *file) {
            (Ok(phases), TodoFile::Text(text)) => phases_of(phases@) == reading(text@).phases,
            (Ok(phases), TodoFile::Missing) => phases@.len() == 0,
            (Err(e), TodoFile::Failed(why)) => e matches ToolError::Failed(text) && text@ == cleaned(
                failure_text(Failure::ReadTodo, why@),
            ),
            _ => false,
        },
{
    match file {
        TodoFile::Text(text) => Ok(markdown_to_phases(text.as_str()).0),
        TodoFile::Missing => Ok(Vec::new()),
        TodoFile::Failed(why) => Err(failed(&Failure::ReadTodo, why.as_str())),
    }
}

/// What the tool gives back.
pub fn report_todo(run: Result<TodoRun, String>) -> (r: Result<ToolOutput, ToolError>)
    ensures
        match run {
            Ok(x) => r matches Ok(out) && out.text@ == cleaned(x.body@) && out.title@ == x.title@
                && !out.useless,
            Err(why) => r matches Err(ToolError::Failed(text)) && text@ == cleaned(why@),
        },
{
    match run {
        Ok(x) => Ok(finish(x.body, x.title)),
        Err(why) => Err(error(why.as_str())),
    }
}

// Read

/// What a call of the read tool needs somebody's agreement for: what lies outside the workspace
/// takes as much as to write.
pub fn read_approval(workspace: &Workspace, args: &Json) -> (r: ApprovalDecision)
    ensures
        r.tier == (match member(args@, "path"@) {
            Some(JsonView::Text(raw)) => if is_outside(
                workspace,
                match selector_colon(raw) {
                    Some(i) => raw.take(i),
                    None => raw,
                },
            ) {
                Tier::Write
            } else {
                Tier::Read
            },
            _ => Tier::Read,
        }),
        !r.override_mode,
        r.reason is None,
{
    match args.get("path") {
        Some(Json::Text(raw)) => {
            let (path, _selector) = split_path_and_selector(raw.as_str());
            approval_for(workspace, path)
        },
        _ => ApprovalDecision::tier(Tier::Read),
    }
}

/// Reads may run beside others.
pub fn read_concurrency() -> (r: Concurrency)
    ensures
        r == Concurrency::Shared,
{
    Concurrency::Shared
}

/// What is to be read.
#[derive(Debug)]
pub struct ReadPlan {
    pub place: Located,
    pub selector: Selector,
}

/// Whether `r` says that the path `path` is to be read with a selector for which `wanted` holds.
pub open spec fn is_located(
    r: Result<ReadPlan, ToolError>,
    workspace: &Workspace,
    home: Option<Seq<char>>,
    path: Seq<char>,
    wanted: spec_fn(Selector) -> bool,
) -> bool {
    let steps = normal(led(workspace.home(), path));
    match r {
        Ok(plan) => {
            &&& path.len() > 0
            &&& wanted(plan.selector)
            &&& parts_view(plan.place.path@) == steps
            &&& plan.place.display@ == display_of(workspace, home, steps)
        },
        Err(e) => path.len() == 0 && (e matches ToolError::Failed(text) && text@ == cleaned(
            bad_path_text(PathError::Empty),
        )),
    }
}

/// Why a selector is refused, if it is.
pub open spec fn selector_problem(sel: Seq<char>) -> Option<Seq<char>> {
    match asked(sel) {
        Asked::Invalid => Some(invalid_text(sel)),
        Asked::Lines(list, _) => {
            let parts = split_on(list, ',');
            list_error(parts, parts.len() as int)
        },
        _ => None,
    }
}

/// Whether `r` is what is to be read: the name of something that exists is taken as it is, else what
/// stands behind a colon may be a selector.
pub open spec fn is_read_plan(
    r: Result<ReadPlan, ToolError>,
    workspace: &Workspace,
    home: Option<Seq<char>>,
    args: JsonView,
    literal: bool,
) -> bool {
    match member(args, "path"@) {
        Some(JsonView::Text(raw)) => match selector_colon(raw) {
            Some(i) if !literal => {
                let sel = raw.skip(i + 1);
                match selector_problem(sel) {
                    Some(why) => r matches Err(ToolError::Failed(text)) && text@ == cleaned(why),
                    None => is_located(
                        r,
                        workspace,
                        home,
                        raw.take(i),
                        |s: Selector| is_selector(sel, Ok::<Selector, SelectorError>(s)),
                    ),
                }
            },
            _ => is_located(r, workspace, home, raw, |s: Selector| s == Selector::Absent),
        },
        _ => r matches Err(ToolError::Failed(text)) && text@ == cleaned(
            "path 参数缺失或不是字符串。"@,
        ),
    }
}

/// What is to be read. `literal` is whether something with the whole name exists.
pub fn plan_read(workspace: &Workspace, args: &Json, literal: bool, home: Option<&str>) -> (r: Result<
    ReadPlan,
    ToolError,
>)
    ensures
        is_read_plan(r, workspace, opt_view(home), args@, literal),
{
    let raw = match args.get("path") {
        Some(Json::Text(s)) => s,
        _ => {
            return Err(error("path 参数缺失或不是字符串。"));
        },
    };
    let (front, sel) = split_path_and_selector(raw.as_str());
    let mut path = front;
    let mut selector = Selector::Absent;
    if let Some(text) = sel {
        if literal {
            path = raw.as_str();
        } else {
            match parse_selector(text) {
                Ok(s) => {
                    selector = s;
                },
                Err(e) => {
                    return Err(error(e.0.as_str()));
                },
            }
        }
    }
    match workspace.resolve(path) {
        Ok(resolved) => {
            let text = to_text(&resolved.path);
            let display = workspace.display(&resolved.path, text.as_str(), home);
            Ok(ReadPlan { place: Located { path: resolved.path, display }, selector })
        },
        Err(e) => Err(path_error_to_tool_error(&e)),
    }
}

/// How far a directory is shown.
pub fn read_dir_options() -> (r: WalkOptions)
    ensures
        r == (WalkOptions {
            max_depth: READ_DIR_MAX_DEPTH,
            per_dir_limit: READ_DIR_PER_DIR_LIMIT,
            max_entries: usize::MAX,
            respect_gitignore: true,
        }),
{
    WalkOptions {
        max_depth: READ_DIR_MAX_DEPTH,
        per_dir_limit: READ_DIR_PER_DIR_LIMIT,
        max_entries: usize::MAX,
        respect_gitignore: true,
    }
}

/// What the tool gives back for a directory.
pub fn report_directory(display: &str, result: &WalkResult) -> (r: ToolOutput)
    ensures
        r.text@ == cleaned(
            listing(display@, entries_view(result.entries@), result.truncated)
                + "\n\n需要完整目录树请改用 ls 工具。"@,
        ),
        r.title@ == "目录 "@ + display@,
        !r.useless,
{
    let mut body = render(display, result);
    body.append("\n\n需要完整目录树请改用 ls 工具。");
    let mut title = "目录 ".to_owned();
    title.append(display);
    finish(body, title)
}

/// What the tool gives back for a text.
pub fn report_read(display: &str, text: &str, selector: &Selector, default_limit: usize) -> (r: Result<
    ToolOutput,
    ToolError,
>)
    ensures
        match read_selected(text@, *selector, default_limit as nat) {
            Ok(body) => r matches Ok(out) && out.text@ == cleaned(body) && out.title@ == display@
                && !out.useless,
            Err(why) => r matches Err(ToolError::Failed(said)) && said@ == cleaned(why),
        },
{
    match read_text(text, selector, default_limit) {
        Ok(body) => Ok(finish(body, display.to_owned())),
        Err(why) => Err(error(why.as_str())),
    }
}

/// What is said of a file that is neither a text nor a picture.
pub open spec fn no_picture_text(display: Seq<char>, why: Seq<char>) -> Seq<char> {
    "'"@ + display + "' 是二进制文件，无法按文本读取，也不是受支持的图片格式（"@ + why + "）。"@
}

/// What is said where no picture comes of a file: it is none, or it could not be brought to size.
pub fn picture_problem(display: &str, error_of: &ImageError, is_picture: bool) -> (r: ToolError)
    ensures
        r matches ToolError::Failed(text) && text@ == cleaned(
            if is_picture {
                "图片处理失败: "@ + image_error_text(error_of@)
            } else {
                no_picture_text(display@, image_error_text(error_of@))
            },
        ),
{
    let why = error_of.to_string();
    if is_picture {
        let mut text = "图片处理失败: ".to_owned();
        text.append(why.as_str());
        error(text.as_str())
    } else {
        let mut text = "'".to_owned();
        text.append(display);
        text.append("' 是二进制文件，无法按文本读取，也不是受支持的图片格式（");
        text.append(why.as_str());
        text.append("）。");
        error(text.as_str())
    }
}

/// The options that pictures are brought to size with.
pub open spec fn usual_options() -> ResizeOptions {
    ResizeOptions {
        max_width: 1568,
        max_height: 1568,
        min_dimension: 200,
        max_bytes: 500_000,
        jpeg_quality: 80,
        allow_webp: true,
    }
}

/// The picture that a file holds, brought to size. There is nothing where memory has no room for that
/// size, or where a side of it is too long to be scaled to.
pub fn read_picture(display: &str, bytes: &[u8]) -> (r: Option<Result<ProcessedImage, ToolError>>)
    ensures
        match r {
            None => probe_of(bytes@) is Ok && !room_for(bytes@, usual_options()),
            Some(Ok(p)) => probe_of(bytes@) is Ok && is_outcome(Ok(p), bytes@, usual_options()),
            Some(Err(e)) => match probe_of(bytes@) {
                Err(why) => e matches ToolError::Failed(text) && text@ == cleaned(
                    no_picture_text(display@, image_error_text(why)),
                ),
                Ok(_) => exists|why: ImageError|
                    is_outcome(Err(why), bytes@, usual_options()) && (
                    e matches ToolError::Failed(text) && text@ == cleaned(
                        "图片处理失败: "@ + #[trigger] image_error_text(why@),
                    )),
            },
        },
{
    if let Err(e) = probe_dimensions(bytes) {
        return Some(Err(picture_problem(display, &e, false)));
    }
    let options = ResizeOptions::default();
    match try_process_image(bytes, &options) {
        None => None,
        Some(Ok(p)) => Some(Ok(p)),
        Some(Err(e)) => Some(Err(picture_problem(display, &e, true))),
    }
}

/// A picture as it is kept.
#[derive(Debug, Clone, PartialEq, Eq)]
pub struct StoredImage {
    pub media_type: String,
    /// Its bytes in base64.
    pub data: String,
}

/// What the tool gives back for a picture.
#[derive(Debug, Clone, PartialEq, Eq)]
pub struct ImageOutput {
    pub image: StoredImage,
    pub title: String,
}

/// What the tool gives back for a picture. `scale_x` and `scale_y` are how many pixels of the
/// original one pixel stands for, as text.
pub fn report_picture(display: &str, picture: &ProcessedImage, scale_x: &str, scale_y: &str) -> (r:
    ImageOutput)
    ensures
        r.image.media_type@ == (match picture.mime {
            ImageMime::Png => "image/png"@,
            ImageMime::Jpeg => "image/jpeg"@,
            ImageMime::Webp => "image/webp"@,
            ImageMime::Gif => "image/gif"@,
        }),
        r.image.data@ == encoded(picture.bytes@),
        r.title@ == if picture.width == picture.original_width && picture.height
            == picture.original_height {
            display@
        } else {
            display@ + "（"@ + ("图片已从原始 "@ + dec(picture.original_width as nat) + "×"@ + dec(
                picture.original_height as nat,
            ) + " 缩放到 "@ + dec(picture.width as nat) + "×"@ + dec(picture.height as nat)
                + " 后再发送给模型；模型给出的像素坐标需分别乘以约 "@ + scale_x@
                + "（横轴）与 "@ + scale_y@ + "（纵轴）才能换算回原图坐标。"@) + "）"@
        },
{
    let image = StoredImage {
        media_type: picture.mime.as_str().to_owned(),
        data: encode(picture.bytes.as_slice()),
    };
    let mut title = display.to_owned();
    if let Some(note) = picture.dimension_note(scale_x, scale_y) {
        title.append("（");
        title.append(note.as_str());
        title.append("）");
    }
    ImageOutput { image, title }
}

} // verus!
