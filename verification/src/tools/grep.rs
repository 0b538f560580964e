//! The tool that searches what is in files.

use vstd::prelude::*;

use crate::schema::json::{as_unsigned, member, Json, JsonView, NumberKind};
use crate::strings::{
    chars_of, dec, join_texts, joined, opt_view, push_dec, split_on, str_eq, string_of, texts, trim,
    trimmed,
};
use crate::text::grep::{
    files_view, grep_error_text, lines_view, ways, CaseMode, FileMatches, FileView, GrepError,
    GrepLimits, GrepOutcome, GrepRequest, LineMatch, LineMatchView, MatcherKind,
};
use crate::tools::approval::{ApprovalDecision, Concurrency, Tier};
use crate::tools::output::{cleaned, error, finish, ToolError, ToolOutput};
use crate::tools::selector::{
    asked, covers, in_range, invalid_text, is_answer, list_error, parse_selector, selector_colon,
    split_path_and_selector, Asked, LineRange, Selector,
};
use crate::tools::targets::{
    describe_path_error, path_error_text, targets_view, SearchRoots, Target, TargetView,
};
use crate::workspace::{
    displayed, led, normal, part_texts, parts_view, path_text, texts_of, to_text, Part, PartView,
    PathError, Workspace,
};

verus! {

broadcast use vstd::seq::group_seq_axioms;

/// How many files a page has.
pub const FILE_WINDOW: usize = 20;

/// How many matches of a file are looked for.
pub const FILE_MATCHES: usize = 20;

/// To search changes nothing.
pub fn grep_approval() -> (r: ApprovalDecision)
    ensures
        r.tier == Tier::Read,
        !r.override_mode,
        r.reason is None,
{
    ApprovalDecision::tier(Tier::Read)
}

/// Searches may run beside others.
pub fn grep_concurrency() -> (r: Concurrency)
    ensures
        r == Concurrency::Shared,
{
    Concurrency::Shared
}

// The arguments

/// What is asked for.
#[derive(Debug, Clone, PartialEq, Eq)]
pub struct ParsedArgs {
    pub pattern: String,
    pub case: CaseMode,
    /// How many files were shown already.
    pub skip: usize,
}

/// A text that is more than white space, without the white space at its ends.
pub open spec fn solid_text(v: Option<JsonView>) -> Option<Seq<char>> {
    match v {
        Some(JsonView::Text(s)) => if trim(s).len() > 0 {
            Some(trim(s))
        } else {
            None
        },
        _ => None,
    }
}

/// A text that is more than white space, without the white space at its ends.
pub fn solid(v: Option<&Json>) -> (r: Option<String>)
    ensures
        match r {
            Some(s) => v is Some && solid_text(Some(v->Some_0@)) == Some(s@),
            None => match v {
                Some(x) => solid_text(Some(x@)) is None,
                None => true,
            },
        },
{
    if let Some(Json::Text(s)) = v {
        let letters = chars_of(s.as_str());
        let body = trimmed(letters.as_slice());
        if body.len() > 0 {
            return Some(string_of(body));
        }
    }
    None
}

/// A number that was written as one.
pub fn unsigned(v: &Json) -> (r: Option<u64>)
    ensures
        r == as_unsigned(v@),
{
    match v {
        Json::Number(n) => match n.kind {
            NumberKind::Unsigned(u) => Some(u),
            _ => None,
        },
        _ => None,
    }
}

/// A flag.
pub open spec fn flag_of(v: Option<JsonView>) -> Option<bool> {
    match v {
        Some(JsonView::Flag(b)) => Some(b),
        _ => None,
    }
}

/// The flag that a key of an object has.
pub fn flag_at(args: &Json, key: &str) -> (r: Option<bool>)
    ensures
        r == flag_of(member(args@, key@)),
{
    match args.get(key) {
        Some(Json::Flag(b)) => Some(*b),
        _ => None,
    }
}

/// The `path` of an object, or else the workspace.
pub open spec fn path_arg(v: JsonView) -> Seq<char> {
    match member(v, "path"@) {
        Some(JsonView::Text(s)) => s,
        _ => "."@,
    }
}

/// The `path` of the arguments, or else the workspace.
pub fn raw_path(args: &Json) -> (r: String)
    ensures
        r@ == path_arg(args@),
{
    match args.get("path") {
        Some(Json::Text(s)) => s.clone(),
        _ => ".".to_owned(),
    }
}

/// How many files were shown already, as the arguments say it.
pub open spec fn skip_arg(v: JsonView) -> Result<nat, Seq<char>> {
    match member(v, "skip"@) {
        None | Some(JsonView::Null) => Ok(0),
        Some(x) => match as_unsigned(x) {
            None => Err("`skip` 必须是非负整数"@),
            Some(n) => if n <= usize::MAX {
                Ok(n as nat)
            } else {
                Err("`skip` 超出可表示范围"@)
            },
        },
    }
}

/// Whether the case of letters matters, as the arguments say it.
pub open spec fn case_arg(v: JsonView) -> CaseMode {
    match flag_of(member(v, "case"@)) {
        Some(true) => CaseMode::Sensitive,
        Some(false) => CaseMode::Insensitive,
        None => CaseMode::Smart,
    }
}

/// Reads the arguments.
pub fn parse_args(args: &Json) -> (r: Result<ParsedArgs, ToolError>)
    ensures
        ({
            let pattern = solid_text(member(args@, "pattern"@));
            match r {
                Ok(a) => {
                    &&& pattern == Some(a.pattern@)
                    &&& a.case == case_arg(args@)
                    &&& skip_arg(args@) == Ok::<nat, Seq<char>>(a.skip as nat)
                },
                Err(e) => {
                    &&& pattern is None || skip_arg(args@) is Err
                    &&& e matches ToolError::Failed(text) && text@ == cleaned(
                        if pattern is None {
                            "`pattern` 不能为空"@
                        } else {
                            skip_arg(args@)->Err_0
                        },
                    )
                },
            }
        }),
{
    let pattern = match solid(args.get("pattern")) {
        Some(s) => s,
        None => {
            return Err(error("`pattern` 不能为空"));
        },
    };
    let case = match flag_at(args, "case") {
        Some(true) => CaseMode::Sensitive,
        Some(false) => CaseMode::Insensitive,
        None => CaseMode::Smart,
    };
    let skip: usize = match args.get("skip") {
        None => 0,
        Some(Json::Null) => 0,
        Some(value) => match unsigned(value) {
            None => {
                return Err(error("`skip` 必须是非负整数"));
            },
            Some(n) => {
                if n > usize::MAX as u64 {
                    return Err(error("`skip` 超出可表示范围"));
                }
                n as usize
            },
        },
    };
    Ok(ParsedArgs { pattern, case, skip })
}

// The targets

/// What a target is where it is taken as a path alone.
pub open spec fn plain_target(r: Result<Target, ToolError>, workspace: &Workspace, raw: Seq<char>, path: Seq<char>) -> bool {
    if path.len() == 0 {
        r matches Err(ToolError::Failed(text)) && text@ == cleaned(
            path_error_text(PathError::Empty, raw),
        )
    } else {
        r matches Ok(t) && t@ == (TargetView {
            raw,
            path: normal(led(workspace.home(), path)),
            ranges: None,
        })
    }
}

/// Whether `r` is what a target is: the name of something that exists is taken as it is; else what
/// stands behind a colon may say which lines count.
pub open spec fn is_target(
    r: Result<Target, ToolError>,
    workspace: &Workspace,
    raw: Seq<char>,
    literal: bool,
) -> bool {
    match selector_colon(raw) {
        Some(i) if !literal => {
            let path = raw.take(i);
            let sel = raw.skip(i + 1);
            match asked(sel) {
                Asked::Absent | Asked::Raw => plain_target(r, workspace, raw, path),
                Asked::Invalid => r matches Err(ToolError::Failed(text)) && text@ == cleaned(
                    "路径选择器无效："@ + invalid_text(sel),
                ),
                Asked::Lines(list, _) => {
                    let parts = split_on(list, ',');
                    match list_error(parts, parts.len() as int) {
                        Some(e) => r matches Err(ToolError::Failed(text)) && text@ == cleaned(
                            "路径选择器无效："@ + e,
                        ),
                        None => if path.len() == 0 {
                            plain_target(r, workspace, raw, path)
                        } else {
                            &&& r matches Ok(t) && t@.raw == raw && t@.path == normal(
                                led(workspace.home(), path),
                            ) && (t@.ranges matches Some(l) && is_answer(l, list))
                        },
                    }
                },
            }
        },
        _ => plain_target(r, workspace, raw, raw),
    }
}

/// What a target is. `literal` is whether something with its whole name exists.
pub fn target_of(workspace: &Workspace, raw: &str, literal: bool) -> (r: Result<Target, ToolError>)
    ensures
        is_target(r, workspace, raw@, literal),
{
    let mut path = raw;
    let mut ranges: Option<Vec<LineRange>> = None;
    if !literal {
        let (front, selector) = split_path_and_selector(raw);
        path = front;
        if let Some(sel) = selector {
            match parse_selector(sel) {
                Ok(Selector::Lines { ranges: lines, raw: _ }) => {
                    ranges = Some(lines);
                },
                Ok(_) => {},
                Err(e) => {
                    let mut text = "路径选择器无效：".to_owned();
                    text.append(e.0.as_str());
                    return Err(error(text.as_str()));
                },
            }
        }
    }
    match workspace.resolve(path) {
        Ok(resolved) => Ok(Target { raw: raw.to_owned(), path: resolved.path, ranges }),
        Err(e) => {
            let text = describe_path_error(&e, raw);
            Err(error(text.as_str()))
        },
    }
}

// The search

/// How far a search goes for the page behind `skip` files: it has to find those too.
pub open spec fn window(skip: nat) -> nat {
    if skip + FILE_WINDOW <= usize::MAX {
        skip + FILE_WINDOW as nat
    } else {
        usize::MAX as nat
    }
}

/// How many matches there may be in all.
pub open spec fn total_cap(files: nat) -> nat {
    if files * FILE_MATCHES <= usize::MAX {
        files * FILE_MATCHES as nat
    } else {
        usize::MAX as nat
    }
}

/// How far a search goes.
pub fn search_limits(skip: usize) -> (r: GrepLimits)
    ensures
        r == (GrepLimits {
            max_files: window(skip as nat) as usize,
            max_matches_per_file: FILE_MATCHES,
            max_total_matches: total_cap(window(skip as nat)) as usize,
            max_file_bytes: 4_194_304,
            timeout_secs: 30,
            max_line_columns: 512,
        }),
{
    let base = GrepLimits::default();
    let max_files: usize = match skip.checked_add(FILE_WINDOW) {
        Some(n) => n,
        None => usize::MAX,
    };
    let max_total_matches: usize = match max_files.checked_mul(base.max_matches_per_file) {
        Some(n) => n,
        None => usize::MAX,
    };
    GrepLimits {
        max_files,
        max_matches_per_file: base.max_matches_per_file,
        max_total_matches,
        max_file_bytes: base.max_file_bytes,
        timeout_secs: base.timeout_secs,
        max_line_columns: base.max_line_columns,
    }
}

/// Whether a line is in one of the ranges.
pub fn line_in_ranges(line_number: u64, ranges: &Vec<LineRange>) -> (r: bool)
    ensures
        r == (line_number <= usize::MAX && covers(ranges@, line_number as nat)),
{
    if line_number > usize::MAX as u64 {
        return false;
    }
    let line: usize = line_number as usize;
    let mut i: usize = 0;
    while i < ranges.len()
        invariant
            i <= ranges@.len(),
            line == line_number,
            line_number <= usize::MAX,
            forall|j: int| 0 <= j < i ==> !in_range(#[trigger] ranges@[j], line_number as nat),
        decreases ranges@.len() - i,
    {
        let range = ranges[i];
        let before_end = match range.end {
            Some(e) => line <= e,
            None => true,
        };
        if line >= range.start && before_end {
            assert(in_range(ranges@[i as int], line_number as nat));
            return true;
        }
        i += 1;
    }
    false
}

/// The lines that count of a file: what the last of the targets says that is this file and says
/// something.
pub open spec fn ranges_for(found: Seq<TargetView>, path: Seq<Seq<char>>) -> Option<Seq<LineRange>>
    decreases found.len(),
{
    if found.len() == 0 {
        None
    } else if found.last().ranges is Some && part_texts(found.last().path) == path {
        found.last().ranges
    } else {
        ranges_for(found.drop_last(), path)
    }
}

/// Whether any target says which lines count.
pub open spec fn any_ranges(found: Seq<TargetView>) -> bool {
    exists|i: int| 0 <= i < found.len() && (#[trigger] found[i]).ranges is Some
}

/// The matches in some lines.
pub open spec fn matches_within(l: Seq<LineMatchView>, ranges: Seq<LineRange>) -> Seq<LineMatchView>
    decreases l.len(),
{
    if l.len() == 0 {
        l
    } else {
        let front = matches_within(l.drop_last(), ranges);
        if l.last().line_number <= usize::MAX && covers(ranges, l.last().line_number as nat) {
            front.push(l.last())
        } else {
            front
        }
    }
}

/// A file with the matches that count.
pub open spec fn narrowed(f: FileView, found: Seq<TargetView>) -> FileView {
    match ranges_for(found, f.path) {
        Some(ranges) => FileView { matches: matches_within(f.matches, ranges), ..f },
        None => f,
    }
}

/// The files with the matches that count; those without one are left out.
pub open spec fn narrowed_all(l: Seq<FileView>, found: Seq<TargetView>) -> Seq<FileView>
    decreases l.len(),
{
    if l.len() == 0 {
        l
    } else {
        let front = narrowed_all(l.drop_last(), found);
        let last = narrowed(l.last(), found);
        if last.matches.len() == 0 {
            front
        } else {
            front.push(last)
        }
    }
}

/// What is left of the files that were found.
pub open spec fn restricted(l: Seq<FileView>, found: Seq<TargetView>) -> Seq<FileView> {
    if any_ranges(found) {
        narrowed_all(l, found)
    } else {
        l
    }
}

/// Whether two lists of texts are the same.
fn same_texts(a: &Vec<String>, b: &Vec<String>) -> (r: bool)
    ensures
        r == (texts(a@) == texts(b@)),
{
    let ghost x = texts(a@);
    let ghost y = texts(b@);
    if a.len() != b.len() {
        assert(x.len() != y.len());
        return false;
    }
    let mut i: usize = 0;
    while i < a.len()
        invariant
            i <= a@.len(),
            a@.len() == b@.len(),
            x == texts(a@),
            y == texts(b@),
            forall|j: int| 0 <= j < i ==> x[j] == y[j],
        decreases a@.len() - i,
    {
        assert(x[i as int] == a@[i as int]@ && y[i as int] == b@[i as int]@);
        if !str_eq(a[i].as_str(), b[i].as_str()) {
            return false;
        }
        i += 1;
    }
    assert(x =~= y);
    true
}

/// The target that says which lines of a file count.
fn target_for(found: &Vec<Target>, path: &Vec<String>) -> (r: Option<usize>)
    ensures
        match r {
            Some(k) => k < found@.len() && found@[k as int].ranges is Some && ranges_for(
                targets_view(found@),
                texts(path@),
            ) == found@[k as int]@.ranges,
            None => ranges_for(targets_view(found@), texts(path@)) is None,
        },
{
    let ghost all = targets_view(found@);
    let mut k: usize = found.len();
    assert(all.take(k as int) =~= all);
    while k > 0
        invariant
            k <= found@.len(),
            all == targets_view(found@),
            ranges_for(all, texts(path@)) == ranges_for(all.take(k as int), texts(path@)),
        decreases k,
    {
        proof {
            assert(all.take(k as int).drop_last() =~= all.take(k - 1));
            assert(all.take(k as int).last() == found@[k - 1]@);
        }
        if found[k - 1].ranges.is_some() {
            let names = texts_of(&found[k - 1].path);
            if same_texts(&names, path) {
                return Some(k - 1);
            }
        }
        k -= 1;
    }
    None
}

/// A copy of a match.
fn copy_match(m: &LineMatch) -> (r: LineMatch)
    ensures
        r@ == m@,
{
    LineMatch { line_number: m.line_number, line: m.line.clone(), byte_offset: m.byte_offset }
}

/// The matches in some lines.
fn within(l: &Vec<LineMatch>, ranges: &Vec<LineRange>) -> (r: Vec<LineMatch>)
    ensures
        lines_view(r@) == matches_within(lines_view(l@), ranges@),
{
    let ghost all = lines_view(l@);
    let mut r: Vec<LineMatch> = Vec::new();
    let n: usize = l.len();
    let mut i: usize = 0;
    assert(lines_view(r@) =~= all.take(0));
    while i < n
        invariant
            i <= n,
            n == l@.len(),
            all == lines_view(l@),
            lines_view(r@) == matches_within(all.take(i as int), ranges@),
        decreases n - i,
    {
        proof {
            assert(all.take(i + 1).drop_last() =~= all.take(i as int));
            assert(all.take(i + 1).last() == l@[i as int]@);
        }
        let ghost before = lines_view(r@);
        if line_in_ranges(l[i].line_number, ranges) {
            r.push(copy_match(&l[i]));
            assert(lines_view(r@) =~= before.push(l@[i as int]@));
        }
        i += 1;
    }
    assert(all.take(n as int) =~= all);
    r
}

/// A file with other matches.
fn with_matches(f: &FileMatches, matches: Vec<LineMatch>) -> (r: FileMatches)
    ensures
        r@ == (FileView { matches: lines_view(matches@), ..f@ }),
{
    let mut path: Vec<String> = Vec::new();
    let ghost all = texts(f.path@);
    let n: usize = f.path.len();
    let mut i: usize = 0;
    assert(texts(path@) =~= all.take(0));
    while i < n
        invariant
            i <= n,
            n == f.path@.len(),
            all == texts(f.path@),
            texts(path@) == all.take(i as int),
        decreases n - i,
    {
        let ghost before = texts(path@);
        path.push(f.path[i].clone());
        i += 1;
        assert(texts(path@) =~= before.push(all[i - 1]));
        assert(all.take(i as int) =~= before.push(all[i - 1]));
    }
    assert(all.take(n as int) =~= all);
    FileMatches { path, matches, truncated: f.truncated }
}

/// Leaves the matches out that are in lines that do not count, and the files that have no other.
pub fn restrict(files: Vec<FileMatches>, found: &Vec<Target>) -> (r: Vec<FileMatches>)
    ensures
        files_view(r@) == restricted(files_view(files@), targets_view(found@)),
{
    let ghost all = files_view(files@);
    let ghost sought = targets_view(found@);
    let mut some = false;
    let mut k: usize = 0;
    while k < found.len()
        invariant
            k <= found@.len(),
            sought == targets_view(found@),
            some == exists|i: int| 0 <= i < k && (#[trigger] sought[i]).ranges is Some,
        decreases found@.len() - k,
    {
        assert(sought[k as int] == found@[k as int]@);
        if found[k].ranges.is_some() {
            some = true;
        }
        k += 1;
    }
    if !some {
        return files;
    }
    let mut r: Vec<FileMatches> = Vec::new();
    let n: usize = files.len();
    let mut i: usize = 0;
    assert(files_view(r@) =~= all.take(0));
    while i < n
        invariant
            i <= n,
            n == files@.len(),
            all == files_view(files@),
            sought == targets_view(found@),
            files_view(r@) == narrowed_all(all.take(i as int), sought),
        decreases n - i,
    {
        let f = &files[i];
        proof {
            assert(all.take(i + 1).drop_last() =~= all.take(i as int));
            assert(all.take(i + 1).last() == f@);
        }
        let matches = match target_for(found, &f.path) {
            Some(k) => match &found[k].ranges {
                Some(ranges) => within(&f.matches, ranges),
                None => Vec::new(),
            },
            None => copy_matches(&f.matches),
        };
        let ghost before = files_view(r@);
        assert(narrowed(f@, sought) =~= (FileView { matches: lines_view(matches@), ..f@ }));
        assert(lines_view(matches@).len() == matches@.len());
        if matches.len() > 0 {
            r.push(with_matches(f, matches));
            assert(files_view(r@) =~= before.push(narrowed(f@, sought)));
        }
        i += 1;
    }
    assert(all.take(n as int) =~= all);
    r
}

/// A copy of matches.
fn copy_matches(l: &Vec<LineMatch>) -> (r: Vec<LineMatch>)
    ensures
        lines_view(r@) == lines_view(l@),
{
    let ghost all = lines_view(l@);
    let mut r: Vec<LineMatch> = Vec::new();
    let n: usize = l.len();
    let mut i: usize = 0;
    assert(lines_view(r@) =~= all.take(0));
    while i < n
        invariant
            i <= n,
            n == l@.len(),
            all == lines_view(l@),
            lines_view(r@) == all.take(i as int),
        decreases n - i,
    {
        let ghost before = lines_view(r@);
        r.push(copy_match(&l[i]));
        i += 1;
        assert(lines_view(r@) =~= before.push(all[i - 1]));
        assert(all.take(i as int) =~= before.push(all[i - 1]));
    }
    assert(all.take(n as int) =~= all);
    r
}

// The page

/// What is said where a pattern was no regular expression.
pub open spec fn degrade_text(pattern: Seq<char>) -> Seq<char> {
    "正则 `"@ + pattern
        + "` 编译失败，已退化为按字面量子串匹配（不支持正则语法，如需正则请修正模式）"@
}

/// What is said where a pattern was no regular expression.
pub fn literal_degrade_note(pattern: &str) -> (r: String)
    ensures
        r@ == degrade_text(pattern@),
{
    let mut r = "正则 `".to_owned();
    r.append(pattern);
    r.append("` 编译失败，已退化为按字面量子串匹配（不支持正则语法，如需正则请修正模式）");
    r
}

/// What is said where targets were missing.
pub open spec fn missing_text(missing: Seq<Seq<char>>) -> Seq<char> {
    "已跳过不存在的路径："@ + joined(missing, ", "@)
}

/// What is said where targets were missing.
pub fn missing_note(missing: &Vec<String>) -> (r: String)
    ensures
        r@ == missing_text(texts(missing@)),
{
    let mut r = "已跳过不存在的路径：".to_owned();
    let list = join_texts(missing, ", ");
    r.append(list.as_str());
    r
}

/// What the search has to say of itself.
pub struct Remarks {
    pub matcher: MatcherKind,
    pub timed_out: bool,
    pub timeout_secs: u64,
    pub missing: Vec<String>,
}

/// What is said of a search.
pub open spec fn notes_of(x: &Remarks, pattern: Seq<char>) -> Seq<Seq<char>> {
    (if x.matcher == MatcherKind::Literal {
        seq![degrade_text(pattern)]
    } else {
        Seq::empty()
    }) + (if x.timed_out {
        seq!["grep 在 "@ + dec(x.timeout_secs as nat) + "s 内未完成，本次结果不完整"@]
    } else {
        Seq::empty()
    }) + (if x.missing@.len() > 0 {
        seq![missing_text(texts(x.missing@))]
    } else {
        Seq::empty()
    })
}

/// What is said of a search.
fn notes(x: &Remarks, pattern: &str) -> (r: Vec<String>)
    ensures
        texts(r@) == notes_of(x, pattern@),
{
    let mut r: Vec<String> = Vec::new();
    if x.matcher == MatcherKind::Literal {
        r.push(literal_degrade_note(pattern));
    }
    if x.timed_out {
        let mut text = "grep 在 ".to_owned();
        push_dec(&mut text, x.timeout_secs);
        text.append("s 内未完成，本次结果不完整");
        r.push(text);
    }
    if x.missing.len() > 0 {
        r.push(missing_note(&x.missing));
    }
    assert(texts(r@) =~= notes_of(x, pattern@));
    r
}

/// The lines of matches.
pub open spec fn match_lines(l: Seq<LineMatchView>) -> Seq<char>
    decreases l.len(),
{
    if l.len() == 0 {
        Seq::empty()
    } else {
        match_lines(l.drop_last()) + "  "@ + dec(l.last().line_number as nat) + ": "@ + l.last().line
            + "\n"@
    }
}

/// The path that the texts of steps are.
pub open spec fn steps(l: Seq<Seq<char>>) -> Seq<PartView> {
    Seq::new(
        l.len(),
        |i: int|
            if i == 0 && l[0] == "/"@ {
                PartView::Root
            } else {
                PartView::Name(l[i])
            },
    )
}

/// A file for people.
pub open spec fn shown_file(workspace: &Workspace, home: Option<Seq<char>>, path: Seq<Seq<char>>) -> Seq<char> {
    displayed(workspace.home(), workspace.naming(), steps(path), path_text(steps(path)), home)
}

/// What a page says of a file.
pub open spec fn file_block(workspace: &Workspace, home: Option<Seq<char>>, f: FileView) -> Seq<char> {
    shown_file(workspace, home, f.path) + "\n"@ + match_lines(f.matches) + (if f.truncated {
        "  …该文件命中过多，已截断\n"@
    } else {
        Seq::empty()
    }) + "\n"@
}

/// What a page says of files.
pub open spec fn file_blocks(workspace: &Workspace, home: Option<Seq<char>>, l: Seq<FileView>) -> Seq<char>
    decreases l.len(),
{
    if l.len() == 0 {
        Seq::empty()
    } else {
        file_blocks(workspace, home, l.drop_last()) + file_block(workspace, home, l.last())
    }
}

/// The files of a page.
pub open spec fn page_files(l: Seq<FileView>, skip: nat) -> Seq<FileView> {
    if skip >= l.len() {
        Seq::empty()
    } else {
        l.skip(skip as int)
    }
}

/// What a page says of how far it goes. Where as many files were found as were looked for, there may
/// be more.
pub open spec fn page_header(total: nat, skip: nat, window_files: nat) -> Seq<char> {
    "显示文件 "@ + dec(skip + 1) + "-"@ + dec(total) + " / 共 "@ + dec(total) + (if total
        >= window_files {
        "+"@
    } else {
        ""@
    }) + " 个文件"@ + (if total >= window_files {
        "。用 skip="@ + dec(total) + " 翻下一页"@
    } else {
        "。"@
    })
}

/// Each text behind a line break.
pub open spec fn lines_behind(l: Seq<Seq<char>>) -> Seq<char>
    decreases l.len(),
{
    if l.len() == 0 {
        Seq::empty()
    } else {
        lines_behind(l.drop_last()) + "\n"@ + l.last()
    }
}

/// The first line of a page without files.
pub open spec fn nothing_text(total: nat, skip: nat) -> Seq<char> {
    if skip == 0 {
        "没有匹配"@
    } else {
        "没有更多结果（共 "@ + dec(total) + " 个文件；skip="@ + dec(skip) + " 已越过末尾）"@
    }
}

/// A page.
pub open spec fn page_text(
    workspace: &Workspace,
    home: Option<Seq<char>>,
    l: Seq<FileView>,
    skip: nat,
    window_files: nat,
    said: Seq<Seq<char>>,
) -> Seq<char> {
    let page = page_files(l, skip);
    if page.len() == 0 {
        joined(seq![nothing_text(l.len(), skip)] + said, "\n"@)
    } else {
        file_blocks(workspace, home, page) + page_header(l.len(), skip, window_files)
            + lines_behind(said)
    }
}

/// The path that the texts of steps are.
pub fn steps_of(l: &Vec<String>) -> (r: Vec<Part>)
    ensures
        parts_view(r@) == steps(texts(l@)),
{
    let ghost all = steps(texts(l@));
    let mut r: Vec<Part> = Vec::new();
    let n: usize = l.len();
    let mut i: usize = 0;
    assert(parts_view(r@) =~= all.take(0));
    while i < n
        invariant
            i <= n,
            n == l@.len(),
            all == steps(texts(l@)),
            parts_view(r@) == all.take(i as int),
        decreases n - i,
    {
        let ghost before = parts_view(r@);
        if i == 0 && str_eq(l[0].as_str(), "/") {
            r.push(Part::Root);
        } else {
            r.push(Part::Name(l[i].clone()));
        }
        i += 1;
        assert(parts_view(r@) =~= before.push(all[i - 1]));
        assert(all.take(i as int) =~= before.push(all[i - 1]));
    }
    assert(all.take(n as int) =~= all);
    r
}

/// A file for people.
pub fn show_file(workspace: &Workspace, home: Option<&str>, path: &Vec<String>) -> (r: String)
    ensures
        r@ == shown_file(workspace, opt_view(home), texts(path@)),
{
    let parts = steps_of(path);
    let text = to_text(&parts);
    workspace.display(&parts, text.as_str(), home)
}

/// Says what was found in a file.
fn push_block(body: &mut String, workspace: &Workspace, home: Option<&str>, f: &FileMatches)
    ensures
        final(body)@ == old(body)@ + file_block(workspace, opt_view(home), f@),
{
    let ghost start = body@;
    let shown = show_file(workspace, home, &f.path);
    body.append(shown.as_str());
    body.append("\n");
    let ghost all = lines_view(f.matches@);
    let ghost front = body@;
    let n: usize = f.matches.len();
    let mut i: usize = 0;
    assert(body@ =~= front + match_lines(all.take(0)));
    while i < n
        invariant
            i <= n,
            n == f.matches@.len(),
            all == lines_view(f.matches@),
            body@ == front + match_lines(all.take(i as int)),
        decreases n - i,
    {
        proof {
            assert(all.take(i + 1).drop_last() =~= all.take(i as int));
            assert(all.take(i + 1).last() == f.matches@[i as int]@);
        }
        body.append("  ");
        push_dec(body, f.matches[i].line_number);
        body.append(": ");
        body.append(f.matches[i].line.as_str());
        body.append("\n");
        i += 1;
        assert(body@ =~= front + match_lines(all.take(i as int)));
    }
    assert(all.take(n as int) =~= all);
    if f.truncated {
        body.append("  …该文件命中过多，已截断\n");
    }
    body.append("\n");
    assert(body@ =~= start + file_block(workspace, opt_view(home), f@));
}

/// Says how far a page goes.
fn header(total: usize, skip: usize, window_files: usize) -> (r: String)
    requires
        skip < total,
    ensures
        r@ == page_header(total as nat, skip as nat, window_files as nat),
{
    let mut r = "显示文件 ".to_owned();
    push_dec(&mut r, (skip + 1) as u64);
    r.append("-");
    push_dec(&mut r, total as u64);
    r.append(" / 共 ");
    push_dec(&mut r, total as u64);
    if total >= window_files {
        r.append("+");
    } else {
        r.append("");
    }
    r.append(" 个文件");
    if total >= window_files {
        r.append("。用 skip=");
        push_dec(&mut r, total as u64);
        r.append(" 翻下一页");
    } else {
        r.append("。");
    }
    assert(r@ =~= page_header(total as nat, skip as nat, window_files as nat));
    r
}

/// The text of a page.
fn page_body(
    files: &Vec<FileMatches>,
    skip: usize,
    window_files: usize,
    said: &Vec<String>,
    workspace: &Workspace,
    home: Option<&str>,
) -> (r: String)
    ensures
        r@ == page_text(
            workspace,
            opt_view(home),
            files_view(files@),
            skip as nat,
            window_files as nat,
            texts(said@),
        ),
{
    let ghost all = files_view(files@);
    let ghost given = texts(said@);
    let total: usize = files.len();
    assert(all.len() == total);
    let n: usize = said.len();
    if skip >= total {
        let mut lines: Vec<String> = Vec::new();
        if skip == 0 {
            lines.push("没有匹配".to_owned());
        } else {
            let mut text = "没有更多结果（共 ".to_owned();
            push_dec(&mut text, total as u64);
            text.append(" 个文件；skip=");
            push_dec(&mut text, skip as u64);
            text.append(" 已越过末尾）");
            lines.push(text);
        }
        let ghost first = seq![nothing_text(all.len(), skip as nat)];
        let mut i: usize = 0;
        assert(texts(lines@) =~= first + given.take(0));
        while i < n
            invariant
                i <= n,
                n == said@.len(),
                given == texts(said@),
                texts(lines@) == first + given.take(i as int),
            decreases n - i,
        {
            let ghost before = texts(lines@);
            lines.push(said[i].clone());
            i += 1;
            assert(texts(lines@) =~= before.push(given[i - 1]));
            assert(first + given.take(i as int) =~= before.push(given[i - 1]));
        }
        assert(given.take(n as int) =~= given);
        return join_texts(&lines, "\n");
    }
    let ghost page = page_files(all, skip as nat);
    let ghost h = opt_view(home);
    let mut body = String::new();
    let mut i: usize = skip;
    assert(page.take(0) =~= Seq::<FileView>::empty());
    while i < total
        invariant
            skip <= i <= total,
            skip < total,
            total == files@.len(),
            all == files_view(files@),
            page == all.skip(skip as int),
            h == opt_view(home),
            body@ == file_blocks(workspace, h, page.take(i - skip)),
        decreases total - i,
    {
        proof {
            assert(page.take(i + 1 - skip).drop_last() =~= page.take(i - skip));
            assert(page.take(i + 1 - skip).last() == files@[i as int]@);
        }
        push_block(&mut body, workspace, home, &files[i]);
        i += 1;
    }
    assert(page.take(total - skip) =~= page);
    let head = header(total, skip, window_files);
    body.append(head.as_str());
    let ghost front = body@;
    let mut k: usize = 0;
    assert(body@ =~= front + lines_behind(given.take(0)));
    while k < n
        invariant
            k <= n,
            n == said@.len(),
            given == texts(said@),
            body@ == front + lines_behind(given.take(k as int)),
        decreases n - k,
    {
        proof {
            assert(given.take(k + 1).drop_last() =~= given.take(k as int));
            assert(given.take(k + 1).last() == said@[k as int]@);
        }
        body.append("\n");
        body.append(said[k].as_str());
        k += 1;
        assert(body@ =~= front + lines_behind(given.take(k as int)));
    }
    assert(given.take(n as int) =~= given);
    body
}

/// A page of what was found. It is not worth keeping where it has no file.
pub fn render_page(
    files: &Vec<FileMatches>,
    skip: usize,
    window_files: usize,
    remarks: &Remarks,
    pattern: &str,
    workspace: &Workspace,
    home: Option<&str>,
) -> (r: ToolOutput)
    ensures
        r.text@ == cleaned(
            page_text(
                workspace,
                opt_view(home),
                files_view(files@),
                skip as nat,
                window_files as nat,
                notes_of(remarks, pattern@),
            ),
        ),
        r.title@ == "grep "@ + pattern@,
        r.useless == (skip >= files@.len()),
{
    let said = notes(remarks, pattern);
    let body = page_body(files, skip, window_files, &said, workspace, home);
    let mut title = "grep ".to_owned();
    title.append(pattern);
    let out = finish(body, title);
    if skip >= files.len() {
        out.mark_useless()
    } else {
        out
    }
}

/// The ways that targets are.
pub open spec fn target_ways(l: Seq<TargetView>) -> Seq<Seq<Seq<char>>> {
    Seq::new(l.len(), |i: int| part_texts(l[i].path))
}

/// What is searched for, and where.
pub fn grep_request(args: &ParsedArgs, found: &Vec<Target>) -> (r: GrepRequest)
    ensures
        r.pattern@ == args.pattern@,
        ways(r.roots@) == target_ways(targets_view(found@)),
        r.include_globs@.len() == 0,
        r.exclude_globs@.len() == 0,
        r.case == args.case,
        !r.multiline,
        r.respect_gitignore,
        r.include_hidden,
        r.limits == (GrepLimits {
            max_files: window(args.skip as nat) as usize,
            max_matches_per_file: FILE_MATCHES,
            max_total_matches: total_cap(window(args.skip as nat)) as usize,
            max_file_bytes: 4_194_304,
            timeout_secs: 30,
            max_line_columns: 512,
        }),
{
    let ghost all = target_ways(targets_view(found@));
    let mut roots: Vec<Vec<String>> = Vec::new();
    let n: usize = found.len();
    let mut i: usize = 0;
    assert(ways(roots@) =~= all.take(0));
    while i < n
        invariant
            i <= n,
            n == found@.len(),
            all == target_ways(targets_view(found@)),
            ways(roots@) == all.take(i as int),
        decreases n - i,
    {
        let ghost before = ways(roots@);
        roots.push(texts_of(&found[i].path));
        i += 1;
        assert(ways(roots@) =~= before.push(all[i - 1]));
        assert(all.take(i as int) =~= before.push(all[i - 1]));
    }
    assert(all.take(n as int) =~= all);
    GrepRequest {
        pattern: args.pattern.clone(),
        roots,
        include_globs: Vec::new(),
        exclude_globs: Vec::new(),
        case: args.case,
        multiline: false,
        respect_gitignore: true,
        include_hidden: true,
        limits: search_limits(args.skip),
    }
}

/// What comes of a search: where it failed, that; where the user wanted it to end, that; else a page
/// of the files that have a match in a line that counts.
pub fn report(
    outcome: Result<GrepOutcome, GrepError>,
    cancelled: bool,
    args: &ParsedArgs,
    roots: SearchRoots,
    workspace: &Workspace,
    home: Option<&str>,
) -> (r: Result<ToolOutput, ToolError>)
    ensures
        match (outcome, r) {
            (Err(e), Err(ToolError::Failed(text))) => text@ == cleaned(
                "grep 搜索失败："@ + grep_error_text(e),
            ),
            (Ok(_), Err(e)) => cancelled && e is Cancelled,
            (Ok(o), Ok(out)) => {
                let files = restricted(files_view(o.files@), targets_view(roots.found@));
                let remarks = Remarks {
                    matcher: o.matcher,
                    timed_out: o.timed_out,
                    timeout_secs: 30,
                    missing: roots.missing,
                };
                &&& !cancelled
                &&& out.text@ == cleaned(
                    page_text(
                        workspace,
                        opt_view(home),
                        files,
                        args.skip as nat,
                        window(args.skip as nat),
                        notes_of(&remarks, args.pattern@),
                    ),
                )
                &&& out.title@ == "grep "@ + args.pattern@
                &&& out.useless == (args.skip >= files.len())
            },
            _ => false,
        },
{
    let found = match outcome {
        Ok(o) => o,
        Err(e) => {
            let mut text = "grep 搜索失败：".to_owned();
            let why = e.to_string();
            text.append(why.as_str());
            return Err(error(text.as_str()));
        },
    };
    if cancelled {
        return Err(ToolError::Cancelled);
    }
    let limits = search_limits(args.skip);
    let files = restrict(found.files, &roots.found);
    assert(files_view(files@).len() == files@.len());
    let remarks = Remarks {
        matcher: found.matcher,
        timed_out: found.timed_out,
        timeout_secs: limits.timeout_secs,
        missing: roots.missing,
    };
    Ok(
        render_page(
            &files,
            args.skip,
            limits.max_files,
            &remarks,
            args.pattern.as_str(),
            workspace,
            home,
        ),
    )
}

// Laws

/// A page shows the files behind those that were skipped, all of them, and no more than a page may
/// have where no more were looked for.
pub proof fn lemma_pages(l: Seq<FileView>, skip: nat)
    requires
        skip <= l.len() <= window(skip),
    ensures
        l.take(skip as int) + page_files(l, skip) == l,
        page_files(l, skip).len() <= FILE_WINDOW,
{
    assert(l.take(skip as int) + page_files(l, skip) =~= l);
}

proof fn lemma_matches_within(l: Seq<LineMatchView>, ranges: Seq<LineRange>)
    ensures
        forall|i: int|
            0 <= i < matches_within(l, ranges).len() ==> covers(
                ranges,
                (#[trigger] matches_within(l, ranges)[i]).line_number as nat,
            ),
    decreases l.len(),
{
    if l.len() > 0 {
        let front = matches_within(l.drop_last(), ranges);
        lemma_matches_within(l.drop_last(), ranges);
        assert forall|i: int| 0 <= i < matches_within(l, ranges).len() implies covers(
            ranges,
            (#[trigger] matches_within(l, ranges)[i]).line_number as nat,
        ) by {
            if i < front.len() {
                assert(front[i] == matches_within(l, ranges)[i]);
            }
        }
    }
}

/// What is left of a file where only some lines count is in those lines.
pub proof fn lemma_only_lines_that_count(f: FileView, found: Seq<TargetView>)
    ensures
        ranges_for(found, f.path) matches Some(ranges) ==> forall|i: int|
            0 <= i < narrowed(f, found).matches.len() ==> covers(
                ranges,
                (#[trigger] narrowed(f, found).matches[i]).line_number as nat,
            ),
{
    if let Some(ranges) = ranges_for(found, f.path) {
        lemma_matches_within(f.matches, ranges);
    }
}

} // verus!
