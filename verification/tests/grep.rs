//! Searching in files.

use std::io;

use grep_regex::{RegexMatcher, RegexMatcherBuilder};
use grep_searcher::{BinaryDetection, Searcher, SearcherBuilder, Sink, SinkMatch};
use zcode::schema::json::{Json, Member, Number, NumberKind};
use zcode::text::grep::{
    plan_grep, CaseMode, Entry, GrepError, GrepLimits, GrepOutcome, GrepRequest, LineSink,
    MatcherKind, MatcherPlan, Opened, Search,
};
use zcode::text::path::PathCase;
use zcode::text::width::visible_width;
use zcode::tools::approval::{Concurrency, Tier};
use zcode::tools::grep::{
    grep_approval, grep_concurrency, grep_request, line_in_ranges, parse_args, raw_path, report,
    restrict, search_limits, target_of,
};
use zcode::tools::output::{ToolError, ToolOutput};
use zcode::tools::selector::LineRange;
use zcode::tools::targets::{search_roots, split_targets};
use zcode::workspace::{components, Workspace};

/// Hands what the searcher finds to a sink of the library.
struct Feed {
    sink: LineSink,
}

impl Sink for Feed {
    type Error = io::Error;

    fn matched(&mut self, _searcher: &Searcher, mat: &SinkMatch<'_>) -> Result<bool, io::Error> {
        let line = mat.line_number().ok_or_else(|| io::Error::other("no line number"))?;
        Ok(self.sink.matched(line, mat.bytes(), mat.absolute_byte_offset()))
    }

    fn binary_data(&mut self, _searcher: &Searcher, _offset: u64) -> Result<bool, io::Error> {
        Ok(self.sink.binary_data())
    }
}

fn matcher_of(plan: &MatcherPlan) -> RegexMatcher {
    RegexMatcherBuilder::new()
        .multi_line(plan.multiline)
        .case_insensitive(plan.insensitive)
        .case_smart(plan.smart)
        .build(&plan.pattern)
        .expect("a pattern that was accepted")
}

fn steps(path: &str) -> Vec<String> {
    path.split('/').map(|s| s.to_owned()).collect()
}

/// Searches files that are held in memory: a name and what is in it.
fn grep(
    request: &GrepRequest,
    files: &[(&str, &[u8])],
    cancel: bool,
) -> Result<GrepOutcome, GrepError> {
    let plan = plan_grep(request)?;
    let matcher = matcher_of(&plan.matcher);
    let mut searcher = SearcherBuilder::new()
        .binary_detection(BinaryDetection::quit(0))
        .line_number(true)
        .multi_line(plan.matcher.multiline)
        .build();
    let mut read = |bytes: &[u8]| {
        let limits = &request.limits;
        let sink = LineSink::new(limits.max_matches_per_file, limits.max_line_columns);
        let mut feed = Feed { sink };
        searcher.search_slice(&matcher, bytes, &mut feed).expect("a search");
        Opened::Searched(feed.sink)
    };
    let mut search = Search::new(request.limits);
    for (name, bytes) in files {
        if search.ends(cancel, false) {
            break;
        }
        let entry = Entry::File { path: steps(name), size: bytes.len() as u64 };
        if let Some(path) = search.offer(cancel, false, entry) {
            let result = read(bytes);
            search.opened(path, (*name).to_owned(), result);
        }
    }
    for path in search.begin_deferred(cancel, false) {
        if search.enter_deferred(cancel, false) {
            let name = path.join("/");
            let (_, bytes) = files.iter().find(|(n, _)| *n == name).expect("a file");
            let window = bytes.len().min(request.limits.max_file_bytes as usize);
            let result = read(&bytes[..window]);
            search.opened(path, name, result);
        }
    }
    search.conclude(plan.matcher.kind)
}

fn request(pattern: &str) -> GrepRequest {
    GrepRequest {
        pattern: pattern.to_owned(),
        roots: vec![steps("/w")],
        include_globs: Vec::new(),
        exclude_globs: Vec::new(),
        case: CaseMode::Sensitive,
        multiline: false,
        respect_gitignore: true,
        include_hidden: true,
        limits: GrepLimits::default(),
    }
}

#[test]
fn finds_basic_match_with_line_number() {
    let files: [(&str, &[u8]); 1] = [("a.txt", b"one\ntwo needle\nthree\n")];
    let outcome = grep(&request("needle"), &files, false).unwrap();

    assert_eq!(outcome.files.len(), 1);
    let file = &outcome.files[0];
    assert_eq!(file.matches.len(), 1);
    assert_eq!(file.matches[0].line_number, 2);
    assert!(file.matches[0].line.contains("needle"));
    assert!(!outcome.truncated);
    assert_eq!(outcome.matcher, MatcherKind::Regex);
    assert_eq!(file.matches[0].line, "two needle");
    assert_eq!(file.matches[0].byte_offset, 4);
}

#[test]
fn per_file_cap_truncates_and_flags_outcome() {
    let content = "needle\n".repeat(5);
    let mut req = request("needle");
    req.limits.max_matches_per_file = 2;
    let outcome = grep(&req, &[("many.txt", content.as_bytes())], false).unwrap();

    assert_eq!(outcome.files.len(), 1);
    let file = &outcome.files[0];
    assert_eq!(file.matches.len(), 2);
    assert!(file.truncated);
    assert!(outcome.truncated);
}

#[test]
fn zero_hit_files_do_not_consume_the_result_file_quota() {
    let names: Vec<String> = (0..25).map(|i| format!("noise_{i:02}.txt")).collect();
    let mut files: Vec<(&str, &[u8])> = names
        .iter()
        .map(|n| (n.as_str(), b"nothing interesting here\n" as &[u8]))
        .collect();
    files.push(("zzz_target.txt", b"needle\n"));

    let outcome = grep(&request("needle"), &files, false).unwrap();

    assert_eq!(outcome.files.len(), 1);
    assert_eq!(outcome.files[0].path.last().unwrap(), "zzz_target.txt");
    assert!(outcome.files_searched >= 26, "files_searched = {}", outcome.files_searched);
    assert!(!outcome.truncated);
}

#[test]
fn invalid_regex_degrades_to_literal_match() {
    let files: [(&str, &[u8]); 1] = [("lit.txt", b"call foo(unclosed\n")];
    let outcome = grep(&request("foo(unclosed"), &files, false).unwrap();

    assert_eq!(outcome.matcher, MatcherKind::Literal);
    assert_eq!(outcome.files.len(), 1);
    assert_eq!(outcome.files[0].matches.len(), 1);
}

#[test]
fn nul_byte_stops_read_and_is_counted_as_binary() {
    let files: [(&str, &[u8]); 1] = [("binary.dat", b"before\x00needle-after")];
    let outcome = grep(&request("before"), &files, false).unwrap();

    assert_eq!(outcome.files_searched, 1);
    assert_eq!(outcome.stopped_on_binary, 1);
}

#[test]
fn pre_set_cancel_stops_before_any_file_is_searched() {
    let names: Vec<String> = (0..5).map(|i| format!("f{i}.txt")).collect();
    let files: Vec<(&str, &[u8])> =
        names.iter().map(|n| (n.as_str(), b"needle\n" as &[u8])).collect();
    let outcome = grep(&request("needle"), &files, true).unwrap();

    assert_eq!(outcome.files_searched, 0);
    assert_eq!(outcome.total_matches, 0);
    assert!(outcome.truncated);
}

#[test]
fn long_cjk_line_is_truncated_by_display_width() {
    let cjk_tail = "中".repeat(40);
    let content = format!("needle {cjk_tail}\n");
    let mut req = request("needle");
    req.limits.max_line_columns = 20;
    let outcome = grep(&req, &[("wide.txt", content.as_bytes())], false).unwrap();

    let line = &outcome.files[0].matches[0].line;
    assert!(visible_width(line) <= 20);
    assert!(line.len() < content.len());
}

#[test]
fn empty_pattern_is_rejected() {
    let err = grep(&request(""), &[], false).unwrap_err();
    assert!(matches!(err, GrepError::EmptyPattern));
}

#[test]
fn oversized_files_come_last_and_only_their_start_is_read() {
    let big = format!("needle\n{}needle\n", "x\n".repeat(100));
    let mut req = request("needle");
    req.limits.max_file_bytes = 50;
    let files: [(&str, &[u8]); 2] = [("big.txt", big.as_bytes()), ("small.txt", b"needle\n")];
    let outcome = grep(&req, &files, false).unwrap();
    assert_eq!(outcome.files.len(), 2);
    assert_eq!(outcome.files[0].path, steps("big.txt"));
    assert_eq!(outcome.files[0].matches.len(), 1);
    assert_eq!(outcome.skipped_oversized, 0);
    assert!(outcome.truncated);

    req.limits.max_files = 1;
    let outcome = grep(&req, &files, false).unwrap();
    assert_eq!(outcome.files.len(), 1);
    assert_eq!(outcome.files[0].path, steps("small.txt"));
    assert_eq!(outcome.skipped_oversized, 1);
    assert!(outcome.truncated);
}

#[test]
fn a_match_behind_the_searched_start_is_missed_and_that_is_told() {
    let big = format!("{}needle\n", "x\n".repeat(100));
    let mut req = request("needle");
    req.limits.max_file_bytes = 50;
    let outcome = grep(&req, &[("big.txt", big.as_bytes())], false).unwrap();
    assert!(outcome.files.is_empty());
    assert_eq!(outcome.files_searched, 1);
    assert!(outcome.truncated);
}

#[test]
fn the_total_is_capped() {
    let content = "needle\n".repeat(5);
    let mut req = request("needle");
    req.limits.max_total_matches = 7;
    let files = [("a.txt", content.as_bytes()), ("b.txt", content.as_bytes())];
    let outcome = grep(&req, &files, false).unwrap();
    assert_eq!(outcome.total_matches, 7);
    assert_eq!(outcome.files[1].matches.len(), 2);
    assert!(outcome.files[1].truncated);
}

#[test]
fn a_fault_ends_the_search() {
    let mut search = Search::new(GrepLimits::default());
    let broken = Entry::Unreachable { benign: true, reason: "gone".to_owned() };
    assert!(search.offer(false, false, broken).is_none());
    assert!(!search.ends(false, false));
    let path = search
        .offer(false, false, Entry::File { path: steps("a"), size: 1 })
        .expect("a file to open");
    search.opened(path, "a".to_owned(), Opened::Failed("disk".to_owned()));
    assert!(search.ends(false, false));
    let err = search.conclude(MatcherKind::Regex).unwrap_err();
    assert!(matches!(&err, GrepError::Io { path, reason } if path == "a" && reason == "disk"));
    assert_eq!(err.to_string(), "读取文件 `a` 失败");
}

#[test]
fn rules_for_names_are_kept_apart() {
    let mut req = request("x");
    req.include_globs = vec!["*.rs".to_owned()];
    req.exclude_globs = vec!["target".to_owned()];
    let plan = plan_grep(&req).unwrap();
    let rules: Vec<&str> = plan.rules.iter().map(|r| r.rule.as_str()).collect();
    assert_eq!(rules, ["*.rs", "!target"]);
    assert_eq!(plan.rules[1].glob, "target");
    assert!(!plan.skip_hidden);
}

#[test]
fn a_rule_that_is_none_is_told_as_it_was_written() {
    let mut req = request("x");
    req.include_globs = vec!["*.rs".to_owned(), "[".to_owned()];
    req.exclude_globs = vec!["{a".to_owned()];
    match plan_grep(&req) {
        Err(GrepError::InvalidGlob { glob, reason }) => {
            assert_eq!(glob, "[");
            assert!(reason.contains("unclosed character class"), "{reason}");
        }
        other => panic!("{other:?}"),
    }
    req.include_globs = Vec::new();
    match plan_grep(&req) {
        Err(GrepError::InvalidGlob { glob, .. }) => assert_eq!(glob, "{a"),
        other => panic!("{other:?}"),
    }
}

#[test]
fn case_can_be_looked_over() {
    let files: [(&str, &[u8]); 1] = [("a.txt", b"Needle\n")];
    let mut req = request("needle");
    assert_eq!(grep(&req, &files, false).unwrap().total_matches, 0);
    req.case = CaseMode::Insensitive;
    assert_eq!(grep(&req, &files, false).unwrap().total_matches, 1);
    req.case = CaseMode::Smart;
    assert_eq!(grep(&req, &files, false).unwrap().total_matches, 1);
}

// The tool

fn ws() -> Workspace {
    Workspace::new(components("/w"), PathCase::Sensitive)
}

fn number(n: u64) -> Json {
    Json::Number(Number {
        kind: NumberKind::Unsigned(n),
        bits: (n as f64).to_bits(),
        text: n.to_string(),
    })
}

fn object(members: Vec<(&str, Json)>) -> Json {
    Json::Object(
        members
            .into_iter()
            .map(|(k, v)| Member { key: k.to_owned(), value: v })
            .collect(),
    )
}

fn text(s: &str) -> Json {
    Json::Text(s.to_owned())
}

/// A call of the tool over files in memory, of which those in `exists` can be named as targets.
fn call(args: &Json, exists: &[&str], files: &[(&str, &[u8])]) -> Result<ToolOutput, ToolError> {
    let parsed = parse_args(args)?;
    let mut targets = Vec::new();
    for raw in split_targets(&raw_path(args)) {
        let literal = exists.contains(&raw.as_str());
        targets.push(target_of(&ws(), &raw, literal)?);
    }
    let exists_at = targets.iter().map(|t| exists.contains(&t.raw.as_str())).collect();
    let roots = search_roots(targets, &exists_at, &ws(), None)?;
    let request = grep_request(&parsed, &roots.found);
    let outcome = grep(&request, files, false);
    report(outcome, false, &parsed, roots, &ws(), None)
}

#[test]
fn finds_a_hit() {
    let files: [(&str, &[u8]); 1] = [("/w/main.rs", b"fn main() {\n    needle_here();\n}\n")];
    let out = call(&object(vec![("pattern", text("needle_here"))]), &["."], &files)
        .expect("grep must succeed");
    let text = out.text;
    assert!(text.contains("main.rs"), "命中文件必须出现: {text}");
    assert!(text.contains("needle_here"), "命中行必须出现: {text}");
    assert!(!out.useless);
}

#[test]
fn reports_no_match() {
    let files: [(&str, &[u8]); 1] = [("/w/main.rs", b"fn main() {}\n")];
    let out = call(&object(vec![("pattern", text("nonexistent_needle"))]), &["."], &files)
        .expect("zero matches is a success, not an error");
    assert!(out.useless, "零命中必须标记 useless");
    assert!(out.text.contains("没有匹配"));
}

#[test]
fn pagination_past_the_end_has_distinct_wording() {
    let files: [(&str, &[u8]); 2] = [("/w/a.rs", b"needle\n"), ("/w/b.rs", b"needle\n")];
    let args = object(vec![("pattern", text("needle")), ("skip", number(5))]);
    let out = call(&args, &["."], &files).expect("skip past the end is still a success");
    let text = out.text;
    assert!(out.useless);
    assert!(text.contains("没有更多结果"), "越界翻页文案必须和零命中区分开: {text}");
    assert!(text.contains("共 2 个文件"), "必须报告已知的文件总数: {text}");
    assert!(text.contains("skip=5"), "必须回显请求的 skip 值: {text}");
}

#[test]
fn invalid_regex_degrades_to_literal_and_says_so() {
    let files: [(&str, &[u8]); 1] = [("/w/weird.txt", b"prefix (unterminated suffix\n")];
    let out = call(&object(vec![("pattern", text("(unterminated"))]), &["."], &files)
        .expect("非法正则必须退化为字面量而不是报错");
    let text = out.text;
    assert!(text.contains("weird.txt"), "字面量匹配必须真的生效: {text}");
    assert!(
        text.contains("已退化为按字面量子串匹配"),
        "必须明确告知降级，不能静默: {text}"
    );
}

#[test]
fn only_lines_that_were_asked_for_are_shown() {
    let files: [(&str, &[u8]); 1] = [("/w/a.rs", b"needle 1\nneedle 2\nneedle 3\n")];
    let args = object(vec![("pattern", text("needle")), ("path", text("a.rs:2-3"))]);
    let parsed = parse_args(&args).expect("arguments");
    let target = target_of(&ws(), "a.rs:2-3", false).expect("a target");
    assert_eq!(target.path, components("/w/a.rs"));
    let targets = vec![target];
    let outcome = grep(&grep_request(&parsed, &targets), &files, false).unwrap();
    let mut found = outcome.files;
    found[0].path = zcode::workspace::texts_of(&components("/w/a.rs"));
    let kept = restrict(found, &targets);
    assert_eq!(kept.len(), 1);
    let lines: Vec<u64> = kept[0].matches.iter().map(|m| m.line_number).collect();
    assert_eq!(lines, [2, 3]);
    let ranges = vec![LineRange { start: 2, end: Some(3) }, LineRange { start: 9, end: None }];
    assert!(!line_in_ranges(1, &ranges));
    assert!(line_in_ranges(3, &ranges));
    assert!(!line_in_ranges(8, &ranges));
    assert!(line_in_ranges(1000, &ranges));
}

#[test]
fn a_later_page_takes_more_files() {
    assert_eq!(search_limits(0).max_files, search_limits(10).max_files - 10);
    assert_eq!(grep_approval().tier, Tier::Read);
    assert_eq!(grep_concurrency(), Concurrency::Shared);
}

#[test]
fn search_errors_are_told_in_words() {
    let glob = GrepError::InvalidGlob { glob: "[".to_owned(), reason: "unclosed".to_owned() };
    assert_eq!(glob.to_string(), "glob 模式 `[` 无效");
    assert_eq!(GrepError::Walk { reason: String::new() }.to_string(), "遍历目录失败");
    assert_eq!(GrepError::EmptyPattern.to_string(), "搜索模式不能为空");
}

#[test]
fn a_pattern_is_needed() {
    assert!(matches!(parse_args(&object(Vec::new())), Err(ToolError::Failed(_))));
}
