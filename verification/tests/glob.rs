//! Finding files by their names.

use zcode::schema::json::{Json, Member, Number, NumberKind};
use zcode::text::path::PathCase;
use zcode::tools::approval::{Concurrency, Tier};
use zcode::tools::glob::{
    check_pattern, clamp_limit, glob_approval, glob_concurrency, glob_target, invalid_pattern, is_filesystem_root,
    normalize_root_alias, parse_args, rank_hits, report, GlobHit, WalkOutcome, DEFAULT_LIMIT,
    MAX_LIMIT,
};
use zcode::tools::output::{ToolError, ToolOutput};
use zcode::tools::targets::{search_roots, split_targets, Target};
use zcode::workspace::{components, to_text, Workspace};

fn ws() -> Workspace {
    Workspace::new(components("/w"), PathCase::Sensitive)
}

fn object(members: &[(&str, Json)]) -> Json {
    Json::Object(
        members
            .iter()
            .map(|(k, v)| Member { key: (*k).to_owned(), value: v.duplicate() })
            .collect(),
    )
}

fn text(s: &str) -> Json {
    Json::Text(s.to_owned())
}

fn hit(path: &str, mtime: i128) -> GlobHit {
    let steps = path.split('/').map(|s| s.to_owned()).collect();
    GlobHit { path: steps, is_dir: false, mtime }
}

/// A call over files that are there: the walk finds `hits` below each root that exists.
fn call(args: &Json, exists: &[&str], hits: Vec<GlobHit>) -> Result<ToolOutput, ToolError> {
    let parsed = parse_args(args)?;
    let mut targets: Vec<Target> = Vec::new();
    for raw in split_targets(&parsed.raw_path) {
        targets.push(glob_target(&ws(), &raw)?);
    }
    let exists_at = targets.iter().map(|t| exists.contains(&to_text(&t.path).as_str())).collect();
    let roots = search_roots(targets, &exists_at, &ws(), None)?;
    let mut walk = WalkOutcome::new();
    for _ in &roots.found {
        if !walk.enter_root(false, false) {
            break;
        }
        for h in &hits {
            if !walk.enter_entry(false, false) {
                break;
            }
            let copy = GlobHit { path: h.path.clone(), is_dir: h.is_dir, mtime: h.mtime };
            walk.found(1, copy);
        }
    }
    report(walk, false, &parsed, &roots.missing, &ws(), None)
}

#[test]
fn pure_slash_inputs_are_rewritten_not_rejected() {
    assert_eq!(normalize_root_alias("/"), ".");
    assert_eq!(normalize_root_alias("//"), ".");
    assert_eq!(normalize_root_alias("///"), ".");
    assert_eq!(normalize_root_alias("src"), "src");
    assert_eq!(normalize_root_alias(""), "");
}

#[test]
fn filesystem_root_has_no_parent() {
    assert!(is_filesystem_root(&components("/")));
    assert!(!is_filesystem_root(&components("/etc")));
    assert!(!is_filesystem_root(&components("relative")));
}

#[test]
fn limit_can_only_be_lowered() {
    assert_eq!(clamp_limit(None), DEFAULT_LIMIT);
    assert_eq!(clamp_limit(Some(5)), 5);
    assert_eq!(clamp_limit(Some(10_000)), MAX_LIMIT);
    assert_eq!(clamp_limit(Some(1)), 1);
}

#[test]
fn multi_path_skips_missing_and_lists_them() {
    let args = object(&[("pattern", text("*.rs")), ("path", text("does-not-exist; ."))]);
    let out = call(&args, &["/w"], vec![hit("/w/keep.rs", 1)])
        .expect("multi-path call with one missing base dir must succeed");
    let text = out.text;
    assert!(text.contains("keep.rs"), "命中的文件必须出现在结果里: {text}");
    assert!(text.contains("已跳过不存在的路径"), "缺失的目标必须被列出: {text}");
    assert!(text.contains("does-not-exist"), "缺失路径名要出现在提示里: {text}");
}

#[test]
fn single_missing_path_is_a_hard_error() {
    let args = object(&[("pattern", text("*.rs")), ("path", text("does-not-exist"))]);
    let err = call(&args, &["/w"], Vec::new())
        .expect_err("单路径缺失必须保持 ENOENT 语义，不能静默返回空结果");
    assert!(matches!(err, ToolError::Failed(msg) if msg.contains("路径不存在")));
}

#[test]
fn empty_result_is_marked_useless() {
    let args = object(&[("pattern", text("*.nonexistent-ext"))]);
    let out = call(&args, &["/w"], Vec::new()).expect("zero matches is a success, not an error");
    assert!(out.useless, "零结果必须标记 useless");
    assert!(out.text.contains("没有找到"));
}

#[test]
fn results_are_sorted_newest_first() {
    let args = object(&[("pattern", text("*.txt"))]);
    let hits = vec![hit("/w/a.txt", 10), hit("/w/b.txt", 60), hit("/w/c.txt", 110)];
    let text = call(&args, &["/w"], hits).expect("glob must succeed").text;
    let pos_a = text.find("a.txt").expect("a.txt present");
    let pos_b = text.find("b.txt").expect("b.txt present");
    let pos_c = text.find("c.txt").expect("c.txt present");
    assert!(pos_c < pos_b && pos_b < pos_a, "必须按 mtime 倒序（最新在前）: {text}");
}

#[test]
fn each_path_is_listed_once() {
    let ranked = rank_hits(vec![
        hit("/w/b", 5),
        hit("/w/a", 5),
        hit("/w/b", 5),
        hit("/w/c", 9),
        hit("/w/a", 5),
    ]);
    let names: Vec<String> = ranked.iter().map(|h| h.path.join("/")).collect();
    assert_eq!(names.len(), 3);
    assert_eq!(names[0], "/w/c");
    assert_eq!(names.iter().filter(|n| *n == "/w/a").count(), 1);
}

#[test]
fn a_walk_ends_when_time_is_up_or_when_told() {
    let mut walk = WalkOutcome::new();
    assert!(walk.enter_root(false, false));
    assert!(!walk.enter_entry(false, true));
    assert!(walk.timed_out);
    let mut walk = WalkOutcome::new();
    assert!(walk.enter_root(false, false));
    assert!(!walk.enter_entry(true, false));
    assert!(!walk.timed_out);
    assert!(!walk.enter_root(true, false));
    assert!(walk.timed_out);
    let args = parse_args(&object(&[("pattern", text("*"))])).expect("arguments");
    let out = report(walk, true, &args, &Vec::new(), &ws(), None);
    assert_eq!(out, Err(ToolError::Cancelled));
}

#[test]
fn the_limit_cuts_the_list_and_says_so() {
    let two = Number { kind: NumberKind::Unsigned(2), bits: 2.0f64.to_bits(), text: "2".to_owned() };
    let args = object(&[("pattern", text("*")), ("limit", Json::Number(two))]);
    let hits = vec![hit("/w/a", 1), hit("/w/b", 2), hit("/w/c", 3)];
    let text = call(&args, &["/w"], hits).expect("some files").text;
    assert!(text.contains('c') && text.contains('b'), "{text}");
    assert!(!text.contains("\na\n"), "{text}");
}

#[test]
fn calls_that_cannot_be_are_refused() {
    assert!(matches!(parse_args(&object(&[])), Err(ToolError::Failed(_))));
    assert!(matches!(glob_target(&ws(), "/.."), Err(ToolError::Failed(_))));
    assert!(check_pattern("**/*.rs").is_ok());
    match check_pattern("[").expect_err("no pattern") {
        ToolError::Failed(text) => {
            assert!(text.starts_with("glob 模式 `[` 无效："), "{text}");
            assert!(text.contains("unclosed character class"), "{text}");
        }
        other => panic!("{other:?}"),
    }
    match invalid_pattern("[", "unclosed") {
        ToolError::Failed(text) => assert!(text.contains('[') && text.contains("unclosed")),
        other => panic!("{other:?}"),
    }
    assert_eq!(glob_approval().tier, Tier::Read);
    assert_eq!(glob_concurrency(), Concurrency::Shared);
}
