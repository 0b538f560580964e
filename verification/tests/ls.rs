//! Listing directories.

use zcode::schema::json::{Json, Member};
use zcode::text::path::PathCase;
use zcode::tools::approval::{Concurrency, Tier};
use zcode::tools::ls::{
    check_place, ls_approval, ls_concurrency, plan_ls, render, report_listing, Place, Walk,
    WalkEntry, WalkOptions, WalkResult, LS_MAX_DEPTH, LS_MAX_ENTRIES,
};
use zcode::tools::output::ToolError;
use zcode::workspace::{components, Workspace};

/// Every file and directory below a root, each directory before what is in it, by name.
fn tree(files: &[String]) -> Vec<WalkEntry> {
    let mut all: Vec<(Vec<String>, bool)> = Vec::new();
    for file in files {
        let steps: Vec<String> = file.split('/').map(|s| s.to_owned()).collect();
        for n in 1..=steps.len() {
            let entry = (steps[..n].to_vec(), n < steps.len());
            if !all.contains(&entry) {
                all.push(entry);
            }
        }
    }
    all.sort();
    all.into_iter()
        .map(|(relative, is_dir)| WalkEntry { depth: relative.len(), relative, is_dir })
        .collect()
}

fn walk(files: &[String], options: WalkOptions) -> WalkResult {
    let mut walk = Walk::new(options);
    for entry in tree(files) {
        if entry.depth <= options.max_depth && !walk.offer(entry) {
            break;
        }
    }
    walk.finish()
}

fn options(max_depth: usize, per_dir_limit: usize, max_entries: usize) -> WalkOptions {
    WalkOptions { max_depth, per_dir_limit, max_entries, respect_gitignore: false }
}

fn steps(path: &str) -> Vec<String> {
    path.split('/').map(|s| s.to_owned()).collect()
}

#[test]
fn respects_max_depth() {
    let files = ["a/b/c/d/e/f/too_deep.txt".to_owned(), "a/shallow.txt".to_owned()];
    let result = walk(&files, options(2, 100, 1000));
    let deepest = result.entries.iter().map(|e| e.depth).max().unwrap_or(0);
    assert!(deepest <= 2, "深度应被限制在 2 层以内，实际最深 {deepest}");
    assert!(result.entries.iter().any(|e| e.relative == steps("a/shallow.txt")));
    assert!(!result.entries.iter().any(|e| e.relative.last().unwrap() == "too_deep.txt"));
}

#[test]
fn respects_max_entries_cap() {
    let files: Vec<String> = (0..20).map(|i| format!("file{i}.txt")).collect();
    let result = walk(&files, options(5, 100, 5));
    assert_eq!(result.entries.len(), 5);
    assert!(result.truncated);
}

#[test]
fn respects_per_dir_limit() {
    let files: Vec<String> = (0..10).map(|i| format!("file{i}.txt")).collect();
    let result = walk(&files, options(5, 3, 1000));
    assert_eq!(result.entries.len(), 3);
    assert!(result.truncated);
}

#[test]
fn what_is_in_a_skipped_directory_stays_out() {
    let files = ["a.txt".to_owned(), "b/c.txt".to_owned(), "b/d/e.txt".to_owned()];
    let result = walk(&files, options(5, 1, 1000));
    assert_eq!(result.entries.len(), 1);
    assert_eq!(result.entries[0].relative, steps("a.txt"));
}

#[test]
fn directory_entries_get_trailing_slash() {
    let result = walk(&["sub/file.txt".to_owned()], options(5, 100, 1000));
    let rendered = render(".", &result);
    assert!(rendered.contains("sub/\n"));
    assert!(rendered.contains("file.txt\n"));
    assert_eq!(rendered, "./\nsub/\n  file.txt\n\n1 个文件，1 个目录");
}

#[test]
fn render_reports_empty_directory() {
    let result = WalkResult { entries: Vec::new(), truncated: false };
    let rendered = render(".", &result);
    assert!(rendered.contains("空目录"));
    assert_eq!(report_listing("d", &result).title, "目录 d");
}

fn args(path: Option<&str>, all: Option<bool>) -> Json {
    let mut members = Vec::new();
    if let Some(p) = path {
        members.push(Member { key: "path".to_owned(), value: Json::Text(p.to_owned()) });
    }
    if let Some(b) = all {
        members.push(Member { key: "all".to_owned(), value: Json::Flag(b) });
    }
    Json::Object(members)
}

#[test]
fn the_root_is_listed_where_nothing_is_named() {
    let ws = Workspace::new(components("/w"), PathCase::Sensitive);
    let plan = plan_ls(&ws, &args(None, None), None).expect("a plan");
    assert_eq!(plan.path, components("/w"));
    assert_eq!(plan.display_path, ".");
    assert_eq!(plan.options.max_depth, LS_MAX_DEPTH);
    assert_eq!(plan.options.max_entries, LS_MAX_ENTRIES);
    assert!(plan.options.respect_gitignore);
    let plan = plan_ls(&ws, &args(Some("src"), Some(true)), None).expect("a plan");
    assert_eq!(plan.path, components("/w/src"));
    assert!(!plan.options.respect_gitignore);
    assert!(plan_ls(&ws, &args(Some(""), None), None).is_err());
}

#[test]
fn outside_the_root_more_agreement_is_needed() {
    let ws = Workspace::new(components("/w"), PathCase::Sensitive);
    assert_eq!(ls_approval(&ws, &args(None, None)).tier, Tier::Read);
    assert_eq!(ls_approval(&ws, &args(Some("../x"), None)).tier, Tier::Write);
    assert_eq!(ls_concurrency(), Concurrency::Shared);
}

#[test]
fn only_a_directory_can_be_listed() {
    assert!(check_place("d", &Place::Directory).is_ok());
    assert_eq!(
        check_place("f", &Place::File),
        Err(ToolError::Failed("'f' 不是目录。".to_owned()))
    );
    assert_eq!(
        check_place("x", &Place::Unreachable("gone".to_owned())),
        Err(ToolError::Failed("无法访问 'x': gone".to_owned()))
    );
}
