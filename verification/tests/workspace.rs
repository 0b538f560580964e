//! Where paths lead.

use zcode::text::path::PathCase;
use zcode::workspace::{
    components, normalize_lexically, pick_root, to_text, Part, PathError, Workspace,
};

const ROOT: &str = "/tmp/place/project";

fn workspace_at(root: &str) -> Workspace {
    Workspace::new(components(root), PathCase::Sensitive)
}

fn show(ws: &Workspace, path: &str) -> String {
    ws.display(&components(path), path, Some("/home/me"))
}

#[test]
fn relative_path_joins_root() {
    let ws = workspace_at(ROOT);
    let resolved = ws.resolve("src/main.rs").expect("resolve");
    assert_eq!(resolved.path, components("/tmp/place/project/src/main.rs"));
    assert!(!resolved.outside_root);
}

#[test]
fn absolute_path_is_used_as_is() {
    let ws = workspace_at(ROOT);
    let outside = "/tmp/place/elsewhere";
    let resolved = ws.resolve(outside).expect("resolve");
    assert_eq!(resolved.path, components(outside));
}

#[test]
fn dot_and_dotdot_components_are_eliminated() {
    let ws = workspace_at(ROOT);
    let resolved = ws.resolve("./a/../b/./c").expect("resolve");
    assert_eq!(resolved.path, components("/tmp/place/project/b/c"));
    assert!(!resolved.outside_root);
}

#[test]
fn dotdot_beyond_root_marks_outside_root() {
    let ws = workspace_at(ROOT);
    let resolved = ws.resolve("../escaped").expect("resolve");
    assert!(resolved.outside_root);
    assert_eq!(resolved.path, components("/tmp/place/escaped"));
}

#[test]
fn sibling_directory_with_shared_prefix_is_not_inside_root() {
    let ws = workspace_at("/tmp/place/a");
    let resolved = ws.resolve("/tmp/place/ab").expect("resolve");
    assert!(resolved.outside_root, "root=/a must not match path=/ab by string prefix");
    assert_eq!(resolved.path, components("/tmp/place/ab"));
}

#[test]
fn empty_string_is_rejected() {
    let ws = workspace_at(ROOT);
    let err = ws.resolve("").expect_err("must reject empty");
    assert!(matches!(err, PathError::Empty));
    assert_eq!(err.to_string(), "路径不能为空");
}

#[test]
fn display_relative_to_root() {
    let ws = workspace_at(ROOT);
    assert_eq!(show(&ws, "/tmp/place/project/src/lib.rs"), "src/lib.rs");
    assert_eq!(show(&ws, ROOT), ".");
}

#[test]
fn display_outside_root_falls_back_to_shorten_path() {
    let ws = workspace_at(ROOT);
    let displayed = show(&ws, "/tmp/place/other/file.rs");
    assert!(!displayed.starts_with("other/"));
    assert!(displayed.ends_with("file.rs"));
    assert_eq!(show(&ws, "/home/me/x.rs"), "~/x.rs");
}

#[test]
fn detect_root_finds_git_ancestor() {
    // From `crates/foo` up: the second directory above is the marked one.
    assert_eq!(pick_root(&vec![false, false, true, false]), 2);
}

#[test]
fn detect_root_falls_back_to_cwd_without_git() {
    assert_eq!(pick_root(&vec![false, false, false]), 0);
}

#[test]
fn windows_paths_are_case_insensitive_for_root_containment() {
    let root = vec![
        Part::Prefix("C:".to_owned()),
        Part::Root,
        Part::Name("Project".to_owned()),
    ];
    let ws = Workspace::new(root, PathCase::Insensitive);
    let upper = vec![
        Part::Prefix("C:".to_owned()),
        Part::Root,
        Part::Name("PROJECT".to_owned()),
        Part::Name("src".to_owned()),
        Part::Name("main.rs".to_owned()),
    ];
    let resolved = ws.resolve_parts(&upper);
    assert!(!resolved.outside_root, "大小写不同的同一路径在 Windows 上应仍判定为落在 root 内");
}

#[test]
fn steps_above_a_relative_start_are_kept() {
    let up = normalize_lexically(&components("../a/../../b"));
    assert_eq!(up, vec![Part::Up, Part::Up, Part::Name("b".to_owned())]);
    assert_eq!(to_text(&up), "../../b");
}

#[test]
fn nothing_is_above_the_root() {
    let top = normalize_lexically(&components("/../../a"));
    assert_eq!(to_text(&top), "/a");
    assert_eq!(normalize_lexically(&top), top);
}
