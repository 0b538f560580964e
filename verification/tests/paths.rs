//! Paths for people.

use zcode::text::path::{shorten_path, PathCase};

#[test]
fn shorten_path_replaces_home_prefix_with_tilde() {
    let home = "/home/foo";
    let path = "/home/foo/documents/x.txt";
    assert_eq!(shorten_path(path, Some(home), PathCase::Sensitive), "~/documents/x.txt");
}

#[test]
fn shorten_path_exact_home_match_returns_bare_tilde() {
    let home = "/home/foo";
    assert_eq!(shorten_path(home, Some(home), PathCase::Sensitive), "~");
}

#[test]
fn shorten_path_does_not_false_match_sibling_directory() {
    let home = "/home/foo";
    let path = "/home/foobar/file.txt";
    assert_eq!(shorten_path(path, Some(home), PathCase::Sensitive), "/home/foobar/file.txt");
}

#[test]
fn shorten_path_outside_home_is_unchanged() {
    let home = "/home/foo";
    let path = "/var/log/syslog";
    assert_eq!(shorten_path(path, Some(home), PathCase::Sensitive), "/var/log/syslog");
}

#[test]
fn shorten_path_none_home_only_normalizes_separators() {
    let path = "some/relative/path";
    assert_eq!(shorten_path(path, None, PathCase::Sensitive), "some/relative/path");
}

#[test]
fn shorten_path_normalizes_backslashes_to_forward_slashes() {
    let home = "C:/Users/foo".replace('/', std::path::MAIN_SEPARATOR_STR);
    let path = "C:/Users/foo/Documents/file.txt".replace('/', std::path::MAIN_SEPARATOR_STR);
    assert_eq!(shorten_path(&path, Some(&home), PathCase::Sensitive), "~/Documents/file.txt");
}

#[test]
fn shorten_path_home_with_trailing_separator_still_matches() {
    let home = "/home/foo/";
    let path = "/home/foo/bar.txt";
    assert_eq!(shorten_path(path, Some(home), PathCase::Sensitive), "~/bar.txt");
}

#[test]
fn shorten_path_windows_drive_letter_case_insensitive() {
    let home = r"C:\Users\Alice";
    let path = r"c:\Users\Alice\project\file.txt";
    assert_eq!(shorten_path(path, Some(home), PathCase::Insensitive), "~/project/file.txt");
}

#[test]
fn shorten_path_windows_component_case_insensitive() {
    let home = r"C:\Users\Alice";
    let path = r"C:\Users\alice\Documents\notes.txt";
    assert_eq!(shorten_path(path, Some(home), PathCase::Insensitive), "~/Documents/notes.txt");
}


#[test]
fn case_matters_where_it_does() {
    assert_eq!(
        shorten_path("/HOME/foo/x", Some("/home/foo"), PathCase::Sensitive),
        "/HOME/foo/x"
    );
    assert_eq!(
        shorten_path("/HOME/foo/x", Some("/home/foo"), PathCase::Insensitive),
        "~/x"
    );
}

#[test]
fn the_home_directory_is_never_shown() {
    for path in ["/home/me", "/home/me/a/b", "/home/me/"] {
        let shown = shorten_path(path, Some("/home/me/"), PathCase::Sensitive);
        assert!(shown.starts_with('~'), "{shown}");
    }
    assert_eq!(shorten_path("/home/me2", Some("/home/me"), PathCase::Sensitive), "/home/me2");
}

#[test]
fn a_separator_at_the_end_does_not_make_another_home() {
    for (path, home) in [
        ("/home/foo/", "/home/foo/"),
        ("/home/foo", "/home/foo/"),
        ("/home/foo/", "/home/foo"),
    ] {
        assert_eq!(shorten_path(path, Some(home), PathCase::Sensitive), "~");
    }
    assert_eq!(shorten_path("/home/foo/a/", Some("/home/foo/"), PathCase::Sensitive), "~/a/");
    assert_eq!(shorten_path("/", Some("/home/foo"), PathCase::Sensitive), "/");
}
