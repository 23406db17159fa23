use ziper::path::{resolve_path, sanitize_path};
use ziper::text::decimal_text;

#[test]
fn sanitize_drops_idle_and_parent_components() {
    assert_eq!(sanitize_path("a/../b"), "b");
    assert_eq!(sanitize_path("../../etc/passwd"), "etc/passwd");
    assert_eq!(sanitize_path("a/./b//c"), "a/b/c");
    assert_eq!(sanitize_path("a/b/../../../c"), "c");
    assert_eq!(sanitize_path(".."), "");
    assert_eq!(sanitize_path("..."), "...");
    assert_eq!(sanitize_path(""), "");
}

#[test]
fn sanitize_drops_leading_separators() {
    assert_eq!(sanitize_path("/a/b"), "a/b");
    assert_eq!(sanitize_path("\\\\server\\share"), "server/share");
    assert_eq!(sanitize_path("//"), "");
}

#[test]
fn sanitize_takes_backslashes_for_slashes() {
    assert_eq!(sanitize_path("a\\b\\..\\c"), "a/c");
}

#[test]
fn sanitize_keeps_the_mark_of_a_folder() {
    assert_eq!(sanitize_path("a/b/"), "a/b/");
    assert_eq!(sanitize_path("a\\b\\"), "a/b/");
    assert_eq!(sanitize_path("a/../"), "");
    assert_eq!(sanitize_path("/"), "");
}

#[test]
fn sanitize_twice_is_sanitize_once() {
    for path in ["a/../b/", "/x//y\\z", "./.", "..", "é/ü/../ö"] {
        let once = sanitize_path(path);
        assert_eq!(sanitize_path(&once), once);
    }
}

#[test]
fn relative_names_are_taken_from_the_folder() {
    assert_eq!(resolve_path("", "a.txt"), "a.txt");
    assert_eq!(resolve_path("docs/", "a.txt"), "docs/a.txt");
    assert_eq!(resolve_path("docs/", ""), "docs/");
    assert_eq!(resolve_path("docs/", "../a.txt"), "docs/../a.txt");
}

#[test]
fn absolute_names_are_taken_from_the_root() {
    assert_eq!(resolve_path("docs/", "/a.txt"), "a.txt");
    assert_eq!(resolve_path("docs/", "///a//b"), "a//b");
    assert_eq!(resolve_path("docs/", "/"), "");
}

#[test]
fn control_codes_are_dropped() {
    assert_eq!(resolve_path("", "a\u{0}b\n\u{7f}\u{9f}c"), "abc");
    assert_eq!(resolve_path("d\u{1}/", "e"), "d/e");
    assert_eq!(resolve_path("", "\u{1}/a"), "/a");
    assert_eq!(resolve_path("", "a\u{a0}b"), "a\u{a0}b");
}

#[test]
fn numbers_are_written_in_decimal() {
    assert_eq!(decimal_text(0), "0");
    assert_eq!(decimal_text(9), "9");
    assert_eq!(decimal_text(10), "10");
    assert_eq!(decimal_text(90817), "90817");
    assert_eq!(decimal_text(usize::MAX), usize::MAX.to_string());
}
