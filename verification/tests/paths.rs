use repo_status::paths::{
    base_name, below, display_name, parent_dir, relative_to, within,
};
use repo_status::text::chars_of;

#[test]
fn parent_dir_drops_the_last_component() {
    assert_eq!(parent_dir("/ws/a"), "/ws");
    assert_eq!(parent_dir("/ws/a/sub"), "/ws/a");
    assert_eq!(parent_dir("/repos/x"), "/repos");
    assert_eq!(parent_dir("a/b"), "a");
}

#[test]
fn parent_dir_of_a_top_level_directory_is_the_root() {
    assert_eq!(parent_dir("/ws"), "/");
    assert_eq!(parent_dir("/"), "/");
    assert_eq!(parent_dir("//"), "/");
}

#[test]
fn parent_dir_of_a_single_relative_component_is_empty() {
    assert_eq!(parent_dir("a"), "");
    assert_eq!(parent_dir(""), "");
}

#[test]
fn parent_dir_ignores_trailing_and_doubled_separators() {
    assert_eq!(parent_dir("a/b/"), "a");
    assert_eq!(parent_dir("/ws/a///"), "/ws");
    assert_eq!(parent_dir("/ws//a"), "/ws");
}

#[test]
fn base_name_is_the_last_component() {
    assert_eq!(base_name("/ws/a"), "a");
    assert_eq!(base_name("/home/me/projects/my-repo"), "my-repo");
    assert_eq!(base_name("a"), "a");
    assert_eq!(base_name("a/b/"), "b");
    assert_eq!(base_name("/"), "");
    assert_eq!(base_name(""), "");
}

#[test]
fn display_name_falls_back_to_the_whole_path() {
    assert_eq!(display_name("/repos/x"), "x");
    assert_eq!(display_name("/"), "/");
    assert_eq!(display_name(""), "");
    assert_eq!(display_name("relative/dir"), "dir");
}

#[test]
fn within_needs_a_component_boundary() {
    assert!(within(&chars_of("/ws/a/sub"), &chars_of("/ws/a")));
    assert!(within(&chars_of("/ws/a"), &chars_of("/ws/a")));
    assert!(within(&chars_of("/ws"), &chars_of("/")));
    assert!(within(&chars_of("/ws/a/"), &chars_of("/ws/a/")));
    assert!(!within(&chars_of("/ws/ab"), &chars_of("/ws/a")));
    assert!(!within(&chars_of("/ws"), &chars_of("/ws/a")));
    assert!(!within(&chars_of("/ws/a"), &chars_of("/ws/b")));
    assert!(!within(&chars_of("x"), &chars_of("")));
    assert!(!within(&chars_of(""), &chars_of("")));
}

#[test]
fn below_is_strict() {
    assert!(below(&chars_of("/ws/a/sub"), &chars_of("/ws/a")));
    assert!(below(&chars_of("/ws"), &chars_of("/")));
    assert!(!below(&chars_of("/ws/a"), &chars_of("/ws/a")));
    assert!(!below(&chars_of("/ws/ab"), &chars_of("/ws/a")));
    assert!(!below(&chars_of("/ws/a"), &chars_of("/ws/b")));
}

#[test]
fn relative_to_shows_the_path_below_the_root() {
    assert_eq!(relative_to("/ws/a/sub/repo", "/ws/a"), "sub/repo");
    assert_eq!(relative_to("/ws/a/repo", "/ws/a"), "repo");
    assert_eq!(relative_to("/x", "/"), "x");
    assert_eq!(relative_to("/ws/a//repo", "/ws/a"), "repo");
}

#[test]
fn relative_to_falls_back_to_the_display_name() {
    assert_eq!(relative_to("/ws/a", "/ws/a"), "a");
    assert_eq!(relative_to("/other/r", "/ws"), "r");
    assert_eq!(relative_to("/ws/ab", "/ws/a"), "ab");
    assert_eq!(relative_to("/ws/a/", "/ws/a"), "a");
    assert_eq!(relative_to("/", "/"), "/");
}
