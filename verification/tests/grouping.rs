use repo_status::grouping::{group_by_section, heading};
use repo_status::model::{ErrorKind, GitState, RepoResult};

fn ok_row(directory: &str, group: &str) -> RepoResult {
    RepoResult::success(
        String::from(directory),
        String::from(group),
        GitState {
            branch: String::from("main"),
            last_commit_subject: String::from("Subject"),
            is_clean: true,
            has_unpushed: Some(false),
        },
    )
}

fn bad_row(directory: &str, group: &str) -> RepoResult {
    RepoResult::failure(String::from(directory), String::from(group), ErrorKind::InvalidDirectory)
}

fn names(list: &[&str]) -> Vec<String> {
    list.iter().map(|s| String::from(*s)).collect()
}

#[test]
fn groups_follow_the_order_of_the_sections() {
    let rows = vec![
        ok_row("/w/api", "work"),
        ok_row("/w/web", "work"),
        ok_row("/h/dotfiles", "home"),
        bad_row("/h/gone", "home"),
        ok_row("/o/tool", "oss"),
    ];
    let groups = group_by_section(&names(&["work", "home", "oss"]), &rows);
    assert_eq!(groups.len(), 3);
    assert_eq!(groups[0].key, "work");
    assert_eq!(groups[1].key, "home");
    assert_eq!(groups[2].key, "oss");
    assert_eq!(groups[0].rows, vec![rows[0].clone(), rows[1].clone()]);
    assert_eq!(groups[1].rows, vec![rows[2].clone(), rows[3].clone()]);
    assert_eq!(groups[2].rows, vec![rows[4].clone()]);

    let groups = group_by_section(&names(&["oss", "work", "home"]), &rows);
    assert_eq!(groups.len(), 3);
    assert_eq!(groups[0].key, "oss");
    assert_eq!(groups[1].key, "work");
    assert_eq!(groups[2].key, "home");
}

#[test]
fn rows_of_a_group_keep_their_order_when_sections_interleave() {
    let rows = vec![
        ok_row("/1", "b"),
        ok_row("/2", "a"),
        ok_row("/3", "b"),
        ok_row("/4", "a"),
        ok_row("/5", "b"),
    ];
    let groups = group_by_section(&names(&["a", "b"]), &rows);
    assert_eq!(groups.len(), 2);
    assert_eq!(groups[0].key, "a");
    assert_eq!(groups[0].rows, vec![rows[1].clone(), rows[3].clone()]);
    assert_eq!(groups[1].key, "b");
    assert_eq!(groups[1].rows, vec![rows[0].clone(), rows[2].clone(), rows[4].clone()]);
}

#[test]
fn a_section_without_rows_gives_no_group() {
    let rows = vec![ok_row("/1", "a")];
    let groups = group_by_section(&names(&["empty", "a", "also-empty"]), &rows);
    assert_eq!(groups.len(), 1);
    assert_eq!(groups[0].key, "a");
}

#[test]
fn rows_of_an_unknown_section_are_left_out() {
    let rows = vec![ok_row("/1", "a"), ok_row("/2", "stray")];
    let groups = group_by_section(&names(&["a"]), &rows);
    assert_eq!(groups.len(), 1);
    assert_eq!(groups[0].rows, vec![rows[0].clone()]);
}

#[test]
fn no_rows_give_no_groups() {
    assert!(group_by_section(&names(&["a", "b"]), &Vec::new()).is_empty());
    assert!(group_by_section(&Vec::new(), &vec![ok_row("/1", "a")]).is_empty());
}

#[test]
fn section_headings_are_upper_case() {
    let rows = vec![ok_row("/1", "work"), ok_row("/2", "side/projects")];
    let groups = group_by_section(&names(&["work", "side/projects"]), &rows);
    assert_eq!(groups[0].name, "WORK");
    assert_eq!(groups[1].name, "SIDE/PROJECTS");
}

#[test]
fn heading_of_a_directory_is_its_last_component_in_upper_case() {
    assert_eq!(heading("/home/me/ws", true), "WS");
    assert_eq!(heading("/home/me/ws", false), "/HOME/ME/WS");
    assert_eq!(heading("work", false), "WORK");
    assert_eq!(heading("/", true), "");
    assert_eq!(heading("straße", false), "STRASSE");
}
