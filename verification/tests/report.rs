use repo_status::classify::{Severity, Symbol};
use repo_status::model::{ErrorKind, GitState, Group, RepoResult};
use repo_status::report::{group_lines, row_line, Line, Widths};

fn ok_row(directory: &str, branch: &str, subject: &str) -> RepoResult {
    RepoResult::success(
        String::from(directory),
        String::from("work"),
        GitState {
            branch: String::from(branch),
            last_commit_subject: String::from(subject),
            is_clean: true,
            has_unpushed: Some(false),
        },
    )
}

#[test]
fn standard_widths() {
    assert_eq!(Widths::standard(), Widths { name: 13, branch: 16, subject: 33, error: 6 });
}

#[test]
fn a_short_row_is_shown_as_it_is() {
    let row = ok_row("/repos/api", "main", "Initial commit");
    let shown = row_line(&row, None, &Widths::standard());
    assert_eq!(
        shown,
        Line {
            name: String::from("api"),
            branch: String::from("main"),
            symbol: Symbol::Synced,
            severity: Severity::Okay,
            subject: String::from("Initial commit"),
            error: String::from("-"),
        }
    );
}

#[test]
fn long_cells_are_cut_each_on_its_own() {
    let row = ok_row(
        "/repos/a-very-long-repository-name",
        "feature/very-long-branch-name",
        "Rework the whole grouping engine from scratch",
    );
    let shown = row_line(&row, None, &Widths::standard());
    assert_eq!(shown.name, "a-very-lon...");
    assert_eq!(shown.branch, "feature/very-...");
    assert_eq!(shown.subject, "Rework the whole grouping engi...");
    assert_eq!(shown.error, "-");
    assert_eq!(shown.name.chars().count(), 13);
    assert_eq!(shown.branch.chars().count(), 16);
    assert_eq!(shown.subject.chars().count(), 33);
}

#[test]
fn a_failed_row_shows_its_error_cut_to_the_column() {
    let row = RepoResult::failure(
        String::from("/repos/gone"),
        String::from("work"),
        ErrorKind::InvalidDirectory,
    );
    let shown = row_line(&row, None, &Widths::standard());
    assert_eq!(shown.name, "gone");
    assert_eq!(shown.branch, "");
    assert_eq!(shown.subject, "");
    assert_eq!(shown.error, "Not...");
    assert_eq!(shown.symbol, Symbol::Unknown);
    assert_eq!(shown.severity, Severity::Warning);
    let wide = Widths { name: 40, branch: 40, subject: 40, error: 40 };
    assert_eq!(row_line(&row, None, &wide).error, "Not a valid directory");
}

#[test]
fn cutting_cells_does_not_change_the_status() {
    let row = RepoResult::success(
        String::from("/repos/x"),
        String::new(),
        GitState {
            branch: String::from("a-branch-with-a-long-name"),
            last_commit_subject: String::from("Subject"),
            is_clean: false,
            has_unpushed: Some(true),
        },
    );
    for width in [0, 1, 3, 5, 100] {
        let widths = Widths { name: width, branch: width, subject: width, error: width };
        let shown = row_line(&row, None, &widths);
        assert_eq!(shown.symbol, Symbol::Dirty);
        assert_eq!(shown.severity, Severity::Error);
    }
}

#[test]
fn names_can_be_shown_below_the_root_of_the_group() {
    let row = ok_row("/ws/a/sub/repo", "main", "Subject");
    let shown = row_line(&row, Some("/ws/a"), &Widths::standard());
    assert_eq!(shown.name, "sub/repo");
    let narrow = Widths { name: 6, branch: 16, subject: 33, error: 6 };
    assert_eq!(row_line(&row, Some("/ws/a"), &narrow).name, "sub...");
    assert_eq!(row_line(&row, Some("/elsewhere"), &Widths::standard()).name, "repo");
}

#[test]
fn the_lines_of_a_group_follow_its_rows() {
    let group = Group {
        key: String::from("/ws"),
        name: String::from("WS"),
        rows: vec![
            ok_row("/ws/one", "main", "First"),
            ok_row("/ws/nested/two", "dev", "Second"),
        ],
    };
    let by_name = group_lines(&group, false, &Widths::standard());
    assert_eq!(by_name.len(), 2);
    assert_eq!(by_name[0].name, "one");
    assert_eq!(by_name[1].name, "two");
    assert_eq!(by_name[1].branch, "dev");
    let by_path = group_lines(&group, true, &Widths::standard());
    assert_eq!(by_path[0].name, "one");
    assert_eq!(by_path[1].name, "nested/two");
    let empty = Group { key: String::new(), name: String::new(), rows: Vec::new() };
    assert!(group_lines(&empty, true, &Widths::standard()).is_empty());
}
