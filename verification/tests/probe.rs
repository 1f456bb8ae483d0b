use repo_status::classify::{classify, Severity, Symbol};
use repo_status::config::FlatConfig;
use repo_status::model::{ErrorKind, ProbeInput, RepoResult};
use repo_status::probe::{replay, unpushed, Probe, Query, Request};

fn input(directory: &str, group: Option<&str>) -> ProbeInput {
    ProbeInput { directory: String::from(directory), group: group.map(String::from) }
}

fn some(text: &str) -> Option<String> {
    Some(String::from(text))
}

fn row_of(directory: &str, group: Option<&str>, answers: Vec<Option<String>>) -> RepoResult {
    replay(input(directory, group), &answers).finish().expect("the probe is done")
}

#[test]
fn a_path_that_does_not_resolve_is_an_invalid_directory() {
    let row = row_of("~/missing", Some("work"), vec![None]);
    assert_eq!(row.error(), Some(ErrorKind::InvalidDirectory));
    assert!(row.state().is_none());
    assert_eq!(row.directory(), "~/missing");
    assert_eq!(row.group(), "work");
}

#[test]
fn a_resolved_path_that_is_no_working_copy_is_not_a_repository() {
    let row = row_of("tmp", None, vec![some("/tmp"), None]);
    assert_eq!(row.error(), Some(ErrorKind::NotARepository));
    assert!(row.state().is_none());
    assert_eq!(row.directory(), "/tmp");
    assert_eq!(row.group(), "");
}

#[test]
fn a_failed_required_query_fails_the_probe() {
    let branch = row_of("x", None, vec![some("/x"), some(""), None]);
    assert_eq!(branch.error(), Some(ErrorKind::ProbeFailed));
    assert!(branch.state().is_none());
    let subject = row_of("x", None, vec![some("/x"), some(""), some("main\n"), None]);
    assert_eq!(subject.error(), Some(ErrorKind::ProbeFailed));
    assert!(subject.state().is_none());
    let status =
        row_of("x", None, vec![some("/x"), some(""), some("main\n"), some("Fix\n"), None]);
    assert_eq!(status.error(), Some(ErrorKind::ProbeFailed));
    assert!(status.state().is_none());
    assert_eq!(status.directory(), "/x");
}

#[test]
fn a_full_probe_gives_a_trimmed_state() {
    let row = row_of(
        "x",
        Some("home"),
        vec![
            some("/repos/x"),
            some("On branch main\n"),
            some("  main\n"),
            some("Add the parser \n"),
            some("\n"),
            some("0\n"),
        ],
    );
    assert_eq!(row.error(), None);
    assert_eq!(row.directory(), "/repos/x");
    assert_eq!(row.group(), "home");
    let state = row.state().expect("a state");
    assert_eq!(state.branch, "main");
    assert_eq!(state.last_commit_subject, "Add the parser");
    assert!(state.is_clean);
    assert_eq!(state.has_unpushed, Some(false));
}

#[test]
fn changes_in_the_working_copy_make_it_unclean() {
    let row = row_of(
        "x",
        None,
        vec![some("/x"), some(""), some("dev\n"), some("Wip\n"), some(" M src/lib.rs\n"), some("2\n")],
    );
    let state = row.state().expect("a state");
    assert!(!state.is_clean);
    assert_eq!(state.has_unpushed, Some(true));
    assert_eq!(classify(&row), (Symbol::Dirty, Severity::Error));
}

#[test]
fn a_missing_upstream_leaves_unpushed_unknown() {
    let row =
        row_of("x", None, vec![some("/x"), some(""), some("dev\n"), some("Wip\n"), some(""), None]);
    assert_eq!(row.error(), None);
    let state = row.state().expect("a state");
    assert_eq!(state.has_unpushed, None);
    assert_eq!(classify(&row), (Symbol::Untracked, Severity::Warning));
}

#[test]
fn an_unreadable_ahead_count_leaves_unpushed_unknown() {
    assert_eq!(unpushed(&some("many\n")), None);
    assert_eq!(unpushed(&some("")), None);
    assert_eq!(unpushed(&some("99999999999\n")), None);
    assert_eq!(unpushed(&None), None);
}

#[test]
fn the_ahead_count_says_whether_commits_are_unpushed() {
    assert_eq!(unpushed(&some("0\n")), Some(false));
    assert_eq!(unpushed(&some("1\n")), Some(true));
    assert_eq!(unpushed(&some(" 17 \n")), Some(true));
    assert_eq!(unpushed(&some("-1\n")), Some(false));
}

#[test]
fn a_probe_asks_for_one_thing_at_a_time() {
    let mut probe = Probe::start(input("x", Some("work")));
    assert_eq!(probe.pending(), Some(Request::Resolve { path: String::from("x") }));
    probe = probe.advance(some("/abs/x"));
    let expected = [Query::WorkingCopy, Query::Branch, Query::LastCommit, Query::Porcelain, Query::Ahead];
    for query in expected {
        assert_eq!(
            probe.pending(),
            Some(Request::Run { query, directory: String::from("/abs/x") })
        );
        probe = probe.advance(some("1\n"));
    }
    assert_eq!(probe.pending(), None);
    assert!(probe.finish().is_some());
}

#[test]
fn a_failure_ends_the_probe_at_once() {
    let probe = Probe::start(input("x", None)).advance(None);
    assert_eq!(probe.pending(), None);
    let probe = Probe::start(input("x", None)).advance(some("/x")).advance(None);
    assert_eq!(probe.pending(), None);
}

#[test]
fn a_probe_that_is_done_ignores_further_answers() {
    let done = replay(input("x", None), &vec![None]);
    let row = done.advance(some("/x")).advance(some("")).finish().expect("still done");
    assert_eq!(row.error(), Some(ErrorKind::InvalidDirectory));
    assert_eq!(row.directory(), "x");
}

#[test]
fn a_probe_under_way_has_no_row() {
    assert!(Probe::start(input("x", None)).finish().is_none());
    assert!(replay(input("x", None), &vec![some("/x"), some("")]).finish().is_none());
}

#[test]
fn git_arguments_of_each_query() {
    assert_eq!(Query::WorkingCopy.arguments(), vec!["status"]);
    assert_eq!(Query::Branch.arguments(), vec!["rev-parse", "--abbrev-ref", "HEAD"]);
    assert_eq!(Query::LastCommit.arguments(), vec!["log", "-1", "--pretty=%s"]);
    assert_eq!(Query::Porcelain.arguments(), vec!["status", "--porcelain"]);
    assert_eq!(Query::Ahead.arguments(), vec!["rev-list", "@{u}..HEAD", "--count"]);
}

#[test]
fn two_directories_one_clean_one_missing() {
    let config =
        FlatConfig { directories: vec![String::from("/repos/x"), String::from("/repos/y")] };
    let plan = config.plan();
    assert_eq!(plan.len(), 2);
    let mut rows = Vec::new();
    for entry in plan {
        let answers = if entry.directory == "/repos/x" {
            vec![some("/repos/x"), some(""), some("main\n"), some("Initial commit\n"), some(""), some("0\n")]
        } else {
            vec![None]
        };
        rows.push(replay(entry, &answers).finish().expect("done"));
    }
    assert_eq!(rows.len(), 2);
    assert_eq!(classify(&rows[0]).0, Symbol::Synced);
    assert_eq!(classify(&rows[0]).0.glyph(), "✓");
    assert_eq!(rows[0].state().expect("a state").branch, "main");
    assert_eq!(rows[1].error(), Some(ErrorKind::InvalidDirectory));
    assert_eq!(rows[1].directory(), "/repos/y");
    assert_eq!(classify(&rows[1]).0, Symbol::Unknown);
    assert_eq!(classify(&rows[1]).0.glyph(), "?");
    let groups = config.report(&rows);
    assert_eq!(groups.len(), 1);
    assert_eq!(groups[0].key, "/repos");
    assert_eq!(groups[0].name, "REPOS");
    assert_eq!(groups[0].rows, rows);
}
