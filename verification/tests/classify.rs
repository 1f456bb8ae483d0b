use repo_status::classify::{classify, Severity, Symbol};
use repo_status::model::{ErrorKind, GitState, RepoResult};

fn state(is_clean: bool, has_unpushed: Option<bool>) -> RepoResult {
    RepoResult::success(
        String::from("/repos/x"),
        String::from("work"),
        GitState {
            branch: String::from("main"),
            last_commit_subject: String::from("Initial commit"),
            is_clean,
            has_unpushed,
        },
    )
}

#[test]
fn an_error_is_unknown_and_a_warning() {
    for error in [ErrorKind::InvalidDirectory, ErrorKind::NotARepository, ErrorKind::ProbeFailed] {
        let row = RepoResult::failure(String::from("/nowhere"), String::from("work"), error);
        assert_eq!(classify(&row), (Symbol::Unknown, Severity::Warning));
    }
}

#[test]
fn clean_and_pushed_is_synced_and_okay() {
    assert_eq!(classify(&state(true, Some(false))), (Symbol::Synced, Severity::Okay));
}

#[test]
fn clean_with_unpushed_commits_is_ahead_and_a_warning() {
    assert_eq!(classify(&state(true, Some(true))), (Symbol::Ahead, Severity::Warning));
}

#[test]
fn clean_without_upstream_is_untracked_and_a_warning() {
    assert_eq!(classify(&state(true, None)), (Symbol::Untracked, Severity::Warning));
}

#[test]
fn unclean_is_dirty_whatever_the_upstream_says() {
    assert_eq!(classify(&state(false, Some(true))), (Symbol::Dirty, Severity::Error));
    assert_eq!(classify(&state(false, Some(false))), (Symbol::Dirty, Severity::Error));
    assert_eq!(classify(&state(false, None)), (Symbol::Dirty, Severity::Error));
}

#[test]
fn classification_is_the_same_on_every_call() {
    let row = state(true, Some(false));
    assert_eq!(classify(&row), classify(&row));
    assert_eq!(classify(&row), classify(&row.clone()));
}

#[test]
fn glyphs_are_the_five_marks() {
    assert_eq!(Symbol::Unknown.glyph(), "?");
    assert_eq!(Symbol::Synced.glyph(), "✓");
    assert_eq!(Symbol::Ahead.glyph(), "↑");
    assert_eq!(Symbol::Untracked.glyph(), "⚠");
    assert_eq!(Symbol::Dirty.glyph(), "✗");
}

#[test]
fn error_messages_are_fixed_texts() {
    assert_eq!(ErrorKind::InvalidDirectory.message(), "Not a valid directory");
    assert_eq!(ErrorKind::NotARepository.message(), "Not a Git repository");
    assert_eq!(ErrorKind::ProbeFailed.message(), "Failed to retrieve Git info");
}

#[test]
fn a_row_holds_state_or_error_never_both() {
    let ok = state(true, None);
    assert!(ok.state().is_some());
    assert_eq!(ok.error(), None);
    let bad = RepoResult::failure(String::from("/x"), String::new(), ErrorKind::ProbeFailed);
    assert!(bad.state().is_none());
    assert_eq!(bad.error(), Some(ErrorKind::ProbeFailed));
    assert_eq!(bad.directory(), "/x");
    assert_eq!(bad.group(), "");
}
