//! The data that a run produces: what was asked, what one directory
//! answered, and the groups that a report is made of.

use vstd::prelude::*;

verus! {

/// Why a directory has no git state to show.
#[derive(Clone, Copy, Debug, PartialEq, Eq, Structural)]
pub enum ErrorKind {
    /// The configured path does not resolve to an accessible location.
    InvalidDirectory,
    /// The path resolves, but is no working copy.
    NotARepository,
    /// The path is a working copy, but a required query failed.
    ProbeFailed,
}

impl ErrorKind {
    /// The text of the error cell.
    pub open spec fn message_text(self) -> Seq<char> {
        match self {
            ErrorKind::InvalidDirectory => "Not a valid directory"@,
            ErrorKind::NotARepository => "Not a Git repository"@,
            ErrorKind::ProbeFailed => "Failed to retrieve Git info"@,
        }
    }

    /// The text of the error cell.
    pub fn message(&self) -> (out: &'static str)
        ensures
            out@ == self.message_text(),
    {
        match self {
            ErrorKind::InvalidDirectory => "Not a valid directory",
            ErrorKind::NotARepository => "Not a Git repository",
            ErrorKind::ProbeFailed => "Failed to retrieve Git info",
        }
    }
}

/// What a working copy answered.
#[derive(Debug, PartialEq, Eq)]
pub struct GitState {
    pub branch: String,
    pub last_commit_subject: String,
    pub is_clean: bool,
    /// `None` when the branch has no upstream to compare with.
    pub has_unpushed: Option<bool>,
}

/// The mathematical content of a [`GitState`].
pub struct GitStateView {
    pub branch: Seq<char>,
    pub last_commit_subject: Seq<char>,
    pub is_clean: bool,
    pub has_unpushed: Option<bool>,
}

impl View for GitState {
    type V = GitStateView;

    open spec fn view(&self) -> GitStateView {
        GitStateView {
            branch: self.branch@,
            last_commit_subject: self.last_commit_subject@,
            is_clean: self.is_clean,
            has_unpushed: self.has_unpushed,
        }
    }
}

impl Clone for GitState {
    fn clone(&self) -> (out: Self)
        ensures
            out == *self,
    {
        GitState {
            branch: self.branch.clone(),
            last_commit_subject: self.last_commit_subject.clone(),
            is_clean: self.is_clean,
            has_unpushed: self.has_unpushed,
        }
    }
}

/// One configured entry: a directory as written, and the section it was
/// listed under, if any.
#[derive(Debug, PartialEq, Eq)]
pub struct ProbeInput {
    pub directory: String,
    pub group: Option<String>,
}

/// The mathematical content of a [`ProbeInput`].
pub struct ProbeInputView {
    pub directory: Seq<char>,
    pub group: Option<Seq<char>>,
}

impl View for ProbeInput {
    type V = ProbeInputView;

    open spec fn view(&self) -> ProbeInputView {
        ProbeInputView {
            directory: self.directory@,
            group: match self.group {
                Some(g) => Some(g@),
                None => None,
            },
        }
    }
}

impl ProbeInputView {
    /// The label that rows of this entry carry: the section's name, or the
    /// empty string for an entry without a section.
    pub open spec fn label(self) -> Seq<char> {
        match self.group {
            Some(g) => g,
            None => Seq::empty(),
        }
    }
}

/// The row of one directory: either its git state or the reason why there
/// is none. Holding the two as one `Result` makes "exactly one of them"
/// true of every value.
#[derive(Debug, PartialEq, Eq)]
pub struct RepoResult {
    directory: String,
    group: String,
    outcome: Result<GitState, ErrorKind>,
}

/// The mathematical content of a [`RepoResult`].
pub struct RepoResultView {
    pub directory: Seq<char>,
    pub group: Seq<char>,
    pub state: Option<GitStateView>,
    pub error: Option<ErrorKind>,
}

impl RepoResultView {
    /// Exactly one of `state` and `error` is present.
    pub open spec fn well_formed(self) -> bool {
        self.state is Some <==> self.error is None
    }
}

impl View for RepoResult {
    type V = RepoResultView;

    closed spec fn view(&self) -> RepoResultView {
        RepoResultView {
            directory: self.directory@,
            group: self.group@,
            state: match self.outcome {
                Ok(s) => Some(s@),
                Err(_) => None,
            },
            error: match self.outcome {
                Ok(_) => None,
                Err(e) => Some(e),
            },
        }
    }
}

impl RepoResult {
    /// The row of a directory that answered every required query.
    pub fn success(directory: String, group: String, state: GitState) -> (out: RepoResult)
        ensures
            out@ == (RepoResultView {
                directory: directory@,
                group: group@,
                state: Some(state@),
                error: None,
            }),
    {
        RepoResult { directory, group, outcome: Ok(state) }
    }

    /// The row of a directory that could not be probed.
    pub fn failure(directory: String, group: String, error: ErrorKind) -> (out: RepoResult)
        ensures
            out@ == (RepoResultView {
                directory: directory@,
                group: group@,
                state: None,
                error: Some(error),
            }),
    {
        RepoResult { directory, group, outcome: Err(error) }
    }

    /// Every row holds a git state or an error, never both, never neither.
    pub proof fn lemma_exactly_one(self)
        ensures
            self@.well_formed(),
    {
    }

    /// The directory: resolved where resolution succeeded, else as configured.
    pub fn directory(&self) -> (out: &String)
        ensures
            out@ == self@.directory,
    {
        &self.directory
    }

    /// The label of the section that the directory was listed under.
    pub fn group(&self) -> (out: &String)
        ensures
            out@ == self@.group,
    {
        &self.group
    }

    /// The git state, if the probe succeeded.
    pub fn state(&self) -> (out: Option<&GitState>)
        ensures
            match out {
                Some(s) => self@.state == Some(s@),
                None => self@.state is None,
            },
    {
        match &self.outcome {
            Ok(s) => Some(s),
            Err(_) => None,
        }
    }

    /// The reason why there is no git state, if the probe failed.
    pub fn error(&self) -> (out: Option<ErrorKind>)
        ensures
            out == self@.error,
    {
        match &self.outcome {
            Ok(_) => None,
            Err(e) => Some(*e),
        }
    }
}

impl Clone for RepoResult {
    fn clone(&self) -> (out: Self)
        ensures
            out == *self,
    {
        RepoResult {
            directory: self.directory.clone(),
            group: self.group.clone(),
            outcome: match &self.outcome {
                Ok(s) => Ok(s.clone()),
                Err(e) => Err(*e),
            },
        }
    }
}

/// The views of a sequence of rows.
pub open spec fn row_views(rows: Seq<RepoResult>) -> Seq<RepoResultView> {
    rows.map_values(|r: RepoResult| r@)
}

/// A section of the report.
#[derive(Debug, PartialEq, Eq)]
pub struct Group {
    /// What the rows were gathered under: a section's name, or the
    /// directory that encloses them.
    pub key: String,
    /// The heading shown above the rows.
    pub name: String,
    pub rows: Vec<RepoResult>,
}

/// The mathematical content of a [`Group`].
pub struct GroupView {
    pub key: Seq<char>,
    pub name: Seq<char>,
    pub rows: Seq<RepoResultView>,
}

impl View for Group {
    type V = GroupView;

    open spec fn view(&self) -> GroupView {
        GroupView { key: self.key@, name: self.name@, rows: row_views(self.rows@) }
    }
}

/// The views of a sequence of groups.
pub open spec fn group_views(groups: Seq<Group>) -> Seq<GroupView> {
    groups.map_values(|g: Group| g@)
}

} // verus!
