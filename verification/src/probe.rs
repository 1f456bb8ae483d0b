//! The probe of one directory, as a machine that asks for one piece of
//! outside work at a time and decides on each answer what comes next.
//! Running git and touching the file system is the caller's part.

use vstd::prelude::*;
use vstd::string::*;
use crate::model::{
    ErrorKind, GitState, GitStateView, ProbeInput, ProbeInputView, RepoResult, RepoResultView,
};
use crate::text::{parse_count, parsed_count, trim, trimmed};

verus! {

/// A question that git is asked about a directory.
#[derive(Clone, Copy, Debug, PartialEq, Eq, Structural)]
pub enum Query {
    /// Is the directory a working copy? Only success or failure counts.
    WorkingCopy,
    /// The name of the current branch.
    Branch,
    /// The subject line of the latest commit.
    LastCommit,
    /// The machine-readable list of changes; empty for a clean copy.
    Porcelain,
    /// How many commits the branch is ahead of its upstream; fails where
    /// there is no upstream.
    Ahead,
}

/// The outside work that a probe waits for.
#[derive(Debug, PartialEq, Eq)]
pub enum Request {
    /// Resolve the configured path to an absolute one.
    Resolve { path: String },
    /// Ask git about the resolved directory.
    Run { query: Query, directory: String },
}

/// The mathematical content of a [`Request`].
pub enum RequestView {
    Resolve { path: Seq<char> },
    Run { query: Query, directory: Seq<char> },
}

impl View for Request {
    type V = RequestView;

    open spec fn view(&self) -> RequestView {
        match self {
            Request::Resolve { path } => RequestView::Resolve { path: path@ },
            Request::Run { query, directory } => RequestView::Run {
                query: *query,
                directory: directory@,
            },
        }
    }
}

/// A probe under way: what has been learned so far, and so what is asked
/// next.
#[derive(Debug, PartialEq, Eq)]
pub enum Probe {
    Resolving { path: String, group: String },
    Checking { directory: String, group: String },
    ReadingBranch { directory: String, group: String },
    ReadingSubject { directory: String, group: String, branch: String },
    ReadingStatus { directory: String, group: String, branch: String, subject: String },
    ReadingAhead { directory: String, group: String, branch: String, subject: String, clean: bool },
    Done { row: RepoResult },
}

/// The mathematical content of a [`Probe`].
pub enum ProbeView {
    Resolving { path: Seq<char>, group: Seq<char> },
    Checking { directory: Seq<char>, group: Seq<char> },
    ReadingBranch { directory: Seq<char>, group: Seq<char> },
    ReadingSubject { directory: Seq<char>, group: Seq<char>, branch: Seq<char> },
    ReadingStatus { directory: Seq<char>, group: Seq<char>, branch: Seq<char>, subject: Seq<char> },
    ReadingAhead {
        directory: Seq<char>,
        group: Seq<char>,
        branch: Seq<char>,
        subject: Seq<char>,
        clean: bool,
    },
    Done { row: RepoResultView },
}

impl View for Probe {
    type V = ProbeView;

    open spec fn view(&self) -> ProbeView {
        match self {
            Probe::Resolving { path, group } => ProbeView::Resolving { path: path@, group: group@ },
            Probe::Checking { directory, group } => ProbeView::Checking {
                directory: directory@,
                group: group@,
            },
            Probe::ReadingBranch { directory, group } => ProbeView::ReadingBranch {
                directory: directory@,
                group: group@,
            },
            Probe::ReadingSubject { directory, group, branch } => ProbeView::ReadingSubject {
                directory: directory@,
                group: group@,
                branch: branch@,
            },
            Probe::ReadingStatus { directory, group, branch, subject } => ProbeView::ReadingStatus {
                directory: directory@,
                group: group@,
                branch: branch@,
                subject: subject@,
            },
            Probe::ReadingAhead {
                directory,
                group,
                branch,
                subject,
                clean,
            } => ProbeView::ReadingAhead {
                directory: directory@,
                group: group@,
                branch: branch@,
                subject: subject@,
                clean: *clean,
            },
            Probe::Done { row } => ProbeView::Done { row: row@ },
        }
    }
}

/// The row of a directory that could not be probed.
pub open spec fn failed(directory: Seq<char>, group: Seq<char>, error: ErrorKind) -> RepoResultView {
    RepoResultView { directory, group, state: None, error: Some(error) }
}

/// The row of a directory that answered.
pub open spec fn succeeded(
    directory: Seq<char>,
    group: Seq<char>,
    state: GitStateView,
) -> RepoResultView {
    RepoResultView { directory, group, state: Some(state), error: None }
}

/// What the answer to [`Query::Ahead`] says of unpushed commits: the
/// answer, trimmed, read as a count, is above zero. Unknown where the
/// query failed or did not answer with a count.
pub open spec fn unpushed_of(answer: Option<Seq<char>>) -> Option<bool> {
    match answer {
        Some(text) => match parsed_count(trimmed(text)) {
            Some(count) => Some(count > 0),
            None => None,
        },
        None => None,
    }
}

/// A probe before its first answer.
pub open spec fn started(input: ProbeInputView) -> ProbeView {
    ProbeView::Resolving { path: input.directory, group: input.label() }
}

/// What a probe waits for; nothing once it is done.
pub open spec fn awaited(probe: ProbeView) -> Option<RequestView> {
    match probe {
        ProbeView::Resolving { path, .. } => Some(RequestView::Resolve { path }),
        ProbeView::Checking { directory, .. } => Some(
            RequestView::Run { query: Query::WorkingCopy, directory },
        ),
        ProbeView::ReadingBranch { directory, .. } => Some(
            RequestView::Run { query: Query::Branch, directory },
        ),
        ProbeView::ReadingSubject { directory, .. } => Some(
            RequestView::Run { query: Query::LastCommit, directory },
        ),
        ProbeView::ReadingStatus { directory, .. } => Some(
            RequestView::Run { query: Query::Porcelain, directory },
        ),
        ProbeView::ReadingAhead { directory, .. } => Some(
            RequestView::Run { query: Query::Ahead, directory },
        ),
        ProbeView::Done { .. } => None,
    }
}

/// The probe after one answer. `None` says that the work failed: the path
/// did not resolve, or git did not succeed or wrote no valid text. A
/// failure ends the probe at once, except that of the last query, which
/// only leaves unknown whether there are unpushed commits. A probe that is
/// done stays as it is.
pub open spec fn step(probe: ProbeView, answer: Option<Seq<char>>) -> ProbeView {
    match probe {
        ProbeView::Resolving { path, group } => match answer {
            Some(directory) => ProbeView::Checking { directory, group },
            None => ProbeView::Done { row: failed(path, group, ErrorKind::InvalidDirectory) },
        },
        ProbeView::Checking { directory, group } => match answer {
            Some(_) => ProbeView::ReadingBranch { directory, group },
            None => ProbeView::Done { row: failed(directory, group, ErrorKind::NotARepository) },
        },
        ProbeView::ReadingBranch { directory, group } => match answer {
            Some(text) => ProbeView::ReadingSubject { directory, group, branch: trimmed(text) },
            None => ProbeView::Done { row: failed(directory, group, ErrorKind::ProbeFailed) },
        },
        ProbeView::ReadingSubject { directory, group, branch } => match answer {
            Some(text) => ProbeView::ReadingStatus {
                directory,
                group,
                branch,
                subject: trimmed(text),
            },
            None => ProbeView::Done { row: failed(directory, group, ErrorKind::ProbeFailed) },
        },
        ProbeView::ReadingStatus { directory, group, branch, subject } => match answer {
            Some(text) => ProbeView::ReadingAhead {
                directory,
                group,
                branch,
                subject,
                clean: trimmed(text).len() == 0,
            },
            None => ProbeView::Done { row: failed(directory, group, ErrorKind::ProbeFailed) },
        },
        ProbeView::ReadingAhead { directory, group, branch, subject, clean } => ProbeView::Done {
            row: succeeded(
                directory,
                group,
                GitStateView {
                    branch,
                    last_commit_subject: subject,
                    is_clean: clean,
                    has_unpushed: unpushed_of(answer),
                },
            ),
        },
        ProbeView::Done { row } => ProbeView::Done { row },
    }
}

/// The view of an answer.
pub open spec fn answer_view(answer: Option<String>) -> Option<Seq<char>> {
    match answer {
        Some(text) => Some(text@),
        None => None,
    }
}

impl Probe {
    /// Starts the probe of a configured entry.
    pub fn start(input: ProbeInput) -> (out: Probe)
        ensures
            out@ == started(input@),
    {
        let group = match input.group {
            Some(g) => g,
            None => String::new(),
        };
        Probe::Resolving { path: input.directory, group }
    }

    /// The work that the probe waits for.
    pub fn pending(&self) -> (out: Option<Request>)
        ensures
            match out {
                Some(request) => awaited(self@) == Some(request@),
                None => awaited(self@) is None,
            },
    {
        match self {
            Probe::Resolving { path, .. } => Some(Request::Resolve { path: path.clone() }),
            Probe::Checking { directory, .. } => Some(
                Request::Run { query: Query::WorkingCopy, directory: directory.clone() },
            ),
            Probe::ReadingBranch { directory, .. } => Some(
                Request::Run { query: Query::Branch, directory: directory.clone() },
            ),
            Probe::ReadingSubject { directory, .. } => Some(
                Request::Run { query: Query::LastCommit, directory: directory.clone() },
            ),
            Probe::ReadingStatus { directory, .. } => Some(
                Request::Run { query: Query::Porcelain, directory: directory.clone() },
            ),
            Probe::ReadingAhead { directory, .. } => Some(
                Request::Run { query: Query::Ahead, directory: directory.clone() },
            ),
            Probe::Done { .. } => None,
        }
    }

    /// Takes the answer to the pending request.
    pub fn advance(self, answer: Option<String>) -> (out: Probe)
        ensures
            out@ == step(self@, answer_view(answer)),
    {
        match self {
            Probe::Resolving { path, group } => match answer {
                Some(directory) => Probe::Checking { directory, group },
                None => Probe::Done {
                    row: RepoResult::failure(path, group, ErrorKind::InvalidDirectory),
                },
            },
            Probe::Checking { directory, group } => match answer {
                Some(_) => Probe::ReadingBranch { directory, group },
                None => Probe::Done {
                    row: RepoResult::failure(directory, group, ErrorKind::NotARepository),
                },
            },
            Probe::ReadingBranch { directory, group } => match answer {
                Some(text) => Probe::ReadingSubject {
                    directory,
                    group,
                    branch: trim(text.as_str()),
                },
                None => Probe::Done {
                    row: RepoResult::failure(directory, group, ErrorKind::ProbeFailed),
                },
            },
            Probe::ReadingSubject { directory, group, branch } => match answer {
                Some(text) => Probe::ReadingStatus {
                    directory,
                    group,
                    branch,
                    subject: trim(text.as_str()),
                },
                None => Probe::Done {
                    row: RepoResult::failure(directory, group, ErrorKind::ProbeFailed),
                },
            },
            Probe::ReadingStatus { directory, group, branch, subject } => match answer {
                Some(text) => {
                    let rest = trim(text.as_str());
                    Probe::ReadingAhead {
                        directory,
                        group,
                        branch,
                        subject,
                        clean: rest.as_str().unicode_len() == 0,
                    }
                },
                None => Probe::Done {
                    row: RepoResult::failure(directory, group, ErrorKind::ProbeFailed),
                },
            },
            Probe::ReadingAhead { directory, group, branch, subject, clean } => {
                let has_unpushed = unpushed(&answer);
                Probe::Done {
                    row: RepoResult::success(
                        directory,
                        group,
                        GitState {
                            branch,
                            last_commit_subject: subject,
                            is_clean: clean,
                            has_unpushed,
                        },
                    ),
                }
            },
            Probe::Done { row } => Probe::Done { row },
        }
    }

    /// The row, once the probe is done.
    pub fn finish(self) -> (out: Option<RepoResult>)
        ensures
            match out {
                Some(row) => self@ == (ProbeView::Done { row: row@ }),
                None => !(self@ is Done),
            },
    {
        match self {
            Probe::Done { row } => Some(row),
            _ => None,
        }
    }
}

/// Reads the answer to [`Query::Ahead`].
pub fn unpushed(answer: &Option<String>) -> (out: Option<bool>)
    ensures
        out == unpushed_of(answer_view(*answer)),
{
    match answer {
        Some(text) => {
            let rest = trim(text.as_str());
            match parse_count(rest.as_str()) {
                Some(count) => Some(count > 0),
                None => None,
            }
        },
        None => None,
    }
}

impl Query {
    /// The arguments that git is given for the query, after those that
    /// name the directory.
    pub open spec fn argument_texts(self) -> Seq<Seq<char>> {
        match self {
            Query::WorkingCopy => seq!["status"@],
            Query::Branch => seq!["rev-parse"@, "--abbrev-ref"@, "HEAD"@],
            Query::LastCommit => seq!["log"@, "-1"@, "--pretty=%s"@],
            Query::Porcelain => seq!["status"@, "--porcelain"@],
            Query::Ahead => seq!["rev-list"@, "@{u}..HEAD"@, "--count"@],
        }
    }

    /// The arguments that git is given for the query.
    pub fn arguments(&self) -> (out: Vec<&'static str>)
        ensures
            out@.len() == self.argument_texts().len(),
            forall|i: int| 0 <= i < out@.len() ==> (#[trigger] out@[i])@ == self.argument_texts()[i],
    {
        let mut out: Vec<&'static str> = Vec::new();
        match self {
            Query::WorkingCopy => {
                out.push("status");
            },
            Query::Branch => {
                out.push("rev-parse");
                out.push("--abbrev-ref");
                out.push("HEAD");
            },
            Query::LastCommit => {
                out.push("log");
                out.push("-1");
                out.push("--pretty=%s");
            },
            Query::Porcelain => {
                out.push("status");
                out.push("--porcelain");
            },
            Query::Ahead => {
                out.push("rev-list");
                out.push("@{u}..HEAD");
                out.push("--count");
            },
        }
        out
    }
}

/// Everything the outside world can answer about one directory. `None`
/// stands for work that failed.
pub struct Answers {
    /// The resolved, absolute path.
    pub resolved: Option<Seq<char>>,
    /// What [`Query::WorkingCopy`] wrote; only its presence counts.
    pub working_copy: Option<Seq<char>>,
    pub branch: Option<Seq<char>>,
    pub subject: Option<Seq<char>>,
    pub status: Option<Seq<char>>,
    pub ahead: Option<Seq<char>>,
}

impl Answers {
    /// The answers in the order in which a probe asks for them.
    pub open spec fn in_order(self) -> Seq<Option<Seq<char>>> {
        seq![self.resolved, self.working_copy, self.branch, self.subject, self.status, self.ahead]
    }
}

/// The row that a directory gets. A path that does not resolve is an
/// invalid directory and keeps its configured spelling. A resolved path
/// that is no working copy is reported as such. A working copy gets a git
/// state only if branch, subject and status were all answered; the state
/// is whole or absent. Whether there are unpushed commits may stay unknown.
pub open spec fn probe_result(input: ProbeInputView, answers: Answers) -> RepoResultView {
    let group = input.label();
    match answers.resolved {
        None => failed(input.directory, group, ErrorKind::InvalidDirectory),
        Some(directory) => if answers.working_copy is None {
            failed(directory, group, ErrorKind::NotARepository)
        } else {
            match (answers.branch, answers.subject, answers.status) {
                (Some(branch), Some(subject), Some(status)) => succeeded(
                    directory,
                    group,
                    GitStateView {
                        branch: trimmed(branch),
                        last_commit_subject: trimmed(subject),
                        is_clean: trimmed(status).len() == 0,
                        has_unpushed: unpushed_of(answers.ahead),
                    },
                ),
                _ => failed(directory, group, ErrorKind::ProbeFailed),
            }
        },
    }
}

/// The probe after a sequence of answers.
pub open spec fn run(probe: ProbeView, answers: Seq<Option<Seq<char>>>) -> ProbeView
    decreases answers.len(),
{
    if answers.len() == 0 {
        probe
    } else {
        step(run(probe, answers.drop_last()), answers.last())
    }
}

/// One more answer is one more step.
pub proof fn lemma_run_push(
    probe: ProbeView,
    answers: Seq<Option<Seq<char>>>,
    answer: Option<Seq<char>>,
)
    ensures
        run(probe, answers.push(answer)) == step(run(probe, answers), answer),
{
    assert(answers.push(answer).drop_last() =~= answers);
}

/// A probe that is given all answers in order ends with the row that
/// [`probe_result`] describes. Answers that come after a failure change
/// nothing.
pub proof fn lemma_run_gives_result(input: ProbeInputView, answers: Answers)
    ensures
        run(started(input), answers.in_order()) == (ProbeView::Done {
            row: probe_result(input, answers),
        }),
{
    let p = started(input);
    let s0 = Seq::<Option<Seq<char>>>::empty();
    let s1 = s0.push(answers.resolved);
    let s2 = s1.push(answers.working_copy);
    let s3 = s2.push(answers.branch);
    let s4 = s3.push(answers.subject);
    let s5 = s4.push(answers.status);
    let s6 = s5.push(answers.ahead);
    assert(run(p, s0) == p);
    lemma_run_push(p, s0, answers.resolved);
    lemma_run_push(p, s1, answers.working_copy);
    lemma_run_push(p, s2, answers.branch);
    lemma_run_push(p, s3, answers.subject);
    lemma_run_push(p, s4, answers.status);
    lemma_run_push(p, s5, answers.ahead);
    assert(s6 =~= answers.in_order());
}

/// A path that does not resolve gives an invalid directory and no git
/// state, under the path as it was configured.
pub proof fn lemma_unresolved_is_invalid(input: ProbeInputView, answers: Answers)
    requires
        answers.resolved is None,
    ensures
        probe_result(input, answers).error == Some(ErrorKind::InvalidDirectory),
        probe_result(input, answers).state is None,
        probe_result(input, answers).directory == input.directory,
        step(started(input), None) == (ProbeView::Done { row: probe_result(input, answers) }),
{
}

/// A resolved path that is no working copy is reported as not a
/// repository, under its resolved path.
pub proof fn lemma_not_a_working_copy(input: ProbeInputView, answers: Answers)
    requires
        answers.resolved is Some,
        answers.working_copy is None,
    ensures
        probe_result(input, answers).error == Some(ErrorKind::NotARepository),
        probe_result(input, answers).state is None,
        probe_result(input, answers).directory == answers.resolved->0,
{
}

/// A row holds a git state exactly when the path resolved, is a working
/// copy, and branch, subject and status were all answered; in every other
/// case it holds an error and nothing of the state.
pub proof fn lemma_state_is_whole_or_absent(input: ProbeInputView, answers: Answers)
    ensures
        probe_result(input, answers).well_formed(),
        probe_result(input, answers).state is Some <==> (answers.resolved is Some
            && answers.working_copy is Some && answers.branch is Some && answers.subject is Some
            && answers.status is Some),
        probe_result(input, answers).error == Some(ErrorKind::ProbeFailed) <==> (answers.resolved
            is Some && answers.working_copy is Some && !(answers.branch is Some
            && answers.subject is Some && answers.status is Some)),
{
}

/// A missing upstream fails no probe: without an answer to the last query
/// the state is there, with unpushed commits unknown.
pub proof fn lemma_missing_upstream_is_no_error(input: ProbeInputView, answers: Answers)
    requires
        probe_result(input, answers).state is Some,
        answers.ahead is None,
    ensures
        probe_result(input, answers).state->0.has_unpushed is None,
        probe_result(input, answers).error is None,
{
}

/// Feeds a probe the answers it has asked for, in order.
pub fn replay(input: ProbeInput, answers: &Vec<Option<String>>) -> (out: Probe)
    ensures
        out@ == run(started(input@), answer_views(answers@)),
{
    let mut probe = Probe::start(input);
    let mut i: usize = 0;
    while i < answers.len()
        invariant
            i <= answers@.len(),
            probe@ == run(started(input@), answer_views(answers@).take(i as int)),
        decreases answers@.len() - i,
    {
        let answer = match &answers[i] {
            Some(text) => Some(text.clone()),
            None => None,
        };
        proof {
            let now = answer_views(answers@).take(i + 1);
            assert(now.drop_last() =~= answer_views(answers@).take(i as int));
            assert(now.last() == answer_view(answer));
        }
        probe = probe.advance(answer);
        i += 1;
    }
    assert(answer_views(answers@).take(i as int) =~= answer_views(answers@));
    probe
}

/// The views of a sequence of answers.
pub open spec fn answer_views(answers: Seq<Option<String>>) -> Seq<Option<Seq<char>>> {
    answers.map_values(|a: Option<String>| answer_view(a))
}

} // verus!
