//! What a renderer is handed: for each row its cells as text, cut to the
//! width of their column, and its status.

use vstd::prelude::*;
use vstd::string::*;
use crate::classify::{Severity, Symbol, classification, classify};
use crate::model::{Group, RepoResult, RepoResultView};
use crate::paths::{display_name, display_name_of, relative_of, relative_to};
use crate::text::{truncate_string, truncated};

verus! {

/// The widths of the text columns, in characters.
#[derive(Clone, Copy, Debug, PartialEq, Eq, Structural)]
pub struct Widths {
    pub name: usize,
    pub branch: usize,
    pub subject: usize,
    pub error: usize,
}

impl Widths {
    /// The widths of the standard table.
    pub fn standard() -> (out: Widths)
        ensures
            out == (Widths { name: 13, branch: 16, subject: 33, error: 6 }),
    {
        Widths { name: 13, branch: 16, subject: 33, error: 6 }
    }
}

/// One row as shown.
#[derive(Debug, PartialEq, Eq)]
pub struct Line {
    pub name: String,
    pub branch: String,
    pub symbol: Symbol,
    pub severity: Severity,
    pub subject: String,
    pub error: String,
}

/// The mathematical content of a [`Line`].
pub struct LineView {
    pub name: Seq<char>,
    pub branch: Seq<char>,
    pub symbol: Symbol,
    pub severity: Severity,
    pub subject: Seq<char>,
    pub error: Seq<char>,
}

impl View for Line {
    type V = LineView;

    open spec fn view(&self) -> LineView {
        LineView {
            name: self.name@,
            branch: self.branch@,
            symbol: self.symbol,
            severity: self.severity,
            subject: self.subject@,
            error: self.error@,
        }
    }
}

/// The views of lines.
pub open spec fn line_views(lines: Seq<Line>) -> Seq<LineView> {
    lines.map_values(|l: Line| l@)
}

/// The name cell before it is cut: the directory's path below `root`, or
/// its last component where no root is given.
pub open spec fn shown_name(row: RepoResultView, root: Option<Seq<char>>) -> Seq<char> {
    match root {
        Some(r) => relative_of(row.directory, r),
        None => display_name_of(row.directory),
    }
}

/// The error cell before it is cut: the error's message, or a dash.
pub open spec fn shown_error(row: RepoResultView) -> Seq<char> {
    match row.error {
        Some(e) => e.message_text(),
        None => seq!['-'],
    }
}

/// A row as shown: each text cell cut to its column on its own, the status
/// taken from the row itself. A row without git state has empty branch and
/// subject cells.
pub open spec fn line_of(row: RepoResultView, root: Option<Seq<char>>, widths: Widths) -> LineView {
    LineView {
        name: truncated(shown_name(row, root), widths.name as nat),
        branch: truncated(
            match row.state {
                Some(s) => s.branch,
                None => Seq::empty(),
            },
            widths.branch as nat,
        ),
        symbol: classification(row).0,
        severity: classification(row).1,
        subject: truncated(
            match row.state {
                Some(s) => s.last_commit_subject,
                None => Seq::empty(),
            },
            widths.subject as nat,
        ),
        error: truncated(shown_error(row), widths.error as nat),
    }
}

/// The view of an optional root.
pub open spec fn root_view(root: Option<&str>) -> Option<Seq<char>> {
    match root {
        Some(r) => Some(r@),
        None => None,
    }
}

/// Cutting cells is cosmetic: whatever the widths, the status of a line is
/// the status of its row.
pub proof fn lemma_widths_leave_status(row: RepoResultView, root: Option<Seq<char>>, widths: Widths)
    ensures
        (line_of(row, root, widths).symbol, line_of(row, root, widths).severity) == classification(
            row,
        ),
{
}

/// Shows a row.
pub fn row_line(row: &RepoResult, root: Option<&str>, widths: &Widths) -> (out: Line)
    ensures
        out@ == line_of(row@, root_view(root), *widths),
{
    let name = match root {
        Some(r) => relative_to(row.directory().as_str(), r),
        None => display_name(row.directory().as_str()),
    };
    let (symbol, severity) = classify(row);
    let (branch, subject) = match row.state() {
        Some(state) => (
            truncate_string(state.branch.as_str(), widths.branch),
            truncate_string(state.last_commit_subject.as_str(), widths.subject),
        ),
        None => (truncate_string("", widths.branch), truncate_string("", widths.subject)),
    };
    let error = match row.error() {
        Some(e) => truncate_string(e.message(), widths.error),
        None => truncate_string("-", widths.error),
    };
    proof {
        reveal_strlit("");
        reveal_strlit("-");
        assert(""@ =~= Seq::<char>::empty());
        assert("-"@ =~= seq!['-']);
    }
    Line {
        name: truncate_string(name.as_str(), widths.name),
        branch,
        symbol,
        severity,
        subject,
        error,
    }
}

/// The lines of a group, in the order of its rows. With `relative`, names
/// are paths below the group's key; else they are last components.
pub open spec fn lines_of(
    key: Seq<char>,
    rows: Seq<RepoResultView>,
    relative: bool,
    widths: Widths,
) -> Seq<LineView> {
    rows.map_values(
        |r: RepoResultView|
            line_of(
                r,
                if relative {
                    Some(key)
                } else {
                    None
                },
                widths,
            ),
    )
}

/// Shows the rows of a group.
pub fn group_lines(group: &Group, relative: bool, widths: &Widths) -> (out: Vec<Line>)
    ensures
        line_views(out@) == lines_of(group@.key, group@.rows, relative, *widths),
{
    let mut out: Vec<Line> = Vec::new();
    let mut i: usize = 0;
    while i < group.rows.len()
        invariant
            i <= group.rows@.len(),
            line_views(out@) == lines_of(group@.key, group@.rows, relative, *widths).take(i as int),
        decreases group.rows@.len() - i,
    {
        let ghost earlier = out@;
        let shown = if relative {
            row_line(&group.rows[i], Some(group.key.as_str()), widths)
        } else {
            row_line(&group.rows[i], None, widths)
        };
        out.push(shown);
        assert(line_views(out@) =~= line_views(earlier).push(shown@));
        assert(line_views(out@) =~= lines_of(group@.key, group@.rows, relative, *widths).take(
            i + 1,
        ));
        i += 1;
    }
    assert(lines_of(group@.key, group@.rows, relative, *widths).take(i as int) =~= lines_of(
        group@.key,
        group@.rows,
        relative,
        *widths,
    ));
    out
}

} // verus!
