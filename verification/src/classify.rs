//! The status of a row: a symbol and how serious it is.

use vstd::prelude::*;
use crate::model::{RepoResult, RepoResultView};

verus! {

/// The mark in the status cell.
#[derive(Clone, Copy, Debug, PartialEq, Eq, Structural)]
pub enum Symbol {
    /// `?`: the directory could not be probed.
    Unknown,
    /// `✓`: clean, and nothing to push.
    Synced,
    /// `↑`: clean, with commits that the upstream lacks.
    Ahead,
    /// `⚠`: clean, but there is no upstream to compare with.
    Untracked,
    /// `✗`: the working copy has changes.
    Dirty,
}

impl Symbol {
    /// The character shown for the mark.
    pub open spec fn glyph_char(self) -> char {
        match self {
            Symbol::Unknown => '?',
            Symbol::Synced => '✓',
            Symbol::Ahead => '↑',
            Symbol::Untracked => '⚠',
            Symbol::Dirty => '✗',
        }
    }

    /// The mark as a one-character string.
    pub fn glyph(&self) -> (out: &'static str)
        ensures
            out@ == seq![self.glyph_char()],
    {
        proof {
            reveal_strlit("?");
            reveal_strlit("✓");
            reveal_strlit("↑");
            reveal_strlit("⚠");
            reveal_strlit("✗");
        }
        let out = match self {
            Symbol::Unknown => "?",
            Symbol::Synced => "✓",
            Symbol::Ahead => "↑",
            Symbol::Untracked => "⚠",
            Symbol::Dirty => "✗",
        };
        assert(out@ =~= seq![self.glyph_char()]);
        out
    }
}

/// How serious a status is.
#[derive(Clone, Copy, Debug, PartialEq, Eq, Structural)]
pub enum Severity {
    Okay,
    Warning,
    Error,
}

/// The status table. An error always wins; without one, an unclean working
/// copy is `Dirty` whatever its upstream says; a clean one is told apart by
/// what is known of unpushed commits. (A view with neither state nor error,
/// which no row has, counts as unclean.)
pub open spec fn classification(row: RepoResultView) -> (Symbol, Severity) {
    if row.error is Some {
        (Symbol::Unknown, Severity::Warning)
    } else {
        match row.state {
            Some(state) => if !state.is_clean {
                (Symbol::Dirty, Severity::Error)
            } else {
                match state.has_unpushed {
                    Some(false) => (Symbol::Synced, Severity::Okay),
                    Some(true) => (Symbol::Ahead, Severity::Warning),
                    None => (Symbol::Untracked, Severity::Warning),
                }
            },
            None => (Symbol::Dirty, Severity::Error),
        }
    }
}

/// The status of a row, by the table.
pub fn classify(row: &RepoResult) -> (out: (Symbol, Severity))
    ensures
        out == classification(row@),
{
    proof {
        row.lemma_exactly_one();
    }
    match row.state() {
        None => (Symbol::Unknown, Severity::Warning),
        Some(state) => {
            if !state.is_clean {
                (Symbol::Dirty, Severity::Error)
            } else {
                match state.has_unpushed {
                    Some(false) => (Symbol::Synced, Severity::Okay),
                    Some(true) => (Symbol::Ahead, Severity::Warning),
                    None => (Symbol::Untracked, Severity::Warning),
                }
            }
        },
    }
}

/// A row with an error is `Unknown`, a warning, whatever else it holds.
pub proof fn lemma_error_wins(row: RepoResultView)
    requires
        row.error is Some,
    ensures
        classification(row) == (Symbol::Unknown, Severity::Warning),
{
}

/// An unclean working copy is `Dirty`, an error, whatever is known of its
/// upstream.
pub proof fn lemma_unclean_is_dirty(row: RepoResultView)
    requires
        row.error is None,
        row.state matches Some(s) && !s.is_clean,
    ensures
        classification(row) == (Symbol::Dirty, Severity::Error),
{
}

/// Only a clean working copy with nothing to push is `Okay`.
pub proof fn lemma_ok_means_synced(row: RepoResultView)
    requires
        row.well_formed(),
    ensures
        classification(row).1 == Severity::Okay <==> (row.state matches Some(s) && s.is_clean
            && s.has_unpushed == Some(false)),
        classification(row).0 == Symbol::Synced <==> classification(row).1 == Severity::Okay,
{
}

} // verus!
