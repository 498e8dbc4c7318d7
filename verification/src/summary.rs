//! The flat record a prompt is drawn from: the branch, its distance from the
//! remote, and the four tallies.

use vstd::prelude::*;
use crate::branch_parse::parse_branch;
use crate::data::{BranchInfo, BranchInfoView};
use crate::grammar::header;
use crate::status_parse::{tallies_fit, tally, texts, Category, Status};

verus! {

/// What a prompt shows of a repository.
#[derive(Debug, PartialEq, Eq)]
pub struct Summary {
    pub branch: String,
    pub ahead: i32,
    pub behind: i32,
    pub staged: i32,
    pub conflict: i32,
    pub changed: i32,
    pub untracked: i32,
}

/// What a [`Summary`] holds, as mathematics.
pub struct SummaryView {
    pub branch: Seq<char>,
    pub ahead: int,
    pub behind: int,
    pub staged: int,
    pub conflict: int,
    pub changed: int,
    pub untracked: int,
}

impl View for Summary {
    type V = SummaryView;

    open spec fn view(&self) -> SummaryView {
        SummaryView {
            branch: self.branch@,
            ahead: self.ahead as int,
            behind: self.behind as int,
            staged: self.staged as int,
            conflict: self.conflict as int,
            changed: self.changed as int,
            untracked: self.untracked as int,
        }
    }
}

/// The record for a parsed header and the tallies of the file lines.
pub open spec fn record(info: BranchInfoView, lines: Seq<Seq<char>>) -> SummaryView {
    SummaryView {
        branch: info.branch,
        ahead: info.ahead(),
        behind: info.behind(),
        staged: tally(lines, Category::Staged) as int,
        conflict: tally(lines, Category::Conflict) as int,
        changed: tally(lines, Category::Changed) as int,
        untracked: tally(lines, Category::Untracked) as int,
    }
}

/// Joins a parsed header and a status into one record.
pub fn assemble(info: BranchInfo, status: Status) -> (r: Summary)
    ensures
        r@.branch == info@.branch,
        r@.ahead == info@.ahead(),
        r@.behind == info@.behind(),
        r.staged == status.staged,
        r.conflict == status.conflict,
        r.changed == status.changed,
        r.untracked == status.untracked,
{
    let (ahead, behind) = info.ahead_behind();
    Summary {
        branch: info.branch.0,
        ahead,
        behind,
        staged: status.staged,
        conflict: status.conflict,
        changed: status.changed,
        untracked: status.untracked,
    }
}

/// Summarises a short status: `head` is its first line, `files` are the lines
/// after it. `None` where `head` is no header, that is where it does not open
/// with `"## "`.
pub fn summarize(head: &str, files: &[&str]) -> (r: Option<Summary>)
    requires
        tallies_fit(texts(files@)),
    ensures
        match header(head@) {
            Ok((_, info)) => r matches Some(summary) && summary@ == record(
                info,
                texts(files@),
            ),
            Err(_) => r is None,
        },
{
    match parse_branch(head) {
        Some(info) => match Status::from_lines(files) {
            Some(status) => Some(assemble(info, status)),
            None => None,
        },
        None => None,
    }
}

} // verus!
