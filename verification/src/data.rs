//! The values a parsed header is made of, and their mathematical views.

use vstd::prelude::*;
use crate::text::{is_trimmed, push_signed_decimal, signed_decimal};

verus! {

/// The view of what an `Option` holds, if it holds anything.
pub open spec fn view_of<T: View>(o: Option<T>) -> Option<T::V> {
    match o {
        Some(value) => Some(value@),
        None => None,
    }
}

/// A commit hash, as text.
#[derive(Debug, PartialEq, Eq)]
pub struct Hash(pub String);

impl View for Hash {
    type V = Seq<char>;

    open spec fn view(&self) -> Seq<char> {
        self.0@
    }
}

/// A branch name as it is shown: a name of git's, or a placeholder such as `(no branch)`.
#[derive(Debug, PartialEq, Eq)]
pub struct Branch(pub String);

impl View for Branch {
    type V = Seq<char>;

    open spec fn view(&self) -> Seq<char> {
        self.0@
    }
}

impl Branch {
    /// The name carries no whitespace at either end.
    pub open spec fn well_formed(&self) -> bool {
        is_trimmed(self@)
    }
}

/// How far a branch has moved away from the remote branch it tracks, in commits.
#[derive(Clone, Copy, Debug, PartialEq, Eq, Structural)]
pub enum Distance {
    /// The branch holds this many commits that the remote lacks.
    Ahead(i32),
    /// The remote holds this many commits that the branch lacks.
    Behind(i32),
    /// Both at once: commits ahead, then commits behind.
    AheadBehind(i32, i32),
}

impl Distance {
    /// Commits ahead of the remote; 0 where the distance names none.
    pub open spec fn ahead(self) -> int {
        match self {
            Distance::Ahead(n) => n as int,
            Distance::Behind(_) => 0,
            Distance::AheadBehind(a, _) => a as int,
        }
    }

    /// Commits behind the remote; 0 where the distance names none.
    pub open spec fn behind(self) -> int {
        match self {
            Distance::Ahead(_) => 0,
            Distance::Behind(n) => n as int,
            Distance::AheadBehind(_, b) => b as int,
        }
    }

    /// No count is negative.
    pub open spec fn well_formed(self) -> bool {
        self.ahead() >= 0 && self.behind() >= 0
    }

    /// The bracket that git writes for this distance.
    pub open spec fn text(self) -> Seq<char> {
        match self {
            Distance::Ahead(n) => "[ahead "@ + signed_decimal(n as int) + "]"@,
            Distance::Behind(n) => "[behind "@ + signed_decimal(n as int) + "]"@,
            Distance::AheadBehind(a, b) => "[ahead "@ + signed_decimal(a as int) + ", behind "@
                + signed_decimal(b as int) + "]"@,
        }
    }

    /// The pair (ahead, behind), with 0 for a side the distance does not name.
    pub fn ahead_behind(&self) -> (r: (i32, i32))
        ensures
            r.0 == self.ahead(),
            r.1 == self.behind(),
    {
        match self {
            Distance::Ahead(n) => (*n, 0),
            Distance::Behind(n) => (0, *n),
            Distance::AheadBehind(a, b) => (*a, *b),
        }
    }

    /// Writes the distance as git does: `[ahead 3]`, `[behind 2]` or `[ahead 3, behind 2]`.
    pub fn to_string(&self) -> (r: String)
        ensures
            r@ == self.text(),
    {
        let mut out = String::new();
        match self {
            Distance::Ahead(n) => {
                out.append("[ahead ");
                push_signed_decimal(&mut out, *n);
            },
            Distance::Behind(n) => {
                out.append("[behind ");
                push_signed_decimal(&mut out, *n);
            },
            Distance::AheadBehind(a, b) => {
                out.append("[ahead ");
                push_signed_decimal(&mut out, *a);
                out.append(", behind ");
                push_signed_decimal(&mut out, *b);
            },
        }
        out.append("]");
        assert(out@ =~= self.text());
        out
    }
}

/// The remote branch that a branch tracks.
#[derive(Debug, PartialEq, Eq)]
pub struct Remote {
    pub branch: Branch,
    pub distance: Option<Distance>,
}

/// What a [`Remote`] holds, as mathematics.
pub struct RemoteView {
    pub branch: Seq<char>,
    pub distance: Option<Distance>,
}

impl View for Remote {
    type V = RemoteView;

    open spec fn view(&self) -> RemoteView {
        RemoteView { branch: self.branch@, distance: self.distance }
    }
}

impl Remote {
    /// The name is trimmed and the distance, if any, holds no negative count.
    pub open spec fn well_formed(&self) -> bool {
        self@.well_formed()
    }
}

impl RemoteView {
    /// The name is trimmed and the distance, if any, holds no negative count.
    pub open spec fn well_formed(self) -> bool {
        &&& is_trimmed(self.branch)
        &&& self.distance matches Some(d) ==> d.well_formed()
    }
}

/// A parsed header line: the current branch and the remote it tracks, if any.
#[derive(Debug, PartialEq, Eq)]
pub struct BranchInfo {
    pub branch: Branch,
    pub remote: Option<Remote>,
}

/// What a [`BranchInfo`] holds, as mathematics.
pub struct BranchInfoView {
    pub branch: Seq<char>,
    pub remote: Option<RemoteView>,
}

impl View for BranchInfo {
    type V = BranchInfoView;

    open spec fn view(&self) -> BranchInfoView {
        BranchInfoView {
            branch: self.branch@,
            remote: view_of(self.remote),
        }
    }
}

impl BranchInfoView {
    /// Both names are trimmed and no count is negative.
    pub open spec fn well_formed(self) -> bool {
        &&& is_trimmed(self.branch)
        &&& self.remote matches Some(r) ==> r.well_formed()
    }

    /// Commits ahead of the remote; 0 without a remote or a distance.
    pub open spec fn ahead(self) -> int {
        match self.remote {
            Some(RemoteView { distance: Some(d), .. }) => d.ahead(),
            _ => 0,
        }
    }

    /// Commits behind the remote; 0 without a remote or a distance.
    pub open spec fn behind(self) -> int {
        match self.remote {
            Some(RemoteView { distance: Some(d), .. }) => d.behind(),
            _ => 0,
        }
    }
}

impl BranchInfo {
    /// Both names are trimmed and no count is negative.
    pub open spec fn well_formed(&self) -> bool {
        self@.well_formed()
    }

    /// The pair (ahead, behind) of the remote's distance; (0, 0) without a remote
    /// or a distance.
    pub fn ahead_behind(&self) -> (r: (i32, i32))
        ensures
            r.0 == self@.ahead(),
            r.1 == self@.behind(),
    {
        match &self.remote {
            Some(remote) => match &remote.distance {
                Some(d) => d.ahead_behind(),
                None => (0, 0),
            },
            None => (0, 0),
        }
    }
}

} // verus!
