//! Classification of the two-character codes that open the file lines of a
//! short status, and the tally of a sequence of such lines.

use vstd::prelude::*;
use crate::text::is_whitespace;

verus! {

/// The four things a prompt counts.
#[derive(Clone, Copy, Debug, PartialEq, Eq, Structural)]
pub enum Category {
    /// Added, renamed or copied in the index, untouched in the worktree.
    Staged,
    /// Unmerged.
    Conflict,
    /// Modified or deleted, in the index or in the worktree, and not unmerged.
    Changed,
    /// Unknown to git.
    Untracked,
}

/// The code of one file line: the state of the index, then that of the worktree.
#[derive(Clone, Copy, Debug, PartialEq, Eq, Structural)]
pub struct MiniStatus(pub char, pub char);

impl MiniStatus {
    /// The code that opens `line`: its first two characters, if it has that many.
    pub open spec fn of(line: Seq<char>) -> Option<MiniStatus> {
        if line.len() >= 2 {
            Some(MiniStatus(line[0], line[1]))
        } else {
            None
        }
    }

    /// Index state `A`, `R` or `C` with a worktree state of space.
    pub open spec fn staged(self) -> bool {
        (self.0 == 'A' || self.0 == 'R' || self.0 == 'C') && self.1 == ' '
    }

    /// `U` on either side, or a worktree state of `D`.
    pub open spec fn conflict(self) -> bool {
        self.0 == 'U' || self.1 == 'U' || self.1 == 'D'
    }

    /// `M` or `D` on either side, unless the code is a conflict.
    pub open spec fn changed(self) -> bool {
        !self.conflict() && (self.0 == 'M' || self.0 == 'D' || self.1 == 'M' || self.1 == 'D')
    }

    /// `??`.
    pub open spec fn untracked(self) -> bool {
        self.0 == '?' && self.1 == '?'
    }

    /// Whether the code counts under `category`.
    pub open spec fn counts_as(self, category: Category) -> bool {
        match category {
            Category::Staged => self.staged(),
            Category::Conflict => self.conflict(),
            Category::Changed => self.changed(),
            Category::Untracked => self.untracked(),
        }
    }

    /// Reads the code that opens `s`; `None` where `s` has fewer than two characters.
    pub fn from_str(s: &str) -> (r: Option<MiniStatus>)
        ensures
            r == MiniStatus::of(s@),
    {
        let mut chars = s.chars();
        match chars.next() {
            Some(index) => match chars.next() {
                Some(worktree) => Some(MiniStatus(index, worktree)),
                None => None,
            },
            None => None,
        }
    }

    /// Whether the code counts as staged.
    pub fn is_staged(&self) -> (r: bool)
        ensures
            r == self.staged(),
    {
        (self.0 == 'A' || self.0 == 'R' || self.0 == 'C') && self.1 == ' '
    }

    /// Whether the code counts as a conflict.
    pub fn is_conflict(&self) -> (r: bool)
        ensures
            r == self.conflict(),
    {
        self.0 == 'U' || self.1 == 'U' || self.1 == 'D'
    }

    /// Whether the code counts as changed.
    pub fn is_changed(&self) -> (r: bool)
        ensures
            r == self.changed(),
    {
        !self.is_conflict() && (self.0 == 'M' || self.0 == 'D' || self.1 == 'M' || self.1 == 'D')
    }

    /// Whether the code counts as untracked.
    pub fn is_untracked(&self) -> (r: bool)
        ensures
            r == self.untracked(),
    {
        self.0 == '?' && self.1 == '?'
    }
}

/// Whether `line` opens with a code that counts under `category`.
pub open spec fn line_counts_as(line: Seq<char>, category: Category) -> bool {
    match MiniStatus::of(line) {
        Some(code) => code.counts_as(category),
        None => false,
    }
}

/// How many of `lines` count under `category`.
pub open spec fn tally(lines: Seq<Seq<char>>, category: Category) -> nat
    decreases lines.len(),
{
    if lines.len() == 0 {
        0
    } else {
        tally(lines.drop_last(), category) + if line_counts_as(lines.last(), category) {
            1nat
        } else {
            0nat
        }
    }
}

/// The lines of a slice, each as its sequence of characters.
pub open spec fn texts(lines: Seq<&str>) -> Seq<Seq<char>> {
    Seq::new(lines.len(), |i: int| lines[i]@)
}

/// Every tally of `lines` fits an `i32`.
pub open spec fn tallies_fit(lines: Seq<Seq<char>>) -> bool {
    &&& tally(lines, Category::Staged) <= i32::MAX
    &&& tally(lines, Category::Conflict) <= i32::MAX
    &&& tally(lines, Category::Changed) <= i32::MAX
    &&& tally(lines, Category::Untracked) <= i32::MAX
}

/// How many file lines fall under each category.
#[derive(Clone, Copy, Debug, PartialEq, Eq, Structural)]
pub struct Status {
    pub staged: i32,
    pub conflict: i32,
    pub changed: i32,
    pub untracked: i32,
}

impl Default for Status {
    /// The status of no lines: every counter at 0.
    fn default() -> (r: Status)
        ensures
            r == (Status { staged: 0, conflict: 0, changed: 0, untracked: 0 }),
    {
        Status { staged: 0, conflict: 0, changed: 0, untracked: 0 }
    }
}

impl Status {
    /// No counter is negative.
    pub open spec fn well_formed(self) -> bool {
        self.staged >= 0 && self.conflict >= 0 && self.changed >= 0 && self.untracked >= 0
    }

    /// Whether each counter is the tally of `lines` under its category.
    pub open spec fn tallies(self, lines: Seq<Seq<char>>) -> bool {
        &&& self.staged == tally(lines, Category::Staged)
        &&& self.conflict == tally(lines, Category::Conflict)
        &&& self.changed == tally(lines, Category::Changed)
        &&& self.untracked == tally(lines, Category::Untracked)
    }

    /// Counts the file lines of a status under each category. A line shorter than
    /// two characters counts nowhere. Always `Some`.
    pub fn from_lines(lines: &[&str]) -> (r: Option<Status>)
        requires
            tallies_fit(texts(lines@)),
        ensures
            r matches Some(status) && status.tallies(texts(lines@)) && status.well_formed(),
    {
        let mut status = Status { staged: 0, conflict: 0, changed: 0, untracked: 0 };
        let mut i: usize = 0;
        while i < lines.len()
            invariant
                i <= lines.len(),
                tallies_fit(texts(lines@)),
                status.tallies(texts(lines@).take(i as int)),
            decreases lines.len() - i,
        {
            let ghost seen = texts(lines@).take(i as int);
            let ghost next = texts(lines@).take(i + 1);
            proof {
                assert(next.drop_last() =~= seen);
                assert(next.last() == lines@[i as int]@);
                lemma_tally_prefix(texts(lines@), i + 1, Category::Staged);
                lemma_tally_prefix(texts(lines@), i + 1, Category::Conflict);
                lemma_tally_prefix(texts(lines@), i + 1, Category::Changed);
                lemma_tally_prefix(texts(lines@), i + 1, Category::Untracked);
            }
            if let Some(code) = MiniStatus::from_str(lines[i]) {
                if code.is_changed() {
                    status.changed += 1;
                }
                if code.is_staged() {
                    status.staged += 1;
                }
                if code.is_conflict() {
                    status.conflict += 1;
                }
                if code.is_untracked() {
                    status.untracked += 1;
                }
            }
            i += 1;
        }
        assert(texts(lines@).take(i as int) =~= texts(lines@));
        Some(status)
    }
}

/// A prefix of `lines` tallies no more than the whole.
pub proof fn lemma_tally_prefix(lines: Seq<Seq<char>>, n: int, category: Category)
    requires
        0 <= n <= lines.len(),
    ensures
        tally(lines.take(n), category) <= tally(lines, category),
    decreases lines.len(),
{
    if n == lines.len() {
        assert(lines.take(n) =~= lines);
    } else {
        lemma_tally_prefix(lines.drop_last(), n, category);
        assert(lines.drop_last().take(n) =~= lines.take(n));
    }
}

/// The tally of two sequences joined is the sum of their tallies.
pub proof fn lemma_tally_concat(a: Seq<Seq<char>>, b: Seq<Seq<char>>, category: Category)
    ensures
        tally(a + b, category) == tally(a, category) + tally(b, category),
    decreases b.len(),
{
    if b.len() == 0 {
        assert(a + b =~= a);
    } else {
        lemma_tally_concat(a, b.drop_last(), category);
        assert((a + b).drop_last() =~= a + b.drop_last());
    }
}

/// Taking a line out lowers the tally by one where the line counted, and not at all
/// where it did not.
pub proof fn lemma_tally_remove(lines: Seq<Seq<char>>, i: int, category: Category)
    requires
        0 <= i < lines.len(),
    ensures
        tally(lines, category) == tally(lines.remove(i), category) + if line_counts_as(
            lines[i],
            category,
        ) {
            1nat
        } else {
            0nat
        },
{
    let head = lines.take(i);
    let one = seq![lines[i]];
    let tail = lines.skip(i + 1);
    assert(lines =~= head + one + tail);
    assert(lines.remove(i) =~= head + tail);
    assert(one.drop_last() =~= Seq::<Seq<char>>::empty());
    reveal_with_fuel(tally, 2);
    lemma_tally_concat(head, one, category);
    lemma_tally_concat(head + one, tail, category);
    lemma_tally_concat(head, tail, category);
}

/// The order of the lines does not matter: two sequences that hold the same lines,
/// each as many times in the one as in the other, have the same tally under every
/// category.
pub proof fn lemma_tally_order_independent(
    a: Seq<Seq<char>>,
    b: Seq<Seq<char>>,
    category: Category,
)
    requires
        a.to_multiset() == b.to_multiset(),
    ensures
        tally(a, category) == tally(b, category),
    decreases a.len(),
{
    vstd::seq_lib::to_multiset_len(a);
    vstd::seq_lib::to_multiset_len(b);
    if a.len() == 0 {
    } else {
        let last = a.len() - 1;
        let line = a[last];
        vstd::seq_lib::to_multiset_contains(a, line);
        vstd::seq_lib::to_multiset_contains(b, line);
        assert(a.contains(line));
        let j = choose|j: int| 0 <= j < b.len() && b[j] == line;
        vstd::seq_lib::to_multiset_remove(a, last);
        vstd::seq_lib::to_multiset_remove(b, j);
        lemma_tally_order_independent(a.remove(last), b.remove(j), category);
        lemma_tally_remove(a, last, category);
        lemma_tally_remove(b, j, category);
    }
}

/// Counting is independent of the order of the lines: the statuses of two sequences
/// that hold the same lines, each as many times in the one as in the other, are
/// equal.
pub proof fn lemma_status_order_independent(
    first: Status,
    a: Seq<Seq<char>>,
    second: Status,
    b: Seq<Seq<char>>,
)
    requires
        a.to_multiset() == b.to_multiset(),
        first.tallies(a),
        second.tallies(b),
    ensures
        first == second,
{
    lemma_tally_order_independent(a, b, Category::Staged);
    lemma_tally_order_independent(a, b, Category::Conflict);
    lemma_tally_order_independent(a, b, Category::Changed);
    lemma_tally_order_independent(a, b, Category::Untracked);
}

/// Every character of `line` is whitespace.
pub open spec fn is_blank(line: Seq<char>) -> bool {
    forall|i: int| 0 <= i < line.len() ==> is_whitespace(#[trigger] line[i])
}

/// A line of fewer than two characters, or of whitespace alone, changes no counter,
/// wherever it stands among the others.
pub proof fn lemma_short_or_blank_line_ignored(
    lines: Seq<Seq<char>>,
    i: int,
    line: Seq<char>,
    category: Category,
)
    requires
        0 <= i <= lines.len(),
        line.len() < 2 || is_blank(line),
    ensures
        !line_counts_as(line, category),
        tally(lines.insert(i, line), category) == tally(lines, category),
{
    if line.len() >= 2 {
        assert(is_whitespace(line[0]) && is_whitespace(line[1]));
    }
    let longer = lines.insert(i, line);
    assert(longer.remove(i) =~= lines);
    lemma_tally_remove(longer, i, category);
}

/// A code counts under one category at most; so a conflict is never counted as
/// changed, and what is staged is never counted as changed.
pub proof fn lemma_categories_exclusive(code: MiniStatus, one: Category, other: Category)
    requires
        code.counts_as(one),
        code.counts_as(other),
    ensures
        one == other,
{
}

/// No tally exceeds the number of lines; so a slice of at most `i32::MAX` lines
/// can always be counted.
pub proof fn lemma_tally_bounded(lines: Seq<Seq<char>>, category: Category)
    ensures
        tally(lines, category) <= lines.len(),
    decreases lines.len(),
{
    if lines.len() > 0 {
        lemma_tally_bounded(lines.drop_last(), category);
    }
}

} // verus!
