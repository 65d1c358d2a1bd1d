//! The mathematical model of a grid: nine rows of nine candidate sets.

use vstd::prelude::*;
use crate::cell::{all_digits, top_digit};

verus! {

/// A grid as a value of pure mathematics: `b[r][c]` is the set of digits still
/// possible in row `r`, column `c`.
pub type Board = Seq<Seq<Set<int>>>;

/// The three ways in which the 81 positions are split into nine groups of nine.
#[derive(Clone, Copy, PartialEq, Eq, Structural, Debug)]
pub enum Group {
    Row,
    Col,
    Quad,
}

/// Row `r` and column `c` are those of a cell of the grid.
pub open spec fn in_grid(r: int, c: int) -> bool {
    0 <= r < 9 && 0 <= c < 9
}

/// Nine rows of nine cells, each cell a set of digits.
pub open spec fn board_wf(b: Board) -> bool {
    &&& b.len() == 9
    &&& forall|r: int| 0 <= r < 9 ==> (#[trigger] b[r]).len() == 9
    &&& forall|r: int, c: int| in_grid(r, c) ==> (#[trigger] b[r][c]).subset_of(all_digits())
}

/// The board `b` with the cell in row `r`, column `c` replaced by `s`.
pub open spec fn with_cell(b: Board, r: int, c: int, s: Set<int>) -> Board {
    b.update(r, b[r].update(c, s))
}

/// The position, as row and column, of the `k`-th cell of the `i`-th group of a kind.
/// Rows and columns are walked in index order, a box row by row.
pub open spec fn group_pos(kind: Group, i: int, k: int) -> (int, int) {
    match kind {
        Group::Row => (i, k),
        Group::Col => (k, i),
        Group::Quad => (i / 3 * 3 + k / 3, i % 3 * 3 + k % 3),
    }
}

/// The candidates of the `k`-th cell of the `i`-th group of a kind.
pub open spec fn group_cell(b: Board, kind: Group, i: int, k: int) -> Set<int> {
    b[group_pos(kind, i, k).0][group_pos(kind, i, k).1]
}

/// Every cell holds exactly one digit.
pub open spec fn filled(b: Board) -> bool {
    forall|r: int, c: int| in_grid(r, c) ==> (#[trigger] b[r][c]).len() == 1
}

/// Some cell of the group has `d` among its candidates.
pub open spec fn covers(b: Board, kind: Group, i: int, d: int) -> bool {
    exists|k: int| 0 <= k < 9 && #[trigger] group_cell(b, kind, i, k).contains(d)
}

/// Every cell is fixed and every row, column and box holds each digit.
pub open spec fn solved(b: Board) -> bool {
    &&& filled(b)
    &&& forall|kind: Group, i: int, d: int|
        0 <= i < 9 && 1 <= d <= 9 ==> #[trigger] covers(b, kind, i, d)
}

/// Cell by cell, the candidates of `a` are among those of `b`.
pub open spec fn refines(a: Board, b: Board) -> bool {
    forall|r: int, c: int|
        #![trigger a[r][c]]
        #![trigger b[r][c]]
        in_grid(r, c) ==> a[r][c].subset_of(b[r][c])
}

/// A set of one element is the singleton of any of its members.
pub proof fn lemma_singleton(s: Set<int>, d: int)
    requires
        s.finite(),
        s.len() == 1,
        s.contains(d),
    ensures
        s == set![d],
        top_digit(s) == d,
{
    assert(s.remove(d).len() == 0);
    assert(s.remove(d) =~= Set::empty());
    assert(s =~= set![d]);
    assert(forall|e: int| s.contains(e) ==> e <= d);
}

impl Group {
    /// The position of the `k`-th cell of the `i`-th group of this kind.
    pub fn position(self, i: usize, k: usize) -> (p: (usize, usize))
        requires
            i < 9,
            k < 9,
        ensures
            p.0 < 9,
            p.1 < 9,
            p.0 == group_pos(self, i as int, k as int).0,
            p.1 == group_pos(self, i as int, k as int).1,
    {
        match self {
            Group::Row => (i, k),
            Group::Col => (k, i),
            Group::Quad => (i / 3 * 3 + k / 3, i % 3 * 3 + k % 3),
        }
    }
}

} // verus!
