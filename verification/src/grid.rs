//! The grid: 81 cells in nine rows, with its rows, columns and boxes.

use vstd::prelude::*;
use crate::board::{
    Board,
    Group,
    board_wf,
    covers,
    filled,
    group_cell,
    group_pos,
    in_grid,
    solved,
    with_cell,
    lemma_singleton,
};
use crate::cell::{Cell, all_digits};

verus! {

/// A 9x9 grid of cells, row by row.
#[derive(PartialEq, Eq, Debug)]
pub struct Sudoku {
    cells: [[Cell; 9]; 9],
}

impl Clone for Sudoku {
    /// A copy of the grid, cell by cell.
    fn clone(&self) -> (copy: Self)
        ensures
            copy == *self,
    {
        Sudoku { cells: self.cells }
    }
}

impl View for Sudoku {
    type V = Board;

    /// The candidate sets of the 81 cells.
    open spec fn view(&self) -> Board {
        Seq::new(9, |r: int| Seq::new(9, |c: int| self.at(r, c)@))
    }
}

/// Some cell among the first `k` of `cells` has `d` among its candidates.
pub open spec fn seen(cells: Seq<Cell>, k: int, d: int) -> bool {
    exists|j: int| 0 <= j < k && (#[trigger] cells[j])@.contains(d)
}

/// Whether nine fixed cells hold nine different digits, which is the case exactly
/// when each digit occurs among them.
fn has_no_duplicates(cells: [Cell; 9]) -> (b: bool)
    requires
        forall|j: int| 0 <= j < 9 ==> (#[trigger] cells[j]).wf() && cells[j]@.len() == 1,
    ensures
        b == forall|d: int| 1 <= d <= 9 ==> seen(cells@, 9, d),
{
    let mut digits_set = Cell::all_digits();
    for k in 0..9usize
        invariant
            digits_set.wf(),
            forall|j: int| 0 <= j < 9 ==> (#[trigger] cells[j]).wf() && cells[j]@.len() == 1,
            forall|d: int|
                digits_set@.contains(d) <==> (1 <= d <= 9 && !seen(cells@, k as int, d)),
    {
        let cell = cells[k];
        let d = cell.first_digit();
        let ghost before = digits_set@;
        digits_set.remove_digit(d);
        proof {
            cell.lemma_view_bounds();
            lemma_singleton(cell@, d as int);
            assert forall|e: int|
                digits_set@.contains(e) <==> (1 <= e <= 9 && !seen(cells@, k + 1, e)) by {
                if seen(cells@, k + 1, e) {
                    let j = choose|j: int| 0 <= j < k + 1 && (#[trigger] cells[j])@.contains(e);
                    if j < k {
                        assert(seen(cells@, k as int, e));
                    }
                }
                if seen(cells@, k as int, e) {
                    let j = choose|j: int| 0 <= j < k && (#[trigger] cells[j])@.contains(e);
                    assert(cells[j]@.contains(e));
                }
                if e == d {
                    assert(cells[k as int]@.contains(e));
                }
            }
        }
    }
    proof {
        digits_set.lemma_view_bounds();
        if digits_set@.len() == 0 {
            assert forall|d: int| 1 <= d <= 9 implies seen(cells@, 9, d) by {
                assert(!digits_set@.contains(d));
            }
        } else {
            let d = digits_set@.choose();
            assert(digits_set@.contains(d));
            assert(!seen(cells@, 9, d));
        }
    }
    digits_set.is_empty()
}

impl Sudoku {
    /// The cell in row `r`, column `c`.
    pub closed spec fn at(&self, r: int, c: int) -> Cell {
        self.cells[r][c]
    }

    /// Every cell is well formed.
    pub open spec fn wf(&self) -> bool {
        forall|r: int, c: int| in_grid(r, c) ==> (#[trigger] self.at(r, c)).wf()
    }

    /// The view of a grid is always a board of nine by nine sets of digits.
    pub proof fn lemma_view_wf(self)
        ensures
            board_wf(self@),
    {
        assert forall|r: int, c: int| in_grid(r, c) implies (#[trigger] self@[r][c]).subset_of(
            all_digits(),
        ) by {
            self.at(r, c).lemma_view_bounds();
        }
    }

    /// Two well-formed grids with the same candidates everywhere are the same grid.
    pub proof fn lemma_view_injective(self, other: Sudoku)
        requires
            self.wf(),
            other.wf(),
            self@ == other@,
        ensures
            self == other,
    {
        assert forall|r: int| 0 <= r < 9 implies self.cells[r] == other.cells[r] by {
            assert forall|c: int| 0 <= c < 9 implies self.cells[r][c] == other.cells[r][c] by {
                assert(self@[r][c] == other@[r][c]);
                assert(self.at(r, c).wf() && other.at(r, c).wf());
                self.at(r, c).lemma_view_injective(other.at(r, c));
            }
            assert(self.cells[r] =~= other.cells[r]);
        }
        assert(self.cells =~= other.cells);
    }

    /// The grid in which every digit is possible everywhere.
    pub fn open_grid() -> (g: Self)
        ensures
            g.wf(),
            forall|r: int, c: int| in_grid(r, c) ==> #[trigger] g@[r][c] == all_digits(),
    {
        Sudoku { cells: [[Cell::all_digits(); 9]; 9] }
    }

    /// Reads the cell in row `r`, column `c`.
    pub fn cell(&self, r: usize, c: usize) -> (x: Cell)
        requires
            r < 9,
            c < 9,
        ensures
            x == self.at(r as int, c as int),
            x@ == self@[r as int][c as int],
    {
        self.cells[r][c]
    }

    /// Replaces the cell in row `r`, column `c`.
    pub fn set_cell(&mut self, r: usize, c: usize, x: Cell)
        requires
            r < 9,
            c < 9,
        ensures
            final(self).at(r as int, c as int) == x,
            forall|i: int, j: int|
                in_grid(i, j) && (i != r || j != c) ==> #[trigger] final(self).at(i, j) == old(
                    self,
                ).at(i, j),
            final(self)@ == with_cell(old(self)@, r as int, c as int, x@),
            old(self).wf() && x.wf() ==> final(self).wf(),
    {
        self.cells[r][c] = x;
        proof {
            let b = with_cell(old(self)@, r as int, c as int, x@);
            assert forall|i: int| 0 <= i < 9 implies #[trigger] self@[i] == b[i] by {
                assert(self@[i] =~= b[i]);
            }
            assert(self@ =~= b);
            if old(self).wf() && x.wf() {
                assert forall|i: int, j: int| in_grid(i, j) implies (#[trigger] self.at(
                    i,
                    j,
                )).wf() by {
                    if i != r || j != c {
                        assert(self.at(i, j) == old(self).at(i, j));
                    }
                }
            }
        }
    }

    /// Nine cells read off a group cover a digit exactly when the group does.
    proof fn lemma_seen_covers(self, kind: Group, i: int, cells: Seq<Cell>)
        requires
            0 <= i < 9,
            forall|k: int|
                0 <= k < 9 ==> #[trigger] cells[k] == self.at(
                    group_pos(kind, i, k).0,
                    group_pos(kind, i, k).1,
                ),
        ensures
            forall|d: int| seen(cells, 9, d) == covers(self@, kind, i, d),
    {
        assert forall|d: int| seen(cells, 9, d) == covers(self@, kind, i, d) by {
            if seen(cells, 9, d) {
                let k = choose|k: int| 0 <= k < 9 && (#[trigger] cells[k])@.contains(d);
                assert(group_cell(self@, kind, i, k).contains(d));
            }
            if covers(self@, kind, i, d) {
                let k = choose|k: int|
                    0 <= k < 9 && #[trigger] group_cell(self@, kind, i, k).contains(d);
                assert(cells[k]@.contains(d));
            }
        }
    }

    /// Whether every cell is fixed and no row, column or box holds a digit twice.
    pub fn is_solved(&self) -> (b: bool)
        requires
            self.wf(),
        ensures
            b == solved(self@),
    {
        for r in 0..9usize
            invariant
                forall|i: int, j: int|
                    0 <= i < r && 0 <= j < 9 ==> (#[trigger] self@[i][j]).len() == 1,
        {
            for c in 0..9usize
                invariant
                    r < 9,
                    forall|i: int, j: int|
                        0 <= i < r && 0 <= j < 9 ==> (#[trigger] self@[i][j]).len() == 1,
                    forall|j: int| 0 <= j < c ==> (#[trigger] self@[r as int][j]).len() == 1,
            {
                if self.cells[r][c].len() != 1 {
                    assert(self@[r as int][c as int].len() != 1);
                    return false;
                }
            }
        }
        assert(filled(self@));

        for i in 0..9usize
            invariant
                self.wf(),
                filled(self@),
                forall|j: int, d: int|
                    0 <= j < i && 1 <= d <= 9 ==> #[trigger] covers(self@, Group::Row, j, d),
        {
            let cells = self.row(i);
            proof {
                self.lemma_seen_covers(Group::Row, i as int, cells@);
                assert forall|k: int| 0 <= k < 9 implies
                    (#[trigger] cells[k]).wf() && cells[k]@.len()
                    == 1 by {
                    assert(cells[k]@ == self@[i as int][k]);
                }
            }
            if !has_no_duplicates(cells) {
                return false;
            }
            assert forall|d: int| 1 <= d <= 9 implies #[trigger] covers(
                self@,
                Group::Row,
                i as int,
                d,
            ) by {
                assert(seen(cells@, 9, d));
            }
        }

        for i in 0..9usize
            invariant
                self.wf(),
                filled(self@),
                forall|j: int, d: int|
                    0 <= j < 9 && 1 <= d <= 9 ==> #[trigger] covers(self@, Group::Row, j, d),
                forall|j: int, d: int|
                    0 <= j < i && 1 <= d <= 9 ==> #[trigger] covers(self@, Group::Col, j, d),
        {
            let cells = self.col(i);
            proof {
                self.lemma_seen_covers(Group::Col, i as int, cells@);
                assert forall|k: int| 0 <= k < 9 implies
                    (#[trigger] cells[k]).wf() && cells[k]@.len()
                    == 1 by {
                    assert(cells[k]@ == self@[k][i as int]);
                }
            }
            if !has_no_duplicates(cells) {
                return false;
            }
            assert forall|d: int| 1 <= d <= 9 implies #[trigger] covers(
                self@,
                Group::Col,
                i as int,
                d,
            ) by {
                assert(seen(cells@, 9, d));
            }
        }

        for i in 0..9usize
            invariant
                self.wf(),
                filled(self@),
                forall|j: int, d: int|
                    0 <= j < 9 && 1 <= d <= 9 ==> #[trigger] covers(self@, Group::Row, j, d),
                forall|j: int, d: int|
                    0 <= j < 9 && 1 <= d <= 9 ==> #[trigger] covers(self@, Group::Col, j, d),
                forall|j: int, d: int|
                    0 <= j < i && 1 <= d <= 9 ==> #[trigger] covers(self@, Group::Quad, j, d),
        {
            let cells = self.quad(i / 3 * 3, i % 3 * 3);
            proof {
                self.lemma_seen_covers(Group::Quad, i as int, cells@);
                assert forall|k: int| 0 <= k < 9 implies
                    (#[trigger] cells[k]).wf() && cells[k]@.len()
                    == 1 by {
                    assert(cells[k]@ == self@[i / 3 * 3 + k / 3][i % 3 * 3 + k % 3]);
                }
            }
            if !has_no_duplicates(cells) {
                return false;
            }
            assert forall|d: int| 1 <= d <= 9 implies #[trigger] covers(
                self@,
                Group::Quad,
                i as int,
                d,
            ) by {
                assert(seen(cells@, 9, d));
            }
        }

        proof {
            assert forall|kind: Group, i: int, d: int|
                0 <= i < 9 && 1 <= d <= 9 implies #[trigger] covers(self@, kind, i, d) by {
                match kind {
                    Group::Row => {},
                    Group::Col => {},
                    Group::Quad => {},
                }
            }
        }
        true
    }

    /// The nine cells of row `r`, by column.
    pub fn row(&self, r: usize) -> (cells: [Cell; 9])
        requires
            r < 9,
        ensures
            forall|k: int| 0 <= k < 9 ==> #[trigger] cells[k] == self.at(r as int, k),
    {
        [
            self.cells[r][0],
            self.cells[r][1],
            self.cells[r][2],
            self.cells[r][3],
            self.cells[r][4],
            self.cells[r][5],
            self.cells[r][6],
            self.cells[r][7],
            self.cells[r][8],
        ]
    }

    /// The nine cells of column `c`, by row.
    pub fn col(&self, c: usize) -> (cells: [Cell; 9])
        requires
            c < 9,
        ensures
            forall|k: int| 0 <= k < 9 ==> #[trigger] cells[k] == self.at(k, c as int),
    {
        [
            self.cells[0][c],
            self.cells[1][c],
            self.cells[2][c],
            self.cells[3][c],
            self.cells[4][c],
            self.cells[5][c],
            self.cells[6][c],
            self.cells[7][c],
            self.cells[8][c],
        ]
    }

    /// The top left corner of the box that holds row `r`, column `c`.
    pub fn quad_of(&self, r: usize, c: usize) -> (corner: (usize, usize))
        ensures
            corner.0 == r - r % 3,
            corner.1 == c - c % 3,
    {
        (r / 3 * 3, c / 3 * 3)
    }

    /// The nine cells of the box that holds row `r`, column `c`, row by row.
    pub fn quad(&self, r: usize, c: usize) -> (cells: [Cell; 9])
        requires
            r < 9,
            c < 9,
        ensures
            forall|k: int|
                0 <= k < 9 ==> #[trigger] cells[k] == self.at(
                    r - r % 3 + k / 3,
                    c - c % 3 + k % 3,
                ),
    {
        let (qr, qc) = self.quad_of(r, c);

        [
            self.cells[qr][qc],
            self.cells[qr][qc + 1],
            self.cells[qr][qc + 2],
            self.cells[qr + 1][qc],
            self.cells[qr + 1][qc + 1],
            self.cells[qr + 1][qc + 2],
            self.cells[qr + 2][qc],
            self.cells[qr + 2][qc + 1],
            self.cells[qr + 2][qc + 2],
        ]
    }
}

} // verus!
