//! Random grids that have a solution.

use rand::seq::SliceRandom;
use rand::Rng;
use rand_xorshift::XorShiftRng;
use vstd::prelude::*;
use crate::board::{
    Board,
    Group,
    board_wf,
    covers,
    group_cell,
    group_pos,
    in_grid,
    refines,
    solved,
    with_cell,
};
use crate::cell::{Cell, all_digits};
use crate::grid::Sudoku;
use crate::guarantees::{lemma_first_solution_exists, lemma_refines_refl, lemma_search_sound};
use crate::search::{search, stack_wf};

verus! {

/// The generator of random numbers that the grids are drawn with.
#[verifier::external_type_specification]
#[verifier::external_body]
pub struct ExXorShiftRng(rand_xorshift::XorShiftRng);

/// `SliceRandom::shuffle` of the crate `rand`, which swaps the elements of a
/// slice among themselves. Whatever the generator gives, the same elements are
/// there afterwards, each as often as before.
#[verifier::external_body]
fn shuffle(positions: &mut Vec<usize>, rng: &mut XorShiftRng)
    ensures
        final(positions)@.to_multiset() == old(positions)@.to_multiset(),
{
    positions.shuffle(rng);
}

/// `Rng::gen_range` of the crate `rand` from 0 to `bound`, which panics unless
/// `bound` is positive. Whatever the generator gives, the number is below `bound`.
#[verifier::external_body]
fn index_below(rng: &mut XorShiftRng, bound: usize) -> (i: usize)
    requires
        bound > 0,
    ensures
        i < bound,
{
    rng.gen_range(0, bound)
}

/// The board on which every digit is possible everywhere.
pub open spec fn open_board() -> Board {
    Seq::new(9, |r: int| Seq::new(9, |c: int| all_digits()))
}

/// The positions at which a board is not fixed.
pub open spec fn open_positions(b: Board) -> Set<(int, int)> {
    Set::new(|p: (int, int)| in_grid(p.0, p.1) && b[p.0][p.1].len() != 1)
}

/// The board `b` is `s` with some cells opened: each cell of `b` is that of `s`,
/// or holds all the digits.
pub open spec fn opened(s: Board, b: Board) -> bool {
    forall|r: int, c: int|
        in_grid(r, c) ==> (#[trigger] b[r][c]) == s[r][c] || b[r][c] == all_digits()
}

/// The digit in row `r`, column `c` of a grid that is solved: the first row
/// shifted by three from row to row, and by one more from one band of three
/// rows to the next.
pub open spec fn pattern_digit(r: int, c: int) -> int {
    (3 * (r % 3) + r / 3 + c) % 9 + 1
}

/// A solved board.
pub open spec fn pattern() -> Board {
    Seq::new(9, |r: int| Seq::new(9, |c: int| set![pattern_digit(r, c)]))
}

/// The column at which a digit stands in a row of the pattern.
proof fn lemma_pattern_row(i: int, d: int) -> (k: int)
    requires
        0 <= i < 9,
        1 <= d <= 9,
    ensures
        0 <= k < 9,
        pattern_digit(i, k) == d,
{
    let x = 3 * (i % 3) + i / 3;
    let k = (d - 1 - x) % 9;
    assert((x + k) % 9 == d - 1) by {
        if d - 1 - x >= 0 {
            assert(k == d - 1 - x);
        } else {
            assert(k == d - 1 - x + 9);
        }
    }
    k
}

/// The row at which a digit stands in a column of the pattern.
proof fn lemma_pattern_col(i: int, d: int) -> (k: int)
    requires
        0 <= i < 9,
        1 <= d <= 9,
    ensures
        0 <= k < 9,
        pattern_digit(k, i) == d,
{
    let t = (d - 1 - i) % 9;
    if d - 1 - i >= 0 {
        assert(t == d - 1 - i);
    } else {
        assert(t == d - 1 - i + 9);
    }
    let k = 3 * (t % 3) + t / 3;
    assert(k % 3 == t / 3 && k / 3 == t % 3);
    assert(3 * (k % 3) + k / 3 == t);
    assert((t + i) % 9 == d - 1);
    k
}

/// The place at which a digit stands in a box of the pattern.
proof fn lemma_pattern_quad(i: int, d: int) -> (k: int)
    requires
        0 <= i < 9,
        1 <= d <= 9,
    ensures
        0 <= k < 9,
        pattern_digit(i / 3 * 3 + k / 3, i % 3 * 3 + k % 3) == d,
{
    let x = i / 3 + 3 * (i % 3);
    let k = (d - 1 - x) % 9;
    if d - 1 - x >= 0 {
        assert(k == d - 1 - x);
    } else {
        assert(k == d - 1 - x + 9);
    }
    let r = i / 3 * 3 + k / 3;
    let c = i % 3 * 3 + k % 3;
    assert(r % 3 == k / 3 && r / 3 == i / 3);
    assert(3 * (r % 3) + r / 3 + c == k + x);
    assert((k + x) % 9 == d - 1);
    k
}

/// There is a solved board.
pub proof fn lemma_pattern_solved()
    ensures
        board_wf(pattern()),
        solved(pattern()),
{
    let b = pattern();
    assert forall|r: int, c: int| in_grid(r, c) implies (#[trigger] b[r][c]).subset_of(
        all_digits(),
    ) && b[r][c].len() == 1 by {
        assert(b[r][c] == set![pattern_digit(r, c)]);
    }
    assert forall|kind: Group, i: int, d: int| 0 <= i < 9 && 1 <= d <= 9 implies #[trigger] covers(
        b,
        kind,
        i,
        d,
    ) by {
        let k = match kind {
            Group::Row => lemma_pattern_row(i, d),
            Group::Col => lemma_pattern_col(i, d),
            Group::Quad => lemma_pattern_quad(i, d),
        };
        let (r, c) = group_pos(kind, i, k);
        assert(in_grid(r, c));
        assert(b[r][c] == set![pattern_digit(r, c)]);
        assert(group_cell(b, kind, i, k).contains(d));
    }
}

/// The 81 positions of the grid, row by row, each as nine times its row plus its column.
fn all_positions() -> (positions: Vec<usize>)
    ensures
        positions@ == Seq::new(81, |i: int| i as usize),
{
    let mut positions: Vec<usize> = Vec::new();
    for i in 0..81usize
        invariant
            positions@ == Seq::new(i as nat, |j: int| j as usize),
    {
        positions.push(i);
        assert(positions@ =~= Seq::new((i + 1) as nat, |j: int| j as usize));
    }
    positions
}

/// A rearrangement of the 81 positions holds each position once.
proof fn lemma_rearranged(before: Seq<usize>, after: Seq<usize>)
    requires
        before == Seq::new(81, |i: int| i as usize),
        after.to_multiset() == before.to_multiset(),
    ensures
        after.len() == 81,
        after.no_duplicates(),
        forall|j: int| 0 <= j < 81 ==> #[trigger] after[j] < 81,
{
    before.to_multiset_ensures();
    after.to_multiset_ensures();
    assert(before.no_duplicates());
    before.lemma_multiset_has_no_duplicates();
    after.lemma_multiset_has_no_duplicates_conv();
    assert forall|j: int| 0 <= j < 81 implies #[trigger] after[j] < 81 by {
        let x = after[j];
        assert(after.contains(x));
        assert(after.to_multiset().count(x) > 0);
        assert(before.contains(x));
        let i = choose|i: int| 0 <= i < before.len() && before[i] == x;
        assert(before[i] == i as usize);
    }
}

/// The picks can be carried out on the positions: every position is one of the
/// grid, and each pick is an index into the positions that are left when the
/// picks before it have been carried out.
pub open spec fn picks_fit(positions: Seq<usize>, picks: Seq<usize>) -> bool {
    &&& forall|j: int| 0 <= j < positions.len() ==> #[trigger] positions[j] < 81
    &&& picks.len() <= positions.len()
    &&& forall|k: int| 0 <= k < picks.len() ==> #[trigger] picks[k] < positions.len() - k
}

/// The positions that are left when the one at the index `pick` has been taken:
/// the last position stands in its place.
pub open spec fn taken_out(positions: Seq<usize>, pick: int) -> Seq<usize> {
    positions.update(pick, positions.last()).drop_last()
}

/// The board after the picks have been carried out. Each pick takes the
/// position at its index out of the positions that are left, and the cell at
/// that position, row by row, is opened.
pub open spec fn opened_at(b: Board, positions: Seq<usize>, picks: Seq<usize>) -> Board
    decreases picks.len(),
{
    if picks.len() == 0 {
        b
    } else {
        let i = positions[picks[0] as int] as int;
        opened_at(
            with_cell(b, i / 9, i % 9, all_digits()),
            taken_out(positions, picks[0] as int),
            picks.drop_first(),
        )
    }
}

/// Picks among positions of which none occurs twice open as many cells as there
/// are picks, where the cells at the positions are still fixed.
proof fn lemma_opened_at(s: Board, b: Board, positions: Seq<usize>, picks: Seq<usize>)
    requires
        board_wf(s),
        solved(s),
        board_wf(b),
        opened(s, b),
        picks_fit(positions, picks),
        positions.no_duplicates(),
        forall|j: int|
            0 <= j < positions.len() ==> b[(#[trigger] positions[j]) as int / 9][positions[j] as int
                % 9] == s[positions[j] as int / 9][positions[j] as int % 9],
        open_positions(b).finite(),
    ensures
        board_wf(opened_at(b, positions, picks)),
        opened(s, opened_at(b, positions, picks)),
        open_positions(opened_at(b, positions, picks)).finite(),
        open_positions(opened_at(b, positions, picks)).len() == open_positions(b).len()
            + picks.len(),
    decreases picks.len(),
{
    if picks.len() > 0 {
        let pick = picks[0] as int;
        let i = positions[pick];
        let r = i as int / 9;
        let c = i as int % 9;
        let next = with_cell(b, r, c, all_digits());
        let left = taken_out(positions, pick);
        let rest = picks.drop_first();
        assert(b[r][c] == s[r][c]);
        assert(s[r][c].len() == 1);
        vstd::set_lib::lemma_int_range(1, 10);
        assert(open_positions(next) =~= open_positions(b).insert((r, c))) by {
            assert forall|p: (int, int)|
                open_positions(next).contains(p) <==> open_positions(b).insert((r, c)).contains(
                    p,
                ) by {
                if in_grid(p.0, p.1) && !(p.0 == r && p.1 == c) {
                    assert(next[p.0][p.1] == b[p.0][p.1]);
                }
            }
        }
        assert forall|j: int| 0 <= j < left.len() implies
            (#[trigger] left[j]) < 81 && next[left[j] as int
            / 9][left[j] as int % 9] == s[left[j] as int / 9][left[j] as int % 9] by {
            let x = left[j];
            let from = if j == pick {
                positions.len() - 1
            } else {
                j
            };
            assert(x == positions[from]);
            assert(x != i);
            assert(x as int / 9 != r || x as int % 9 != c);
        }
        assert forall|j: int, k: int| 0 <= j < left.len() && 0 <= k < left.len() && j != k implies
            left[j]
            != left[k] by {
            let fj = if j == pick {
                positions.len() - 1
            } else {
                j
            };
            let fk = if k == pick {
                positions.len() - 1
            } else {
                k
            };
            assert(left[j] == positions[fj]);
            assert(left[k] == positions[fk]);
        }
        assert forall|x: int, y: int| in_grid(x, y) implies ((#[trigger] next[x][y]) == s[x][y]
            || next[x][y] == all_digits()) && next[x][y].subset_of(all_digits()) by {
            assert(b[x][y].subset_of(all_digits()));
            if x == r && y == c {
            } else {
                assert(next[x][y] == b[x][y]);
            }
        }
        assert forall|x: int| 0 <= x < 9 implies (#[trigger] next[x]).len() == 9 by {
            assert(b[x].len() == 9);
        }
        assert forall|k: int| 0 <= k < rest.len() implies #[trigger] rest[k] < left.len() - k by {
            assert(rest[k] == picks[k + 1]);
        }
        lemma_opened_at(s, next, left, rest);
    }
}

impl Sudoku {
    /// Opens cells of the grid, as the picks say. Each pick is an index into the
    /// positions that are left: the position at that index is taken out, the last
    /// of the positions takes its place, and the cell at the position that was
    /// taken, counted row by row from 0 to 80, is opened to all digits.
    pub fn open_cells(&mut self, positions: Vec<usize>, picks: &Vec<usize>)
        requires
            old(self).wf(),
            picks_fit(positions@, picks@),
        ensures
            final(self).wf(),
            final(self)@ == opened_at(old(self)@, positions@, picks@),
    {
        let mut cells_to_choose = positions;
        let ghost start = self@;
        assert(picks@.subrange(0, picks@.len() as int) =~= picks@);
        for k in 0..picks.len()
            invariant
                self.wf(),
                picks_fit(cells_to_choose@, picks@.subrange(k as int, picks@.len() as int)),
                opened_at(
                    self@,
                    cells_to_choose@,
                    picks@.subrange(k as int, picks@.len() as int),
                ) == opened_at(start, positions@, picks@),
        {
            let ghost todo = picks@.subrange(k as int, picks@.len() as int);
            assert(todo[0] == picks@[k as int]);
            assert(todo.drop_first() =~= picks@.subrange(k + 1, picks@.len() as int));
            let ghost list = cells_to_choose@;
            let i = cells_to_choose.swap_remove(picks[k]);

            self.set_cell(i / 9, i % 9, Cell::all_digits());
            proof {
                let left = cells_to_choose@;
                let rest = todo.drop_first();
                assert(left == taken_out(list, picks@[k as int] as int));
                assert forall|j: int| 0 <= j < left.len() implies #[trigger] left[j] < 81 by {
                    let from = if j == picks@[k as int] {
                        list.len() - 1
                    } else {
                        j
                    };
                    assert(left[j] == list[from]);
                }
                assert forall|j: int| 0 <= j < rest.len() implies #[trigger] rest[j] < left.len()
                    - j by {
                    assert(rest[j] == todo[j + 1]);
                }
            }
        }
    }

    /// Generate a random solvable sudoku with the given number of free cells.
    ///
    /// The first solution of the open grid is taken, and `free_cells` of its cells,
    /// chosen at random, are opened again. There is no grid with more than 81 free
    /// cells. The grid may have other solutions than the one it was made from.
    pub fn generate_solvable(rng: &mut XorShiftRng, free_cells: usize) -> (res: Option<Sudoku>)
        ensures
            res is Some <==> free_cells <= 81,
            res matches Some(g) ==> g.wf() && open_positions(g@).len() == free_cells && search(
                seq![g@],
            ).0 is Some && search(seq![open_board()]).0 is Some && opened(
                search(seq![open_board()]).0.unwrap(),
                g@,
            ),
    {
        if free_cells > 81 {
            return None;
        }
        let mut cells_to_choose = all_positions();
        let ghost in_order = cells_to_choose@;
        shuffle(&mut cells_to_choose, rng);
        proof {
            lemma_rearranged(in_order, cells_to_choose@);
        }

        let start = Sudoku::open_grid();
        proof {
            start.lemma_view_wf();
            crate::rules::lemma_board_ext(start@, open_board());
            lemma_pattern_solved();
            assert(refines(pattern(), open_board())) by {
                assert forall|r: int, c: int| in_grid(r, c) implies
                    (#[trigger] pattern()[r][c]).subset_of(
                    open_board()[r][c],
                ) by {}
            }
            lemma_first_solution_exists(open_board(), pattern());
        }
        let mut sudoku = start.first_solution().unwrap();
        let ghost s = sudoku@;
        proof {
            let stack = seq![open_board()];
            assert(stack[0] == open_board());
            assert(stack_wf(stack));
            lemma_refines_refl(open_board());
            lemma_search_sound(stack, open_board());
            assert(open_positions(s) =~= Set::empty());
        }

        let mut picks: Vec<usize> = Vec::new();
        for k in 0..free_cells
            invariant
                free_cells <= 81,
                picks@.len() == k,
                forall|j: int| 0 <= j < k ==> #[trigger] picks@[j] < 81 - j,
        {
            let pick = index_below(rng, 81 - k);
            picks.push(pick);
        }

        proof {
            lemma_opened_at(s, s, cells_to_choose@, picks@);
        }
        sudoku.open_cells(cells_to_choose, &picks);
        proof {
            sudoku.lemma_view_wf();
            assert(refines(s, sudoku@)) by {
                assert forall|r: int, c: int| in_grid(r, c) implies (#[trigger] s[r][c]).subset_of(
                    sudoku@[r][c],
                ) by {
                    assert(s[r][c].subset_of(all_digits()));
                }
            }
            lemma_first_solution_exists(sudoku@, s);
        }

        Some(sudoku)
    }
}

} // verus!
