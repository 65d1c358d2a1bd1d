//! Depth-first search for solutions, over a stack of pending grids.

use vstd::prelude::*;
use crate::board::{Board, board_wf, in_grid, refines, solved, with_cell};
use crate::cell::{Cell, all_digits, top_digit};
use crate::grid::Sudoku;
use crate::rules::{fixpoint, round, weight, lemma_fixpoint, lemma_weight};
use crate::solved::lemma_stable_open;

verus! {

/// The cell in row `r`, column `c` is the one to branch on: among the cells
/// with more than one candidate it has the fewest, and it is the first such
/// cell row by row.
pub open spec fn is_branch_cell(b: Board, r: int, c: int) -> bool {
    best_upto(b, r, c, 81)
}

/// Among the first `n` cells, row by row, that have more than one candidate, the
/// cell in row `r`, column `c` is the first of those with the fewest.
pub open spec fn best_upto(b: Board, r: int, c: int, n: int) -> bool {
    &&& in_grid(r, c)
    &&& 9 * r + c < n
    &&& b[r][c].len() > 1
    &&& forall|r2: int, c2: int|
        in_grid(r2, c2) && 9 * r2 + c2 < n && (#[trigger] b[r2][c2]).len() > 1 ==> b[r][c].len()
            < b[r2][c2].len() || (b[r][c].len() == b[r2][c2].len() && 9 * r + c <= 9 * r2 + c2)
}

/// The position of the cell to branch on.
pub open spec fn branch_cell(b: Board) -> (int, int) {
    choose|r: int, c: int| is_branch_cell(b, r, c)
}

/// The board on which the cell in row `r`, column `c` is fixed to `d`.
pub open spec fn fixed(b: Board, r: int, c: int, d: int) -> Board {
    with_cell(b, r, c, set![d])
}

/// The board on which the cell in row `r`, column `c` has lost the candidate `d`.
pub open spec fn excluded(b: Board, r: int, c: int, d: int) -> Board {
    with_cell(b, r, c, b[r][c].remove(d))
}

/// A bound on the number of boards that the search visits below a board with
/// `w` candidates.
pub open spec fn cost(w: nat) -> nat
    decreases w,
{
    if w == 0 {
        1
    } else {
        2 * cost((w - 1) as nat) + 1
    }
}

/// A bound on the number of boards that the search visits from a stack.
pub open spec fn stack_cost(stack: Seq<Board>) -> nat
    decreases stack.len(),
{
    if stack.len() == 0 {
        0
    } else {
        stack_cost(stack.drop_last()) + cost(weight(stack.last()))
    }
}

/// Every board of the stack is well formed.
pub open spec fn stack_wf(stack: Seq<Board>) -> bool {
    forall|i: int| 0 <= i < stack.len() ==> board_wf(#[trigger] stack[i])
}

/// The top of the stack propagates to a solved board, which the search yields.
pub open spec fn yields(stack: Seq<Board>) -> bool {
    stack.len() > 0 && fixpoint(stack.last()) is Some && solved(fixpoint(stack.last()).unwrap())
}

/// The stack with which the search goes on when the top of the stack yields
/// nothing. A top that propagation refutes is dropped. Any other is replaced
/// by two boards: the board on which the candidate cell has lost its greatest
/// candidate and, above it, the board on which that cell is fixed to it.
pub open spec fn descend(stack: Seq<Board>) -> Seq<Board> {
    let rest = stack.drop_last();
    match fixpoint(stack.last()) {
        None => rest,
        Some(g) => {
            let (r, c) = branch_cell(g);
            let d = top_digit(g[r][c]);
            rest.push(excluded(g, r, c, d)).push(fixed(g, r, c, d))
        },
    }
}

/// One pull on the search: the next solution, if there is one, and the stack
/// that is left.
pub open spec fn search(stack: Seq<Board>) -> (Option<Board>, Seq<Board>)
    decreases stack_cost(stack),
    when stack_wf(stack)
    via search_decreases
{
    if stack.len() == 0 {
        (None, stack)
    } else if yields(stack) {
        (fixpoint(stack.last()), stack.drop_last())
    } else {
        search(descend(stack))
    }
}

/// Where the top of the stack yields nothing, the search goes on with a smaller bound.
#[via_fn]
proof fn search_decreases(stack: Seq<Board>) {
    if stack.len() > 0 && !yields(stack) {
        lemma_descend(stack);
    }
}

/// A set of digits that is not empty has a greatest member.
pub proof fn lemma_top_digit(s: Set<int>)
    requires
        s.subset_of(all_digits()),
        s.len() > 0,
    ensures
        s.contains(top_digit(s)),
        1 <= top_digit(s) <= 9,
        forall|e: int| s.contains(e) ==> e <= top_digit(s),
{
    vstd::set_lib::lemma_int_range(1, 10);
    vstd::set_lib::lemma_len_subset(s, all_digits());
    let e = s.choose();
    assert(s.contains(e));
    lemma_max_below(s, 9);
    assert(all_digits().contains(top_digit(s)));
}

/// A set of numbers from 1 to `k` that is not empty has a greatest member.
proof fn lemma_max_below(s: Set<int>, k: int)
    requires
        forall|e: int| s.contains(e) ==> 1 <= e <= k,
        exists|e: int| s.contains(e),
    ensures
        exists|d: int| s.contains(d) && forall|e: int| s.contains(e) ==> e <= d,
    decreases k,
{
    if s.contains(k) {
        assert(s.contains(k) && forall|e: int| s.contains(e) ==> e <= k);
    } else {
        let e = choose|e: int| s.contains(e);
        assert(1 <= e <= k);
        lemma_max_below(s, k - 1);
    }
}

/// Where some cell among the first `n` has more than one candidate, one of them
/// is the best of them.
proof fn lemma_best_upto(b: Board, n: int) -> (p: (int, int))
    requires
        0 <= n <= 81,
        exists|r: int, c: int| in_grid(r, c) && 9 * r + c < n && (#[trigger] b[r][c]).len() > 1,
    ensures
        best_upto(b, p.0, p.1, n),
    decreases n,
{
    let m = n - 1;
    let rm = m / 9;
    let cm = m % 9;
    if exists|r: int, c: int| in_grid(r, c) && 9 * r + c < m && (#[trigger] b[r][c]).len() > 1 {
        let q = lemma_best_upto(b, m);
        if b[rm][cm].len() > 1 && b[rm][cm].len() < b[q.0][q.1].len() {
            assert forall|r2: int, c2: int|
                in_grid(r2, c2) && 9 * r2 + c2 < n && (#[trigger] b[r2][c2]).len()
                    > 1 implies b[rm][cm].len() < b[r2][c2].len() || (b[rm][cm].len()
                == b[r2][c2].len() && 9 * rm + cm <= 9 * r2 + c2) by {
                if 9 * r2 + c2 == m {
                    assert(r2 == rm && c2 == cm);
                }
            }
            (rm, cm)
        } else {
            assert forall|r2: int, c2: int|
                in_grid(r2, c2) && 9 * r2 + c2 < n && (#[trigger] b[r2][c2]).len()
                    > 1 implies b[q.0][q.1].len() < b[r2][c2].len() || (b[q.0][q.1].len()
                == b[r2][c2].len() && 9 * q.0 + q.1 <= 9 * r2 + c2) by {
                if 9 * r2 + c2 == m {
                    assert(r2 == rm && c2 == cm);
                }
            }
            q
        }
    } else {
        let (r, c) = choose|r: int, c: int|
            in_grid(r, c) && 9 * r + c < n && (#[trigger] b[r][c]).len() > 1;
        assert(9 * r + c == m);
        assert(r == rm && c == cm);
        assert forall|r2: int, c2: int|
            in_grid(r2, c2) && 9 * r2 + c2 < n && (#[trigger] b[r2][c2]).len()
                > 1 implies b[rm][cm].len() < b[r2][c2].len() || (b[rm][cm].len()
            == b[r2][c2].len() && 9 * rm + cm <= 9 * r2 + c2) by {
            if 9 * r2 + c2 == m {
                assert(r2 == rm && c2 == cm);
            }
        }
        (rm, cm)
    }
}

/// There is only one cell to branch on.
pub proof fn lemma_branch_unique(b: Board, r: int, c: int)
    requires
        is_branch_cell(b, r, c),
    ensures
        branch_cell(b) == (r, c),
{
    let (r2, c2) = branch_cell(b);
    assert(is_branch_cell(b, r2, c2));
    assert(b[r][c].len() > 1 && b[r2][c2].len() > 1);
    assert(9 * r + c == 9 * r2 + c2);
}

/// A board with a cell of more than one candidate has a cell to branch on.
pub proof fn lemma_branch_exists(b: Board, r: int, c: int)
    requires
        in_grid(r, c),
        b[r][c].len() > 1,
    ensures
        is_branch_cell(b, branch_cell(b).0, branch_cell(b).1),
{
    assert(in_grid(r, c) && 9 * r + c < 81 && b[r][c].len() > 1);
    let p = lemma_best_upto(b, 81);
    assert(is_branch_cell(b, p.0, p.1));
}

/// Both boards that come of a branch have fewer candidates than the board that
/// is branched on, and nothing that it lacks.
pub proof fn lemma_children(g: Board, r: int, c: int)
    requires
        board_wf(g),
        in_grid(r, c),
        g[r][c].len() > 1,
    ensures
        board_wf(excluded(g, r, c, top_digit(g[r][c]))),
        board_wf(fixed(g, r, c, top_digit(g[r][c]))),
        refines(excluded(g, r, c, top_digit(g[r][c])), g),
        refines(fixed(g, r, c, top_digit(g[r][c])), g),
        weight(excluded(g, r, c, top_digit(g[r][c]))) < weight(g),
        weight(fixed(g, r, c, top_digit(g[r][c]))) < weight(g),
{
    let d = top_digit(g[r][c]);
    assert(g[r][c].subset_of(all_digits()));
    lemma_top_digit(g[r][c]);
    vstd::set_lib::lemma_int_range(1, 10);
    vstd::set_lib::lemma_len_subset(g[r][c], all_digits());
    let x = excluded(g, r, c, d);
    let f = fixed(g, r, c, d);
    assert forall|i: int, j: int| in_grid(i, j) implies (#[trigger] x[i][j]).subset_of(g[i][j])
        && x[i][j].subset_of(all_digits()) && (#[trigger] f[i][j]).subset_of(g[i][j])
        && f[i][j].subset_of(all_digits()) by {
        assert(g[i][j].subset_of(all_digits()));
        if i == r && j == c {
            assert(x[i][j] == g[r][c].remove(d));
            assert(f[i][j] == set![d]);
        } else {
            assert(x[i][j] == g[i][j]);
            assert(f[i][j] == g[i][j]);
        }
    }
    assert forall|i: int| 0 <= i < 9 implies (#[trigger] x[i]).len() == 9 && (#[trigger] f[i]).len()
        == 9 by {
        assert(g[i].len() == 9);
    }
    assert(x[r][c] == g[r][c].remove(d));
    assert(f[r][c] == set![d]);
    assert(x[r][c] != g[r][c]);
    assert(f[r][c].len() == 1);
    lemma_weight(x, g);
    lemma_weight(f, g);
}

/// The bound is positive and grows with the number of candidates.
pub proof fn lemma_cost(a: nat, b: nat)
    requires
        a <= b,
    ensures
        1 <= cost(a) <= cost(b),
    decreases b,
{
    if a < b {
        lemma_cost(a, (b - 1) as nat);
    } else if a > 0 {
        lemma_cost((a - 1) as nat, (a - 1) as nat);
    }
}

/// The bound of a stack with one more board on it.
proof fn lemma_stack_cost_push(stack: Seq<Board>, b: Board)
    ensures
        stack_cost(stack.push(b)) == stack_cost(stack) + cost(weight(b)),
{
    assert(stack.push(b).drop_last() =~= stack);
    assert(stack.push(b).last() == b);
}

/// Where the top of the stack yields nothing, the search goes on with a stack
/// of well-formed boards and a smaller bound. A top that propagation does not
/// refute then has a cell to branch on.
pub proof fn lemma_descend(stack: Seq<Board>)
    requires
        stack_wf(stack),
        stack.len() > 0,
        !yields(stack),
    ensures
        stack_wf(descend(stack)),
        stack_cost(descend(stack)) < stack_cost(stack),
        fixpoint(stack.last()) matches Some(g) ==> board_wf(g) && refines(g, stack.last())
            && round(g) == Some(g) && is_branch_cell(g, branch_cell(g).0, branch_cell(g).1),
{
    let top = stack.last();
    let rest = stack.drop_last();
    assert(board_wf(top));
    assert forall|i: int| 0 <= i < rest.len() implies board_wf(#[trigger] rest[i]) by {
        assert(rest[i] == stack[i]);
    }
    lemma_cost(0, weight(top));
    match fixpoint(top) {
        None => {},
        Some(g) => {
            lemma_fixpoint(top);
            lemma_weight(g, top);
            let p = lemma_stable_open(g);
            lemma_branch_exists(g, p.0, p.1);
            let (r, c) = branch_cell(g);
            let d = top_digit(g[r][c]);
            lemma_children(g, r, c);
            let x = excluded(g, r, c, d);
            let f = fixed(g, r, c, d);
            lemma_stack_cost_push(rest, x);
            lemma_stack_cost_push(rest.push(x), f);
            lemma_cost(weight(x), (weight(g) - 1) as nat);
            lemma_cost(weight(f), (weight(g) - 1) as nat);
            lemma_cost(weight(g), weight(top));
            let next = rest.push(x).push(f);
            assert forall|i: int| 0 <= i < next.len() implies board_wf(#[trigger] next[i]) by {
                if i < rest.len() {
                    assert(next[i] == rest[i]);
                }
            }
        },
    }
}

/// The boards of a solution that may or may not have been found.
pub open spec fn found(res: Option<Sudoku>) -> Option<Board> {
    match res {
        Some(g) => Some(g@),
        None => None,
    }
}

/// The solutions of a grid, one pull at a time. The pending grids are kept on a
/// stack; the search goes into the depth of the one on top.
#[derive(Debug)]
pub struct SolutionsIter {
    stack: Vec<Sudoku>,
}

impl View for SolutionsIter {
    type V = Seq<Board>;

    /// The boards of the pending grids, the top of the stack last.
    closed spec fn view(&self) -> Seq<Board> {
        self.stack@.map_values(|g: Sudoku| g@)
    }
}

impl SolutionsIter {
    /// Every pending grid is well formed.
    pub closed spec fn wf(&self) -> bool {
        forall|i: int| 0 <= i < self.stack@.len() ==> (#[trigger] self.stack@[i]).wf()
    }

    /// The boards of the pending grids are well formed.
    pub proof fn lemma_view_wf(&self)
        ensures
            stack_wf(self@),
    {
        assert forall|i: int| 0 <= i < self@.len() implies board_wf(#[trigger] self@[i]) by {
            self.stack@[i].lemma_view_wf();
        }
    }

    /// The next solution, or nothing when the search is over. What is pending is
    /// taken from the top of the stack and propagated to its fixpoint. A grid that
    /// propagation refutes is dropped; a solved one is the next solution; any other
    /// is split in two on its cell with the fewest candidates.
    pub fn next(&mut self) -> (res: Option<Sudoku>)
        requires
            old(self).wf(),
        ensures
            final(self).wf(),
            res matches Some(g) ==> g.wf(),
            (found(res), final(self)@) == search(old(self)@),
    {
        loop
            invariant
                self.wf(),
                search(self@) == search(old(self)@),
            decreases stack_cost(self@),
        {
            let ghost pending = self@;
            proof {
                self.lemma_view_wf();
            }
            let solution = match self.stack.pop() {
                Some(solution) => solution,
                None => {
                    return None;
                },
            };
            assert(self@ =~= pending.drop_last());
            assert(solution@ == pending.last());
            proof {
                if !yields(pending) {
                    lemma_descend(pending);
                }
            }

            // simplify the sudoku until it settles
            let solution = match solution.propagate() {
                Some(solution) => solution,
                None => {
                    continue ;
                },
            };

            if solution.is_solved() {
                return Some(solution);
            }
            // process cells with fewest possible digits first as it's more probable
            // we'll get those right

            let (r, c, cell) = solution.pick_cell().unwrap();
            proof {
                lemma_branch_unique(solution@, r as int, c as int);
                cell.lemma_view_bounds();
            }
            let ghost rest = self@;
            let d = cell.first_digit();

            // split the sudoku into two where one has a fixed value for the
            // cell with least possible values and another one that doesn't have
            // that digit as a possible digit in the same cell. Push the latter
            // first in the stack so that it will be processed later, because
            // I think it's more likely to find a solution in the former case.
            let mut candidate = solution.clone();
            let mut open = cell;
            open.remove_digit(d);
            candidate.set_cell(r, c, open);
            self.stack.push(candidate);
            assert(self@ =~= rest.push(excluded(solution@, r as int, c as int, d as int)));

            let mut candidate = solution.clone();
            candidate.set_cell(r, c, Cell::from_digit(d).unwrap());
            self.stack.push(candidate);
            assert(self@ =~= descend(pending));
        }
    }
}

impl Sudoku {
    /// The cell to branch on, with its position: among the cells with more than one
    /// candidate the first, row by row, of those with the fewest. Nothing if no
    /// cell has more than one candidate.
    pub fn pick_cell(&self) -> (res: Option<(usize, usize, Cell)>)
        requires
            self.wf(),
        ensures
            match res {
                Some((r, c, cell)) => r < 9 && c < 9 && is_branch_cell(self@, r as int, c as int)
                    && cell == self.at(r as int, c as int),
                None => forall|r: int, c: int|
                    in_grid(r, c) ==> (#[trigger] self@[r][c]).len() <= 1,
            },
    {
        let mut best: Option<(usize, usize, Cell)> = None;
        for r in 0..9usize
            invariant
                self.wf(),
                match best {
                    Some((br, bc, cell)) => br < 9 && bc < 9 && best_upto(
                        self@,
                        br as int,
                        bc as int,
                        9 * r,
                    ) && cell == self.at(br as int, bc as int),
                    None => forall|r2: int, c2: int|
                        in_grid(r2, c2) && 9 * r2 + c2 < 9 * r ==> (#[trigger] self@[r2][c2]).len()
                            <= 1,
                },
        {
            for c in 0..9usize
                invariant
                    r < 9,
                    self.wf(),
                    match best {
                        Some((br, bc, cell)) => br < 9 && bc < 9 && best_upto(
                            self@,
                            br as int,
                            bc as int,
                            9 * r + c,
                        ) && cell == self.at(br as int, bc as int),
                        None => forall|r2: int, c2: int|
                            in_grid(r2, c2) && 9 * r2 + c2 < 9 * r + c ==> (
                            #[trigger] self@[r2][c2]).len() <= 1,
                    },
            {
                let cell = self.cell(r, c);
                let ghost m = 9 * r + c;
                let mut better = false;
                if cell.len() > 1 {
                    better =
                    match best {
                        None => true,
                        Some((_, _, least)) => cell.len() < least.len(),
                    };
                }
                proof {
                    assert forall|r2: int, c2: int| in_grid(r2, c2) && 9 * r2 + c2 == m implies r2
                        == r && c2 == c by {}
                }
                if better {
                    best = Some((r, c, cell));
                }
            }
        }
        best
    }

    /// The solutions of the grid, in the order in which the search finds them.
    pub fn solutions(&self) -> (it: SolutionsIter)
        requires
            self.wf(),
        ensures
            it.wf(),
            it@ == seq![self@],
    {
        let it = SolutionsIter { stack: vec![self.clone()] };
        assert(it@ =~= seq![self@]);
        it
    }

    /// The first solution that the search finds, if there is any.
    pub fn first_solution(&self) -> (res: Option<Sudoku>)
        requires
            self.wf(),
        ensures
            res matches Some(g) ==> g.wf(),
            found(res) == search(seq![self@]).0,
    {
        let mut it = self.solutions();
        it.next()
    }
}

} // verus!
