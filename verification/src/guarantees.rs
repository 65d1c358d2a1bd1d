//! What the search promises: it yields the solutions of the grid it was started
//! on, each of them once, and nothing else, and then it ends.

use vstd::prelude::*;
use crate::board::{Board, board_wf, filled, in_grid, refines, solved, lemma_singleton};
use crate::cell::{all_digits, top_digit};
use crate::rules::{fixed_to, fixpoint, peers, lemma_refines_trans};
use crate::search::{
    branch_cell,
    descend,
    excluded,
    fixed,
    search,
    stack_cost,
    stack_wf,
    yields,
    lemma_children,
    lemma_descend,
};
use crate::solved::{lemma_fixpoint_keeps, lemma_solved_distinct};

verus! {

/// Every board of the stack refines `root`.
pub open spec fn all_refine(stack: Seq<Board>, root: Board) -> bool {
    forall|i: int| 0 <= i < stack.len() ==> refines(#[trigger] stack[i], root)
}

/// Some board of the stack has `s` among its refinements.
pub open spec fn reaches(stack: Seq<Board>, s: Board) -> bool {
    exists|i: int| 0 <= i < stack.len() && refines(s, #[trigger] stack[i])
}

/// The stack that is left of a stack after `n` pulls.
pub open spec fn pulls(stack: Seq<Board>, n: nat) -> Seq<Board>
    decreases n,
{
    if n == 0 {
        stack
    } else {
        search(pulls(stack, (n - 1) as nat)).1
    }
}

/// The stack that is left of the search on `g` after `n` pulls.
pub open spec fn remaining(g: Board, n: nat) -> Seq<Board> {
    pulls(seq![g], n)
}

/// The `n`-th solution that the search on `g` yields, counted from 0.
pub open spec fn nth_solution(g: Board, n: nat) -> Option<Board> {
    search(remaining(g, n)).0
}

/// A pull on a stack of refinements of `root` yields a solved refinement of
/// `root`, if anything, and leaves a stack of refinements of `root`.
pub proof fn lemma_search_sound(stack: Seq<Board>, root: Board)
    requires
        stack_wf(stack),
        all_refine(stack, root),
    ensures
        search(stack).0 matches Some(s) ==> board_wf(s) && solved(s) && refines(s, root),
        stack_wf(search(stack).1),
        all_refine(search(stack).1, root),
    decreases stack_cost(stack),
{
    if stack.len() > 0 {
        let top = stack.last();
        let rest = stack.drop_last();
        assert(board_wf(top) && refines(top, root));
        assert forall|i: int| 0 <= i < rest.len() implies board_wf(#[trigger] rest[i]) && refines(
            rest[i],
            root,
        ) by {
            assert(rest[i] == stack[i]);
        }
        if yields(stack) {
            crate::rules::lemma_fixpoint(top);
            lemma_refines_trans(fixpoint(top).unwrap(), top, root);
        } else {
            lemma_descend(stack);
            let next = descend(stack);
            match fixpoint(top) {
                None => {},
                Some(g) => {
                    let (r, c) = branch_cell(g);
                    let d = top_digit(g[r][c]);
                    lemma_children(g, r, c);
                    let x = excluded(g, r, c, d);
                    let f = fixed(g, r, c, d);
                    lemma_refines_trans(g, top, root);
                    lemma_refines_trans(x, g, root);
                    lemma_refines_trans(f, g, root);
                    assert forall|i: int| 0 <= i < next.len() implies refines(
                        #[trigger] next[i],
                        root,
                    ) by {
                        if i < rest.len() {
                            assert(next[i] == rest[i]);
                        }
                    }
                },
            }
            lemma_search_sound(next, root);
        }
    }
}

/// After any number of pulls on a stack of refinements of `root`, what is left
/// is a stack of refinements of `root`.
pub proof fn lemma_pulls(stack: Seq<Board>, root: Board, n: nat)
    requires
        stack_wf(stack),
        all_refine(stack, root),
    ensures
        stack_wf(pulls(stack, n)),
        all_refine(pulls(stack, n), root),
    decreases n,
{
    if n > 0 {
        lemma_pulls(stack, root, (n - 1) as nat);
        lemma_search_sound(pulls(stack, (n - 1) as nat), root);
    }
}

/// After any number of pulls, what is left of the search on `g` is a stack of
/// refinements of `g`.
pub proof fn lemma_remaining(g: Board, n: nat)
    requires
        board_wf(g),
    ensures
        stack_wf(remaining(g, n)),
        all_refine(remaining(g, n), g),
{
    let stack = seq![g];
    assert(stack[0] == g);
    assert forall|r: int, c: int| in_grid(r, c) implies (#[trigger] g[r][c]).subset_of(g[r][c]) by {
    }
    lemma_pulls(stack, g, n);
}

/// Every grid that the search yields is solved, and every cell that was fixed
/// at the start holds in it the digit that it had.
pub proof fn lemma_solutions_sound(g: Board, n: nat)
    requires
        board_wf(g),
    ensures
        nth_solution(g, n) matches Some(s) ==> board_wf(s) && solved(s) && refines(s, g) && forall|
            r: int,
            c: int,
        |
            in_grid(r, c) && g[r][c].len() == 1 ==> #[trigger] s[r][c] == g[r][c],
{
    lemma_remaining(g, n);
    lemma_search_sound(remaining(g, n), g);
    if nth_solution(g, n) is Some {
        let s = nth_solution(g, n).unwrap();
        assert forall|r: int, c: int| in_grid(r, c) && g[r][c].len() == 1 implies #[trigger] s[r][c]
            == g[r][c] by {
            lemma_fixed_stays(g, s, r, c);
        }
    }
}

/// A cell that is fixed on a board is the same on every filled board that refines it.
pub proof fn lemma_fixed_stays(g: Board, s: Board, r: int, c: int)
    requires
        board_wf(g),
        board_wf(s),
        filled(s),
        refines(s, g),
        in_grid(r, c),
        g[r][c].len() == 1,
    ensures
        s[r][c] == g[r][c],
{
    vstd::set_lib::lemma_int_range(1, 10);
    assert(s[r][c].subset_of(g[r][c]));
    assert(g[r][c].subset_of(all_digits()));
    vstd::set_lib::lemma_len_subset(g[r][c], all_digits());
    vstd::set_lib::lemma_len_subset(s[r][c], g[r][c]);
    assert(s[r][c].len() == 1);
    vstd::set_lib::lemma_subset_equality(s[r][c], g[r][c]);
}

/// Where the top of the stack yields nothing, every solution of a board of the
/// stack is a solution of a board of the stack with which the search goes on.
pub proof fn lemma_descend_reaches(stack: Seq<Board>, s: Board)
    requires
        stack_wf(stack),
        board_wf(s),
        solved(s),
        reaches(stack, s),
        !yields(stack),
    ensures
        reaches(descend(stack), s),
{
    let i = choose|i: int| 0 <= i < stack.len() && refines(s, #[trigger] stack[i]);
    let top = stack.last();
    let rest = stack.drop_last();
    lemma_descend(stack);
    let next = descend(stack);
    if i < rest.len() {
        assert(rest[i] == stack[i]);
        assert(next[i] == rest[i]);
        assert(refines(s, next[i]));
    } else {
        assert(board_wf(top));
        lemma_fixpoint_keeps(top, s);
        let g = fixpoint(top).unwrap();
        let (r, c) = branch_cell(g);
        let d = top_digit(g[r][c]);
        let x = excluded(g, r, c, d);
        let f = fixed(g, r, c, d);
        lemma_children(g, r, c);
        assert(s[r][c].subset_of(g[r][c]));
        if s[r][c].contains(d) {
            vstd::set_lib::lemma_int_range(1, 10);
            assert(s[r][c].subset_of(all_digits()));
            vstd::set_lib::lemma_len_subset(s[r][c], all_digits());
            lemma_singleton(s[r][c], d);
            assert forall|i: int, j: int| in_grid(i, j) implies (#[trigger] s[i][j]).subset_of(
                f[i][j],
            ) by {
                assert(s[i][j].subset_of(g[i][j]));
                if i == r && j == c {
                    assert(f[i][j] == set![d]);
                } else {
                    assert(f[i][j] == g[i][j]);
                }
            }
            assert(next[rest.len() as int + 1] == f);
            assert(refines(s, next[rest.len() as int + 1]));
        } else {
            assert forall|i: int, j: int| in_grid(i, j) implies (#[trigger] s[i][j]).subset_of(
                x[i][j],
            ) by {
                assert(s[i][j].subset_of(g[i][j]));
                if i == r && j == c {
                    assert(x[i][j] == g[r][c].remove(d));
                } else {
                    assert(x[i][j] == g[i][j]);
                }
            }
            assert(next[rest.len() as int] == x);
            assert(refines(s, next[rest.len() as int]));
        }
    }
}

/// Where some board of the stack has a solution, a pull yields a solution.
pub proof fn lemma_search_complete(stack: Seq<Board>, s: Board)
    requires
        stack_wf(stack),
        board_wf(s),
        solved(s),
        reaches(stack, s),
    ensures
        search(stack).0 is Some,
    decreases stack_cost(stack),
{
    if !yields(stack) {
        lemma_descend(stack);
        lemma_descend_reaches(stack, s);
        lemma_search_complete(descend(stack), s);
    }
}

/// Pulling once more is pulling from what the first pull has left.
proof fn lemma_pulls_shift(stack: Seq<Board>, n: nat)
    ensures
        pulls(stack, n + 1) == pulls(search(stack).1, n),
    decreases n,
{
    if n == 0 {
        assert(pulls(stack, 0) == stack);
        assert(pulls(stack, 1) == search(pulls(stack, 0)).1);
    } else {
        lemma_pulls_shift(stack, (n - 1) as nat);
        assert(pulls(stack, n + 1) == search(pulls(stack, n)).1);
        assert(pulls(search(stack).1, n) == search(pulls(search(stack).1, (n - 1) as nat)).1);
    }
}

/// A filled board that refines a filled board is that board.
pub proof fn lemma_filled_refines(s: Board, g: Board)
    requires
        board_wf(s),
        board_wf(g),
        filled(s),
        filled(g),
        refines(s, g),
    ensures
        s == g,
{
    assert forall|r: int, c: int| in_grid(r, c) implies #[trigger] s[r][c] == g[r][c] by {
        lemma_fixed_stays(g, s, r, c);
    }
    crate::rules::lemma_board_ext(s, g);
}

/// Every solution of a board of the stack is yielded by some pull.
pub proof fn lemma_search_exhaustive(stack: Seq<Board>, s: Board) -> (n: nat)
    requires
        stack_wf(stack),
        board_wf(s),
        solved(s),
        reaches(stack, s),
    ensures
        search(pulls(stack, n)).0 == Some(s),
    decreases stack_cost(stack),
{
    let i = choose|i: int| 0 <= i < stack.len() && refines(s, #[trigger] stack[i]);
    let top = stack.last();
    let rest = stack.drop_last();
    assert(board_wf(top));
    if yields(stack) {
        let g = fixpoint(top).unwrap();
        crate::rules::lemma_fixpoint(top);
        if i == rest.len() {
            lemma_fixpoint_keeps(top, s);
            lemma_filled_refines(s, g);
            0
        } else {
            assert(rest[i] == stack[i]);
            assert(reaches(rest, s));
            assert forall|j: int| 0 <= j < rest.len() implies board_wf(#[trigger] rest[j]) by {
                assert(rest[j] == stack[j]);
            }
            crate::search::lemma_cost(0, crate::rules::weight(top));
            let m = lemma_search_exhaustive(rest, s);
            lemma_pulls_shift(stack, m);
            (m + 1) as nat
        }
    } else {
        lemma_descend(stack);
        lemma_descend_reaches(stack, s);
        let next = descend(stack);
        let m = lemma_search_exhaustive(next, s);
        if m > 0 {
            lemma_pulls_shift(stack, (m - 1) as nat);
            lemma_pulls_shift(next, (m - 1) as nat);
        }
        m
    }
}

/// Every solution of a grid is among the grids that the search yields.
pub proof fn lemma_solutions_complete(g: Board, s: Board)
    requires
        board_wf(g),
        board_wf(s),
        solved(s),
        refines(s, g),
    ensures
        exists|n: nat| nth_solution(g, n) == Some(s),
{
    let stack = seq![g];
    assert(stack[0] == g);
    assert(reaches(stack, s));
    let n = lemma_search_exhaustive(stack, s);
    assert(nth_solution(g, n) == Some(s));
}

/// A pull on a stack that is not empty leaves a stack with a smaller bound.
pub proof fn lemma_search_shrinks(stack: Seq<Board>)
    requires
        stack_wf(stack),
        stack.len() > 0,
    ensures
        stack_cost(search(stack).1) < stack_cost(stack),
    decreases stack_cost(stack),
{
    if yields(stack) {
        crate::search::lemma_cost(0, crate::rules::weight(stack.last()));
        assert(search(stack).1 == stack.drop_last());
    } else {
        lemma_descend(stack);
        let next = descend(stack);
        assert(search(stack) == search(next));
        if next.len() > 0 {
            lemma_search_shrinks(next);
        } else {
            assert(search(next).1 == next);
        }
    }
}

/// The search comes to an end: after some number of pulls nothing is pending.
pub proof fn lemma_search_ends(g: Board, k: nat) -> (n: nat)
    requires
        board_wf(g),
    ensures
        n >= k,
        remaining(g, n).len() == 0,
        nth_solution(g, n) is None,
    decreases stack_cost(remaining(g, k)),
{
    lemma_remaining(g, k);
    if remaining(g, k).len() == 0 {
        k
    } else {
        lemma_search_shrinks(remaining(g, k));
        lemma_search_ends(g, k + 1)
    }
}

/// The search on a grid that has a solution finds a solution.
pub proof fn lemma_first_solution_exists(g: Board, s: Board)
    requires
        board_wf(g),
        board_wf(s),
        solved(s),
        refines(s, g),
    ensures
        search(seq![g]).0 is Some,
{
    let stack = seq![g];
    assert(stack[0] == g);
    assert(reaches(stack, s));
    lemma_search_complete(stack, s);
}

/// The search on a grid that holds the same fixed digit twice in one row
/// yields nothing.
pub proof fn lemma_row_conflict(g: Board, r: int, c1: int, c2: int, d: int)
    requires
        board_wf(g),
        in_grid(r, c1),
        in_grid(r, c2),
        c1 != c2,
        fixed_to(g, r, c1, d),
        fixed_to(g, r, c2, d),
    ensures
        search(seq![g]).0 is None,
        forall|n: nat| nth_solution(g, n) is None,
{
    assert forall|n: nat| nth_solution(g, n) is None by {
        lemma_solutions_sound(g, n);
        if nth_solution(g, n) is Some {
            let s = nth_solution(g, n).unwrap();
            assert(s[r][c1] == g[r][c1]);
            assert(s[r][c2] == g[r][c2]);
            assert(peers(r, c1, r, c2));
            lemma_solved_distinct(s, r, c1, r, c2);
            assert(s[r][c1].contains(d) && s[r][c2].contains(d));
        }
    }
    assert(nth_solution(g, 0) is None);
}

/// No solved board refines two boards of the stack.
pub open spec fn apart(stack: Seq<Board>) -> bool {
    forall|i: int, j: int, s: Board|
        #![trigger refines(s, stack[i]), refines(s, stack[j])]
        0 <= i < j < stack.len() && board_wf(s) && solved(s) ==> !(refines(s, stack[i]) && refines(
            s,
            stack[j],
        ))
}

/// Every board of `a` refines some board of `b`.
pub open spec fn within(a: Seq<Board>, b: Seq<Board>) -> bool {
    forall|j: int| 0 <= j < a.len() ==> reaches(b, #[trigger] a[j])
}

/// A board refines itself.
pub proof fn lemma_refines_refl(b: Board)
    ensures
        refines(b, b),
{
    assert forall|r: int, c: int| in_grid(r, c) implies (#[trigger] b[r][c]).subset_of(b[r][c]) by {
    }
}

/// What refines a board that refines a board of the stack refines a board of
/// the stack.
proof fn lemma_reaches_trans(stack: Seq<Board>, x: Board, s: Board)
    requires
        reaches(stack, x),
        refines(s, x),
    ensures
        reaches(stack, s),
{
    let i = choose|i: int| 0 <= i < stack.len() && refines(x, #[trigger] stack[i]);
    lemma_refines_trans(s, x, stack[i]);
}

/// What lies within a stack that lies within another lies within the other.
proof fn lemma_within_trans(a: Seq<Board>, b: Seq<Board>, c: Seq<Board>)
    requires
        within(a, b),
        within(b, c),
    ensures
        within(a, c),
{
    assert forall|j: int| 0 <= j < a.len() implies reaches(c, #[trigger] a[j]) by {
        let i = choose|i: int| 0 <= i < b.len() && refines(a[j], #[trigger] b[i]);
        assert(reaches(c, b[i]));
        lemma_reaches_trans(c, b[i], a[j]);
    }
}

/// The stack with which the search goes on holds nothing but refinements of
/// boards of the stack, and keeps the solutions of different boards apart.
proof fn lemma_descend_within(stack: Seq<Board>)
    requires
        stack_wf(stack),
        stack.len() > 0,
        !yields(stack),
    ensures
        within(descend(stack), stack),
        apart(stack) ==> apart(descend(stack)),
{
    let top = stack.last();
    let rest = stack.drop_last();
    let next = descend(stack);
    lemma_descend(stack);
    assert forall|j: int| 0 <= j < rest.len() implies reaches(stack, #[trigger] rest[j]) by {
        lemma_refines_refl(stack[j]);
        assert(rest[j] == stack[j]);
    }
    match fixpoint(top) {
        None => {
            if apart(stack) {
                assert forall|i: int, j: int, s: Board|
                    #![trigger refines(s, next[i]), refines(s, next[j])]
                    0 <= i < j < next.len() && board_wf(s) && solved(s) implies !(refines(
                    s,
                    next[i],
                ) && refines(s, next[j])) by {
                    assert(next[i] == stack[i] && next[j] == stack[j]);
                }
            }
        },
        Some(g) => {
            let (r, c) = branch_cell(g);
            let d = top_digit(g[r][c]);
            lemma_children(g, r, c);
            let x = excluded(g, r, c, d);
            let f = fixed(g, r, c, d);
            lemma_refines_trans(x, g, top);
            lemma_refines_trans(f, g, top);
            let last = stack.len() - 1;
            assert(stack[last] == top);
            assert forall|j: int| 0 <= j < next.len() implies
                reaches(stack, #[trigger] next[j]) by {
                if j < rest.len() {
                    assert(next[j] == rest[j]);
                } else {
                    assert(refines(next[j], stack[last]));
                }
            }
            if apart(stack) {
                assert forall|i: int, j: int, s: Board|
                    #![trigger refines(s, next[i]), refines(s, next[j])]
                    0 <= i < j < next.len() && board_wf(s) && solved(s) implies !(refines(
                    s,
                    next[i],
                ) && refines(s, next[j])) by {
                    if refines(s, next[i]) && refines(s, next[j]) {
                        if j < rest.len() {
                            assert(next[i] == stack[i] && next[j] == stack[j]);
                        } else if i < rest.len() {
                            assert(next[i] == stack[i]);
                            lemma_refines_trans(s, next[j], top);
                            assert(refines(s, stack[i]) && refines(s, stack[last]));
                        } else {
                            assert(next[i] == x && next[j] == f);
                            assert(s[r][c].subset_of(x[r][c]));
                            assert(s[r][c].subset_of(f[r][c]));
                            assert(x[r][c] == g[r][c].remove(d));
                            assert(f[r][c] == set![d]);
                            assert(s[r][c] =~= Set::empty());
                            assert(s[r][c].len() == 1);
                        }
                    }
                }
            }
        },
    }
}

/// What a pull yields refines a board of the stack, and so does whatever the
/// pull leaves on the stack. Where the solutions of different boards were apart
/// they still are, and what was yielded is no solution of what is left.
pub proof fn lemma_search_within(stack: Seq<Board>)
    requires
        stack_wf(stack),
    ensures
        stack_wf(search(stack).1),
        within(search(stack).1, stack),
        search(stack).0 matches Some(s) ==> board_wf(s) && solved(s) && reaches(stack, s),
        apart(stack) ==> apart(search(stack).1),
        apart(stack) ==> (search(stack).0 matches Some(s) ==> !reaches(search(stack).1, s)),
    decreases stack_cost(stack),
{
    if stack.len() > 0 {
        let top = stack.last();
        let rest = stack.drop_last();
        let last = stack.len() - 1;
        assert(board_wf(top) && stack[last] == top);
        if yields(stack) {
            crate::rules::lemma_fixpoint(top);
            let g = fixpoint(top).unwrap();
            assert(search(stack) == (Some(g), rest));
            assert(refines(g, stack[last]));
            assert forall|j: int| 0 <= j < rest.len() implies reaches(stack, #[trigger] rest[j])
                && board_wf(rest[j]) by {
                lemma_refines_refl(stack[j]);
                assert(rest[j] == stack[j]);
            }
            if apart(stack) {
                assert forall|i: int, j: int, s: Board|
                    #![trigger refines(s, rest[i]), refines(s, rest[j])]
                    0 <= i < j < rest.len() && board_wf(s) && solved(s) implies !(refines(
                    s,
                    rest[i],
                ) && refines(s, rest[j])) by {
                    assert(rest[i] == stack[i] && rest[j] == stack[j]);
                }
                if reaches(rest, g) {
                    let i = choose|i: int| 0 <= i < rest.len() && refines(g, #[trigger] rest[i]);
                    assert(rest[i] == stack[i]);
                    assert(refines(g, stack[i]) && refines(g, stack[last]));
                }
            }
        } else {
            lemma_descend(stack);
            lemma_descend_within(stack);
            let next = descend(stack);
            assert(search(stack) == search(next));
            lemma_search_within(next);
            lemma_within_trans(search(next).1, next, stack);
            if search(next).0 is Some {
                let s = search(next).0.unwrap();
                let i = choose|i: int| 0 <= i < next.len() && refines(s, #[trigger] next[i]);
                assert(reaches(stack, next[i]));
                lemma_reaches_trans(stack, next[i], s);
            }
        }
    } else {
        assert(search(stack) == (None::<Board>, stack));
    }
}

/// After any number of pulls the stack holds nothing but refinements of boards
/// of the stack at the start, and solutions that were apart still are.
proof fn lemma_pulls_within(stack: Seq<Board>, n: nat)
    requires
        stack_wf(stack),
    ensures
        stack_wf(pulls(stack, n)),
        within(pulls(stack, n), stack),
        apart(stack) ==> apart(pulls(stack, n)),
    decreases n,
{
    if n == 0 {
        assert forall|j: int| 0 <= j < stack.len() implies reaches(stack, #[trigger] stack[j]) by {
            lemma_refines_refl(stack[j]);
        }
    } else {
        let before = pulls(stack, (n - 1) as nat);
        lemma_pulls_within(stack, (n - 1) as nat);
        lemma_search_within(before);
        lemma_within_trans(pulls(stack, n), before, stack);
    }
}

/// Pulling `a` times and then `b` times is pulling `a + b` times.
proof fn lemma_pulls_add(stack: Seq<Board>, a: nat, b: nat)
    ensures
        pulls(stack, a + b) == pulls(pulls(stack, a), b),
    decreases b,
{
    if b > 0 {
        lemma_pulls_add(stack, a, (b - 1) as nat);
        assert(pulls(stack, a + b) == search(pulls(stack, (a + b - 1) as nat)).1);
    }
}

/// No grid is yielded twice.
pub proof fn lemma_solutions_distinct(g: Board, n1: nat, n2: nat)
    requires
        board_wf(g),
        n1 < n2,
        nth_solution(g, n1) is Some,
    ensures
        nth_solution(g, n1) != nth_solution(g, n2),
{
    let start = seq![g];
    assert(start[0] == g);
    assert(apart(start));
    let s = nth_solution(g, n1).unwrap();
    let stack = pulls(start, n1);
    lemma_pulls_within(start, n1);
    lemma_search_within(stack);
    let left = search(stack).1;
    assert(left == pulls(start, n1 + 1));
    let m = (n2 - n1 - 1) as nat;
    lemma_pulls_add(start, n1 + 1, m);
    let later = pulls(left, m);
    assert(later == pulls(start, n2));
    lemma_pulls_within(left, m);
    lemma_search_within(later);
    if search(later).0 == Some(s) {
        let i = choose|i: int| 0 <= i < later.len() && refines(s, #[trigger] later[i]);
        assert(reaches(left, later[i]));
        lemma_reaches_trans(left, later[i], s);
    }
}

} // verus!
