//! The two deduction rules and their fixpoint, stated on boards.

use vstd::prelude::*;
use crate::board::{Board, Group, board_wf, group_cell, group_pos, in_grid, refines, with_cell};
use crate::cell::all_digits;

verus! {

/// Two different positions that share a row, a column or a box.
pub open spec fn peers(r1: int, c1: int, r2: int, c2: int) -> bool {
    (r1 != r2 || c1 != c2) && (r1 == r2 || c1 == c2 || (r1 / 3 == r2 / 3 && c1 / 3 == c2 / 3))
}

/// The cell in row `r`, column `c` is fixed to the digit `d`.
pub open spec fn fixed_to(b: Board, r: int, c: int, d: int) -> bool {
    b[r][c].len() == 1 && b[r][c].contains(d)
}

/// Some peer of the position is fixed to `d`, so `d` cannot stand there.
pub open spec fn taken(b: Board, r: int, c: int, d: int) -> bool {
    exists|r2: int, c2: int|
        in_grid(r2, c2) && peers(r, c, r2, c2) && #[trigger] fixed_to(b, r2, c2, d)
}

/// The board after elimination: each cell loses the digits to which one of its
/// peers is fixed in `b`.
pub open spec fn eliminated(b: Board) -> Board {
    Seq::new(9, |r: int| Seq::new(9, |c: int| b[r][c].filter(|d: int| !taken(b, r, c, d))))
}

/// Some cell has no candidate left.
pub open spec fn has_empty_cell(b: Board) -> bool {
    exists|r: int, c: int| in_grid(r, c) && (#[trigger] b[r][c]).len() == 0
}

/// Elimination, which fails where it leaves a cell without candidates.
pub open spec fn without_conflicts(b: Board) -> Option<Board> {
    if has_empty_cell(eliminated(b)) {
        None
    } else {
        Some(eliminated(b))
    }
}

/// The `k`-th cell of the group is the only one of the group that has `d` among
/// its candidates.
pub open spec fn lone_candidate(b: Board, kind: Group, i: int, d: int, k: int) -> bool {
    &&& 0 <= k < 9
    &&& group_cell(b, kind, i, k).contains(d)
    &&& forall|j: int| 0 <= j < 9 && j != k ==> !(#[trigger] group_cell(b, kind, i, j)).contains(d)
}

/// The `k`-th cell of the group is the only place left for `d` and is not fixed yet.
pub open spec fn hidden_at(b: Board, kind: Group, i: int, d: int, k: int) -> bool {
    lone_candidate(b, kind, i, d, k) && group_cell(b, kind, i, k).len() > 1
}

/// One step of the second rule: where a single open cell of the group can hold
/// `d`, it is fixed to `d`; otherwise nothing changes.
pub open spec fn hidden_single(b: Board, kind: Group, i: int, d: int) -> Board {
    if exists|k: int| hidden_at(b, kind, i, d, k) {
        let k = choose|k: int| hidden_at(b, kind, i, d, k);
        with_cell(b, group_pos(kind, i, k).0, group_pos(kind, i, k).1, set![d])
    } else {
        b
    }
}

/// The second rule for the digit `d` on the `i`-th row, then the `i`-th column,
/// then the `i`-th box.
pub open spec fn sweep_step(b: Board, i: int, d: int) -> Board {
    hidden_single(
        hidden_single(hidden_single(b, Group::Row, i, d), Group::Col, i, d),
        Group::Quad,
        i,
        d,
    )
}

/// The first `n` steps of the second rule: the index runs from 0 to 8 and, for
/// each index, the digit from 1 to 9.
pub open spec fn sweep(b: Board, n: nat) -> Board
    decreases n,
{
    if n == 0 {
        b
    } else {
        sweep_step(sweep(b, (n - 1) as nat), (n - 1) / 9, (n - 1) % 9 + 1)
    }
}

/// The second rule applied for every index and digit.
pub open spec fn hidden_singles(b: Board) -> Board {
    sweep(b, 81)
}

/// One round: elimination, then the second rule.
pub open spec fn round(b: Board) -> Option<Board> {
    match without_conflicts(b) {
        None => None,
        Some(e) => Some(hidden_singles(e)),
    }
}

/// The number of candidates in the first `n` cells, row by row.
pub open spec fn weight_upto(b: Board, n: nat) -> nat
    decreases n,
{
    if n == 0 {
        0
    } else {
        weight_upto(b, (n - 1) as nat) + b[(n - 1) / 9][(n - 1) % 9].len()
    }
}

/// The number of candidates on the board.
pub open spec fn weight(b: Board) -> nat {
    weight_upto(b, 81)
}

/// Rounds repeated until one changes nothing; fails where a round fails.
pub open spec fn fixpoint(b: Board) -> Option<Board>
    decreases weight(b),
    when board_wf(b)
    via fixpoint_decreases
{
    match round(b) {
        None => None,
        Some(h) => if h == b {
            Some(b)
        } else {
            fixpoint(h)
        },
    }
}

/// A round that changes the board takes candidates away, so the rounds come to an end.
#[via_fn]
proof fn fixpoint_decreases(b: Board) {
    match round(b) {
        None => {},
        Some(h) => {
            if h != b {
                lemma_round(b);
                lemma_weight(h, b);
            }
        },
    }
}

/// Boards of the same shape are equal when they agree cell by cell.
pub proof fn lemma_board_ext(a: Board, b: Board)
    requires
        board_wf(a),
        board_wf(b),
        forall|r: int, c: int| in_grid(r, c) ==> #[trigger] a[r][c] == b[r][c],
    ensures
        a == b,
{
    assert forall|r: int| 0 <= r < 9 implies #[trigger] a[r] == b[r] by {
        assert forall|c: int| 0 <= c < 9 implies #[trigger] a[r][c] == b[r][c] by {
            assert(in_grid(r, c));
        }
        assert(a[r] =~= b[r]);
    }
    assert(a =~= b);
}

/// Refinement is transitive.
pub proof fn lemma_refines_trans(a: Board, b: Board, c: Board)
    requires
        refines(a, b),
        refines(b, c),
    ensures
        refines(a, c),
{
    assert forall|r: int, k: int| in_grid(r, k) implies (#[trigger] a[r][k]).subset_of(c[r][k]) by {
        assert(a[r][k].subset_of(b[r][k]));
        assert(b[r][k].subset_of(c[r][k]));
    }
}

/// Two boards that refine each other are the same board.
pub proof fn lemma_refines_antisym(a: Board, b: Board)
    requires
        board_wf(a),
        board_wf(b),
        refines(a, b),
        refines(b, a),
    ensures
        a == b,
{
    assert forall|r: int, c: int| in_grid(r, c) implies #[trigger] a[r][c] == b[r][c] by {
        assert(a[r][c].subset_of(b[r][c]));
        assert(b[r][c].subset_of(a[r][c]));
        assert(a[r][c] =~= b[r][c]);
    }
    lemma_board_ext(a, b);
}

/// A board that refines another has no more candidates in any prefix of cells.
proof fn lemma_weight_upto(a: Board, b: Board, n: nat)
    requires
        board_wf(a),
        board_wf(b),
        refines(a, b),
        n <= 81,
    ensures
        weight_upto(a, n) <= weight_upto(b, n),
        (exists|r: int, c: int| in_grid(r, c) && 9 * r + c < n && (#[trigger] a[r][c]) != b[r][c])
            ==> weight_upto(a, n) < weight_upto(b, n),
    decreases n,
{
    if n > 0 {
        let m = (n - 1) as nat;
        lemma_weight_upto(a, b, m);
        let r0 = m as int / 9;
        let c0 = m as int % 9;
        assert(in_grid(r0, c0));
        vstd::set_lib::lemma_int_range(1, 10);
        assert(a[r0][c0].subset_of(b[r0][c0]));
        assert(b[r0][c0].subset_of(all_digits()));
        vstd::set_lib::lemma_len_subset(b[r0][c0], all_digits());
        vstd::set_lib::lemma_len_subset(a[r0][c0], b[r0][c0]);
        if a[r0][c0].len() == b[r0][c0].len() {
            vstd::set_lib::lemma_subset_equality(a[r0][c0], b[r0][c0]);
        }
        if exists|r: int, c: int|
            in_grid(r, c) && 9 * r + c < n && (#[trigger] a[r][c]) != b[r][c] {
            let (r, c) = choose|r: int, c: int|
                in_grid(r, c) && 9 * r + c < n && (#[trigger] a[r][c]) != b[r][c];
            if 9 * r + c < m {
                assert(in_grid(r, c) && 9 * r + c < m && a[r][c] != b[r][c]);
            } else {
                assert(r == r0 && c == c0);
            }
        }
    }
}

/// A board that refines another and differs from it has fewer candidates.
pub proof fn lemma_weight(a: Board, b: Board)
    requires
        board_wf(a),
        board_wf(b),
        refines(a, b),
    ensures
        weight(a) <= weight(b),
        a != b ==> weight(a) < weight(b),
{
    lemma_weight_upto(a, b, 81);
    if a != b {
        if forall|r: int, c: int| in_grid(r, c) ==> #[trigger] a[r][c] == b[r][c] {
            lemma_board_ext(a, b);
        }
        let (r, c) = choose|r: int, c: int| in_grid(r, c) && #[trigger] a[r][c] != b[r][c];
        assert(in_grid(r, c) && 9 * r + c < 81 && a[r][c] != b[r][c]);
    }
}

/// Elimination keeps the shape of the board and only takes candidates away.
pub proof fn lemma_eliminated(b: Board)
    requires
        board_wf(b),
    ensures
        board_wf(eliminated(b)),
        refines(eliminated(b), b),
{
    let e = eliminated(b);
    assert forall|r: int, c: int| in_grid(r, c) implies (#[trigger] e[r][c]).subset_of(b[r][c])
        && e[r][c].subset_of(all_digits()) by {
        assert(b[r][c].subset_of(all_digits()));
    }
}

/// A step of the second rule keeps the shape of the board and only takes
/// candidates away.
pub proof fn lemma_hidden_single(b: Board, kind: Group, i: int, d: int)
    requires
        board_wf(b),
        0 <= i < 9,
        1 <= d <= 9,
    ensures
        board_wf(hidden_single(b, kind, i, d)),
        refines(hidden_single(b, kind, i, d), b),
{
    let h = hidden_single(b, kind, i, d);
    if exists|k: int| hidden_at(b, kind, i, d, k) {
        let k = choose|k: int| hidden_at(b, kind, i, d, k);
        let (r0, c0) = group_pos(kind, i, k);
        assert(in_grid(r0, c0));
        assert(b[r0][c0].contains(d));
        assert forall|r: int, c: int| in_grid(r, c) implies (#[trigger] h[r][c]).subset_of(b[r][c])
            && h[r][c].subset_of(all_digits()) by {
            assert(b[r][c].subset_of(all_digits()));
            if r == r0 && c == c0 {
                assert(h[r][c] == set![d]);
            } else {
                assert(h[r][c] == b[r][c]);
            }
        }
        assert(h.len() == 9);
        assert forall|r: int| 0 <= r < 9 implies (#[trigger] h[r]).len() == 9 by {
            assert(b[r].len() == 9);
        }
    } else {
        assert forall|r: int, c: int| in_grid(r, c) implies
            (#[trigger] h[r][c]).subset_of(b[r][c]) by {
        }
    }
}

/// The steps of the second rule keep the shape of the board and only take
/// candidates away.
pub proof fn lemma_sweep(b: Board, n: nat)
    requires
        board_wf(b),
        n <= 81,
    ensures
        board_wf(sweep(b, n)),
        refines(sweep(b, n), b),
    decreases n,
{
    if n == 0 {
        assert forall|r: int, c: int| in_grid(r, c) implies
            (#[trigger] b[r][c]).subset_of(b[r][c]) by {
        }
    } else {
        let m = (n - 1) as nat;
        lemma_sweep(b, m);
        let s0 = sweep(b, m);
        let i = m as int / 9;
        let d = m as int % 9 + 1;
        lemma_hidden_single(s0, Group::Row, i, d);
        let s1 = hidden_single(s0, Group::Row, i, d);
        lemma_hidden_single(s1, Group::Col, i, d);
        let s2 = hidden_single(s1, Group::Col, i, d);
        lemma_hidden_single(s2, Group::Quad, i, d);
        let s3 = hidden_single(s2, Group::Quad, i, d);
        lemma_refines_trans(s1, s0, b);
        lemma_refines_trans(s2, s1, b);
        lemma_refines_trans(s3, s2, b);
    }
}

/// A round keeps the shape of the board and only takes candidates away.
pub proof fn lemma_round(b: Board)
    requires
        board_wf(b),
    ensures
        round(b) matches Some(h) ==> board_wf(h) && refines(h, b),
{
    lemma_eliminated(b);
    if round(b) is Some {
        let e = eliminated(b);
        lemma_sweep(e, 81);
        lemma_refines_trans(hidden_singles(e), e, b);
    }
}

/// What the fixpoint returns is a board of the same shape with no more candidates,
/// and a further round leaves it as it is.
pub proof fn lemma_fixpoint(b: Board)
    requires
        board_wf(b),
    ensures
        fixpoint(b) matches Some(s) ==> board_wf(s) && refines(s, b) && round(s) == Some(s),
    decreases weight(b),
{
    lemma_round(b);
    match round(b) {
        None => {},
        Some(h) => {
            if h != b {
                lemma_weight(h, b);
                lemma_fixpoint(h);
                if fixpoint(h) is Some {
                    lemma_refines_trans(fixpoint(h).unwrap(), h, b);
                }
            }
        },
    }
}

/// A board that a round leaves unchanged is free of conflicts: elimination
/// changes nothing on it, and no cell of it is empty.
pub proof fn lemma_stable(s: Board)
    requires
        board_wf(s),
        round(s) == Some(s),
    ensures
        eliminated(s) == s,
        !has_empty_cell(s),
{
    let e = eliminated(s);
    lemma_eliminated(s);
    lemma_sweep(e, 81);
    lemma_refines_antisym(e, s);
}

/// Propagating to the fixpoint a second time gives the same board as the first time.
pub proof fn lemma_fixpoint_idempotent(b: Board)
    requires
        board_wf(b),
    ensures
        fixpoint(b) matches Some(s) ==> fixpoint(s) == Some(s),
{
    lemma_fixpoint(b);
}

} // verus!
