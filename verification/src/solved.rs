//! What the rules do to the solutions of a board.

use vstd::prelude::*;
use crate::board::{
    Board,
    Group,
    board_wf,
    covers,
    filled,
    group_cell,
    group_pos,
    in_grid,
    refines,
    solved,
    lemma_singleton,
};
use crate::cell::{all_digits, top_digit};
use crate::rules::{
    eliminated,
    fixed_to,
    fixpoint,
    has_empty_cell,
    hidden_at,
    hidden_single,
    peers,
    round,
    sweep,
    taken,
    weight,
    lemma_eliminated,
    lemma_hidden_single,
    lemma_round,
    lemma_stable,
    lemma_sweep,
    lemma_weight,
};

verus! {

/// Two different cells of one group are peers.
pub proof fn lemma_group_peers(kind: Group, i: int, k1: int, k2: int)
    requires
        0 <= i < 9,
        0 <= k1 < 9,
        0 <= k2 < 9,
        k1 != k2,
    ensures
        in_grid(group_pos(kind, i, k1).0, group_pos(kind, i, k1).1),
        in_grid(group_pos(kind, i, k2).0, group_pos(kind, i, k2).1),
        peers(
            group_pos(kind, i, k1).0,
            group_pos(kind, i, k1).1,
            group_pos(kind, i, k2).0,
            group_pos(kind, i, k2).1,
        ),
{
}

/// Two peers are two different cells of one group.
pub proof fn lemma_peers_group(r1: int, c1: int, r2: int, c2: int) -> (w: (Group, int, int, int))
    requires
        in_grid(r1, c1),
        in_grid(r2, c2),
        peers(r1, c1, r2, c2),
    ensures
        0 <= w.1 < 9,
        0 <= w.2 < 9,
        0 <= w.3 < 9,
        w.2 != w.3,
        group_pos(w.0, w.1, w.2) == (r1, c1),
        group_pos(w.0, w.1, w.3) == (r2, c2),
{
    if r1 == r2 {
        (Group::Row, r1, c1, c2)
    } else if c1 == c2 {
        (Group::Col, c1, r1, r2)
    } else {
        (Group::Quad, r1 / 3 * 3 + c1 / 3, r1 % 3 * 3 + c1 % 3, r2 % 3 * 3 + c2 % 3)
    }
}

/// The digits of the nine cells of a group, each cell taken by its greatest candidate.
pub open spec fn group_digits(b: Board, kind: Group, i: int) -> Seq<int> {
    Seq::new(9, |k: int| top_digit(group_cell(b, kind, i, k)))
}

/// On a filled board, a cell holds its greatest candidate and nothing else.
proof fn lemma_filled_cell(b: Board, r: int, c: int)
    requires
        board_wf(b),
        filled(b),
        in_grid(r, c),
    ensures
        b[r][c] == set![top_digit(b[r][c])],
        1 <= top_digit(b[r][c]) <= 9,
{
    vstd::set_lib::lemma_int_range(1, 10);
    let s = b[r][c];
    assert(s.subset_of(all_digits()));
    vstd::set_lib::lemma_len_subset(s, all_digits());
    assert(s.len() == 1);
    let d = s.choose();
    assert(s.contains(d));
    lemma_singleton(s, d);
    assert(all_digits().contains(d));
}

/// Nine digits of which none occurs twice are all the digits, and nine digits
/// among which each digit occurs are nine different digits.
proof fn lemma_pigeonhole(q: Seq<int>)
    requires
        q.len() == 9,
        forall|k: int| 0 <= k < 9 ==> 1 <= #[trigger] q[k] <= 9,
    ensures
        q.no_duplicates() <==> (forall|d: int| 1 <= d <= 9 ==> q.contains(d)),
{
    vstd::set_lib::lemma_int_range(1, 10);
    let s = q.to_set();
    assert(s.subset_of(all_digits())) by {
        assert forall|d: int| s.contains(d) implies all_digits().contains(d) by {
            let k = choose|k: int| 0 <= k < q.len() && q[k] == d;
            assert(1 <= q[k] <= 9);
        }
    }
    vstd::set_lib::lemma_len_subset(s, all_digits());
    if q.no_duplicates() {
        q.unique_seq_to_set();
        vstd::set_lib::lemma_subset_equality(s, all_digits());
        assert forall|d: int| 1 <= d <= 9 implies q.contains(d) by {
            assert(all_digits().contains(d));
            assert(s.contains(d));
        }
    }
    if forall|d: int| 1 <= d <= 9 ==> q.contains(d) {
        assert(all_digits().subset_of(s)) by {
            assert forall|d: int| all_digits().contains(d) implies s.contains(d) by {
                assert(q.contains(d));
            }
        }
        assert(s =~= all_digits());
        q.lemma_no_dup_set_cardinality();
    }
}

/// On a filled board, a group covers a digit exactly when the digit is among the
/// digits of its cells.
proof fn lemma_group_digits(b: Board, kind: Group, i: int)
    requires
        board_wf(b),
        filled(b),
        0 <= i < 9,
    ensures
        forall|k: int| 0 <= k < 9 ==> 1 <= #[trigger] group_digits(b, kind, i)[k] <= 9,
        forall|d: int| covers(b, kind, i, d) <==> group_digits(b, kind, i).contains(d),
{
    let q = group_digits(b, kind, i);
    assert forall|k: int| 0 <= k < 9 implies 1 <= #[trigger] q[k] <= 9 && group_cell(b, kind, i, k)
        == set![q[k]] by {
        lemma_filled_cell(b, group_pos(kind, i, k).0, group_pos(kind, i, k).1);
    }
    assert forall|d: int| covers(b, kind, i, d) <==> q.contains(d) by {
        if covers(b, kind, i, d) {
            let k = choose|k: int| 0 <= k < 9 && #[trigger] group_cell(b, kind, i, k).contains(d);
            assert(group_cell(b, kind, i, k) == set![q[k]]);
            assert(q[k] == d);
        }
        if q.contains(d) {
            let k = choose|k: int| 0 <= k < q.len() && q[k] == d;
            assert(group_cell(b, kind, i, k) == set![q[k]]);
            assert(group_cell(b, kind, i, k).contains(d));
        }
    }
}

/// On a solved board no two peers hold the same digit.
pub proof fn lemma_solved_distinct(s: Board, r1: int, c1: int, r2: int, c2: int)
    requires
        board_wf(s),
        solved(s),
        in_grid(r1, c1),
        in_grid(r2, c2),
        peers(r1, c1, r2, c2),
    ensures
        top_digit(s[r1][c1]) != top_digit(s[r2][c2]),
        s[r1][c1] == set![top_digit(s[r1][c1])],
        s[r2][c2] == set![top_digit(s[r2][c2])],
{
    let (kind, i, k1, k2) = lemma_peers_group(r1, c1, r2, c2);
    let q = group_digits(s, kind, i);
    lemma_group_digits(s, kind, i);
    lemma_pigeonhole(q);
    assert forall|d: int| 1 <= d <= 9 implies q.contains(d) by {
        assert(covers(s, kind, i, d));
    }
    assert(q[k1] != q[k2]);
    lemma_filled_cell(s, r1, c1);
    lemma_filled_cell(s, r2, c2);
}

/// A filled board on which no two peers hold the same digit is solved.
pub proof fn lemma_distinct_solved(s: Board)
    requires
        board_wf(s),
        filled(s),
        forall|r1: int, c1: int, r2: int, c2: int|
            in_grid(r1, c1) && in_grid(r2, c2) && #[trigger] peers(r1, c1, r2, c2) ==> top_digit(
                s[r1][c1],
            ) != top_digit(s[r2][c2]),
    ensures
        solved(s),
{
    assert forall|kind: Group, i: int, d: int| 0 <= i < 9 && 1 <= d <= 9 implies #[trigger] covers(
        s,
        kind,
        i,
        d,
    ) by {
        let q = group_digits(s, kind, i);
        lemma_group_digits(s, kind, i);
        lemma_pigeonhole(q);
        assert forall|k1: int, k2: int| 0 <= k1 < 9 && 0 <= k2 < 9 && k1 != k2 implies q[k1]
            != q[k2] by {
            lemma_group_peers(kind, i, k1, k2);
            assert(peers(
                group_pos(kind, i, k1).0,
                group_pos(kind, i, k1).1,
                group_pos(kind, i, k2).0,
                group_pos(kind, i, k2).1,
            ));
        }
        assert(q.no_duplicates());
        assert(q.contains(d));
    }
}

/// A filled board that a round leaves unchanged is solved.
pub proof fn lemma_stable_filled(s: Board)
    requires
        board_wf(s),
        round(s) == Some(s),
        filled(s),
    ensures
        solved(s),
{
    lemma_stable(s);
    assert forall|r1: int, c1: int, r2: int, c2: int|
        in_grid(r1, c1) && in_grid(r2, c2) && #[trigger] peers(r1, c1, r2, c2) implies top_digit(
        s[r1][c1],
    ) != top_digit(s[r2][c2]) by {
        lemma_filled_cell(s, r1, c1);
        lemma_filled_cell(s, r2, c2);
        let d = top_digit(s[r1][c1]);
        if d == top_digit(s[r2][c2]) {
            assert(fixed_to(s, r2, c2, d));
            assert(taken(s, r1, c1, d));
            assert(!eliminated(s)[r1][c1].contains(d));
            assert(s[r1][c1].contains(d));
        }
    }
    lemma_distinct_solved(s);
}

/// A board that a round leaves unchanged and that is not solved has a cell with
/// more than one candidate.
pub proof fn lemma_stable_open(s: Board) -> (p: (int, int))
    requires
        board_wf(s),
        round(s) == Some(s),
        !solved(s),
    ensures
        in_grid(p.0, p.1),
        s[p.0][p.1].len() > 1,
{
    lemma_stable(s);
    if filled(s) {
        lemma_stable_filled(s);
    }
    let (r, c) = choose|r: int, c: int| in_grid(r, c) && (#[trigger] s[r][c]).len() != 1;
    assert(s[r][c].len() != 0);
    (r, c)
}

/// Elimination takes nothing away that a solution needs.
pub proof fn lemma_eliminated_keeps(b: Board, s: Board)
    requires
        board_wf(b),
        board_wf(s),
        solved(s),
        refines(s, b),
    ensures
        refines(s, eliminated(b)),
        !has_empty_cell(eliminated(b)),
{
    let e = eliminated(b);
    lemma_eliminated(b);
    vstd::set_lib::lemma_int_range(1, 10);
    assert forall|r: int, c: int| in_grid(r, c) implies (#[trigger] s[r][c]).subset_of(e[r][c])
        && e[r][c].len() != 0 by {
        lemma_filled_cell(s, r, c);
        let d = top_digit(s[r][c]);
        assert(s[r][c].subset_of(b[r][c]));
        assert(s[r][c].contains(d));
        if taken(b, r, c, d) {
            let (r2, c2) = choose|r2: int, c2: int|
                in_grid(r2, c2) && peers(r, c, r2, c2) && #[trigger] fixed_to(b, r2, c2, d);
            lemma_solved_distinct(s, r, c, r2, c2);
            assert(b[r2][c2].subset_of(all_digits()));
            vstd::set_lib::lemma_len_subset(b[r2][c2], all_digits());
            lemma_singleton(b[r2][c2], d);
            assert(s[r2][c2].subset_of(b[r2][c2]));
            assert(s[r2][c2].contains(top_digit(s[r2][c2])));
            assert(false);
        }
        assert(e[r][c].contains(d));
        assert(e[r][c].subset_of(all_digits()));
        vstd::set_lib::lemma_len_subset(e[r][c], all_digits());
    }
}

/// A step of the second rule takes nothing away that a solution needs.
pub proof fn lemma_hidden_single_keeps(b: Board, s: Board, kind: Group, i: int, d: int)
    requires
        board_wf(b),
        board_wf(s),
        solved(s),
        refines(s, b),
        0 <= i < 9,
        1 <= d <= 9,
    ensures
        refines(s, hidden_single(b, kind, i, d)),
{
    let h = hidden_single(b, kind, i, d);
    if exists|k: int| hidden_at(b, kind, i, d, k) {
        let k = choose|k: int| hidden_at(b, kind, i, d, k);
        let (r0, c0) = group_pos(kind, i, k);
        assert(covers(s, kind, i, d));
        let j = choose|j: int| 0 <= j < 9 && #[trigger] group_cell(s, kind, i, j).contains(d);
        let (r1, c1) = group_pos(kind, i, j);
        assert(in_grid(r1, c1));
        assert(s[r1][c1].subset_of(b[r1][c1]));
        assert(group_cell(b, kind, i, j).contains(d));
        assert(j == k);
        lemma_filled_cell(s, r0, c0);
        assert(s[r0][c0] == set![d]);
        assert forall|r: int, c: int| in_grid(r, c) implies
            (#[trigger] s[r][c]).subset_of(h[r][c]) by {
            assert(s[r][c].subset_of(b[r][c]));
            if r == r0 && c == c0 {
                assert(h[r][c] == set![d]);
            } else {
                assert(h[r][c] == b[r][c]);
            }
        }
    }
}

/// The steps of the second rule take nothing away that a solution needs.
pub proof fn lemma_sweep_keeps(b: Board, s: Board, n: nat)
    requires
        board_wf(b),
        board_wf(s),
        solved(s),
        refines(s, b),
        n <= 81,
    ensures
        refines(s, sweep(b, n)),
    decreases n,
{
    if n > 0 {
        let m = (n - 1) as nat;
        lemma_sweep_keeps(b, s, m);
        lemma_sweep(b, m);
        let s0 = sweep(b, m);
        let i = m as int / 9;
        let d = m as int % 9 + 1;
        lemma_hidden_single(s0, Group::Row, i, d);
        lemma_hidden_single_keeps(s0, s, Group::Row, i, d);
        let s1 = hidden_single(s0, Group::Row, i, d);
        lemma_hidden_single(s1, Group::Col, i, d);
        lemma_hidden_single_keeps(s1, s, Group::Col, i, d);
        let s2 = hidden_single(s1, Group::Col, i, d);
        lemma_hidden_single_keeps(s2, s, Group::Quad, i, d);
    }
}

/// A round does not fail on a board that has a solution, and takes nothing away
/// that the solution needs.
pub proof fn lemma_round_keeps(b: Board, s: Board)
    requires
        board_wf(b),
        board_wf(s),
        solved(s),
        refines(s, b),
    ensures
        round(b) matches Some(h) && refines(s, h),
{
    lemma_eliminated(b);
    lemma_eliminated_keeps(b, s);
    lemma_sweep_keeps(eliminated(b), s, 81);
}

/// Propagation does not fail on a board that has a solution, and takes nothing
/// away that the solution needs.
pub proof fn lemma_fixpoint_keeps(b: Board, s: Board)
    requires
        board_wf(b),
        board_wf(s),
        solved(s),
        refines(s, b),
    ensures
        fixpoint(b) matches Some(f) && refines(s, f),
    decreases weight(b),
{
    lemma_round(b);
    lemma_round_keeps(b, s);
    let h = round(b).unwrap();
    if h != b {
        lemma_weight(h, b);
        lemma_fixpoint_keeps(h, s);
    }
}

} // verus!
