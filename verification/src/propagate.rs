//! The two deduction rules and their fixpoint, carried out on grids.

use vstd::prelude::*;
use crate::board::{
    Board,
    Group,
    board_wf,
    group_cell,
    group_pos,
    in_grid,
    refines,
    with_cell,
    lemma_singleton,
};
use crate::cell::{Cell, all_digits};
use crate::grid::Sudoku;
use crate::rules::{
    eliminated,
    fixed_to,
    fixpoint,
    has_empty_cell,
    hidden_at,
    hidden_single,
    hidden_singles,
    peers,
    round,
    sweep,
    sweep_step,
    taken,
    weight,
    without_conflicts,
    lemma_board_ext,
    lemma_eliminated,
    lemma_hidden_single,
    lemma_refines_antisym,
    lemma_refines_trans,
    lemma_round,
    lemma_sweep,
    lemma_weight,
};

verus! {

/// The position `(tr, tc)` is among the first `ir` cells of the row of `(sr, sc)`,
/// the first `ic` of its column or the first `iq` of its box.
#[verifier::opaque]
spec fn reached(sr: int, sc: int, tr: int, tc: int, ir: int, ic: int, iq: int) -> bool {
    ||| (tr == sr && tc < ir)
    ||| (tc == sc && tr < ic)
    ||| (tr / 3 == sr / 3 && tc / 3 == sc / 3 && 3 * (tr % 3) + tc % 3 < iq)
}

/// Elimination has already gone from the source `(sr, sc)` to the target
/// `(tr, tc)` when it stands at the `n`-th source with the given progress in
/// that source's row, column and box.
spec fn done(n: int, ir: int, ic: int, iq: int, sr: int, sc: int, tr: int, tc: int) -> bool {
    9 * sr + sc < n || (9 * sr + sc == n && reached(sr, sc, tr, tc, ir, ic, iq))
}

/// Some peer from which elimination has already come to `(r, c)` is fixed to `d`.
spec fn taken_by(b: Board, n: int, ir: int, ic: int, iq: int, r: int, c: int, d: int) -> bool {
    exists|r2: int, c2: int|
        in_grid(r2, c2) && peers(r, c, r2, c2) && done(n, ir, ic, iq, r2, c2, r, c)
            && #[trigger] fixed_to(b, r2, c2, d)
}

/// The board `cur` is what elimination has made of `b` so far.
#[verifier::opaque]
spec fn progress(b: Board, cur: Board, n: int, ir: int, ic: int, iq: int) -> bool {
    &&& board_wf(cur)
    &&& forall|r: int, c: int, d: int|
        in_grid(r, c) ==> ((#[trigger] cur[r][c].contains(d)) <==> (b[r][c].contains(d)
            && !taken_by(b, n, ir, ic, iq, r, c, d)))
}

/// The board after the digit `d` of the source `(sr, sc)` has been taken away
/// at `(tr, tc)`; the source itself is left alone.
spec fn removal(cur: Board, sr: int, sc: int, tr: int, tc: int, d: int) -> Board {
    if tr == sr && tc == sc {
        cur
    } else {
        with_cell(cur, tr, tc, cur[tr][tc].remove(d))
    }
}

/// Before elimination has begun the board is as it was given.
proof fn lemma_progress_start(b: Board)
    requires
        board_wf(b),
    ensures
        progress(b, b, 0, 0, 0, 0),
{
    reveal(progress);
    reveal(reached);
    assert forall|r: int, c: int, d: int| in_grid(r, c) implies ((#[trigger] b[r][c].contains(d))
        <==> (b[r][c].contains(d) && !taken_by(b, 0, 0, 0, 0, r, c, d))) by {
        if taken_by(b, 0, 0, 0, 0, r, c, d) {
            let (r2, c2) = choose|r2: int, c2: int|
                in_grid(r2, c2) && peers(r, c, r2, c2) && done(0, 0, 0, 0, r2, c2, r, c)
                    && #[trigger] fixed_to(b, r2, c2, d);
            assert(false);
        }
    }
}

/// In the course of elimination the board has lost nothing that it did not have,
/// and nothing that it does not lose in the end.
proof fn lemma_progress_refines(b: Board, cur: Board, n: int, ir: int, ic: int, iq: int)
    requires
        board_wf(b),
        progress(b, cur, n, ir, ic, iq),
    ensures
        refines(cur, b),
        refines(eliminated(b), cur),
{
    reveal(progress);
    let e = eliminated(b);
    assert forall|r: int, c: int| in_grid(r, c) implies (#[trigger] cur[r][c]).subset_of(b[r][c])
        && e[r][c].subset_of(cur[r][c]) by {
        assert forall|d: int| cur[r][c].contains(d) implies b[r][c].contains(d) by {}
        assert forall|d: int| e[r][c].contains(d) implies cur[r][c].contains(d) by {
            if taken_by(b, n, ir, ic, iq, r, c, d) {
                let (r2, c2) = choose|r2: int, c2: int|
                    in_grid(r2, c2) && peers(r, c, r2, c2) && done(n, ir, ic, iq, r2, c2, r, c)
                        && #[trigger] fixed_to(b, r2, c2, d);
                assert(taken(b, r, c, d));
            }
        }
    }
}

/// An empty cell in the course of elimination is an empty cell at its end.
proof fn lemma_progress_empty(
    b: Board,
    cur: Board,
    n: int,
    ir: int,
    ic: int,
    iq: int,
    r: int,
    c: int,
)
    requires
        board_wf(b),
        progress(b, cur, n, ir, ic, iq),
        in_grid(r, c),
        cur[r][c].len() == 0,
    ensures
        has_empty_cell(eliminated(b)),
{
    lemma_progress_refines(b, cur, n, ir, ic, iq);
    lemma_eliminated(b);
    let e = eliminated(b);
    vstd::set_lib::lemma_int_range(1, 10);
    assert(cur[r][c].subset_of(all_digits()));
    vstd::set_lib::lemma_len_subset(cur[r][c], all_digits());
    assert(e[r][c].subset_of(cur[r][c]));
    vstd::set_lib::lemma_len_subset(e[r][c], cur[r][c]);
    assert(e[r][c].len() == 0);
}

/// Elimination goes on from the `n`-th source, which is fixed to `d0`, to one more
/// cell of its row, column or box.
proof fn lemma_progress_remove(
    b: Board,
    cur: Board,
    n: int,
    ir: int,
    ic: int,
    iq: int,
    ir2: int,
    ic2: int,
    iq2: int,
    tr: int,
    tc: int,
    d0: int,
)
    requires
        board_wf(b),
        progress(b, cur, n, ir, ic, iq),
        0 <= n < 81,
        fixed_to(b, n / 9, n % 9, d0),
        in_grid(tr, tc),
        tr == n / 9 || tc == n % 9 || (tr / 3 == (n / 9) / 3 && tc / 3 == (n % 9) / 3),
        forall|r: int, c: int|
            in_grid(r, c) ==> (#[trigger] reached(n / 9, n % 9, r, c, ir2, ic2, iq2) <==> (reached(
                n / 9,
                n % 9,
                r,
                c,
                ir,
                ic,
                iq,
            ) || (r == tr && c == tc))),
    ensures
        progress(b, removal(cur, n / 9, n % 9, tr, tc, d0), n, ir2, ic2, iq2),
{
    reveal(progress);
    let sr = n / 9;
    let sc = n % 9;
    let next = removal(cur, sr, sc, tr, tc, d0);
    vstd::set_lib::lemma_int_range(1, 10);
    assert(b[sr][sc].subset_of(all_digits()));
    vstd::set_lib::lemma_len_subset(b[sr][sc], all_digits());
    lemma_singleton(b[sr][sc], d0);
    assert forall|r: int, c: int| in_grid(r, c) implies (#[trigger] next[r][c]).subset_of(
        all_digits(),
    ) by {
        assert(cur[r][c].subset_of(all_digits()));
    }
    assert forall|r: int| 0 <= r < 9 implies (#[trigger] next[r]).len() == 9 by {
        assert(cur[r].len() == 9);
    }
    assert forall|r: int, c: int, d: int| in_grid(r, c) implies ((#[trigger] next[r][c].contains(d))
        <==> (b[r][c].contains(d) && !taken_by(b, n, ir2, ic2, iq2, r, c, d))) by {
        let hit = r == tr && c == tc && !(tr == sr && tc == sc);
        assert(next[r][c].contains(d) <==> (cur[r][c].contains(d) && !(hit && d == d0)));
        assert(reached(sr, sc, r, c, ir2, ic2, iq2) <==> (reached(sr, sc, r, c, ir, ic, iq) || (r
            == tr && c == tc)));
        if taken_by(b, n, ir2, ic2, iq2, r, c, d) {
            let (r2, c2) = choose|r2: int, c2: int|
                in_grid(r2, c2) && peers(r, c, r2, c2) && done(n, ir2, ic2, iq2, r2, c2, r, c)
                    && #[trigger] fixed_to(b, r2, c2, d);
            if 9 * r2 + c2 < n || reached(sr, sc, r, c, ir, ic, iq) {
                assert(done(n, ir, ic, iq, r2, c2, r, c));
                assert(taken_by(b, n, ir, ic, iq, r, c, d));
            } else {
                assert(r2 == sr && c2 == sc);
                assert(hit && d == d0);
            }
        }
        if taken_by(b, n, ir, ic, iq, r, c, d) {
            let (r2, c2) = choose|r2: int, c2: int|
                in_grid(r2, c2) && peers(r, c, r2, c2) && done(n, ir, ic, iq, r2, c2, r, c)
                    && #[trigger] fixed_to(b, r2, c2, d);
            assert(done(n, ir2, ic2, iq2, r2, c2, r, c));
        }
        if hit && d == d0 {
            assert(in_grid(sr, sc) && peers(r, c, sr, sc) && done(n, ir2, ic2, iq2, sr, sc, r, c)
                && fixed_to(b, sr, sc, d));
        }
    }
}

/// Elimination is through with the `n`-th source: either it has gone to all the
/// peers of that source, or the source is not fixed and there was nothing to do.
proof fn lemma_progress_next(b: Board, cur: Board, n: int, ir: int, ic: int, iq: int)
    requires
        board_wf(b),
        progress(b, cur, n, ir, ic, iq),
        0 <= n < 81,
        (ir == 9 && ic == 9 && iq == 9) || b[n / 9][n % 9].len() != 1,
    ensures
        progress(b, cur, n + 1, 0, 0, 0),
{
    reveal(progress);
    reveal(reached);
    let sr = n / 9;
    let sc = n % 9;
    assert forall|r: int, c: int, d: int| in_grid(r, c) implies ((#[trigger] cur[r][c].contains(d))
        <==> (b[r][c].contains(d) && !taken_by(b, n + 1, 0, 0, 0, r, c, d))) by {
        if taken_by(b, n + 1, 0, 0, 0, r, c, d) {
            let (r2, c2) = choose|r2: int, c2: int|
                in_grid(r2, c2) && peers(r, c, r2, c2) && done(n + 1, 0, 0, 0, r2, c2, r, c)
                    && #[trigger] fixed_to(b, r2, c2, d);
            if 9 * r2 + c2 == n {
                assert(r2 == sr && c2 == sc);
                assert(reached(sr, sc, r, c, 9, 9, 9));
            }
            assert(done(n, ir, ic, iq, r2, c2, r, c));
            assert(taken_by(b, n, ir, ic, iq, r, c, d));
        }
        if taken_by(b, n, ir, ic, iq, r, c, d) {
            let (r2, c2) = choose|r2: int, c2: int|
                in_grid(r2, c2) && peers(r, c, r2, c2) && done(n, ir, ic, iq, r2, c2, r, c)
                    && #[trigger] fixed_to(b, r2, c2, d);
            assert(done(n + 1, 0, 0, 0, r2, c2, r, c));
        }
    }
}

/// When elimination has gone from every source to all its peers, the board is the
/// one that the rule describes.
proof fn lemma_progress_end(b: Board, cur: Board)
    requires
        board_wf(b),
        progress(b, cur, 81, 0, 0, 0),
    ensures
        cur == eliminated(b),
{
    reveal(progress);
    let e = eliminated(b);
    lemma_eliminated(b);
    assert forall|r: int, c: int| in_grid(r, c) implies #[trigger] cur[r][c] == e[r][c] by {
        assert forall|d: int| cur[r][c].contains(d) <==> e[r][c].contains(d) by {
            if taken_by(b, 81, 0, 0, 0, r, c, d) {
                let (r2, c2) = choose|r2: int, c2: int|
                    in_grid(r2, c2) && peers(r, c, r2, c2) && done(81, 0, 0, 0, r2, c2, r, c)
                        && #[trigger] fixed_to(b, r2, c2, d);
                assert(taken(b, r, c, d));
            }
            if taken(b, r, c, d) {
                let (r2, c2) = choose|r2: int, c2: int|
                    in_grid(r2, c2) && peers(r, c, r2, c2) && #[trigger] fixed_to(b, r2, c2, d);
                assert(done(81, 0, 0, 0, r2, c2, r, c));
                assert(taken_by(b, 81, 0, 0, 0, r, c, d));
            }
        }
        assert(cur[r][c] =~= e[r][c]);
    }
    lemma_board_ext(cur, e);
}

/// Whether the board differs from `b` after a cell of it has shrunk.
proof fn lemma_changed_step(b: Board, cur: Board, tr: int, tc: int, x: Set<int>)
    requires
        board_wf(b),
        board_wf(cur),
        refines(cur, b),
        in_grid(tr, tc),
        x.subset_of(cur[tr][tc]),
    ensures
        (with_cell(cur, tr, tc, x) != b) == (cur != b || x != b[tr][tc]),
{
    let next = with_cell(cur, tr, tc, x);
    assert(next[tr][tc] == x);
    if x == b[tr][tc] {
        assert(cur[tr][tc].subset_of(b[tr][tc]));
        assert(cur[tr][tc] =~= x);
        assert(cur[tr].update(tc, x) =~= cur[tr]);
        assert(next =~= cur);
    }
}

/// No cell has lost its last candidate: a cell that is empty in `cur` was empty in `b`.
spec fn no_new_empty(cur: Board, b: Board) -> bool {
    forall|r: int, c: int| in_grid(r, c) && (#[trigger] cur[r][c]).len() == 0 ==> b[r][c].len() == 0
}

/// None of the first `n` cells of the board is empty.
spec fn nonempty_before(b: Board, n: int) -> bool {
    forall|r: int, c: int| in_grid(r, c) && 9 * r + c < n ==> (#[trigger] b[r][c]).len() != 0
}

/// The `i`-th cell of the row, of the column or of the box of the `n`-th source.
spec fn target(kind: Group, n: int, i: int) -> (int, int) {
    match kind {
        Group::Row => (n / 9, i),
        Group::Col => (i, n % 9),
        Group::Quad => (n / 9 - (n / 9) % 3 + i / 3, n % 9 - (n % 9) % 3 + i % 3),
    }
}

/// How far elimination from one source has come after the `i`-th cell of a group
/// of that source: in the row first, then in the column, then in the box.
spec fn after(kind: Group, i: int) -> (int, int, int) {
    match kind {
        Group::Row => (i + 1, i, i),
        Group::Col => (i + 1, i + 1, i),
        Group::Quad => (i + 1, i + 1, i + 1),
    }
}

/// How far elimination from one source has come before the `i`-th cell of a group
/// of that source.
spec fn before(kind: Group, i: int) -> (int, int, int) {
    match kind {
        Group::Row => (i, i, i),
        Group::Col => (i + 1, i, i),
        Group::Quad => (i + 1, i + 1, i),
    }
}

/// One removal carries elimination one step on.
proof fn lemma_step(
    b: Board,
    cur: Board,
    next: Board,
    n: int,
    kind: Group,
    i: int,
    d0: int,
    ch: bool,
    ch2: bool,
    failed: bool,
)
    requires
        board_wf(b),
        0 <= n < 81,
        0 <= i < 9,
        progress(b, cur, n, before(kind, i).0, before(kind, i).1, before(kind, i).2),
        fixed_to(b, n / 9, n % 9, d0),
        next == removal(cur, n / 9, n % 9, target(kind, n, i).0, target(kind, n, i).1, d0),
        ch == (cur != b),
        no_new_empty(cur, b),
        target(kind, n, i) == (n / 9, n % 9) ==> !failed && ch2 == ch,
        target(kind, n, i) != (n / 9, n % 9) ==> (failed == (next[target(kind, n, i).0][target(
            kind,
            n,
            i,
        ).1].len() == 0)) && ch2 == (ch || next[target(kind, n, i).0][target(kind, n, i).1]
            != b[target(kind, n, i).0][target(kind, n, i).1]),
    ensures
        progress(b, next, n, after(kind, i).0, after(kind, i).1, after(kind, i).2),
        ch2 == (next != b),
        failed ==> has_empty_cell(eliminated(b)),
        !failed ==> no_new_empty(next, b),
{
    let sr = n / 9;
    let sc = n % 9;
    let (tr, tc) = target(kind, n, i);
    let (ir, ic, iq) = before(kind, i);
    let (ir2, ic2, iq2) = after(kind, i);
    assert(in_grid(tr, tc));
    assert forall|r: int, c: int| in_grid(r, c) implies (#[trigger] reached(
        sr,
        sc,
        r,
        c,
        ir2,
        ic2,
        iq2,
    ) <==> (reached(sr, sc, r, c, ir, ic, iq) || (r == tr && c == tc))) by {
        reveal(reached);
        if r / 3 == sr / 3 && c / 3 == sc / 3 {
            assert(r == sr - sr % 3 + r % 3 && c == sc - sc % 3 + c % 3);
        }
    }
    lemma_progress_refines(b, cur, n, ir, ic, iq);
    lemma_progress_remove(b, cur, n, ir, ic, iq, ir2, ic2, iq2, tr, tc, d0);
    assert(board_wf(cur)) by {
        reveal(progress);
    }
    if tr != sr || tc != sc {
        lemma_changed_step(b, cur, tr, tc, cur[tr][tc].remove(d0));
        if failed {
            lemma_progress_empty(b, next, n, ir2, ic2, iq2, tr, tc);
        } else {
            assert forall|r: int, c: int| in_grid(r, c) && (#[trigger] next[r][c]).len()
                == 0 implies b[r][c].len() == 0 by {
                if r == tr && c == tc {
                } else {
                    assert(next[r][c] == cur[r][c]);
                }
            }
        }
    }
}

impl Sudoku {
    /// Takes the digit `d` of the fixed cell at `(r, c)` away from the cell at
    /// `(nr, nc)` of `new`, unless the two positions are the same. Records whether
    /// the cell now differs from that of `self`, and fails if it is left empty.
    fn remove_d_at(
        &self,
        new: &mut Sudoku,
        changed: &mut bool,
        r: usize,
        c: usize,
        d: u16,
        nr: usize,
        nc: usize,
    ) -> (res: Option<()>)
        requires
            self.wf(),
            old(new).wf(),
            r < 9,
            c < 9,
            nr < 9,
            nc < 9,
            d < 16,
        ensures
            final(new).wf(),
            final(new)@ == removal(old(new)@, r as int, c as int, nr as int, nc as int, d as int),
            (nr == r && nc == c) ==> res is Some && *final(changed) == *old(changed),
            !(nr == r && nc == c) ==>
                (res is None <==> final(new)@[nr as int][nc as int].len() == 0)
                && *final(changed) == (*old(changed) || final(new)@[nr as int][nc as int]
                != self@[nr as int][nc as int]),
    {
        if nr != r || nc != c {
            let mut cell = new.cell(nr, nc);
            cell.remove_digit(d);
            new.set_cell(nr, nc, cell);

            let before = self.cell(nr, nc);
            if cell != before {
                *changed = true;
            }
            proof {
                if cell@ == before@ {
                    cell.lemma_view_injective(before);
                }
            }

            if cell.is_empty() {
                return None;
            }
        }
        Some(())
    }

    /// The first rule. For every cell that is fixed in `self`, its digit is taken away
    /// from all the cells that share its row, column or box. Fails if that leaves a
    /// cell without candidates; otherwise returns the new grid and whether it
    /// differs from `self`.
    pub fn without_conflicts(&self) -> (res: Option<(Sudoku, bool)>)
        requires
            self.wf(),
        ensures
            match res {
                None => without_conflicts(self@) is None,
                Some((g, changed)) => g.wf() && without_conflicts(self@) == Some(g@) && changed == (
                g@ != self@),
            },
    {
        let mut new = self.clone();
        let mut changed = false;
        proof {
            self.lemma_view_wf();
            lemma_progress_start(self@);
        }

        for r in 0..9usize
            invariant
                self.wf(),
                new.wf(),
                board_wf(self@),
                progress(self@, new@, 9 * r, 0, 0, 0),
                changed == (new@ != self@),
                no_new_empty(new@, self@),
                nonempty_before(self@, 9 * r),
        {
            let row = self.row(r);

            for c in 0..9usize
                invariant
                    r < 9,
                    self.wf(),
                    new.wf(),
                    board_wf(self@),
                    forall|k: int| 0 <= k < 9 ==> #[trigger] row[k] == self.at(r as int, k),
                    progress(self@, new@, 9 * r + c, 0, 0, 0),
                    changed == (new@ != self@),
                    no_new_empty(new@, self@),
                    nonempty_before(self@, 9 * r + c),
            {
                let cell = row[c];
                let ghost n = 9 * r + c;
                assert(n / 9 == r && n % 9 == c);
                assert(cell@ == self@[r as int][c as int]);
                match cell.len() {
                    0 => {
                        proof {
                            lemma_progress_start(self@);
                            lemma_progress_empty(self@, self@, 0, 0, 0, 0, r as int, c as int);
                        }
                        return None;
                    },
                    1 => {
                        let d = cell.first_digit();

                        let (qr, qc) = self.quad_of(r, c);

                        for i in 0..9usize
                            invariant
                                r < 9,
                                c < 9,
                                n == 9 * r + c,
                                qr == r - r % 3,
                                qc == c - c % 3,
                                1 <= d <= 9,
                                fixed_to(self@, r as int, c as int, d as int),
                                self.wf(),
                                new.wf(),
                                board_wf(self@),
                                progress(self@, new@, n, i as int, i as int, i as int),
                                changed == (new@ != self@),
                                no_new_empty(new@, self@),
                        {
                            let ghost b0 = new@;
                            let ghost ch0 = changed;
                            let res = self.remove_d_at(&mut new, &mut changed, r, c, d, r, i);
                            proof {
                                lemma_step(
                                    self@,
                                    b0,
                                    new@,
                                    n,
                                    Group::Row,
                                    i as int,
                                    d as int,
                                    ch0,
                                    changed,
                                    res is None,
                                );
                            }
                            res?;

                            let ghost b1 = new@;
                            let ghost ch1 = changed;
                            let res = self.remove_d_at(&mut new, &mut changed, r, c, d, i, c);
                            proof {
                                lemma_step(
                                    self@,
                                    b1,
                                    new@,
                                    n,
                                    Group::Col,
                                    i as int,
                                    d as int,
                                    ch1,
                                    changed,
                                    res is None,
                                );
                            }
                            res?;

                            let ghost b2 = new@;
                            let ghost ch2 = changed;
                            let res = self.remove_d_at(
                                &mut new,
                                &mut changed,
                                r,
                                c,
                                d,
                                qr + i / 3,
                                qc + i % 3,
                            );
                            proof {
                                lemma_step(
                                    self@,
                                    b2,
                                    new@,
                                    n,
                                    Group::Quad,
                                    i as int,
                                    d as int,
                                    ch2,
                                    changed,
                                    res is None,
                                );
                            }
                            res?;
                        }
                        proof {
                            lemma_progress_next(self@, new@, n, 9, 9, 9);
                        }
                    },
                    _ => {
                        proof {
                            lemma_progress_next(self@, new@, n, 0, 0, 0);
                        }
                    },
                }
                assert(nonempty_before(self@, n + 1)) by {
                    assert forall|i: int, j: int| in_grid(i, j) && 9 * i + j < n + 1 implies (
                    #[trigger] self@[i][j]).len() != 0 by {
                        if 9 * i + j == n {
                            assert(i == r && j == c);
                        }
                    }
                }
            }
        }
        proof {
            lemma_progress_end(self@, new@);
            assert(!has_empty_cell(new@)) by {
                assert forall|i: int, j: int| in_grid(i, j) implies (#[trigger] new@[i][j]).len()
                    != 0 by {
                    assert(self@[i][j].len() != 0);
                }
            }
        }
        Some((new, changed))
    }
}

/// Whether a board differs from another after two steps that each only take
/// candidates away.
proof fn lemma_chain_changed(a: Board, b: Board, c: Board)
    requires
        board_wf(a),
        board_wf(b),
        board_wf(c),
        refines(a, b),
        refines(b, c),
    ensures
        (a != c) == (a != b || b != c),
{
    if a == c {
        lemma_refines_antisym(a, b);
    }
}

/// At most one cell of a group is the lone open place of a digit.
proof fn lemma_hidden_unique(b: Board, kind: Group, i: int, d: int, k: int)
    requires
        hidden_at(b, kind, i, d, k),
    ensures
        (choose|j: int| hidden_at(b, kind, i, d, j)) == k,
{
    let j = choose|j: int| hidden_at(b, kind, i, d, j);
    assert(hidden_at(b, kind, i, d, j));
    if j != k {
        assert(!group_cell(b, kind, i, j).contains(d));
    }
}

impl Sudoku {
    /// One step of the second rule, for the digit `d` and the `i`-th group of a kind.
    /// If exactly one cell of the group has `d` among its candidates and that cell is
    /// not fixed yet, it is fixed to `d`. Returns whether the grid has changed.
    pub fn find_unambiguity(&mut self, d: u16, kind: Group, i: usize) -> (changed: bool)
        requires
            old(self).wf(),
            1 <= d <= 9,
            i < 9,
        ensures
            final(self).wf(),
            final(self)@ == hidden_single(old(self)@, kind, i as int, d as int),
            changed == (final(self)@ != old(self)@),
    {
        let mut changed = false;
        let mut digit_ix: Option<(usize, usize)> = None;
        let ghost b = self@;
        let ghost mut found: int = -1;

        let mut k: usize = 0;
        while k < 9
            invariant_except_break
                -1 <= found < k <= 9,
                found == -1 <==> digit_ix is None,
                found >= 0 ==> digit_ix == Some(
                    (group_pos(kind, i as int, found).0 as usize, group_pos(
                        kind,
                        i as int,
                        found,
                    ).1 as usize),
                ) && group_cell(b, kind, i as int, found).contains(d as int) && group_cell(
                    b,
                    kind,
                    i as int,
                    found,
                ).len() > 1,
                forall|j: int|
                    0 <= j < k && j != found ==> !(#[trigger] group_cell(
                        b,
                        kind,
                        i as int,
                        j,
                    )).contains(d as int),
            invariant
                self.wf(),
                self@ == b,
                i < 9,
                1 <= d <= 9,
            ensures
                digit_ix matches Some((r, c)) ==> 0 <= found < 9 && hidden_at(
                    b,
                    kind,
                    i as int,
                    d as int,
                    found,
                ) && r == group_pos(kind, i as int, found).0 && c == group_pos(
                    kind,
                    i as int,
                    found,
                ).1,
                digit_ix is None ==> forall|j: int| !hidden_at(b, kind, i as int, d as int, j),
            decreases 9 - k,
        {
            let (r, c) = kind.position(i, k);
            let cell = self.cell(r, c);
            assert(cell@ == group_cell(b, kind, i as int, k as int));
            proof {
                cell.lemma_view_bounds();
            }
            if cell.has_digit(d) {
                // there's already a fixed cell with this digit therefore
                // there's nothing better we could do
                if cell.len() == 1 {
                    digit_ix = None;
                    assert forall|j: int| !hidden_at(b, kind, i as int, d as int, j) by {
                        if hidden_at(b, kind, i as int, d as int, j) {
                            if j != k {
                                assert(!group_cell(b, kind, i as int, k as int).contains(d as int));
                            }
                        }
                    }
                    break ;
                }
                match digit_ix {
                    None => {
                        digit_ix = Some((r, c));
                        proof {
                            found = k as int;
                        }
                    },
                    Some(_) => {
                        digit_ix = None;
                        assert forall|j: int| !hidden_at(b, kind, i as int, d as int, j) by {
                            if hidden_at(b, kind, i as int, d as int, j) {
                                if j != k {
                                    assert(!group_cell(b, kind, i as int, k as int).contains(
                                        d as int,
                                    ));
                                } else {
                                    assert(!group_cell(b, kind, i as int, found).contains(
                                        d as int,
                                    ));
                                }
                            }
                        }
                        break ;
                    },
                };
            }
            k += 1;
        }

        if let Some((r, c)) = digit_ix {
            proof {
                lemma_hidden_unique(b, kind, i as int, d as int, found);
                self.lemma_view_wf();
            }
            self.set_cell(r, c, Cell::from_digit(d).unwrap());
            changed = true;
            proof {
                assert(self@[r as int][c as int] == set![d as int]);
                assert(b[r as int][c as int].len() > 1);
            }
        }

        changed
    }

    /// The second rule: for every index from 0 to 8 and every digit from 1 to 9,
    /// one step on the row, the column and the box of that index, in this order.
    /// Returns whether the grid has changed.
    pub fn find_unambiguities(&mut self) -> (changed: bool)
        requires
            old(self).wf(),
        ensures
            final(self).wf(),
            final(self)@ == hidden_singles(old(self)@),
            changed == (final(self)@ != old(self)@),
    {
        let mut changed = false;
        let ghost b = self@;
        proof {
            self.lemma_view_wf();
        }

        for i in 0..9usize
            invariant
                self.wf(),
                board_wf(b),
                self@ == sweep(b, (9 * i) as nat),
                changed == (self@ != b),
        {
            let mut d: u16 = 1;
            while d <= 9
                invariant
                    i < 9,
                    1 <= d <= 10,
                    self.wf(),
                    board_wf(b),
                    self@ == sweep(b, (9 * i + d - 1) as nat),
                    changed == (self@ != b),
                decreases 10 - d,
            {
                let ghost n = (9 * i + d - 1) as nat;
                let ghost s0 = self@;
                proof {
                    lemma_sweep(b, n);
                    lemma_hidden_single(s0, Group::Row, i as int, d as int);
                }
                changed = self.find_unambiguity(d, Group::Row, i) || changed;
                let ghost s1 = self@;
                proof {
                    lemma_chain_changed(s1, s0, b);
                    lemma_refines_trans(s1, s0, b);
                    lemma_hidden_single(s1, Group::Col, i as int, d as int);
                }
                changed = self.find_unambiguity(d, Group::Col, i) || changed;
                let ghost s2 = self@;
                proof {
                    lemma_chain_changed(s2, s1, b);
                    lemma_refines_trans(s2, s1, b);
                    lemma_hidden_single(s2, Group::Quad, i as int, d as int);
                }
                changed = self.find_unambiguity(d, Group::Quad, i) || changed;
                let ghost s3 = self@;
                proof {
                    lemma_chain_changed(s3, s2, b);
                    assert(n as int / 9 == i && n as int % 9 + 1 == d);
                    assert(s3 == sweep_step(s0, i as int, d as int));
                    assert(sweep(b, n + 1) == sweep_step(
                        sweep(b, n),
                        n as int / 9,
                        n as int % 9 + 1,
                    ));
                }
                d += 1;
            }
        }

        changed
    }

    /// One round of propagation: the first rule, then the second. Fails if the
    /// first rule fails; otherwise returns the new grid and whether it differs from
    /// `self`.
    pub fn simplified(&self) -> (res: Option<(Sudoku, bool)>)
        requires
            self.wf(),
        ensures
            match res {
                None => round(self@) is None,
                Some((g, changed)) => g.wf() && round(self@) == Some(g@) && changed == (g@
                    != self@),
            },
    {
        let (mut sudoku, mut changed) = self.without_conflicts()?;
        let ghost e = sudoku@;
        proof {
            self.lemma_view_wf();
            lemma_eliminated(self@);
            lemma_sweep(e, 81);
        }

        changed = sudoku.find_unambiguities() || changed;
        proof {
            lemma_chain_changed(sudoku@, e, self@);
        }

        Some((sudoku, changed))
    }

    /// Propagation to the fixpoint: rounds are repeated until one changes nothing.
    /// Fails as soon as a round fails, which shows that the grid has no solution.
    pub fn propagate(self) -> (res: Option<Sudoku>)
        requires
            self.wf(),
        ensures
            match res {
                None => fixpoint(self@) is None,
                Some(g) => g.wf() && fixpoint(self@) == Some(g@),
            },
    {
        let mut solution = self;
        loop
            invariant
                solution.wf(),
                fixpoint(solution@) == fixpoint(self@),
            decreases weight(solution@),
        {
            proof {
                solution.lemma_view_wf();
                lemma_round(solution@);
            }
            match solution.simplified() {
                None => {
                    return None;
                },
                Some((s, changed)) => {
                    proof {
                        lemma_weight(s@, solution@);
                    }
                    solution = s;

                    if !changed {
                        return Some(solution);
                    }
                },
            }
        }
    }
}

} // verus!
