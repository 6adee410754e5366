//! The validity check and the backtracking solver.

use vstd::prelude::*;
use crate::grid::{
    Board, grid_wf, grid_full, no_conflict, conflict_free_upto, extends, solvable, same_group,
    row_of, col_of, box_of,
};

verus! {

/// No assignment of digits completes the grid from its current state.
#[derive(Clone, Copy, Debug, PartialEq, Eq)]
pub struct Unsolvable;

/// How many of the first n cells are empty.
pub open spec fn empties_upto(g: Seq<u8>, n: int) -> nat
    decreases n,
{
    if n <= 0 {
        0
    } else {
        empties_upto(g, n - 1) + (if g[n - 1] == 0 {
            1nat
        } else {
            0nat
        })
    }
}

/// How many cells of the grid are empty.
pub open spec fn empties(g: Seq<u8>) -> nat {
    empties_upto(g, 81)
}

/// Filling an empty cell lowers the count of empty cells among the first n
/// by one, and leaves counts up to the cell itself unchanged.
proof fn lemma_empties_update(g: Seq<u8>, k: int, v: u8, n: int)
    requires
        0 <= k < g.len(),
        g[k] == 0,
        v != 0,
        0 <= n <= g.len(),
    ensures
        n <= k ==> empties_upto(g.update(k, v), n) == empties_upto(g, n),
        n > k ==> empties_upto(g.update(k, v), n) + 1 == empties_upto(g, n),
    decreases n,
{
    if n > 0 {
        lemma_empties_update(g, k, v, n - 1);
    }
}

/// The slot of digit d of group grp in a flat 9-by-9 usage table.
pub open spec fn tbl(grp: int, d: u8) -> int {
    grp * 9 + (d - 1)
}

/// Some cell among the first n lies in row r and holds digit d.
pub open spec fn seen_row(g: Seq<u8>, n: int, r: int, d: u8) -> bool {
    exists|j: int| 0 <= j < n && row_of(j) == r && #[trigger] g[j] == d
}

/// Some cell among the first n lies in column c and holds digit d.
pub open spec fn seen_col(g: Seq<u8>, n: int, c: int, d: u8) -> bool {
    exists|j: int| 0 <= j < n && col_of(j) == c && #[trigger] g[j] == d
}

/// Some cell among the first n lies in box b and holds digit d.
pub open spec fn seen_box(g: Seq<u8>, n: int, b: int, d: u8) -> bool {
    exists|j: int| 0 <= j < n && box_of(j) == b && #[trigger] g[j] == d
}

/// A grid that already holds a conflict has no conflict-free completion:
/// the two clashing cells are filled, so every extension keeps them both.
pub proof fn lemma_conflict_unsolvable(g: Seq<u8>)
    requires
        grid_wf(g),
        !no_conflict(g),
    ensures
        !solvable(g),
{
    assert(exists|i: int, j: int| #![trigger g[i], g[j]]
        0 <= i < j < 81 && same_group(i, j) && g[i] != 0 && g[i] == g[j]);
    let (i, j) = choose|i: int, j: int| #![trigger g[i], g[j]]
        0 <= i < j < 81 && same_group(i, j) && g[i] != 0 && g[i] == g[j];
    if solvable(g) {
        let s = choose|s: Seq<u8>|
            grid_wf(s) && grid_full(s) && no_conflict(s) && #[trigger] extends(g, s);
        assert(s[i] == g[i]);
        assert(s[j] == g[j]);
        assert(s[i] != s[j]);
        assert(false);
    }
}

/// A complete, conflict-free grid is its own completion, and every
/// completion of it is the grid itself.
pub proof fn lemma_full_grid_solved(g: Seq<u8>, s: Seq<u8>)
    requires
        grid_wf(g),
        grid_full(g),
        no_conflict(g),
        extends(g, s),
    ensures
        solvable(g),
        s == g,
{
    assert(extends(g, g));
    assert(solvable(g));
    assert(s =~= g);
}

/// When the cell at k is empty and no digit placed there leaves the grid
/// solvable, the grid itself is not solvable: any completion would have to
/// place one of the nine digits at k.
proof fn lemma_candidates_exhausted(g: Seq<u8>, k: int)
    requires
        grid_wf(g),
        0 <= k < 81,
        g[k] == 0,
        forall|m: u8| 1 <= m <= 9 ==> !solvable(#[trigger] g.update(k, m)),
    ensures
        !solvable(g),
{
    if solvable(g) {
        let s = choose|s: Seq<u8>|
            grid_wf(s) && grid_full(s) && no_conflict(s) && #[trigger] extends(g, s);
        let m = s[k];
        assert(m != 0);
        assert(m <= 9);
        let gm = g.update(k, m);
        assert forall|i: int| 0 <= i < gm.len() && gm[i] != 0 implies s[i] == #[trigger] gm[i] by {
            if i != k {
                assert(gm[i] == g[i]);
            }
        }
        assert(extends(gm, s));
        assert(solvable(gm));
        assert(false);
    }
}

impl Board {
    /// True when two filled cells share a row, column or box and hold the
    /// same digit. A consistent but incomplete grid passes; completeness is
    /// not checked here.
    pub fn has_error(&self) -> (r: bool)
        requires
            self.wf(),
        ensures
            r == !no_conflict(self@),
    {
        let ghost g = self@;
        let mut rows: Vec<bool> = Vec::new();
        let mut cols: Vec<bool> = Vec::new();
        let mut boxes: Vec<bool> = Vec::new();
        let mut t: usize = 0;
        while t < 81
            invariant
                t <= 81,
                rows@.len() == t,
                cols@.len() == t,
                boxes@.len() == t,
                forall|i: int| 0 <= i < t ==> !(#[trigger] rows@[i]),
                forall|i: int| 0 <= i < t ==> !(#[trigger] cols@[i]),
                forall|i: int| 0 <= i < t ==> !(#[trigger] boxes@[i]),
            decreases 81 - t,
        {
            rows.push(false);
            cols.push(false);
            boxes.push(false);
            t += 1;
        }
        let mut k: usize = 0;
        while k < 81
            invariant
                self.wf(),
                g == self@,
                k <= 81,
                rows@.len() == 81,
                cols@.len() == 81,
                boxes@.len() == 81,
                conflict_free_upto(g, k as int),
                forall|grp: int, d: u8| 0 <= grp < 9 && 1 <= d <= 9 ==> (#[trigger] rows@[tbl(
                    grp,
                    d,
                )] <==> seen_row(g, k as int, grp, d)),
                forall|grp: int, d: u8| 0 <= grp < 9 && 1 <= d <= 9 ==> (#[trigger] cols@[tbl(
                    grp,
                    d,
                )] <==> seen_col(g, k as int, grp, d)),
                forall|grp: int, d: u8| 0 <= grp < 9 && 1 <= d <= 9 ==> (#[trigger] boxes@[tbl(
                    grp,
                    d,
                )] <==> seen_box(g, k as int, grp, d)),
            decreases 81 - k,
        {
            let v = self.cell_at(k);
            if v != 0 {
                let r = k / 9;
                let c = k % 9;
                let b = (r / 3) * 3 + c / 3;
                let slot = (v - 1) as usize;
                proof {
                    assert(r as int == row_of(k as int));
                    assert(c as int == col_of(k as int));
                    assert(b as int == box_of(k as int));
                    assert((r * 9 + slot) as int == tbl(r as int, v));
                    assert((c * 9 + slot) as int == tbl(c as int, v));
                    assert((b * 9 + slot) as int == tbl(b as int, v));
                }
                if rows[r * 9 + slot] {
                    proof {
                        let j = choose|j: int|
                            0 <= j < k && row_of(j) == r as int && #[trigger] g[j] == v;
                        assert(same_group(j, k as int));
                        assert(g[j] == g[k as int]);
                        assert(!no_conflict(g));
                    }
                    return true;
                }
                if cols[c * 9 + slot] {
                    proof {
                        let j = choose|j: int|
                            0 <= j < k && col_of(j) == c as int && #[trigger] g[j] == v;
                        assert(same_group(j, k as int));
                        assert(g[j] == g[k as int]);
                        assert(!no_conflict(g));
                    }
                    return true;
                }
                if boxes[b * 9 + slot] {
                    proof {
                        let j = choose|j: int|
                            0 <= j < k && box_of(j) == b as int && #[trigger] g[j] == v;
                        assert(same_group(j, k as int));
                        assert(g[j] == g[k as int]);
                        assert(!no_conflict(g));
                    }
                    return true;
                }
                rows[r * 9 + slot] = true;
                cols[c * 9 + slot] = true;
                boxes[b * 9 + slot] = true;
                proof {
                    lemma_scan_step(g, k as int, rows@, cols@, boxes@);
                }
            } else {
                proof {
                    assert forall|grp: int, d: u8| 0 <= grp < 9 && 1 <= d <= 9 implies (
                    #[trigger] rows@[tbl(grp, d)] <==> seen_row(g, k + 1, grp, d)) by {
                        lemma_seen_skip(g, k as int, grp, d);
                    }
                    assert forall|grp: int, d: u8| 0 <= grp < 9 && 1 <= d <= 9 implies (
                    #[trigger] cols@[tbl(grp, d)] <==> seen_col(g, k + 1, grp, d)) by {
                        lemma_seen_skip(g, k as int, grp, d);
                    }
                    assert forall|grp: int, d: u8| 0 <= grp < 9 && 1 <= d <= 9 implies (
                    #[trigger] boxes@[tbl(grp, d)] <==> seen_box(g, k + 1, grp, d)) by {
                        lemma_seen_skip(g, k as int, grp, d);
                    }
                }
            }
            k += 1;
        }
        proof {
            assert(no_conflict(g));
        }
        false
    }

    /// Recursive backtracking search. On success the grid is completely
    /// filled, free of conflicts, and keeps every cell that was already
    /// filled; on failure the grid is exactly as it was, and no completion
    /// of it exists. Success is returned exactly when a completion exists.
    #[verifier::loop_isolation(false)]
    pub fn solve(&mut self) -> (res: Result<(), Unsolvable>)
        requires
            old(self).wf(),
        ensures
            final(self).wf(),
            res is Ok <==> solvable(old(self)@),
            res is Ok ==> grid_full(final(self)@) && no_conflict(final(self)@) && extends(
                old(self)@,
                final(self)@,
            ),
            res is Err ==> final(self)@ == old(self)@,
        decreases empties(self@),
    {
        let ghost g0 = self@;
        if self.has_error() {
            proof {
                lemma_conflict_unsolvable(g0);
            }
            return Err(Unsolvable);
        }
        let mut k: usize = 0;
        while k < 81 && self.cell_at(k) != 0
            invariant
                k <= 81,
                forall|j: int| 0 <= j < k ==> g0[j] != 0,
            decreases 81 - k,
        {
            k += 1;
        }
        if k == 81 {
            proof {
                assert(grid_full(g0));
                assert(extends(g0, g0));
                assert(solvable(g0));
            }
            return Ok(());
        }
        let ghost ki = k as int;
        proof {
            assert(g0[ki] == 0);
        }
        let mut n: u8 = 1;
        while n <= 9
            invariant
                1 <= n <= 10,
                self.wf(),
                self@.len() == 81,
                forall|i: int| 0 <= i < 81 && i != ki ==> self@[i] == g0[i],
                forall|m: u8| 1 <= m < n ==> !solvable(#[trigger] g0.update(ki, m)),
            decreases 10 - n,
        {
            self.set_at(k, n);
            proof {
                assert(self@ =~= g0.update(ki, n));
                lemma_empties_update(g0, ki, n, 81);
            }
            let res = self.solve();
            match res {
                Ok(()) => {
                    proof {
                        assert forall|i: int| 0 <= i < 81 && g0[i] != 0 implies self@[i]
                            == #[trigger] g0[i] by {
                            assert(g0.update(ki, n)[i] == g0[i]);
                        }
                        assert(extends(g0, self@));
                        assert(solvable(g0));
                    }
                    return Ok(());
                },
                Err(_) => {
                    proof {
                        assert(!solvable(g0.update(ki, n)));
                    }
                },
            }
            n += 1;
        }
        self.set_at(k, 0);
        proof {
            assert(self@ =~= g0);
            lemma_candidates_exhausted(g0, ki);
        }
        Err(Unsolvable)
    }
}

/// An empty cell adds nothing to the seen-digit predicates.
proof fn lemma_seen_skip(g: Seq<u8>, k: int, grp: int, d: u8)
    requires
        0 <= k < g.len(),
        g[k] == 0,
        1 <= d <= 9,
    ensures
        seen_row(g, k + 1, grp, d) <==> seen_row(g, k, grp, d),
        seen_col(g, k + 1, grp, d) <==> seen_col(g, k, grp, d),
        seen_box(g, k + 1, grp, d) <==> seen_box(g, k, grp, d),
{
    if seen_row(g, k + 1, grp, d) {
        let j = choose|j: int| 0 <= j < k + 1 && row_of(j) == grp && #[trigger] g[j] == d;
        assert(j != k);
        assert(seen_row(g, k, grp, d));
    }
    if seen_col(g, k + 1, grp, d) {
        let j = choose|j: int| 0 <= j < k + 1 && col_of(j) == grp && #[trigger] g[j] == d;
        assert(j != k);
        assert(seen_col(g, k, grp, d));
    }
    if seen_box(g, k + 1, grp, d) {
        let j = choose|j: int| 0 <= j < k + 1 && box_of(j) == grp && #[trigger] g[j] == d;
        assert(j != k);
        assert(seen_box(g, k, grp, d));
    }
}

/// After marking the groups of the filled cell at k in tables that were
/// faithful for the first k cells and held no earlier clash with cell k,
/// the tables are faithful for the first k + 1 cells, which stay free of
/// conflicts.
proof fn lemma_scan_step(g: Seq<u8>, k: int, rows: Seq<bool>, cols: Seq<bool>, boxes: Seq<bool>)
    requires
        grid_wf(g),
        0 <= k < 81,
        1 <= g[k] <= 9,
        rows.len() == 81,
        cols.len() == 81,
        boxes.len() == 81,
        conflict_free_upto(g, k),
        !seen_row(g, k, row_of(k), g[k]),
        !seen_col(g, k, col_of(k), g[k]),
        !seen_box(g, k, box_of(k), g[k]),
        forall|grp: int, d: u8| 0 <= grp < 9 && 1 <= d <= 9 ==> (#[trigger] rows[tbl(grp, d)]
            <==> (seen_row(g, k, grp, d) || (grp == row_of(k) && d == g[k]))),
        forall|grp: int, d: u8| 0 <= grp < 9 && 1 <= d <= 9 ==> (#[trigger] cols[tbl(grp, d)]
            <==> (seen_col(g, k, grp, d) || (grp == col_of(k) && d == g[k]))),
        forall|grp: int, d: u8| 0 <= grp < 9 && 1 <= d <= 9 ==> (#[trigger] boxes[tbl(grp, d)]
            <==> (seen_box(g, k, grp, d) || (grp == box_of(k) && d == g[k]))),
    ensures
        conflict_free_upto(g, k + 1),
        forall|grp: int, d: u8| 0 <= grp < 9 && 1 <= d <= 9 ==> (#[trigger] rows[tbl(grp, d)]
            <==> seen_row(g, k + 1, grp, d)),
        forall|grp: int, d: u8| 0 <= grp < 9 && 1 <= d <= 9 ==> (#[trigger] cols[tbl(grp, d)]
            <==> seen_col(g, k + 1, grp, d)),
        forall|grp: int, d: u8| 0 <= grp < 9 && 1 <= d <= 9 ==> (#[trigger] boxes[tbl(grp, d)]
            <==> seen_box(g, k + 1, grp, d)),
{
    assert(0 <= row_of(k) < 9);
    assert(0 <= col_of(k) < 9);
    assert(0 <= box_of(k) < 9);
    assert forall|i: int, j: int| #![trigger g[i], g[j]]
        0 <= i < j < k + 1 && same_group(i, j) && g[i] != 0 implies g[i] != g[j] by {
        if j == k && g[i] == g[j] {
            if row_of(i) == row_of(k) {
                assert(seen_row(g, k, row_of(k), g[k]));
            } else if col_of(i) == col_of(k) {
                assert(seen_col(g, k, col_of(k), g[k]));
            } else {
                assert(box_of(i) == box_of(k));
                assert(seen_box(g, k, box_of(k), g[k]));
            }
        }
    }
    assert forall|grp: int, d: u8| 0 <= grp < 9 && 1 <= d <= 9 implies (#[trigger] rows[tbl(
        grp,
        d,
    )] <==> seen_row(g, k + 1, grp, d)) by {
        if grp == row_of(k) && d == g[k] {
            assert(seen_row(g, k + 1, grp, d));
        } else {
            if seen_row(g, k + 1, grp, d) {
                let j = choose|j: int| 0 <= j < k + 1 && row_of(j) == grp && #[trigger] g[j] == d;
                assert(j != k);
                assert(seen_row(g, k, grp, d));
            }
            if seen_row(g, k, grp, d) {
                let j = choose|j: int| 0 <= j < k && row_of(j) == grp && #[trigger] g[j] == d;
                assert(seen_row(g, k + 1, grp, d));
            }
        }
    }
    assert forall|grp: int, d: u8| 0 <= grp < 9 && 1 <= d <= 9 implies (#[trigger] cols[tbl(
        grp,
        d,
    )] <==> seen_col(g, k + 1, grp, d)) by {
        if grp == col_of(k) && d == g[k] {
            assert(seen_col(g, k + 1, grp, d));
        } else {
            if seen_col(g, k + 1, grp, d) {
                let j = choose|j: int| 0 <= j < k + 1 && col_of(j) == grp && #[trigger] g[j] == d;
                assert(j != k);
                assert(seen_col(g, k, grp, d));
            }
            if seen_col(g, k, grp, d) {
                let j = choose|j: int| 0 <= j < k && col_of(j) == grp && #[trigger] g[j] == d;
                assert(seen_col(g, k + 1, grp, d));
            }
        }
    }
    assert forall|grp: int, d: u8| 0 <= grp < 9 && 1 <= d <= 9 implies (#[trigger] boxes[tbl(
        grp,
        d,
    )] <==> seen_box(g, k + 1, grp, d)) by {
        if grp == box_of(k) && d == g[k] {
            assert(seen_box(g, k + 1, grp, d));
        } else {
            if seen_box(g, k + 1, grp, d) {
                let j = choose|j: int| 0 <= j < k + 1 && box_of(j) == grp && #[trigger] g[j] == d;
                assert(j != k);
                assert(seen_box(g, k, grp, d));
            }
            if seen_box(g, k, grp, d) {
                let j = choose|j: int| 0 <= j < k && box_of(j) == grp && #[trigger] g[j] == d;
                assert(seen_box(g, k + 1, grp, d));
            }
        }
    }
}

} // verus!
