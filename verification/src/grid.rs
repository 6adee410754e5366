//! The grid: storage for the 81 cells and the mathematical model of the
//! puzzle's constraints.

use vstd::prelude::*;

verus! {

/// A well-formed grid: 81 cells in row-major order, each either empty
/// (written 0) or a digit 1 through 9.
pub open spec fn grid_wf(g: Seq<u8>) -> bool {
    &&& g.len() == 81
    &&& forall|i: int| 0 <= i < 81 ==> #[trigger] g[i] <= 9
}

/// Every cell holds a digit; no cell is empty.
pub open spec fn grid_full(g: Seq<u8>) -> bool {
    forall|i: int| 0 <= i < 81 ==> #[trigger] g[i] != 0
}

/// The row of the cell at flat index i.
pub open spec fn row_of(i: int) -> int {
    i / 9
}

/// The column of the cell at flat index i.
pub open spec fn col_of(i: int) -> int {
    i % 9
}

/// The 3x3 box of the cell at flat index i, numbered 0 through 8 row-major.
pub open spec fn box_of(i: int) -> int {
    (row_of(i) / 3) * 3 + col_of(i) / 3
}

/// Two cells constrain each other when they share a row, a column or a box.
pub open spec fn same_group(i: int, j: int) -> bool {
    ||| row_of(i) == row_of(j)
    ||| col_of(i) == col_of(j)
    ||| box_of(i) == box_of(j)
}

/// Among the first n cells, no two distinct filled cells of one group hold
/// the same digit.
pub open spec fn conflict_free_upto(g: Seq<u8>, n: int) -> bool {
    forall|i: int, j: int| #![trigger g[i], g[j]]
        0 <= i < j < n && same_group(i, j) && g[i] != 0 ==> g[i] != g[j]
}

/// No two distinct filled cells of one group hold the same digit.
pub open spec fn no_conflict(g: Seq<u8>) -> bool {
    conflict_free_upto(g, 81)
}

/// s agrees with g on every filled cell of g.
pub open spec fn extends(g: Seq<u8>, s: Seq<u8>) -> bool {
    &&& s.len() == g.len()
    &&& forall|i: int| 0 <= i < g.len() && g[i] != 0 ==> s[i] == #[trigger] g[i]
}

/// Some full, conflict-free grid agrees with g on every filled cell of g.
pub open spec fn solvable(g: Seq<u8>) -> bool {
    exists|s: Seq<u8>| grid_wf(s) && grid_full(s) && no_conflict(s) && #[trigger] extends(g, s)
}

/// The 9x9 grid. Cell (r, c) is stored flat at index r * 9 + c; the value 0
/// stands for an empty cell.
#[derive(Clone, Debug, PartialEq, Eq)]
pub struct Board {
    cells: Vec<u8>,
}

impl View for Board {
    type V = Seq<u8>;

    closed spec fn view(&self) -> Seq<u8> {
        self.cells@
    }
}

impl Board {
    /// The grid's invariant: 81 cells, each empty or a digit 1 through 9.
    pub open spec fn wf(&self) -> bool {
        grid_wf(self@)
    }

    /// The fully empty grid.
    pub fn new() -> (b: Board)
        ensures
            b.wf(),
            forall|i: int| 0 <= i < 81 ==> b@[i] == 0,
    {
        let mut cells: Vec<u8> = Vec::new();
        let mut k: usize = 0;
        while k < 81
            invariant
                k <= 81,
                cells@.len() == k,
                forall|i: int| 0 <= i < k ==> cells@[i] == 0,
            decreases 81 - k,
        {
            cells.push(0);
            k += 1;
        }
        Board { cells }
    }

    /// The digit at cell (row, col), or 0 when the cell is empty.
    pub fn get(&self, row: usize, col: usize) -> (v: u8)
        requires
            self.wf(),
            row < 9,
            col < 9,
        ensures
            v == self@[row as int * 9 + col as int],
    {
        self.cells[row * 9 + col]
    }

    /// Writes v (a digit 1 through 9, or 0 for empty) into cell (row, col).
    pub fn set(&mut self, row: usize, col: usize, v: u8)
        requires
            old(self).wf(),
            row < 9,
            col < 9,
            v <= 9,
        ensures
            final(self).wf(),
            final(self)@ == old(self)@.update(row as int * 9 + col as int, v),
    {
        self.cells[row * 9 + col] = v;
    }

    /// The digit at flat index k, or 0 when that cell is empty.
    pub(crate) fn cell_at(&self, k: usize) -> (v: u8)
        requires
            self.wf(),
            k < 81,
        ensures
            v == self@[k as int],
    {
        self.cells[k]
    }

    /// Writes v into the cell at flat index k.
    pub(crate) fn set_at(&mut self, k: usize, v: u8)
        requires
            old(self).wf(),
            k < 81,
            v <= 9,
        ensures
            final(self).wf(),
            final(self)@ == old(self)@.update(k as int, v),
    {
        self.cells[k] = v;
    }
}

} // verus!
