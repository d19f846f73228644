//! A dense two-dimensional memo table of optional distance values.
//!
//! The table maps a pair of prefix lengths `(i, j)` to either "empty" or a
//! previously computed distance.  The distance engine keeps the invariant
//! that a filled cell holds the one value its recurrence defines, so a cell
//! once written never changes value.

use vstd::prelude::*;

verus! {

/// A `rows x cols` grid of optional distances, stored row-major in one
/// flat vector: the cell `(i, j)` lives at offset `i * cols + j`.
pub struct MemoMatrix {
    pub rows: usize,
    pub cols: usize,
    pub v: Vec<Option<usize>>,
}

/// A row-major offset stays inside the grid.
pub proof fn lemma_grid_offset_in_bounds(rows: int, cols: int, i: int, j: int)
    requires
        0 <= i < rows,
        0 <= j < cols,
    ensures
        0 <= i * cols + j < rows * cols,
{
    assert(0 <= i * cols + j) by (nonlinear_arith)
        requires
            0 <= i,
            0 <= j < cols,
    ;
    assert(i * cols + j < rows * cols) by (nonlinear_arith)
        requires
            0 <= i < rows,
            0 <= j < cols,
    ;
}

/// Distinct in-range cells have distinct row-major offsets.
pub proof fn lemma_grid_offset_injective(cols: int, i1: int, j1: int, i2: int, j2: int)
    requires
        0 <= i1,
        0 <= i2,
        0 <= j1 < cols,
        0 <= j2 < cols,
        i1 * cols + j1 == i2 * cols + j2,
    ensures
        i1 == i2,
        j1 == j2,
{
    assert(i1 == i2) by (nonlinear_arith)
        requires
            0 <= i1,
            0 <= i2,
            0 <= j1 < cols,
            0 <= j2 < cols,
            i1 * cols + j1 == i2 * cols + j2,
    ;
}

impl MemoMatrix {
    /// The storage holds exactly `rows * cols` cells.
    pub open spec fn wf(self) -> bool {
        self.v@.len() == self.rows * self.cols
    }

    /// The cell at row `i`, column `j`.
    pub open spec fn cell(self, i: int, j: int) -> Option<usize> {
        self.v@[i * self.cols + j]
    }

    /// A fresh table in which every cell is empty.
    pub fn new(rows: usize, cols: usize) -> (m: MemoMatrix)
        requires
            rows * cols <= usize::MAX,
        ensures
            m.wf(),
            m.rows == rows,
            m.cols == cols,
            forall|i: int, j: int| 0 <= i < rows && 0 <= j < cols ==> m.cell(i, j) is None,
    {
        let total = rows * cols;
        let mut v: Vec<Option<usize>> = Vec::new();
        let mut filled: usize = 0;
        while filled < total
            invariant
                filled <= total,
                v@.len() == filled,
                forall|q: int| 0 <= q < filled ==> v@[q] is None,
            decreases total - filled,
        {
            v.push(None);
            filled = filled + 1;
        }
        let m = MemoMatrix { rows, cols, v };
        proof {
            assert forall|i: int, j: int| 0 <= i < rows && 0 <= j < cols implies m.cell(i, j) is None by {
                lemma_grid_offset_in_bounds(rows as int, cols as int, i, j);
            }
        }
        m
    }

    /// The stored value at `(i, j)`, or `None` when the cell is empty.
    /// Indexing outside the grid is a contract violation.
    pub fn get(&self, i: usize, j: usize) -> (c: Option<usize>)
        requires
            self.wf(),
            i < self.rows,
            j < self.cols,
        ensures
            c == self.cell(i as int, j as int),
    {
        // The storage length, a usize, equals rows * cols, so the offset
        // below cannot overflow.
        let _total = self.v.len();
        proof {
            lemma_grid_offset_in_bounds(self.rows as int, self.cols as int, i as int, j as int);
        }
        let off = i * self.cols + j;
        self.v[off]
    }

    /// Stores `val` at `(i, j)`; every other cell keeps its value.
    /// Indexing outside the grid is a contract violation.
    pub fn set(&mut self, i: usize, j: usize, val: usize)
        requires
            old(self).wf(),
            i < old(self).rows,
            j < old(self).cols,
        ensures
            final(self).wf(),
            final(self).rows == old(self).rows,
            final(self).cols == old(self).cols,
            final(self).cell(i as int, j as int) == Some(val),
            forall|r: int, c: int|
                0 <= r < old(self).rows && 0 <= c < old(self).cols && !(r == i && c == j)
                    ==> final(self).cell(r, c) == old(self).cell(r, c),
    {
        // The storage length, a usize, equals rows * cols, so the offset
        // below cannot overflow.
        let _total = self.v.len();
        proof {
            lemma_grid_offset_in_bounds(self.rows as int, self.cols as int, i as int, j as int);
        }
        let off = i * self.cols + j;
        self.v.set(off, Some(val));
        proof {
            assert forall|r: int, c: int|
                0 <= r < self.rows && 0 <= c < self.cols && !(r == i && c == j)
                    implies self.cell(r, c) == old(self).cell(r, c) by {
                lemma_grid_offset_in_bounds(self.rows as int, self.cols as int, r, c);
                if r * self.cols + c == i * self.cols + j {
                    lemma_grid_offset_injective(self.cols as int, r, c, i as int, j as int);
                }
            }
        }
    }
}

} // verus!
