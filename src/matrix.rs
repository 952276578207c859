use std::ops::Range;

use vstd::prelude::*;

verus! {

/// The cells `(col, row)` of the rectangle `[c0, c1) x [r0, r1)` that come at or after
/// `(col, row)` in row-major order, where `(col, row)` lies in that rectangle.
pub open spec fn cells_from(col: int, row: int, c0: int, c1: int, r1: int) -> Seq<(usize, usize)>
    decreases r1 - row, c1 - col,
{
    if row >= r1 || c0 >= c1 {
        Seq::empty()
    } else if col >= c1 {
        cells_from(c0, row + 1, c0, c1, r1)
    } else {
        seq![(col as usize, row as usize)] + cells_from(col + 1, row, c0, c1, r1)
    }
}

/// Membership in `cells_from`: the rest of the current row, then every later row.
pub proof fn lemma_cells_from_contains(col: int, row: int, c0: int, c1: int, r1: int, c: usize, r: usize)
    requires
        0 <= c0 <= col,
        0 <= row,
        c1 <= usize::MAX,
        r1 <= usize::MAX,
    ensures
        cells_from(col, row, c0, c1, r1).contains((c, r))
            <==> (r == row && col <= c < c1 && r < r1) || (row < r < r1 && c0 <= c < c1),
    decreases r1 - row, c1 - col,
{
    let s = cells_from(col, row, c0, c1, r1);
    if row >= r1 || c0 >= c1 {
    } else if col >= c1 {
        lemma_cells_from_contains(c0, row + 1, c0, c1, r1, c, r);
    } else {
        lemma_cells_from_contains(col + 1, row, c0, c1, r1, c, r);
        let t = cells_from(col + 1, row, c0, c1, r1);
        assert(s == seq![(col as usize, row as usize)] + t);
        if s.contains((c, r)) {
            let k = choose|k: int| 0 <= k < s.len() && s[k] == (c, r);
            if k > 0 {
                assert(t[k - 1] == s[k]);
                assert(t.contains((c, r)));
            }
        }
        if t.contains((c, r)) {
            let k = choose|k: int| 0 <= k < t.len() && t[k] == (c, r);
            assert(s[k + 1] == t[k]);
        }
        if c == col && r == row {
            assert(s[0] == (c, r));
        }
    }
}

/// `cells_from` lists no cell twice.
pub proof fn lemma_cells_from_distinct(col: int, row: int, c0: int, c1: int, r1: int)
    requires
        0 <= c0 <= col,
        0 <= row,
        c1 <= usize::MAX,
        r1 <= usize::MAX,
    ensures
        cells_from(col, row, c0, c1, r1).no_duplicates(),
    decreases r1 - row, c1 - col,
{
    if row >= r1 || c0 >= c1 {
    } else if col >= c1 {
        lemma_cells_from_distinct(c0, row + 1, c0, c1, r1);
    } else {
        lemma_cells_from_distinct(col + 1, row, c0, c1, r1);
        lemma_cells_from_contains(col + 1, row, c0, c1, r1, col as usize, row as usize);
        let s = cells_from(col, row, c0, c1, r1);
        let t = cells_from(col + 1, row, c0, c1, r1);
        assert forall|i: int, j: int| 0 <= i < j < s.len() implies s[i] != s[j] by {
            if i == 0 {
                assert(s[j] == t[j - 1]);
            } else {
                assert(s[i] == t[i - 1] && s[j] == t[j - 1]);
            }
        }
    }
}

/// Distinct cells of a row-major layout with `n` columns have distinct positions.
pub proof fn lemma_flat_index_injective(n: int, r1: int, c1: int, r2: int, c2: int)
    requires
        0 <= c1 < n,
        0 <= c2 < n,
        0 <= r1,
        0 <= r2,
        r1 * n + c1 == r2 * n + c2,
    ensures
        r1 == r2,
        c1 == c2,
{
    if r1 < r2 {
        assert(r1 * n + c1 < r2 * n + c2) by (nonlinear_arith)
            requires
                r1 < r2,
                0 <= c1 < n,
                0 <= c2,
        ;
    } else if r2 < r1 {
        assert(r2 * n + c2 < r1 * n + c1) by (nonlinear_arith)
            requires
                r2 < r1,
                0 <= c2 < n,
                0 <= c1,
        ;
    }
}

/// The cells of the rectangle `[c0, c1) x [r0, r1)` in row-major order.
pub open spec fn rect_cells(c0: int, c1: int, r0: int, r1: int) -> Seq<(usize, usize)> {
    cells_from(c0, r0, c0, c1, r1)
}

/// A dense two-dimensional matrix, stored row by row.
pub struct Matrix<T: Clone> {
    elements: Vec<T>,
    num_rows: usize,
    num_cols: usize,
    num_elements: usize,
}

impl<T: Clone> Matrix<T> {
    /// The elements in row-major order.
    pub closed spec fn view(&self) -> Seq<T> {
        self.elements@
    }

    pub closed spec fn rows(&self) -> nat {
        self.num_rows as nat
    }

    pub closed spec fn cols(&self) -> nat {
        self.num_cols as nat
    }

    pub closed spec fn wf(&self) -> bool {
        &&& self.num_elements == self.num_rows * self.num_cols
        &&& self.elements@.len() == self.num_elements
    }

    /// The element at `(row, col)`.
    pub open spec fn at(&self, row: int, col: int) -> T {
        self.view()[row * self.cols() + col]
    }

    /// A matrix of the given shape with every element a copy of `default`.
    pub fn new(default: T, num_rows: usize, num_cols: usize) -> (m: Self)
        requires
            num_rows * num_cols <= usize::MAX,
        ensures
            m.wf(),
            m.rows() == num_rows,
            m.cols() == num_cols,
            m@.len() == num_rows * num_cols,
            forall|i: int| 0 <= i < m@.len() ==> cloned(default, #[trigger] m@[i]),
    {
        let num_elements = num_rows * num_cols;
        let elements = vec![default; num_elements];
        Self { elements, num_rows, num_cols, num_elements }
    }

    fn element_index(&self, row: usize, col: usize) -> (i: usize)
        requires
            self.wf(),
            row < self.rows(),
            col < self.cols(),
        ensures
            i == row * self.cols() + col,
            i < self@.len(),
    {
        proof {
            assert(row * self.num_cols + col < self.num_rows * self.num_cols) by (nonlinear_arith)
                requires
                    row < self.num_rows,
                    col < self.num_cols,
            ;
        }
        col + row * self.num_cols
    }

    /// The element at `(row, col)`.
    pub fn element(&self, row: usize, col: usize) -> (r: &T)
        requires
            self.wf(),
            row < self.rows(),
            col < self.cols(),
        ensures
            *r == self.at(row as int, col as int),
    {
        let index = self.element_index(row, col);
        &self.elements[index]
    }

    /// Replaces the element at `(row, col)` with `val`.
    pub fn set_element(&mut self, row: usize, col: usize, val: T)
        requires
            old(self).wf(),
            row < old(self).rows(),
            col < old(self).cols(),
        ensures
            final(self).wf(),
            final(self).rows() == old(self).rows(),
            final(self).cols() == old(self).cols(),
            final(self)@ == old(self)@.update(row * old(self).cols() + col, val),
            forall|r: int, c: int|
                0 <= r < old(self).rows() && 0 <= c < old(self).cols() ==> #[trigger] final(self).at(r, c)
                    == if r == row && c == col {
                    val
                } else {
                    old(self).at(r, c)
                },
    {
        let index = self.element_index(row, col);
        self.elements.set(index, val);
        proof {
            assert forall|r: int, c: int|
                0 <= r < old(self).rows() && 0 <= c < old(self).cols() implies #[trigger] self.at(r, c)
                    == if r == row && c == col {
                    val
                } else {
                    old(self).at(r, c)
                } by {
                let n = self.num_cols as int;
                assert(0 <= r * n + c < self.num_rows * n) by (nonlinear_arith)
                    requires
                        0 <= r < self.num_rows,
                        0 <= c < n,
                ;
                if r * n + c == row * n + col {
                    lemma_flat_index_injective(n, r, c, row as int, col as int);
                }
            }
        }
    }

    pub fn num_rows(&self) -> (r: usize)
        ensures
            r == self.rows(),
    {
        self.num_rows
    }

    pub fn num_cols(&self) -> (r: usize)
        ensures
            r == self.cols(),
    {
        self.num_cols
    }

    pub fn num_elements(&self) -> (r: usize)
        requires
            self.wf(),
        ensures
            r == self.rows() * self.cols(),
    {
        self.num_elements
    }
}

impl<T: Clone> Clone for Matrix<T> {
    fn clone(&self) -> (res: Self)
        ensures
            res.wf() == self.wf(),
            res.rows() == self.rows(),
            res.cols() == self.cols(),
            res@.len() == self@.len(),
            forall|i: int| 0 <= i < self@.len() ==> cloned(self@[i], #[trigger] res@[i]),
    {
        Matrix {
            elements: self.elements.clone(),
            num_rows: self.num_rows,
            num_cols: self.num_cols,
            num_elements: self.num_elements,
        }
    }
}

/// Walks the cells `(col, row)` of a rectangle of a matrix in row-major order; the
/// rectangle is the given column and row ranges, cut to the matrix's shape.
pub struct Iterator {
    rows: Range<usize>,
    cols: Range<usize>,
    curr_id: Option<(usize, usize)>,
    num_rows: usize,
    num_cols: usize,
}

impl Iterator {
    pub closed spec fn col_start(&self) -> int {
        self.cols.start as int
    }

    pub closed spec fn row_start(&self) -> int {
        self.rows.start as int
    }

    pub closed spec fn col_end(&self) -> int {
        if self.cols.end < self.num_cols { self.cols.end as int } else { self.num_cols as int }
    }

    pub closed spec fn row_end(&self) -> int {
        if self.rows.end < self.num_rows { self.rows.end as int } else { self.num_rows as int }
    }

    pub closed spec fn wf(&self) -> bool {
        match self.curr_id {
            None => true,
            Some((c, r)) => self.cols.start <= c < self.col_end() && self.rows.start <= r
                < self.row_end(),
        }
    }

    /// The cells still to come.
    pub closed spec fn remaining(&self) -> Seq<(usize, usize)> {
        match self.curr_id {
            None => Seq::empty(),
            Some((c, r)) => cells_from(
                c as int,
                r as int,
                self.cols.start as int,
                self.col_end(),
                self.row_end(),
            ),
        }
    }

    pub fn new<T: Clone>(matrix: &Matrix<T>, cols: Range<usize>, rows: Range<usize>) -> (it: Iterator)
        ensures
            it.wf(),
            it.remaining() == rect_cells(
                cols.start as int,
                if cols.end < matrix.cols() { cols.end as int } else { matrix.cols() as int },
                rows.start as int,
                if rows.end < matrix.rows() { rows.end as int } else { matrix.rows() as int },
            ),
    {
        let mut matrix_iter = Iterator {
            rows,
            cols,
            curr_id: None,
            num_rows: matrix.num_rows,
            num_cols: matrix.num_cols,
        };
        matrix_iter.reset();
        matrix_iter
    }

    /// Walks column `col` from top to bottom.
    pub fn with_col<T: Clone>(matrix: &Matrix<T>, col: usize) -> (it: Iterator)
        requires
            col < matrix.cols(),
        ensures
            it.wf(),
            it.remaining() == rect_cells(col as int, col + 1, 0, matrix.rows() as int),
    {
        Iterator::new(matrix, col..col + 1, 0..matrix.num_rows())
    }

    /// Walks row `row` from left to right.
    pub fn with_row<T: Clone>(matrix: &Matrix<T>, row: usize) -> (it: Iterator)
        requires
            row < matrix.rows(),
        ensures
            it.wf(),
            it.remaining() == rect_cells(0, matrix.cols() as int, row as int, row + 1),
    {
        Iterator::new(matrix, 0..matrix.num_cols, row..row + 1)
    }

    /// Goes back to the first cell of the rectangle.
    pub fn reset(&mut self)
        ensures
            final(self).wf(),
            final(self).col_start() == old(self).col_start(),
            final(self).col_end() == old(self).col_end(),
            final(self).row_start() == old(self).row_start(),
            final(self).row_end() == old(self).row_end(),
            final(self).remaining() == rect_cells(
                old(self).col_start(),
                old(self).col_end(),
                old(self).row_start(),
                old(self).row_end(),
            ),
    {
        if self.cols.start >= self.cols.end || self.cols.start >= self.num_cols
            || self.rows.start >= self.rows.end || self.rows.start >= self.num_rows {
            self.curr_id = None;
        } else {
            self.curr_id = Some((self.cols.start, self.rows.start));
        }
    }

    /// The next cell, or `None` once the rectangle is walked.
    pub fn next(&mut self) -> (r: Option<(usize, usize)>)
        requires
            old(self).wf(),
        ensures
            final(self).wf(),
            old(self).remaining().len() == 0 ==> r is None && final(self).remaining().len() == 0,
            old(self).remaining().len() > 0 ==> r == Some(old(self).remaining()[0])
                && final(self).remaining() == old(self).remaining().drop_first(),
    {
        if let Some((col, row)) = self.curr_id {
            let this = self.curr_id;
            let mut next_col = col + 1;
            let mut next_row = row;
            if next_col >= self.cols.end || next_col >= self.num_cols {
                next_col = self.cols.start;
                next_row = row + 1;
            }
            self.curr_id = if next_row >= self.rows.end || next_row >= self.num_rows {
                None
            } else {
                Some((next_col, next_row))
            };
            proof {
                let c0 = self.cols.start as int;
                let c1 = self.col_end();
                let r1 = self.row_end();
                let s = cells_from(col as int, row as int, c0, c1, r1);
                assert(s == seq![(col, row)] + cells_from(col + 1, row as int, c0, c1, r1));
                assert(s.drop_first() =~= cells_from(col + 1, row as int, c0, c1, r1));
                if col + 1 >= c1 {
                    assert(cells_from(col + 1, row as int, c0, c1, r1) == cells_from(
                        c0,
                        row + 1,
                        c0,
                        c1,
                        r1,
                    ));
                    if row + 1 >= r1 {
                        assert(cells_from(c0, row + 1, c0, c1, r1) == Seq::<(usize, usize)>::empty());
                    }
                }
            }
            this
        } else {
            None
        }
    }
}

} // verus!
