use vstd::arithmetic::div_mod::{lemma_div_denominator, lemma_fundamental_div_mod, lemma_fundamental_div_mod_converse};
use vstd::prelude::*;

use crate::dlx::DLX;
use crate::links::{active_columns, covered_by, exact_cover, lemma_covered_by, pairwise_disjoint};
use crate::matrix::Matrix;
use crate::sudoku::{block_of, completed_upto, Sudoku, EMPTY_CELL};

verus! {

/// The exact-cover row of placing value `val` in cell `(row, col)` of a grid of side `d`.
pub open spec fn matrix_row(d: int, row: int, col: int, val: int) -> int {
    (val - 1) + d * (col + d * row)
}

/// The cell row of exact-cover row `q`.
pub open spec fn row_of(d: int, q: int) -> int {
    q / (d * d)
}

/// The cell column of exact-cover row `q`.
pub open spec fn col_of(d: int, q: int) -> int {
    (q / d) % d
}

/// The value of exact-cover row `q`.
pub open spec fn val_of(d: int, q: int) -> int {
    q % d + 1
}

/// Constraint "cell `(row, col)` is filled once".
pub open spec fn cell_constraint(d: int, row: int, col: int) -> int {
    col + d * row
}

/// Constraint "value `val` appears once in row `row`".
pub open spec fn row_constraint(d: int, row: int, val: int) -> int {
    d * d + d * row + (val - 1)
}

/// Constraint "value `val` appears once in column `col`".
pub open spec fn col_constraint(d: int, col: int, val: int) -> int {
    2 * (d * d) + d * col + (val - 1)
}

/// Constraint "value `val` appears once in block `block`".
pub open spec fn block_constraint(d: int, block: int, val: int) -> int {
    3 * (d * d) + d * block + (val - 1)
}

/// Whether exact-cover row `q` has a one in column `k`, for a grid of side `d = b * b`:
/// the four constraints that its placement meets.
pub open spec fn is_constraint(d: int, b: int, q: int, k: int) -> bool {
    let (r, c, v) = (row_of(d, q), col_of(d, q), val_of(d, q));
    ||| k == cell_constraint(d, r, c)
    ||| k == row_constraint(d, r, v)
    ||| k == col_constraint(d, c, v)
    ||| k == block_constraint(d, block_of(b, r, c), v)
}

/// The grid `grid` of side `d` after writing, in order, the placement of each exact-cover
/// row of `rows`.
pub open spec fn written(d: int, grid: Seq<usize>, rows: Seq<usize>) -> Seq<usize>
    decreases rows.len(),
{
    if rows.len() == 0 {
        grid
    } else {
        let q = rows.last() as int;
        written(d, grid, rows.drop_last()).update(
            row_of(d, q) * d + col_of(d, q),
            val_of(d, q) as usize,
        )
    }
}

/// Decoding the exact-cover row of any placement `(row, col, val)` of a grid of side `d`
/// gives that placement back, and the row lies below `d * d * d`.
pub proof fn lemma_decode_matrix_row(d: int, row: int, col: int, val: int)
    requires
        0 <= row < d,
        0 <= col < d,
        1 <= val <= d,
    ensures
        0 <= matrix_row(d, row, col, val) < d * d * d,
        row_of(d, matrix_row(d, row, col, val)) == row,
        col_of(d, matrix_row(d, row, col, val)) == col,
        val_of(d, matrix_row(d, row, col, val)) == val,
{
    let q = matrix_row(d, row, col, val);
    let x = col + d * row;
    assert(q == x * d + (val - 1)) by (nonlinear_arith)
        requires
            q == (val - 1) + d * (col + d * row),
            x == col + d * row,
    ;
    lemma_fundamental_div_mod_converse(q, d, x, val - 1);
    assert(x == row * d + col) by (nonlinear_arith)
        requires
            x == col + d * row,
    ;
    lemma_fundamental_div_mod_converse(x, d, row, col);
    assert(q == row * (d * d) + (col * d + (val - 1)) && 0 <= col * d + (val - 1) < d * d
        && 0 <= q < d * d * d) by (nonlinear_arith)
        requires
            q == (val - 1) + d * (col + d * row),
            0 <= row < d,
            0 <= col < d,
            1 <= val <= d,
    ;
    lemma_fundamental_div_mod_converse(q, d * d, row, col * d + (val - 1));
}

/// Every exact-cover row below `d * d * d` is the row of the placement it decodes to.
pub proof fn lemma_matrix_row_of_decoded(d: int, q: int)
    requires
        1 <= d,
        0 <= q < d * d * d,
    ensures
        0 <= row_of(d, q) < d,
        0 <= col_of(d, q) < d,
        1 <= val_of(d, q) <= d,
        matrix_row(d, row_of(d, q), col_of(d, q), val_of(d, q)) == q,
{
    lemma_fundamental_div_mod(q, d);
    lemma_fundamental_div_mod(q / d, d);
    lemma_div_denominator(q, d, d);
    let (r, c, v) = (row_of(d, q), col_of(d, q), val_of(d, q));
    assert(0 <= q / d);
    assert(0 <= q % d < d);
    assert(0 <= (q / d) % d < d);
    let p = q / d;
    assert(0 <= p < d * d) by (nonlinear_arith)
        requires
            q == d * p + q % d,
            0 <= q % d,
            0 <= q < d * d * d,
            1 <= d,
    ;
    assert(0 <= r < d) by (nonlinear_arith)
        requires
            r == p / d,
            p == d * (p / d) + p % d,
            0 <= p % d,
            0 <= p < d * d,
            1 <= d,
    ;
    assert(matrix_row(d, r, c, v) == q) by (nonlinear_arith)
        requires
            q == d * (q / d) + q % d,
            q / d == d * ((q / d) / d) + (q / d) % d,
            (q / d) / d == r,
            c == (q / d) % d,
            v == q % d + 1,
    ;
}

/// The dense exact-cover matrix of a grid of side `d` (`d^3` rows, `4 * d^2` columns) can be
/// held in memory.
pub open spec fn fits_exact_cover(d: int) -> bool {
    d * d * d * (4 * d * d) < usize::MAX
}

/// Why the givens of a puzzle could not be placed.
#[derive(Debug, PartialEq, Eq, Structural, Clone, Copy)]
pub enum SolveError {
    /// A given needs a constraint that another given has already met.
    InconsistentGiven,
}

proof fn lemma_fits(d: int)
    requires
        1 <= d,
        fits_exact_cover(d),
    ensures
        d * d <= d * d * d,
        d * d * d <= d * d * d * (4 * d * d),
        4 * d * d <= d * d * d * (4 * d * d),
        d * d * d < usize::MAX,
        4 * d * d < usize::MAX,
{
    assert(d * d <= d * d * d && 1 <= d * d * d && 1 <= 4 * d * d) by (nonlinear_arith)
        requires
            1 <= d,
    ;
    assert(d * d * d <= d * d * d * (4 * d * d) && 4 * d * d <= d * d * d * (4 * d * d))
        by (nonlinear_arith)
        requires
            1 <= d * d * d,
            1 <= 4 * d * d,
    ;
}

/// The four constraints of a placement all lie below `4 * d * d`.
proof fn lemma_constraint_bounds(d: int, row: int, col: int, block: int, val: int)
    requires
        0 <= row < d,
        0 <= col < d,
        0 <= block < d,
        1 <= val <= d,
    ensures
        0 <= cell_constraint(d, row, col) < d * d,
        d * d <= row_constraint(d, row, val) < 2 * (d * d),
        2 * (d * d) <= col_constraint(d, col, val) < 3 * (d * d),
        3 * (d * d) <= block_constraint(d, block, val) < 4 * d * d,
{
    assert(0 <= col + d * row < d * d) by (nonlinear_arith)
        requires
            0 <= row < d,
            0 <= col < d,
    ;
    assert(0 <= d * row + (val - 1) < d * d) by (nonlinear_arith)
        requires
            0 <= row < d,
            1 <= val <= d,
    ;
    assert(0 <= d * col + (val - 1) < d * d) by (nonlinear_arith)
        requires
            0 <= col < d,
            1 <= val <= d,
    ;
    assert(0 <= d * block + (val - 1) < d * d) by (nonlinear_arith)
        requires
            0 <= block < d,
            1 <= val <= d,
    ;
    assert(4 * d * d == 4 * (d * d)) by (nonlinear_arith);
}

/// The shape `(rows, columns)` of the exact-cover matrix: one row per placement, four
/// groups of `D * D` constraints.
pub fn matrix_dimensions(sudoku: &Sudoku) -> (r: (usize, usize))
    requires
        sudoku.wf(),
        fits_exact_cover(sudoku.dim() as int),
    ensures
        r.0 == sudoku.dim() * sudoku.dim() * sudoku.dim(),
        r.1 == 4 * sudoku.dim() * sudoku.dim(),
{
    let d = sudoku.dimension();
    proof {
        lemma_fits(d as int);
        assert(4 * d <= 4 * d * d) by (nonlinear_arith)
            requires
                1 <= d,
        ;
    }
    let num_rows = d * d * d;
    let num_cols = 4 * d * d;
    (num_rows, num_cols)
}

/// The exact-cover row of placing `val` in cell `(row, col)`.
pub fn matrix_row_for_cell_value(sudoku: &Sudoku, row: usize, col: usize, val: usize) -> (r: usize)
    requires
        sudoku.wf(),
        sudoku.dim() * sudoku.dim() * sudoku.dim() <= usize::MAX,
        row < sudoku.dim(),
        col < sudoku.dim(),
        1 <= val <= sudoku.dim(),
    ensures
        r == matrix_row(sudoku.dim() as int, row as int, col as int, val as int),
        r < sudoku.dim() * sudoku.dim() * sudoku.dim(),
{
    let d = sudoku.dimension();
    proof {
        lemma_decode_matrix_row(d as int, row as int, col as int, val as int);
        assert(col + d * row < d * d && d * (col + d * row) <= (val - 1) + d * (col + d * row))
            by (nonlinear_arith)
            requires
                row < d,
                col < d,
                1 <= val,
        ;
    }
    (val - 1) + d * (col + d * row)
}

/// The placement `(row, col, val)` that exact-cover row `mat_row` stands for.
pub fn cell_value_for_matrix_row(sudoku: &Sudoku, mat_row: usize) -> (r: (usize, usize, usize))
    requires
        sudoku.wf(),
        mat_row < sudoku.dim() * sudoku.dim() * sudoku.dim(),
    ensures
        r.0 == row_of(sudoku.dim() as int, mat_row as int),
        r.1 == col_of(sudoku.dim() as int, mat_row as int),
        r.2 == val_of(sudoku.dim() as int, mat_row as int),
        r.0 < sudoku.dim(),
        r.1 < sudoku.dim(),
        1 <= r.2 <= sudoku.dim(),
{
    let d = sudoku.dimension();
    proof {
        lemma_matrix_row_of_decoded(d as int, mat_row as int);
        assert(d * d >= 1) by (nonlinear_arith)
            requires
                d >= 1,
        ;
    }
    let row = mat_row / (d * d);
    let col = (mat_row / d) % d;
    let val = (mat_row % d) + 1;
    (row, col, val)
}

/// Sets, in each exact-cover row, the four constraint columns that its placement meets.
pub fn populate_matrix(matrix: &mut Matrix<bool>, sudoku: &Sudoku)
    requires
        sudoku.wf(),
        fits_exact_cover(sudoku.dim() as int),
        old(matrix).wf(),
        old(matrix).rows() == sudoku.dim() * sudoku.dim() * sudoku.dim(),
        old(matrix).cols() == 4 * sudoku.dim() * sudoku.dim(),
    ensures
        final(matrix).wf(),
        final(matrix).rows() == old(matrix).rows(),
        final(matrix).cols() == old(matrix).cols(),
        forall|q: int, k: int|
            0 <= q < old(matrix).rows() && 0 <= k < old(matrix).cols() ==> #[trigger] final(matrix).at(q, k)
                == (old(matrix).at(q, k) || is_constraint(
                sudoku.dim() as int,
                sudoku.block() as int,
                q,
                k,
            )),
{
    let d = sudoku.dimension();
    let ghost b = sudoku.block() as int;
    proof {
        lemma_fits(d as int);
    }
    let region_width = d * d;
    let num_rows = d * d * d;
    let mut q: usize = 0;
    while q < num_rows
        invariant
            sudoku.wf(),
            d == sudoku.dim(),
            b == sudoku.block(),
            region_width == d * d,
            num_rows == d * d * d,
            4 * d * d < usize::MAX,
            q <= num_rows,
            matrix.wf(),
            matrix.rows() == old(matrix).rows(),
            matrix.cols() == old(matrix).cols(),
            old(matrix).rows() == num_rows,
            old(matrix).cols() == 4 * d * d,
            forall|q2: int, k: int|
                0 <= q2 < q && 0 <= k < matrix.cols() ==> #[trigger] matrix.at(q2, k) == (old(matrix).at(
                    q2,
                    k,
                ) || is_constraint(d as int, b, q2, k)),
            forall|q2: int, k: int|
                q <= q2 < matrix.rows() && 0 <= k < matrix.cols() ==> #[trigger] matrix.at(q2, k)
                    == old(matrix).at(q2, k),
        decreases num_rows - q,
    {
        let (row, col, val) = cell_value_for_matrix_row(sudoku, q);
        let block = sudoku.block_no(row, col);
        proof {
            lemma_constraint_bounds(d as int, row as int, col as int, block as int, val as int);
        }
        let k1 = col + d * row;
        let k2 = region_width + d * row + (val - 1);
        let k3 = 2 * region_width + d * col + (val - 1);
        let k4 = 3 * region_width + d * block + (val - 1);
        let ghost before = *matrix;
        matrix.set_element(q, k1, true);
        matrix.set_element(q, k2, true);
        matrix.set_element(q, k3, true);
        matrix.set_element(q, k4, true);
        proof {
            assert forall|q2: int, k: int|
                0 <= q2 < q + 1 && 0 <= k < matrix.cols() implies #[trigger] matrix.at(q2, k) == (old(
                matrix,
            ).at(q2, k) || is_constraint(d as int, b, q2, k)) by {
                if q2 == q {
                    assert(matrix.at(q2, k) == (before.at(q2, k) || k == k1 || k == k2 || k == k3 || k
                        == k4));
                }
            }
        }
        q = q + 1;
    }
}

/// `sudoku` with the placement of each exact-cover row of `solution` written into it.
pub fn complete_sudoku(sudoku: &Sudoku, solution: &Vec<usize>) -> (r: Sudoku)
    requires
        sudoku.wf(),
        forall|i: int| 0 <= i < solution@.len() ==> #[trigger] solution@[i] < sudoku.dim() * sudoku.dim() * sudoku.dim(),
    ensures
        r.wf(),
        r.dim() == sudoku.dim(),
        r.block() == sudoku.block(),
        r.grid() == written(sudoku.dim() as int, sudoku.grid(), solution@),
{
    let ghost (d0, b0) = (sudoku.dim(), sudoku.block());
    let mut sudoku = sudoku.clone();
    let ghost grid = sudoku.grid();
    let mut i: usize = 0;
    while i < solution.len()
        invariant
            sudoku.wf(),
            sudoku.dim() == d0,
            sudoku.block() == b0,
            i <= solution@.len(),
            forall|t: int| 0 <= t < solution@.len() ==> #[trigger] solution@[t] < sudoku.dim() * sudoku.dim() * sudoku.dim(),
            sudoku.grid() == written(sudoku.dim() as int, grid, solution@.take(i as int)),
        decreases solution@.len() - i,
    {
        let (row, col, val) = cell_value_for_matrix_row(&sudoku, solution[i]);
        sudoku.set_cell_value(row, col, val);
        proof {
            assert(solution@.take(i + 1).drop_last() =~= solution@.take(i as int));
        }
        i = i + 1;
    }
    assert(solution@.take(solution@.len() as int) =~= solution@);
    sudoku
}

/// The exact-cover rows of a list of placements `(row, col, val)`.
pub open spec fn encoded(d: int, cells: Seq<(usize, usize, usize)>) -> Seq<usize> {
    cells.map_values(|t: (usize, usize, usize)| matrix_row(d, t.0 as int, t.1 as int, t.2 as int) as usize)
}

/// `grid` where only the first `k` cells are kept and the rest are unknown.
pub open spec fn prefix_grid(grid: Seq<usize>, k: int) -> Seq<usize> {
    Seq::new(grid.len(), |i: int| if i < k { grid[i] } else { EMPTY_CELL })
}

proof fn lemma_decode_encode_upto(grid: Seq<usize>, d: int, k: int)
    requires
        1 <= d,
        grid.len() == d * d,
        0 <= k <= d * d,
        d * d * d <= usize::MAX,
        forall|i: int| 0 <= i < grid.len() ==> #[trigger] grid[i] <= d,
    ensures
        written(d, prefix_grid(grid, 0), encoded(d, completed_upto(grid, d, k))) == prefix_grid(grid, k),
    decreases k,
{
    if k == 0 {
        assert(encoded(d, completed_upto(grid, d, 0)) =~= Seq::<usize>::empty());
    } else {
        lemma_decode_encode_upto(grid, d, k - 1);
        let prev = completed_upto(grid, d, k - 1);
        let i = k - 1;
        if grid[i] != EMPTY_CELL {
            let (r, c, v) = (i / d, i % d, grid[i] as int);
            vstd::arithmetic::div_mod::lemma_fundamental_div_mod(i, d);
            assert(0 <= r < d && r * d + c == i) by (nonlinear_arith)
                requires
                    i == d * r + c,
                    0 <= c < d,
                    0 <= i < d * d,
                    1 <= d,
            ;
            lemma_decode_matrix_row(d, r, c, v);
            assert(d <= d * d * d) by (nonlinear_arith)
                requires
                    1 <= d,
            ;
            let t = (r as usize, c as usize, grid[i]);
            assert(t.0 as int == r && t.1 as int == c && t.2 as int == v);
            let e = encoded(d, prev.push(t));
            assert(e =~= encoded(d, prev).push(matrix_row(d, r, c, v) as usize));
            assert(e.drop_last() =~= encoded(d, prev));
            assert(prefix_grid(grid, k - 1).update(i, grid[i]) =~= prefix_grid(grid, k));
        } else {
            assert(prefix_grid(grid, k - 1) =~= prefix_grid(grid, k));
        }
    }
}

/// Writing the exact-cover rows of a puzzle's known cells into an empty grid of the same
/// side gives the puzzle back.
pub proof fn lemma_decode_encode(puzzle: Sudoku)
    requires
        puzzle.wf(),
        puzzle.dim() * puzzle.dim() * puzzle.dim() <= usize::MAX,
    ensures
        written(
            puzzle.dim() as int,
            Seq::new(puzzle.dim() * puzzle.dim(), |i: int| EMPTY_CELL),
            encoded(puzzle.dim() as int, puzzle.completed()),
        ) == puzzle.grid(),
{
    let d = puzzle.dim() as int;
    let g = puzzle.grid();
    lemma_decode_encode_upto(g, d, d * d);
    assert(prefix_grid(g, 0) =~= Seq::new(puzzle.dim() * puzzle.dim(), |i: int| EMPTY_CELL));
    assert(prefix_grid(g, d * d) =~= g);
}

/// Pins the givens: covers, for each known cell in row-major order, every constraint of its
/// exact-cover row. Returns those rows, or `InconsistentGiven` when a given needs a
/// constraint that is covered already: exactly when two givens share a constraint, or a
/// given needs one that was covered before the call.
pub fn eliminate_rows_for_completed_cells(dlx: &mut DLX, sudoku: &Sudoku) -> (r: Result<
    Vec<usize>,
    SolveError,
>)
    requires
        old(dlx).wf(),
        sudoku.wf(),
        sudoku.dim() * sudoku.dim() * sudoku.dim() <= usize::MAX,
        old(dlx).matrix().len() == sudoku.dim() * sudoku.dim() * sudoku.dim(),
    ensures
        final(dlx).wf(),
        final(dlx).initial() == old(dlx).initial(),
        final(dlx).matrix() == old(dlx).matrix(),
        final(dlx).columns() == old(dlx).columns(),
        old(dlx).steps().is_prefix_of(final(dlx).steps()),
        ({
            let m = old(dlx).matrix();
            let givens = encoded(sudoku.dim() as int, sudoku.completed());
            &&& r is Ok <==> pairwise_disjoint(m, givens) && forall|i: int, k: usize|
                0 <= i < givens.len() && #[trigger] m[givens[i] as int].contains(k) ==> active_columns(
                    old(dlx).links(),
                    old(dlx).columns() as int,
                ).contains((k + 1) as usize)
            &&& r matches Ok(rows) ==> rows@ == givens
            &&& r is Ok ==> forall|h: usize|
                #[trigger] active_columns(final(dlx).links(), final(dlx).columns() as int).contains(h)
                    <==> (active_columns(old(dlx).links(), old(dlx).columns() as int).contains(h) && !(h
                    >= 1 && covered_by(m, givens, (h - 1) as usize)))
        }),
        r is Err ==> r == Err::<Vec<usize>, SolveError>(SolveError::InconsistentGiven),
        old(dlx).lists_match_rows(old(dlx).links()) ==> final(dlx).lists_match_rows(final(dlx).links()),
{
    let ghost matched = dlx.lists_match_rows(dlx.links());
    let ghost m = dlx.matrix();
    let ghost act0 = active_columns(dlx.links(), dlx.columns() as int);
    let ghost ncols = dlx.columns();
    proof {
        dlx.lemma_matrix_bounds();
    }
    let ghost givens = encoded(sudoku.dim() as int, sudoku.completed());
    let cells = sudoku.completed_cells();
    let mut rows: Vec<usize> = Vec::new();
    let mut i: usize = 0;
    proof {
        assert(givens.len() == cells@.len());
    }
    while i < cells.len()
        invariant
            dlx.wf(),
            dlx.initial() == old(dlx).initial(),
            dlx.matrix() == old(dlx).matrix(),
            dlx.columns() == old(dlx).columns(),
            m == old(dlx).matrix(),
            matched == old(dlx).lists_match_rows(old(dlx).links()),
            matched ==> dlx.lists_match_rows(dlx.links()),
            ncols == dlx.columns(),
            ncols < usize::MAX,
            forall|q: int, j: int| 0 <= q < m.len() && 0 <= j < m[q].len() ==> #[trigger] m[q][j] < ncols,
            act0 == active_columns(old(dlx).links(), old(dlx).columns() as int),
            givens == encoded(sudoku.dim() as int, sudoku.completed()),
            old(dlx).steps().is_prefix_of(dlx.steps()),
            sudoku.wf(),
            sudoku.dim() * sudoku.dim() * sudoku.dim() <= usize::MAX,
            old(dlx).matrix().len() == sudoku.dim() * sudoku.dim() * sudoku.dim(),
            cells@ == sudoku.completed(),
            givens.len() == cells@.len(),
            i <= cells@.len(),
            rows@ == givens.take(i as int),
            pairwise_disjoint(m, givens.take(i as int)),
            forall|t: int, k: usize|
                0 <= t < i && #[trigger] m[givens[t] as int].contains(k) ==> act0.contains((k + 1) as usize),
            forall|h: usize|
                #[trigger] active_columns(dlx.links(), dlx.columns() as int).contains(h) <==> (act0.contains(h)
                    && !(h >= 1 && covered_by(m, givens.take(i as int), (h - 1) as usize))),
        decreases cells@.len() - i,
    {
        let (row, col, val) = cells[i];
        proof {
            sudoku.lemma_completed_in_grid(i as int);
        }
        let mat_row = matrix_row_for_cell_value(sudoku, row, col, val);
        let ghost before = dlx.steps();
        let ghost act = active_columns(dlx.links(), dlx.columns() as int);
        let ghost done_rows = givens.take(i as int);
        proof {
            assert(givens[i as int] == mat_row);
        }
        if !dlx.cover_row(mat_row) {
            proof {
                let k = choose|k: usize| #[trigger] m[mat_row as int].contains(k) && !act.contains((k + 1) as usize);
                let x = choose|x: int| 0 <= x < m[mat_row as int].len() && m[mat_row as int][x] == k;
                assert(k < ncols);
                assert((((k + 1) as usize) - 1) as usize == k);
                if act0.contains((k + 1) as usize) {
                    assert(covered_by(m, done_rows, k));
                    lemma_covered_by(m, done_rows, k);
                    let t = choose|t: int| 0 <= t < done_rows.len() && #[trigger] m[done_rows[t] as int].contains(k);
                    assert(done_rows[t] == givens[t]);
                    assert(m[givens[t] as int].contains(k) && m[givens[i as int] as int].contains(k));
                }
            }
            return Err(SolveError::InconsistentGiven);
        }
        proof {
            assert(before.is_prefix_of(dlx.steps()));
            assert(old(dlx).steps().is_prefix_of(dlx.steps())) by {
                assert(dlx.steps().subrange(0, old(dlx).steps().len() as int) =~= before.subrange(
                    0,
                    old(dlx).steps().len() as int,
                ));
            }
            let next = givens.take(i + 1);
            assert(next.drop_last() =~= done_rows);
            assert(next.last() == mat_row);
            assert forall|t: int, k: usize|
                0 <= t < i + 1 && #[trigger] m[givens[t] as int].contains(k) implies act0.contains(
                (k + 1) as usize) by {
                if t == i {
                    assert(act.contains((k + 1) as usize));
                }
            }
            assert forall|a: int, b: int, k: usize|
                0 <= a < b < next.len() implies !(#[trigger] m[next[a] as int].contains(k) && #[trigger] m[next[b] as int].contains(k)) by {
                if b == i {
                    if m[next[a] as int].contains(k) && m[next[b] as int].contains(k) {
                        let x = choose|x: int| 0 <= x < m[mat_row as int].len() && m[mat_row as int][x] == k;
                        assert(k < ncols);
                        assert((((k + 1) as usize) - 1) as usize == k);
                        assert(done_rows[a] == next[a]);
                        lemma_covered_by(m, done_rows, k);
                        assert(covered_by(m, done_rows, k));
                        assert(act.contains((k + 1) as usize));
                    }
                } else {
                    assert(done_rows[a] == next[a] && done_rows[b] == next[b]);
                }
            }
        }
        rows.push(mat_row);
        proof {
            assert(rows@ =~= givens.take(i + 1));
        }
        i = i + 1;
    }
    proof {
        assert(givens.take(cells@.len() as int) =~= givens);
    }
    Ok(rows)
}

/// The solutions of `sudoku`: all of them, or only the first one found when
/// `terminate_on_first`. Builds the exact-cover matrix, pins the givens, runs the search,
/// and writes each exact cover back into a copy of the puzzle; a copy is returned when it
/// is complete, consistent and keeps every given. Conflicting givens give no solution.
pub fn solve(sudoku: &Sudoku, terminate_on_first: bool) -> (r: Vec<Sudoku>)
    requires
        sudoku.wf(),
        fits_exact_cover(sudoku.dim() as int),
    ensures
        forall|i: int| 0 <= i < r@.len() ==> #[trigger] r@[i].solves(sudoku),
        terminate_on_first ==> r@.len() <= 1,
{
    let (num_rows, num_cols) = matrix_dimensions(sudoku);
    proof {
        lemma_fits(sudoku.dim() as int);
    }
    let mut matrix = Matrix::new(false, num_rows, num_cols);
    populate_matrix(&mut matrix, sudoku);
    let mut dlx = DLX::new(matrix);
    let givens = match eliminate_rows_for_completed_cells(&mut dlx, sudoku) {
        Ok(rows) => rows,
        Err(_) => {
            return Vec::new();
        },
    };
    let ghost m = dlx.matrix();
    let covers = dlx.solve(givens, !terminate_on_first);
    let mut completed: Vec<Sudoku> = Vec::new();
    let mut i: usize = 0;
    while i < covers.len()
        invariant
            sudoku.wf(),
            m.len() == sudoku.dim() * sudoku.dim() * sudoku.dim(),
            forall|j: int| 0 <= j < covers@.len() ==> exact_cover(m, (#[trigger] covers@[j])@, num_cols as nat),
            i <= covers@.len(),
            completed@.len() <= i,
            forall|j: int| 0 <= j < completed@.len() ==> #[trigger] completed@[j].solves(sudoku),
        decreases covers@.len() - i,
    {
        let sol = &covers[i];
        assert(exact_cover(m, covers@[i as int]@, num_cols as nat));
        let candidate = complete_sudoku(sudoku, sol);
        if candidate.is_completed() && candidate.is_consistent() && candidate.agrees_with(sudoku) {
            completed.push(candidate);
        }
        i = i + 1;
    }
    completed
}

} // verus!
