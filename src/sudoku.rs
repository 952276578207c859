use std::ops::Range;

use vstd::arithmetic::div_mod::{lemma_fundamental_div_mod, lemma_fundamental_div_mod_converse};
use vstd::prelude::*;
use vstd::utf8::encode_utf8;

use crate::matrix::{cells_from, lemma_cells_from_contains, lemma_cells_from_distinct, rect_cells, Matrix};

verus! {

/// The value a cell holds while it is unknown.
pub const EMPTY_CELL: usize = 0;

/// Why a puzzle could not be built.
#[derive(Debug, PartialEq, Eq, Structural, Clone, Copy)]
pub enum SudokuError {
    /// The side is not the square of a block side of at least one, or its square does
    /// not fit in a machine word.
    InvalidDimension,
    /// A run of digits stands for a number that does not fit in a machine word.
    ParseError,
}

/// One of the regions in which a value may appear only once.
#[derive(Debug, PartialEq, Eq, Structural, Clone, Copy)]
pub enum Region {
    Row(usize),
    Col(usize),
    Block(usize),
}

/// The number of the block that holds cell `(row, col)`, for blocks of side `b`.
pub open spec fn block_of(b: int, row: int, col: int) -> int {
    (row / b) * b + col / b
}

/// A side `d` is valid when it is the square of a block side of at least one and the
/// grid's `d * d` cells can be counted in a machine word.
pub open spec fn valid_dimension(d: int) -> bool {
    &&& exists|b: int| 1 <= b && #[trigger] (b * b) == d
    &&& d * d <= usize::MAX
}

proof fn lemma_square_root_unique(b: int, c: int, d: int)
    requires
        0 <= b,
        0 <= c,
        b * b <= d < (b + 1) * (b + 1),
        c * c == d,
    ensures
        b == c,
{
    if c > b {
        assert((b + 1) * (b + 1) <= c * c) by (nonlinear_arith)
            requires
                c >= b + 1,
                b >= 0,
        ;
    } else if c < b {
        assert(c * c < b * b) by (nonlinear_arith)
            requires
                0 <= c < b,
        ;
    }
}

/// Within a grid of side `b * b`, block numbers are below `b * b`.
pub proof fn lemma_block_bound(b: int, row: int, col: int)
    requires
        1 <= b,
        0 <= row < b * b,
        0 <= col < b * b,
    ensures
        0 <= row / b < b,
        0 <= col / b < b,
        0 <= block_of(b, row, col) < b * b,
{
    lemma_fundamental_div_mod(row, b);
    lemma_fundamental_div_mod(col, b);
    let (qr, qc) = (row / b, col / b);
    assert(0 <= qr < b && 0 <= qc < b) by (nonlinear_arith)
        requires
            1 <= b,
            0 <= row < b * b,
            0 <= col < b * b,
            row == b * qr + row % b,
            col == b * qc + col % b,
            0 <= row % b < b,
            0 <= col % b < b,
    ;
    assert(0 <= qr * b + qc < b * b) by (nonlinear_arith)
        requires
            1 <= b,
            0 <= qr < b,
            0 <= qc < b,
    ;
}

/// The cells of block `k` are the rectangle with rows from `(k / b) * b` and columns from
/// `(k % b) * b`, `b` of each.
pub proof fn lemma_block_cells(b: int, k: int, row: int, col: int)
    requires
        1 <= b,
        0 <= k < b * b,
        0 <= row < b * b,
        0 <= col < b * b,
    ensures
        ((k / b) * b <= row < (k / b) * b + b && (k % b) * b <= col < (k % b) * b + b)
            <==> block_of(b, row, col) == k,
{
    lemma_block_bound(b, row, col);
    lemma_fundamental_div_mod(row, b);
    lemma_fundamental_div_mod(col, b);
    lemma_fundamental_div_mod(k, b);
    let (qr, qc) = (row / b, col / b);
    if block_of(b, row, col) == k {
        lemma_fundamental_div_mod_converse(k, b, qr, qc);
        assert(qr * b <= row < qr * b + b && qc * b <= col < qc * b + b) by (nonlinear_arith)
            requires
                row == b * qr + row % b,
                col == b * qc + col % b,
                0 <= row % b < b,
                0 <= col % b < b,
        ;
    }
    if (k / b) * b <= row < (k / b) * b + b && (k % b) * b <= col < (k % b) * b + b {
        lemma_fundamental_div_mod_converse(row, b, k / b, row - (k / b) * b);
        lemma_fundamental_div_mod_converse(col, b, k % b, col - (k % b) * b);
        assert(k == (k / b) * b + k % b) by (nonlinear_arith)
            requires
                k == b * (k / b) + k % b,
        ;
    }
}

/// The known cells `(row, col, value)` among the first `k` cells of `grid`, a grid of
/// side `d` in row-major order.
pub open spec fn completed_upto(grid: Seq<usize>, d: int, k: int) -> Seq<(usize, usize, usize)>
    decreases k,
{
    if k <= 0 {
        Seq::empty()
    } else {
        let prev = completed_upto(grid, d, k - 1);
        if grid[k - 1] != EMPTY_CELL {
            prev.push((((k - 1) / d) as usize, ((k - 1) % d) as usize, grid[k - 1]))
        } else {
            prev
        }
    }
}

/// Exactly the known cells are listed: the list is as long as the prefix only when every
/// cell of the prefix is known.
pub proof fn lemma_completed_upto_len(grid: Seq<usize>, d: int, k: int)
    requires
        0 <= k <= grid.len(),
    ensures
        completed_upto(grid, d, k).len() <= k,
        completed_upto(grid, d, k).len() == k <==> forall|i: int| 0 <= i < k ==> #[trigger] grid[i] != EMPTY_CELL,
    decreases k,
{
    if k > 0 {
        lemma_completed_upto_len(grid, d, k - 1);
    }
}

/// A decimal digit, in ASCII.
pub open spec fn is_digit(c: u8) -> bool {
    48 <= c <= 57
}

/// The state of the tokenizer after the bytes `bs`: the tokens read so far, and the value
/// of the run of digits being read, if any. A run of digits is a value, `.` is an unknown
/// cell (`0`), and every other byte only ends a run.
pub open spec fn scan(bs: Seq<u8>) -> (Seq<nat>, Option<nat>)
    decreases bs.len(),
{
    if bs.len() == 0 {
        (Seq::empty(), None)
    } else {
        let (done, pending) = scan(bs.drop_last());
        let c = bs.last();
        if is_digit(c) {
            let digit = (c - 48) as nat;
            (done, Some(
                match pending {
                    Some(p) => p * 10 + digit,
                    None => digit,
                },
            ))
        } else {
            let flushed = match pending {
                Some(p) => done.push(p),
                None => done,
            };
            if c == 46 {
                (flushed.push(0), None)
            } else {
                (flushed, None)
            }
        }
    }
}

/// The tokens of the puzzle text `bs`, in order: each cell's value, `0` for unknown.
pub open spec fn tokens(bs: Seq<u8>) -> Seq<nat> {
    let (done, pending) = scan(bs);
    match pending {
        Some(p) => done.push(p),
        None => done,
    }
}

/// The largest element of `s`, or `0`.
pub open spec fn max_of(s: Seq<nat>) -> nat
    decreases s.len(),
{
    if s.len() == 0 {
        0
    } else if s.last() > max_of(s.drop_last()) {
        s.last()
    } else {
        max_of(s.drop_last())
    }
}

pub proof fn lemma_max_of(s: Seq<nat>)
    ensures
        forall|j: int| 0 <= j < s.len() ==> #[trigger] s[j] <= max_of(s),
    decreases s.len(),
{
    if s.len() > 0 {
        lemma_max_of(s.drop_last());
        assert forall|j: int| 0 <= j < s.len() implies #[trigger] s[j] <= max_of(s) by {
            if j < s.len() - 1 {
                assert(s[j] == s.drop_last()[j]);
            }
        }
    }
}

/// Block side `b` is large enough for values up to `max_val` and for `n` cells.
pub open spec fn side_fits(b: int, max_val: int, n: int) -> bool {
    b * b >= max_val && (b * b) * (b * b) >= n
}

/// `b` is the smallest block side of at least one that is large enough for values up to
/// `max_val` and for `n` cells.
pub open spec fn is_inferred_side(b: int, max_val: int, n: int) -> bool {
    &&& b >= 1
    &&& side_fits(b, max_val, n)
    &&& forall|c: int| 1 <= c < b ==> !#[trigger] side_fits(c, max_val, n)
}

/// A square puzzle of side `D = b * b`; each cell is unknown or holds a value in `[1, D]`.
pub struct Sudoku {
    cells: Matrix<usize>,
    dimension: usize,
    block_dimension: usize,
}

impl Sudoku {
    /// The side `D` of the grid.
    pub closed spec fn dim(&self) -> nat {
        self.dimension as nat
    }

    /// The side `b` of a block.
    pub closed spec fn block(&self) -> nat {
        self.block_dimension as nat
    }

    /// The cells in row-major order, `0` for an unknown cell.
    pub closed spec fn grid(&self) -> Seq<usize> {
        self.cells@
    }

    pub closed spec fn cells_ok(&self) -> bool {
        &&& self.cells.wf()
        &&& self.cells.rows() == self.dimension
        &&& self.cells.cols() == self.dimension
    }

    pub open spec fn wf(&self) -> bool {
        &&& self.cells_ok()
        &&& self.block() >= 1
        &&& self.dim() >= 1
        &&& self.dim() == self.block() * self.block()
        &&& self.grid().len() == self.dim() * self.dim()
        &&& self.dim() * self.dim() <= usize::MAX
        &&& forall|i: int| 0 <= i < self.grid().len() ==> #[trigger] self.grid()[i] <= self.dim()
    }

    /// The content of cell `(row, col)`, `0` when it is unknown.
    pub open spec fn value(&self, row: int, col: int) -> usize {
        self.grid()[row * self.dim() + col]
    }

    /// The index of cell `(row, col)` in `grid` is below `D * D`.
    pub proof fn lemma_cell_index(&self, row: int, col: int)
        requires
            self.wf(),
            0 <= row < self.dim(),
            0 <= col < self.dim(),
        ensures
            0 <= row * self.dim() + col < self.dim() * self.dim(),
    {
        let d = self.dim() as int;
        assert(0 <= row * d + col < d * d) by (nonlinear_arith)
            requires
                0 <= row < d,
                0 <= col < d,
        ;
    }

    /// An empty puzzle of side `dimension`, or `InvalidDimension` when that side is not valid.
    pub fn new(dimension: usize) -> (r: Result<Sudoku, SudokuError>)
        ensures
            r is Ok <==> valid_dimension(dimension as int),
            r is Err ==> r == Err::<Sudoku, SudokuError>(SudokuError::InvalidDimension),
            r matches Ok(s) ==> s.wf() && s.dim() == dimension && forall|i: int|
                0 <= i < s.grid().len() ==> #[trigger] s.grid()[i] == EMPTY_CELL,
    {
        // the largest b with b * b <= dimension
        let mut b: usize = 0;
        while b < dimension
            invariant
                b * b <= dimension,
            ensures
                b * b <= dimension,
                b < dimension ==> dimension < (b + 1) * (b + 1),
            decreases dimension - b,
        {
            match (b + 1).checked_mul(b + 1) {
                Some(sq) => {
                    if sq <= dimension {
                        b = b + 1;
                    } else {
                        break;
                    }
                },
                None => {
                    break;
                },
            }
        }
        proof {
            if b >= dimension {
                assert(b <= 1) by (nonlinear_arith)
                    requires
                        b * b <= dimension,
                        b >= dimension,
                ;
            }
            assert(dimension < (b + 1) * (b + 1)) by (nonlinear_arith)
                requires
                    b * b <= dimension,
                    b < dimension ==> dimension < (b + 1) * (b + 1),
                    b >= dimension ==> b <= 1,
            ;
        }
        if b == 0 || b * b != dimension {
            proof {
                if valid_dimension(dimension as int) {
                    let c = choose|c: int| 1 <= c && #[trigger] (c * c) == dimension;
                    lemma_square_root_unique(b as int, c, dimension as int);
                }
            }
            return Err(SudokuError::InvalidDimension);
        }
        match dimension.checked_mul(dimension) {
            None => Err(SudokuError::InvalidDimension),
            Some(_) => {
                let cells = Matrix::new(EMPTY_CELL, dimension, dimension);
                let s = Sudoku { cells, dimension, block_dimension: b };
                assert(b * b == dimension);
                assert(b * b >= 1) by (nonlinear_arith)
                    requires
                        b >= 1,
                ;
                Ok(s)
            },
        }
    }

    /// The index a region is numbered by.
    pub open spec fn region_index(region: Region) -> int {
        match region {
            Region::Row(i) => i as int,
            Region::Col(i) => i as int,
            Region::Block(i) => i as int,
        }
    }

    /// The rectangle `(c0, c1, r0, r1)` of columns `[c0, c1)` and rows `[r0, r1)` that a
    /// region covers.
    pub open spec fn region_rect(&self, region: Region) -> (int, int, int, int) {
        let d = self.dim() as int;
        let b = self.block() as int;
        match region {
            Region::Row(i) => (0, d, i as int, i + 1),
            Region::Col(i) => (i as int, i + 1, 0, d),
            Region::Block(k) => {
                let k = k as int;
                ((k % b) * b, (k % b) * b + b, (k / b) * b, (k / b) * b + b)
            },
        }
    }

    /// The cells `(col, row)` of a region in row-major order.
    pub open spec fn region_cells(&self, region: Region) -> Seq<(usize, usize)> {
        let (c0, c1, r0, r1) = self.region_rect(region);
        rect_cells(c0, c1, r0, r1)
    }

    /// Whether cell `(row, col)` lies in `region`.
    pub open spec fn in_region(&self, region: Region, row: int, col: int) -> bool {
        let (c0, c1, r0, r1) = self.region_rect(region);
        c0 <= col < c1 && r0 <= row < r1
    }

    /// No value appears twice in `region`.
    pub open spec fn region_consistent(&self, region: Region) -> bool {
        forall|r1: int, c1: int, r2: int, c2: int|
            #![trigger self.in_region(region, r1, c1), self.in_region(region, r2, c2)]
            self.in_region(region, r1, c1) && self.in_region(region, r2, c2) && (r1 != r2 || c1
                != c2) && self.value(r1, c1) != EMPTY_CELL ==> self.value(r1, c1) != self.value(r2, c2)
    }

    /// No value appears twice in a row, a column or a block.
    pub open spec fn consistent(&self) -> bool {
        let d = self.dim() as int;
        let b = self.block() as int;
        forall|r1: int, c1: int, r2: int, c2: int|
            #![trigger self.value(r1, c1), self.value(r2, c2)]
            0 <= r1 < d && 0 <= c1 < d && 0 <= r2 < d && 0 <= c2 < d && (r1 != r2 || c1 != c2) && (r1
                == r2 || c1 == c2 || block_of(b, r1, c1) == block_of(b, r2, c2)) && self.value(r1, c1)
                != EMPTY_CELL ==> self.value(r1, c1) != self.value(r2, c2)
    }

    /// Block `k` starts at row `(k / b) * b` and column `(k % b) * b` and lies in the grid.
    pub proof fn lemma_block_origin(&self, k: int)
        requires
            self.wf(),
            0 <= k < self.dim(),
        ensures
            0 <= (k / self.block() as int) * self.block() + self.block() <= self.dim(),
            0 <= (k % self.block() as int) * self.block() + self.block() <= self.dim(),
    {
        let b = self.block() as int;
        lemma_fundamental_div_mod(k, b);
        assert(0 <= k / b < b && 0 <= k % b < b) by (nonlinear_arith)
            requires
                k == b * (k / b) + k % b,
                0 <= k % b < b,
                0 <= k < b * b,
        ;
        assert(0 <= (k / b) * b + b <= b * b && 0 <= (k % b) * b + b <= b * b) by (nonlinear_arith)
            requires
                0 <= k / b < b,
                0 <= k % b < b,
        ;
    }

    /// The cells a region's walk lists are exactly the region's cells, each once.
    pub proof fn lemma_region_cells(&self, region: Region, col: usize, row: usize)
        requires
            self.wf(),
            0 <= Sudoku::region_index(region) < self.dim(),
        ensures
            self.region_cells(region).contains((col, row)) <==> self.in_region(
                region,
                row as int,
                col as int,
            ),
            self.region_cells(region).no_duplicates(),
            self.in_region(region, row as int, col as int) ==> row < self.dim() && col < self.dim(),
    {
        let (c0, c1, r0, r1) = self.region_rect(region);
        if let Region::Block(k) = region {
            self.lemma_block_origin(k as int);
        }
        lemma_cells_from_contains(c0, r0, c0, c1, r1, col, row);
        lemma_cells_from_distinct(c0, r0, c0, c1, r1);
    }

    /// A region's cells lie in the grid.
    pub proof fn lemma_in_region_bounds(&self, region: Region, row: int, col: int)
        requires
            self.wf(),
            0 <= Sudoku::region_index(region) < self.dim(),
            self.in_region(region, row, col),
        ensures
            0 <= row < self.dim(),
            0 <= col < self.dim(),
    {
        if let Region::Block(k) = region {
            self.lemma_block_origin(k as int);
            let b = self.block() as int;
            lemma_fundamental_div_mod(k as int, b);
            assert(0 <= (k as int) / b && 0 <= (k as int) % b);
            assert(0 <= ((k as int) / b) * b && 0 <= ((k as int) % b) * b) by (nonlinear_arith)
                requires
                    0 <= (k as int) / b,
                    0 <= (k as int) % b,
                    1 <= b,
            ;
        }
    }

    /// Within the grid, the cells of block `k` are those whose block number is `k`.
    pub proof fn lemma_in_block(&self, k: int, row: int, col: int)
        requires
            self.wf(),
            0 <= k < self.dim(),
            0 <= row < self.dim(),
            0 <= col < self.dim(),
        ensures
            self.in_region(Region::Block(k as usize), row, col) <==> block_of(
                self.block() as int,
                row,
                col,
            ) == k,
    {
        lemma_block_cells(self.block() as int, k, row, col);
    }

    /// Parses a puzzle: the tokens of `text` (see `tokens`, read over its UTF-8 bytes; the
    /// bytes of a multi-byte character are never digits or `.`, so they only separate
    /// tokens) fill the grid in row-major order. The block side is the smallest that is at
    /// least one, whose square is at least the largest value, and whose fourth power is at
    /// least the number of tokens. A value that does not fit in a machine word is a
    /// `ParseError`; a side whose cell count does not fit is an `InvalidDimension`.
    pub fn from(text: &str) -> (r: Result<Sudoku, SudokuError>)
        ensures
            ({
                let toks = tokens(encode_utf8(text@));
                &&& (exists|j: int| 0 <= j < toks.len() && #[trigger] toks[j] > usize::MAX) <==> r
                    == Err::<Sudoku, SudokuError>(SudokuError::ParseError)
                &&& r matches Ok(s) ==> {
                    &&& s.wf()
                    &&& is_inferred_side(s.block() as int, max_of(toks) as int, toks.len() as int)
                    &&& forall|i: int|
                        0 <= i < s.grid().len() ==> #[trigger] s.grid()[i] as int == if i < toks.len() {
                            toks[i] as int
                        } else {
                            0
                        }
                }
                &&& r == Err::<Sudoku, SudokuError>(SudokuError::InvalidDimension) ==> exists|b: int|
                    is_inferred_side(b, max_of(toks) as int, toks.len() as int) && #[trigger] (b * b * (
                    b * b)) > usize::MAX
            }),
    {
        let bytes = text.as_bytes();
        let (entries, max_val) = match read_tokens(bytes) {
            None => {
                return Err(SudokuError::ParseError);
            },
            Some(read) => read,
        };
        let ghost toks = tokens(encode_utf8(text@));
        let n = entries.len();
        let ghost bound: int = if max_val >= n && max_val >= 1 {
            max_val as int
        } else if n >= 1 {
            n as int
        } else {
            1
        };
        proof {
            assert(side_fits(bound, max_val as int, n as int)) by (nonlinear_arith)
                requires
                    bound >= max_val,
                    bound >= n,
                    bound >= 1,
            ;
        }
        // the smallest block side that fits
        let mut b: usize = 1;
        let mut dimension: usize = 1;
        let mut num_cells: usize = 1;
        let mut fits = false;
        loop
            invariant
                1 <= b <= bound,
                bound <= usize::MAX,
                side_fits(bound, max_val as int, n as int),
                forall|c: int| 1 <= c < b ==> !#[trigger] side_fits(c, max_val as int, n as int),
            ensures
                1 <= b <= bound,
                forall|c: int| 1 <= c < b ==> !#[trigger] side_fits(c, max_val as int, n as int),
                side_fits(b as int, max_val as int, n as int),
                fits ==> dimension == b * b && num_cells == dimension * dimension,
                !fits ==> b * b * (b * b) > usize::MAX,
            decreases bound - b,
        {
            match b.checked_mul(b) {
                None => {
                    proof {
                        assert(b * b * (b * b) >= b * b) by (nonlinear_arith)
                            requires
                                b >= 1,
                        ;
                    }
                    fits = false;
                    break;
                },
                Some(sq) => {
                    if sq >= max_val {
                        match sq.checked_mul(sq) {
                            None => {
                                fits = false;
                                break;
                            },
                            Some(cells) => {
                                if cells >= n {
                                    dimension = sq;
                                    num_cells = cells;
                                    fits = true;
                                    break;
                                }
                            },
                        }
                    }
                },
            }
            b = b + 1;
        }
        if !fits {
            proof {
                assert(is_inferred_side(b as int, max_of(toks) as int, toks.len() as int));
                assert((b * b * (b * b)) > usize::MAX);
            }
            return Err(SudokuError::InvalidDimension);
        }
        proof {
            assert(dimension >= 1) by (nonlinear_arith)
                requires
                    dimension == b * b,
                    b >= 1,
            ;
        }
        let mut cells = Matrix::new(EMPTY_CELL, dimension, dimension);
        let mut k: usize = 0;
        proof {
            lemma_max_of(toks);
        }
        while k < n
            invariant
                n == entries@.len() == toks.len(),
                forall|j: int| 0 <= j < n ==> #[trigger] entries@[j] as nat == toks[j],
                max_val == max_of(toks),
                forall|j: int| 0 <= j < toks.len() ==> #[trigger] toks[j] <= max_of(toks),
                1 <= dimension,
                max_val <= dimension,
                n <= num_cells,
                num_cells == dimension * dimension,
                k <= n,
                cells.wf(),
                cells.rows() == dimension,
                cells.cols() == dimension,
                cells@.len() == num_cells,
                forall|i: int|
                    0 <= i < cells@.len() ==> #[trigger] cells@[i] as int == if i < k {
                        toks[i] as int
                    } else {
                        0
                    },
            decreases n - k,
        {
            let row = k / dimension;
            let col = k % dimension;
            proof {
                let d = dimension as int;
                lemma_fundamental_div_mod(k as int, d);
                assert(0 <= row < d && row * d + col == k) by (nonlinear_arith)
                    requires
                        k == d * row + col,
                        0 <= col < d,
                        0 <= k < d * d,
                        1 <= d,
                ;
            }
            let ghost prev = cells@;
            cells.set_element(row, col, entries[k]);
            proof {
                assert(cells@ == prev.update(k as int, entries@[k as int]));
            }
            k = k + 1;
        }
        let sudoku = Sudoku { cells, dimension, block_dimension: b };
        proof {
            assert(is_inferred_side(sudoku.block() as int, max_of(toks) as int, toks.len() as int));
            assert(sudoku.dim() == sudoku.block() * sudoku.block());
            assert forall|i: int| 0 <= i < sudoku.grid().len() implies #[trigger] sudoku.grid()[i]
                <= sudoku.dim() by {
                if i < n {
                    assert(toks[i] <= max_of(toks));
                }
            }
        }
        Ok(sudoku)
    }

    pub fn dimension(&self) -> (r: usize)
        ensures
            r == self.dim(),
    {
        self.dimension
    }

    pub fn block_dimension(&self) -> (r: usize)
        ensures
            r == self.block(),
    {
        self.block_dimension
    }

    /// The number of cells, `D * D`.
    pub fn num_cells(&self) -> (r: usize)
        requires
            self.wf(),
        ensures
            r == self.dim() * self.dim(),
    {
        self.cells.num_elements()
    }

    /// The value of cell `(row, col)`, `None` when it is unknown.
    pub fn cell_value(&self, row: usize, col: usize) -> (r: Option<usize>)
        requires
            self.wf(),
            row < self.dim(),
            col < self.dim(),
        ensures
            r == (if self.value(row as int, col as int) == EMPTY_CELL {
                None::<usize>
            } else {
                Some(self.value(row as int, col as int))
            }),
    {
        let val = *self.cells.element(row, col);
        if val == EMPTY_CELL {
            None
        } else {
            Some(val)
        }
    }

    /// Writes `val` into cell `(row, col)`.
    pub fn set_cell_value(&mut self, row: usize, col: usize, val: usize)
        requires
            old(self).wf(),
            row < old(self).dim(),
            col < old(self).dim(),
            1 <= val <= old(self).dim(),
        ensures
            final(self).wf(),
            final(self).dim() == old(self).dim(),
            final(self).block() == old(self).block(),
            final(self).grid() == old(self).grid().update(row * old(self).dim() + col, val),
    {
        proof {
            self.lemma_cell_index(row as int, col as int);
        }
        self.cells.set_element(row, col, val);
    }

    /// The number of the block that holds cell `(row, col)`, counted row-major over blocks.
    pub fn block_no(&self, row: usize, col: usize) -> (r: usize)
        requires
            self.wf(),
            row < self.dim(),
            col < self.dim(),
        ensures
            r == block_of(self.block() as int, row as int, col as int),
            r < self.dim(),
    {
        proof {
            lemma_block_bound(self.block() as int, row as int, col as int);
        }
        let block_row = row / self.block_dimension;
        let block_col = col / self.block_dimension;
        block_col + block_row * self.block_dimension
    }
}

impl Sudoku {
    /// The content of the cell `(col, row)` named as a walk lists it.
    pub open spec fn value_at(&self, cell: (usize, usize)) -> usize {
        self.value(cell.1 as int, cell.0 as int)
    }

    /// Cell number `k` in row-major order is cell `(k / D, k % D)`.
    pub proof fn lemma_index_split(&self, k: int)
        requires
            self.wf(),
            0 <= k < self.dim() * self.dim(),
        ensures
            0 <= k / (self.dim() as int) < self.dim(),
            0 <= k % (self.dim() as int) < self.dim(),
            (k / (self.dim() as int)) * self.dim() + k % (self.dim() as int) == k,
    {
        let d = self.dim() as int;
        lemma_fundamental_div_mod(k, d);
        let (row, col) = (k / d, k % d);
        assert(0 <= row < d) by (nonlinear_arith)
            requires
                k == d * row + col,
                0 <= col < d,
                0 <= k < d * d,
                1 <= d,
        ;
        assert(row * d + col == k) by (nonlinear_arith)
            requires
                k == d * row + col,
        ;
    }

    /// The known cells `(row, col, value)` in row-major order.
    pub open spec fn completed(&self) -> Seq<(usize, usize, usize)> {
        completed_upto(self.grid(), self.dim() as int, (self.dim() * self.dim()) as int)
    }

    /// Each listed known cell lies in the grid and holds its listed value, which is in `[1, D]`.
    pub proof fn lemma_completed_in_grid(&self, i: int)
        requires
            self.wf(),
            0 <= i < self.completed().len(),
        ensures
            self.completed()[i].0 < self.dim(),
            self.completed()[i].1 < self.dim(),
            1 <= self.completed()[i].2 <= self.dim(),
            self.value(self.completed()[i].0 as int, self.completed()[i].1 as int) == self.completed()[i].2,
    {
        self.lemma_completed_upto_in_grid((self.dim() * self.dim()) as int, i);
    }

    proof fn lemma_completed_upto_in_grid(&self, k: int, i: int)
        requires
            self.wf(),
            0 <= k <= self.dim() * self.dim(),
            0 <= i < completed_upto(self.grid(), self.dim() as int, k).len(),
        ensures
            ({
                let t = completed_upto(self.grid(), self.dim() as int, k)[i];
                &&& t.0 < self.dim()
                &&& t.1 < self.dim()
                &&& 1 <= t.2 <= self.dim()
                &&& self.value(t.0 as int, t.1 as int) == t.2
            }),
        decreases k,
    {
        let prev = completed_upto(self.grid(), self.dim() as int, k - 1);
        if i < prev.len() {
            self.lemma_completed_upto_in_grid(k - 1, i);
        } else {
            self.lemma_index_split(k - 1);
        }
    }

    /// Whether this grid is a solution of `puzzle`: same shape, every cell known, no value
    /// repeated in a row, column or block, and every given of `puzzle` kept.
    pub open spec fn solves(&self, puzzle: &Sudoku) -> bool {
        &&& self.wf()
        &&& self.dim() == puzzle.dim()
        &&& self.block() == puzzle.block()
        &&& forall|i: int| 0 <= i < self.grid().len() ==> #[trigger] self.grid()[i] != EMPTY_CELL
        &&& self.consistent()
        &&& forall|i: int|
            0 <= i < puzzle.grid().len() && puzzle.grid()[i] != EMPTY_CELL ==> #[trigger] self.grid()[i]
                == puzzle.grid()[i]
    }

    /// The known cells `(row, col, value)` in row-major order.
    pub fn completed_cells(&self) -> (r: Vec<(usize, usize, usize)>)
        requires
            self.wf(),
        ensures
            r@ == self.completed(),
    {
        let mut completed_cells: Vec<(usize, usize, usize)> = Vec::new();
        let n = self.num_cells();
        let mut k: usize = 0;
        while k < n
            invariant
                self.wf(),
                n == self.dim() * self.dim(),
                k <= n,
                completed_cells@ == completed_upto(self.grid(), self.dim() as int, k as int),
            decreases n - k,
        {
            let row = k / self.dimension;
            let col = k % self.dimension;
            proof {
                self.lemma_index_split(k as int);
            }
            if let Some(val) = self.cell_value(row, col) {
                completed_cells.push((row, col, val));
            }
            k = k + 1;
        }
        completed_cells
    }

    /// How many cells are known.
    pub fn num_completed_cells(&self) -> (r: usize)
        requires
            self.wf(),
        ensures
            r == self.completed().len(),
    {
        self.completed_cells().len()
    }

    /// Whether every cell is known.
    pub fn is_completed(&self) -> (r: bool)
        requires
            self.wf(),
        ensures
            r == forall|i: int| 0 <= i < self.grid().len() ==> #[trigger] self.grid()[i] != EMPTY_CELL,
    {
        proof {
            lemma_completed_upto_len(self.grid(), self.dim() as int, self.grid().len() as int);
        }
        self.num_completed_cells() == self.cells.num_elements()
    }

    /// Whether every known cell of `puzzle` holds the same value here; both have one side.
    pub fn agrees_with(&self, puzzle: &Sudoku) -> (r: bool)
        requires
            self.wf(),
            puzzle.wf(),
            self.dim() == puzzle.dim(),
        ensures
            r == forall|i: int|
                0 <= i < puzzle.grid().len() && puzzle.grid()[i] != EMPTY_CELL ==> #[trigger] self.grid()[i]
                    == puzzle.grid()[i],
    {
        let n = self.num_cells();
        let mut k: usize = 0;
        while k < n
            invariant
                self.wf(),
                puzzle.wf(),
                self.dim() == puzzle.dim(),
                n == self.dim() * self.dim(),
                k <= n,
                forall|i: int|
                    0 <= i < k && puzzle.grid()[i] != EMPTY_CELL ==> #[trigger] self.grid()[i]
                        == puzzle.grid()[i],
            decreases n - k,
        {
            let row = k / self.dimension;
            let col = k % self.dimension;
            proof {
                self.lemma_index_split(k as int);
            }
            let given = *puzzle.cells.element(row, col);
            if given != EMPTY_CELL && *self.cells.element(row, col) != given {
                return false;
            }
            k = k + 1;
        }
        true
    }

    /// Whether no value appears twice in `region`, scanning its cells with a seen-set
    /// of one flag per value.
    fn is_region_consistent(&self, region: Region) -> (r: bool)
        requires
            self.wf(),
            Sudoku::region_index(region) < self.dim(),
        ensures
            r == self.region_consistent(region),
    {
        let ghost cells = self.region_cells(region);
        let mut completed: Vec<bool> = vec![false; self.dimension];
        let mut it = Iterator::region_iter(self, region);
        let ghost mut k: int = 0;
        proof {
            assert(cells.skip(0) =~= cells);
            assert forall|c: usize, r: usize| #[trigger] cells.contains((c, r)) implies r < self.dim()
                && c < self.dim() by {
                self.lemma_region_cells(region, c, r);
            }
            self.lemma_region_cells(region, 0, 0);
        }
        loop
            invariant
                self.wf(),
                Sudoku::region_index(region) < self.dim(),
                cells == self.region_cells(region),
                cells.no_duplicates(),
                forall|c: usize, r: usize| #[trigger] cells.contains((c, r)) ==> r < self.dim() && c < self.dim(),
                it.wf(),
                0 <= k <= cells.len(),
                it.remaining() == cells.skip(k),
                completed@.len() == self.dim(),
                forall|v: int|
                    1 <= v <= self.dim() ==> #[trigger] completed@[v - 1] == exists|j: int|
                        0 <= j < k && self.value_at(#[trigger] cells[j]) == v,
                forall|i: int, j: int|
                    0 <= i < j < k && self.value_at(#[trigger] cells[i]) != EMPTY_CELL ==> self.value_at(
                        cells[i],
                    ) != self.value_at(#[trigger] cells[j]),
            decreases cells.len() - k,
        {
            let next = it.next();
            match next {
                None => {
                    proof {
                        assert(k == cells.len());
                        assert forall|r1: int, c1: int, r2: int, c2: int|
                            self.in_region(region, r1, c1) && self.in_region(region, r2, c2) && (r1
                                != r2 || c1 != c2) && self.value(r1, c1)
                                != EMPTY_CELL implies self.value(r1, c1) != self.value(r2, c2) by {
                            self.lemma_in_region_bounds(region, r1, c1);
                            self.lemma_in_region_bounds(region, r2, c2);
                            self.lemma_region_cells(region, c1 as usize, r1 as usize);
                            self.lemma_region_cells(region, c2 as usize, r2 as usize);
                            let i = choose|i: int| 0 <= i < cells.len() && cells[i] == (c1 as usize, r1 as usize);
                            let j = choose|j: int| 0 <= j < cells.len() && cells[j] == (c2 as usize, r2 as usize);
                            assert(i != j);
                            assert(self.value_at(cells[i]) == self.value(r1, c1));
                            assert(self.value_at(cells[j]) == self.value(r2, c2));
                        }
                    }
                    return true;
                },
                Some(cell) => {
                    let (col, row) = cell;
                    proof {
                        assert(cells[k] == cell);
                        assert(cells.contains(cell));
                    }
                    if let Some(val) = self.cell_value(row, col) {
                        proof {
                            self.lemma_cell_index(row as int, col as int);
                        }
                        if completed[val - 1] {
                            proof {
                                let j = choose|j: int| 0 <= j < k && self.value_at(cells[j]) == val;
                                assert(cells[j] != cells[k]);
                                let (c2, r2) = cells[j];
                                assert(cells.contains((c2, r2)));
                                self.lemma_region_cells(region, col, row);
                                self.lemma_region_cells(region, c2, r2);
                                assert(self.in_region(region, r2 as int, c2 as int));
                                assert(self.in_region(region, row as int, col as int));
                                assert(self.value(r2 as int, c2 as int) == self.value(row as int, col as int));
                            }
                            return false;
                        } else {
                            completed.set(val - 1, true);
                        }
                    }
                    proof {
                        assert(it.remaining() =~= cells.skip(k + 1));
                        k = k + 1;
                    }
                },
            }
        }
    }

    /// Block, row and column number `j` each hold no value twice.
    pub open spec fn regions_consistent(&self, j: usize) -> bool {
        &&& self.region_consistent(Region::Block(j))
        &&& self.region_consistent(Region::Row(j))
        &&& self.region_consistent(Region::Col(j))
    }

    /// Whether no value appears twice in any row, column or block.
    pub fn is_consistent(&self) -> (r: bool)
        requires
            self.wf(),
        ensures
            r == self.consistent(),
    {
        let mut i: usize = 0;
        while i < self.dimension
            invariant
                self.wf(),
                i <= self.dim(),
                forall|j: usize| j < i ==> #[trigger] self.regions_consistent(j),
            decreases self.dim() - i,
        {
            if !self.is_region_consistent(Region::Block(i)) {
                proof {
                    self.lemma_inconsistent_region(Region::Block(i));
                }
                return false;
            }
            if !self.is_region_consistent(Region::Row(i)) {
                proof {
                    self.lemma_inconsistent_region(Region::Row(i));
                }
                return false;
            }
            if !self.is_region_consistent(Region::Col(i)) {
                proof {
                    self.lemma_inconsistent_region(Region::Col(i));
                }
                return false;
            }
            i = i + 1;
        }
        proof {
            let d = self.dim() as int;
            let b = self.block() as int;
            assert forall|r1: int, c1: int, r2: int, c2: int|
                0 <= r1 < d && 0 <= c1 < d && 0 <= r2 < d && 0 <= c2 < d && (r1 != r2 || c1 != c2) && (r1
                    == r2 || c1 == c2 || block_of(b, r1, c1) == block_of(b, r2, c2)) && self.value(r1, c1)
                    != EMPTY_CELL implies self.value(r1, c1) != self.value(r2, c2) by {
                if r1 == r2 {
                    let region = Region::Row(r1 as usize);
                    assert(self.regions_consistent(r1 as usize));
                    assert(self.in_region(region, r1, c1) && self.in_region(region, r2, c2));
                } else if c1 == c2 {
                    let region = Region::Col(c1 as usize);
                    assert(self.regions_consistent(c1 as usize));
                    assert(self.in_region(region, r1, c1) && self.in_region(region, r2, c2));
                } else {
                    let k = block_of(b, r1, c1);
                    lemma_block_bound(b, r1, c1);
                    let region = Region::Block(k as usize);
                    assert(self.regions_consistent(k as usize));
                    self.lemma_in_block(k, r1, c1);
                    self.lemma_in_block(k, r2, c2);
                    assert(self.in_region(region, r1, c1) && self.in_region(region, r2, c2));
                }
            }
        }
        true
    }

    /// A region with a repeated value makes the whole puzzle inconsistent.
    proof fn lemma_inconsistent_region(&self, region: Region)
        requires
            self.wf(),
            0 <= Sudoku::region_index(region) < self.dim(),
            !self.region_consistent(region),
        ensures
            !self.consistent(),
    {
        let (r1, c1, r2, c2) = choose|r1: int, c1: int, r2: int, c2: int|
            self.in_region(region, r1, c1) && self.in_region(region, r2, c2) && (r1 != r2 || c1 != c2)
                && self.value(r1, c1) != EMPTY_CELL && self.value(r1, c1) == self.value(r2, c2);
        self.lemma_in_region_bounds(region, r1, c1);
        self.lemma_in_region_bounds(region, r2, c2);
        if let Region::Block(k) = region {
            self.lemma_in_block(k as int, r1, c1);
            self.lemma_in_block(k as int, r2, c2);
        }
        assert(self.value(r1, c1) == self.value(r2, c2));
    }
}

/// Reads the tokens of `bs`, with their largest value; `None` when a value does not fit in
/// a machine word.
fn read_tokens(bs: &[u8]) -> (r: Option<(Vec<usize>, usize)>)
    ensures
        r is None <==> exists|j: int| 0 <= j < tokens(bs@).len() && #[trigger] tokens(bs@)[j] > usize::MAX,
        r matches Some((entries, max_val)) ==> entries@.len() == tokens(bs@).len() && (forall|j: int|
            0 <= j < entries@.len() ==> #[trigger] entries@[j] as nat == tokens(bs@)[j]) && max_val
            == max_of(tokens(bs@)),
{
    let mut entries: Vec<usize> = Vec::new();
    let mut max_val: usize = 0;
    let mut pending: usize = 0;
    let mut has_pending = false;
    let mut too_big = false;
    let mut bad = false;
    let mut i: usize = 0;
    while i < bs.len()
        invariant
            i <= bs@.len(),
            ({
                let (done, pend) = scan(bs@.take(i as int));
                &&& entries@.len() == done.len()
                &&& !bad ==> (forall|j: int| 0 <= j < done.len() ==> #[trigger] entries@[j] as nat == done[j])
                &&& !bad ==> max_val == max_of(done)
                &&& bad <==> exists|j: int| 0 <= j < done.len() && #[trigger] done[j] > usize::MAX
                &&& has_pending <==> pend is Some
                &&& has_pending && !too_big ==> pend == Some(pending as nat)
                &&& has_pending && too_big ==> pend.unwrap() > usize::MAX
                &&& !has_pending ==> !too_big
            }),
        decreases bs@.len() - i,
    {
        let c = bs[i];
        let ghost (done, pend) = scan(bs@.take(i as int));
        proof {
            assert(bs@.take(i + 1).drop_last() =~= bs@.take(i as int));
            assert(bs@.take(i + 1).last() == c);
        }
        if 48 <= c && c <= 57 {
            let digit = (c - 48) as usize;
            if !has_pending {
                pending = digit;
                has_pending = true;
            } else if !too_big {
                match pending.checked_mul(10) {
                    Some(t) => match t.checked_add(digit) {
                        Some(v) => {
                            pending = v;
                        },
                        None => {
                            too_big = true;
                        },
                    },
                    None => {
                        too_big = true;
                    },
                }
            }
        } else {
            if has_pending {
                if too_big {
                    bad = true;
                    entries.push(0);
                    proof {
                        let nd = done.push(pend.unwrap());
                        assert(nd[done.len() as int] > usize::MAX);
                    }
                } else {
                    entries.push(pending);
                    if pending > max_val {
                        max_val = pending;
                    }
                    proof {
                        let nd = done.push(pend.unwrap());
                        assert(nd.drop_last() =~= done);
                        assert(!bad ==> max_val == max_of(nd));
                        if bad {
                            let j = choose|j: int| 0 <= j < done.len() && #[trigger] done[j] > usize::MAX;
                            assert(nd[j] == done[j]);
                        } else {
                            assert forall|j: int| 0 <= j < nd.len() implies !(#[trigger] nd[j] > usize::MAX) by {
                                if j < done.len() {
                                    assert(nd[j] == done[j]);
                                }
                            }
                        }
                    }
                }
                has_pending = false;
                too_big = false;
            }
            if c == 46 {
                let ghost flushed = match pend {
                    Some(p) => done.push(p),
                    None => done,
                };
                entries.push(0);
                proof {
                    let nd = flushed.push(0);
                    assert(nd.drop_last() =~= flushed);
                    assert(!bad ==> max_val == max_of(flushed));
                    assert(!bad ==> max_of(nd) == max_of(flushed));
                    if bad {
                        let j = choose|j: int| 0 <= j < flushed.len() && #[trigger] flushed[j] > usize::MAX;
                        assert(nd[j] == flushed[j]);
                    } else {
                        assert forall|j: int| 0 <= j < nd.len() implies !(#[trigger] nd[j] > usize::MAX) by {
                            if j < flushed.len() {
                                assert(nd[j] == flushed[j]);
                            }
                        }
                    }
                }
            }
        }
        proof {
            let (nd, np) = scan(bs@.take(i + 1));
            assert(entries@.len() == nd.len());
            assert(!bad ==> (forall|j: int| 0 <= j < nd.len() ==> #[trigger] entries@[j] as nat == nd[j]));
            assert(!bad ==> max_val == max_of(nd));
            assert(bad ==> exists|j: int| 0 <= j < nd.len() && #[trigger] nd[j] > usize::MAX);
            assert((exists|j: int| 0 <= j < nd.len() && #[trigger] nd[j] > usize::MAX) ==> bad);
            assert(has_pending <==> np is Some);
            assert(has_pending && !too_big ==> np == Some(pending as nat));
            assert(has_pending && too_big ==> np.unwrap() > usize::MAX);
        }
        i = i + 1;
    }
    proof {
        assert(bs@.take(bs@.len() as int) =~= bs@);
    }
    let ghost (done, pend) = scan(bs@);
    if has_pending {
        if too_big {
            proof {
                assert(tokens(bs@) == done.push(pend.unwrap()));
                assert(tokens(bs@)[done.len() as int] > usize::MAX);
            }
            return None;
        }
        entries.push(pending);
        if pending > max_val {
            max_val = pending;
        }
        proof {
            let nd = done.push(pend.unwrap());
            assert(tokens(bs@) == nd);
            assert(nd.drop_last() =~= done);
            if bad {
                let j = choose|j: int| 0 <= j < done.len() && #[trigger] done[j] > usize::MAX;
                assert(nd[j] == done[j]);
            } else {
                assert forall|j: int| 0 <= j < nd.len() implies !(#[trigger] nd[j] > usize::MAX) by {
                    if j < done.len() {
                        assert(nd[j] == done[j]);
                    }
                }
            }
        }
    }
    proof {
        if !has_pending {
            assert(tokens(bs@) == done);
        }
        let t = tokens(bs@);
        if bad {
            let j = choose|j: int| 0 <= j < t.len() && #[trigger] t[j] > usize::MAX;
            assert(t[j] > usize::MAX);
        }
    }
    if bad {
        None
    } else {
        Some((entries, max_val))
    }
}

/// The character of decimal digit `d`.
pub open spec fn digit_char(d: nat) -> char {
    if d == 0 {
        '0'
    } else if d == 1 {
        '1'
    } else if d == 2 {
        '2'
    } else if d == 3 {
        '3'
    } else if d == 4 {
        '4'
    } else if d == 5 {
        '5'
    } else if d == 6 {
        '6'
    } else if d == 7 {
        '7'
    } else if d == 8 {
        '8'
    } else {
        '9'
    }
}

/// The decimal representation of `n`, without leading zeros.
pub open spec fn digits(n: nat) -> Seq<char>
    decreases n,
{
    if n < 10 {
        seq![digit_char(n)]
    } else {
        digits(n / 10).push(digit_char(n % 10))
    }
}

/// A larger number has at least as many digits, and a positive one no more digits than
/// its value.
pub proof fn lemma_digits_len(a: nat, b: nat)
    requires
        a <= b,
    ensures
        digits(a).len() <= digits(b).len(),
        1 <= digits(b).len(),
        b >= 1 ==> digits(b).len() <= b,
    decreases b,
{
    if b >= 10 {
        if a >= 10 {
            lemma_digits_len(a / 10, b / 10);
        } else {
            lemma_digits_len(0, b / 10);
        }
    }
}

/// The text of a cell: its value, or `.` when it is unknown.
pub open spec fn cell_text(v: usize) -> Seq<char> {
    if v == EMPTY_CELL {
        seq!['.']
    } else {
        digits(v as nat)
    }
}

/// `n` spaces.
pub open spec fn spaces(n: int) -> Seq<char> {
    Seq::new(n as nat, |i: int| ' ')
}

/// `n` dashes.
pub open spec fn dashes(n: int) -> Seq<char> {
    Seq::new(n as nat, |i: int| '-')
}

fn append_digit(out: &mut String, d: usize)
    requires
        d < 10,
    ensures
        final(out)@ == old(out)@.push(digit_char(d as nat)),
{
    proof {
        reveal_strlit("0");
        reveal_strlit("1");
        reveal_strlit("2");
        reveal_strlit("3");
        reveal_strlit("4");
        reveal_strlit("5");
        reveal_strlit("6");
        reveal_strlit("7");
        reveal_strlit("8");
        reveal_strlit("9");
    }
    let t = if d == 0 {
        "0"
    } else if d == 1 {
        "1"
    } else if d == 2 {
        "2"
    } else if d == 3 {
        "3"
    } else if d == 4 {
        "4"
    } else if d == 5 {
        "5"
    } else if d == 6 {
        "6"
    } else if d == 7 {
        "7"
    } else if d == 8 {
        "8"
    } else {
        "9"
    };
    out.append(t);
    assert(out@ =~= old(out)@.push(digit_char(d as nat)));
}

fn append_digits(out: &mut String, n: usize)
    ensures
        final(out)@ == old(out)@ + digits(n as nat),
    decreases n,
{
    if n >= 10 {
        append_digits(out, n / 10);
    }
    append_digit(out, n % 10);
    assert(out@ =~= old(out)@ + digits(n as nat));
}

fn append_repeated(out: &mut String, t: &str, c: Ghost<char>, n: usize)
    requires
        t@ == seq![c@],
    ensures
        final(out)@ == old(out)@ + Seq::new(n as nat, |i: int| c@),
{
    let mut k: usize = 0;
    while k < n
        invariant
            t@ == seq![c@],
            k <= n,
            out@ == old(out)@ + Seq::new(k as nat, |i: int| c@),
        decreases n - k,
    {
        out.append(t);
        k = k + 1;
        assert(out@ =~= old(out)@ + Seq::new(k as nat, |i: int| c@));
    }
}

/// The number of decimal digits of `n`.
fn decimal_width(n: usize) -> (w: usize)
    ensures
        w == digits(n as nat).len(),
    decreases n,
{
    if n < 10 {
        1
    } else {
        proof {
            lemma_digits_len(0, (n / 10) as nat);
        }
        decimal_width(n / 10) + 1
    }
}

impl Sudoku {
    /// The width of every cell's text: the number of digits of `D`.
    pub open spec fn cell_width(&self) -> nat {
        digits(self.dim()).len()
    }

    /// The horizontal rule above, between and below the block rows.
    pub open spec fn rule(&self) -> Seq<char> {
        dashes(((self.cell_width() + 1) * self.dim() + 2 * self.block() + 1) as int)
    }

    /// The first `k` cells of row `row`, each after a space and, at the start of a block,
    /// after `|` (preceded by a space except at the left edge), right-aligned to
    /// `cell_width`.
    pub open spec fn cells_text(&self, row: int, k: int) -> Seq<char>
        decreases k,
    {
        if k <= 0 {
            Seq::empty()
        } else {
            let col = k - 1;
            let sep = if col % (self.block() as int) == 0 {
                if col > 0 {
                    seq![' ', '|']
                } else {
                    seq!['|']
                }
            } else {
                Seq::empty()
            };
            let t = cell_text(self.value(row, col));
            self.cells_text(row, col) + sep + seq![' '] + spaces(self.cell_width() - t.len()) + t
        }
    }

    /// The line of row `row`.
    pub open spec fn row_text(&self, row: int) -> Seq<char> {
        self.cells_text(row, self.dim() as int) + seq![' ', '|', '\n']
    }

    /// The first `k` rows, each block row after a rule line.
    pub open spec fn rows_text(&self, k: int) -> Seq<char>
        decreases k,
    {
        if k <= 0 {
            Seq::empty()
        } else {
            let row = k - 1;
            let head = if row % (self.block() as int) == 0 {
                self.rule().push('\n')
            } else {
                Seq::empty()
            };
            self.rows_text(row) + head + self.row_text(row)
        }
    }

    /// The grid as text: the rows, then a closing rule.
    pub open spec fn rendered(&self) -> Seq<char> {
        self.rows_text(self.dim() as int) + self.rule()
    }

    /// The grid as text, with rules between block rows and `|` between block columns.
    pub fn to_string(&self) -> (r: String)
        requires
            self.wf(),
        ensures
            r@ == self.rendered(),
    {
        proof {
            reveal_strlit("-");
            reveal_strlit(" ");
            reveal_strlit("|");
            reveal_strlit("\n");
            reveal_strlit(".");
        }
        let d = self.dimension;
        let b = self.block_dimension;
        let chars_per_cell = decimal_width(d);
        let mut horiz_rule = String::new();
        let mut i: usize = 0;
        while i < d
            invariant
                i <= d,
                chars_per_cell == self.cell_width(),
                "-"@ == seq!['-'],
                horiz_rule@ == dashes(((chars_per_cell + 1) * i) as int),
            decreases d - i,
        {
            append_repeated(&mut horiz_rule, "-", Ghost('-'), chars_per_cell);
            append_repeated(&mut horiz_rule, "-", Ghost('-'), 1);
            proof {
                assert((chars_per_cell + 1) * (i + 1) == (chars_per_cell + 1) * i + chars_per_cell + 1)
                    by (nonlinear_arith);
            }
            assert(horiz_rule@ =~= dashes(((chars_per_cell + 1) * (i + 1)) as int));
            i = i + 1;
        }
        append_repeated(&mut horiz_rule, "-", Ghost('-'), b);
        append_repeated(&mut horiz_rule, "-", Ghost('-'), b);
        append_repeated(&mut horiz_rule, "-", Ghost('-'), 1);
        assert(horiz_rule@ =~= self.rule());
        let mut sud_str = String::new();
        let mut row: usize = 0;
        while row < d
            invariant
                self.wf(),
                d == self.dim(),
                b == self.block(),
                row <= d,
                chars_per_cell == self.cell_width(),
                horiz_rule@ == self.rule(),
                "-"@ == seq!['-'],
                " "@ == seq![' '],
                "|"@ == seq!['|'],
                "\n"@ == seq!['\n'],
                "."@ == seq!['.'],
                sud_str@ == self.rows_text(row as int),
            decreases d - row,
        {
            let ghost before_row = sud_str@;
            if row % b == 0 {
                sud_str.append(horiz_rule.as_str());
                sud_str.append("\n");
            }
            let ghost line_start = sud_str@;
            let mut col: usize = 0;
            while col < d
                invariant
                    self.wf(),
                    d == self.dim(),
                    b == self.block(),
                    row < d,
                    col <= d,
                    chars_per_cell == self.cell_width(),
                    " "@ == seq![' '],
                    "|"@ == seq!['|'],
                    "."@ == seq!['.'],
                    sud_str@ == line_start + self.cells_text(row as int, col as int),
                decreases d - col,
            {
                let ghost before_cell = sud_str@;
                if col % b == 0 {
                    if col > 0 {
                        sud_str.append(" ");
                    }
                    sud_str.append("|");
                }
                sud_str.append(" ");
                proof {
                    lemma_digits_len(0, d as nat);
                }
                match self.cell_value(row, col) {
                    Some(val) => {
                        proof {
                            self.lemma_cell_index(row as int, col as int);
                            lemma_digits_len(val as nat, d as nat);
                        }
                        let width = decimal_width(val);
                        append_repeated(&mut sud_str, " ", Ghost(' '), chars_per_cell - width);
                        append_digits(&mut sud_str, val);
                    },
                    None => {
                        append_repeated(&mut sud_str, " ", Ghost(' '), chars_per_cell - 1);
                        sud_str.append(".");
                    },
                }
                assert(sud_str@ =~= line_start + self.cells_text(row as int, col + 1));
                col = col + 1;
            }
            sud_str.append(" ");
            sud_str.append("|");
            sud_str.append("\n");
            assert(sud_str@ =~= self.rows_text(row + 1));
            row = row + 1;
        }
        sud_str.append(horiz_rule.as_str());
        sud_str
    }
}

impl Clone for Sudoku {
    fn clone(&self) -> (r: Self)
        ensures
            r.wf() == self.wf(),
            r.dim() == self.dim(),
            r.block() == self.block(),
            r.grid() == self.grid(),
    {
        let cells = self.cells.clone();
        assert(cells@ =~= self.cells@);
        Sudoku { cells, dimension: self.dimension, block_dimension: self.block_dimension }
    }
}

/// Walks the cells `(col, row)` of a rectangle of a puzzle in row-major order; the
/// rectangle is the given column and row ranges, cut to the puzzle's side.
pub struct Iterator {
    cols: Range<usize>,
    rows: Range<usize>,
    curr_id: Option<(usize, usize)>,
    dimension: usize,
}

impl Iterator {
    pub closed spec fn col_start(&self) -> int {
        self.cols.start as int
    }

    pub closed spec fn row_start(&self) -> int {
        self.rows.start as int
    }

    pub closed spec fn col_end(&self) -> int {
        if self.cols.end < self.dimension { self.cols.end as int } else { self.dimension as int }
    }

    pub closed spec fn row_end(&self) -> int {
        if self.rows.end < self.dimension { self.rows.end as int } else { self.dimension as int }
    }

    pub closed spec fn wf(&self) -> bool {
        match self.curr_id {
            None => true,
            Some((c, r)) => self.cols.start <= c < self.col_end() && self.rows.start <= r
                < self.row_end(),
        }
    }

    /// The cells still to come.
    pub closed spec fn remaining(&self) -> Seq<(usize, usize)> {
        match self.curr_id {
            None => Seq::empty(),
            Some((c, r)) => cells_from(
                c as int,
                r as int,
                self.cols.start as int,
                self.col_end(),
                self.row_end(),
            ),
        }
    }

    pub fn new(sudoku: &Sudoku, cols: Range<usize>, rows: Range<usize>) -> (it: Iterator)
        ensures
            it.wf(),
            it.remaining() == rect_cells(
                cols.start as int,
                if cols.end < sudoku.dim() { cols.end as int } else { sudoku.dim() as int },
                rows.start as int,
                if rows.end < sudoku.dim() { rows.end as int } else { sudoku.dim() as int },
            ),
    {
        let mut sud_iter = Iterator { cols, rows, curr_id: None, dimension: sudoku.dimension };
        sud_iter.reset();
        sud_iter
    }

    /// Walks block `block`.
    pub fn block_iter(sudoku: &Sudoku, block: usize) -> (it: Iterator)
        requires
            sudoku.wf(),
            block < sudoku.dim(),
        ensures
            it.wf(),
            it.remaining() == sudoku.region_cells(Region::Block(block)),
    {
        proof {
            sudoku.lemma_block_origin(block as int);
        }
        let col = (block % sudoku.block_dimension) * sudoku.block_dimension;
        let row = (block / sudoku.block_dimension) * sudoku.block_dimension;
        Iterator::new(sudoku, col..col + sudoku.block_dimension, row..row + sudoku.block_dimension)
    }

    /// Walks the block that holds `cell`, given as `(col, row)`.
    pub fn block_for_cell_iter(sudoku: &Sudoku, cell: (usize, usize)) -> (it: Iterator)
        requires
            sudoku.wf(),
            cell.0 < sudoku.dim(),
            cell.1 < sudoku.dim(),
        ensures
            it.wf(),
            it.remaining() == sudoku.region_cells(
                Region::Block(block_of(sudoku.block() as int, cell.1 as int, cell.0 as int) as usize),
            ),
    {
        let (col, row) = cell;
        proof {
            let b = sudoku.block() as int;
            let (ri, ci) = (row as int, col as int);
            let k = block_of(b, ri, ci);
            lemma_block_bound(b, ri, ci);
            lemma_fundamental_div_mod_converse(k, b, ri / b, ci / b);
            assert((ri / b) * b + b <= b * b && (ci / b) * b + b <= b * b) by (nonlinear_arith)
                requires
                    0 <= ri / b < b,
                    0 <= ci / b < b,
            ;
        }
        let col = col / sudoku.block_dimension * sudoku.block_dimension;
        let row = row / sudoku.block_dimension * sudoku.block_dimension;
        Iterator::new(sudoku, col..col + sudoku.block_dimension, row..row + sudoku.block_dimension)
    }

    /// Walks column `col` from top to bottom.
    pub fn col_iter(sudoku: &Sudoku, col: usize) -> (it: Iterator)
        requires
            sudoku.wf(),
            col < sudoku.dim(),
        ensures
            it.wf(),
            it.remaining() == sudoku.region_cells(Region::Col(col)),
    {
        Iterator::new(sudoku, col..col + 1, 0..sudoku.dimension)
    }

    /// Walks row `row` from left to right.
    pub fn row_iter(sudoku: &Sudoku, row: usize) -> (it: Iterator)
        requires
            sudoku.wf(),
            row < sudoku.dim(),
        ensures
            it.wf(),
            it.remaining() == sudoku.region_cells(Region::Row(row)),
    {
        Iterator::new(sudoku, 0..sudoku.dimension, row..row + 1)
    }

    /// Walks the cells of `region`.
    pub fn region_iter(sudoku: &Sudoku, region: Region) -> (it: Iterator)
        requires
            sudoku.wf(),
            Sudoku::region_index(region) < sudoku.dim(),
        ensures
            it.wf(),
            it.remaining() == sudoku.region_cells(region),
    {
        match region {
            Region::Block(block) => Iterator::block_iter(sudoku, block),
            Region::Col(col) => Iterator::col_iter(sudoku, col),
            Region::Row(row) => Iterator::row_iter(sudoku, row),
        }
    }

    /// Goes back to the first cell of the rectangle.
    pub fn reset(&mut self)
        ensures
            final(self).wf(),
            final(self).col_start() == old(self).col_start(),
            final(self).col_end() == old(self).col_end(),
            final(self).row_start() == old(self).row_start(),
            final(self).row_end() == old(self).row_end(),
            final(self).remaining() == rect_cells(
                old(self).col_start(),
                old(self).col_end(),
                old(self).row_start(),
                old(self).row_end(),
            ),
    {
        if self.cols.start >= self.cols.end || self.cols.start >= self.dimension
            || self.rows.start >= self.rows.end || self.rows.start >= self.dimension {
            self.curr_id = None;
        } else {
            self.curr_id = Some((self.cols.start, self.rows.start));
        }
    }

    /// The next cell, or `None` once the rectangle is walked.
    pub fn next(&mut self) -> (r: Option<(usize, usize)>)
        requires
            old(self).wf(),
        ensures
            final(self).wf(),
            old(self).remaining().len() == 0 ==> r is None && final(self).remaining().len() == 0,
            old(self).remaining().len() > 0 ==> r == Some(old(self).remaining()[0])
                && final(self).remaining() == old(self).remaining().drop_first(),
    {
        if let Some((col, row)) = self.curr_id {
            let this = self.curr_id;
            let mut next_col = col + 1;
            let mut next_row = row;
            if next_col >= self.cols.end || next_col >= self.dimension {
                next_col = self.cols.start;
                next_row = row + 1;
            }
            self.curr_id = if next_row >= self.rows.end || next_row >= self.dimension {
                None
            } else {
                Some((next_col, next_row))
            };
            proof {
                let c0 = self.cols.start as int;
                let c1 = self.col_end();
                let r1 = self.row_end();
                let s = cells_from(col as int, row as int, c0, c1, r1);
                assert(s == seq![(col, row)] + cells_from(col + 1, row as int, c0, c1, r1));
                assert(s.drop_first() =~= cells_from(col + 1, row as int, c0, c1, r1));
                if col + 1 >= c1 {
                    assert(cells_from(col + 1, row as int, c0, c1, r1) == cells_from(
                        c0,
                        row + 1,
                        c0,
                        c1,
                        r1,
                    ));
                    if row + 1 >= r1 {
                        assert(cells_from(c0, row + 1, c0, c1, r1) == Seq::<(usize, usize)>::empty());
                    }
                }
            }
            this
        } else {
            None
        }
    }
}

} // verus!
