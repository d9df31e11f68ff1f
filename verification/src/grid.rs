//! The mathematical model of a dense matrix.
use vstd::arithmetic::div_mod::lemma_fundamental_div_mod;
use vstd::arithmetic::div_mod::lemma_fundamental_div_mod_converse;
use vstd::prelude::*;

verus! {

/// A matrix of `rows` by `cols` entries, held row by row in `cells`.
#[verifier::ext_equal]
pub struct Grid<T> {
    pub rows: nat,
    pub cols: nat,
    pub cells: Seq<T>,
}

impl<T> Grid<T> {
    /// There is exactly one cell for each position.
    pub open spec fn wf(self) -> bool {
        self.cells.len() == self.rows * self.cols
    }

    /// Whether `(i, j)` is a position of this matrix.
    pub open spec fn has(self, i: int, j: int) -> bool {
        0 <= i < self.rows && 0 <= j < self.cols
    }

    /// The entry in row `i` and column `j`.
    pub open spec fn at(self, i: int, j: int) -> T
        recommends
            self.has(i, j),
    {
        self.cells[i * self.cols + j]
    }

    /// The matrix of the given shape whose entry at `(i, j)` is `f(i, j)`.
    pub open spec fn from_fn(rows: nat, cols: nat, f: spec_fn(int, int) -> T) -> Grid<T> {
        Grid {
            rows,
            cols,
            cells: Seq::new(rows * cols, |k: int| f(k / (cols as int), k % (cols as int))),
        }
    }

    /// The first `count` columns of this matrix.
    pub open spec fn leading_columns(self, count: nat) -> Grid<T>
        recommends
            count <= self.cols,
    {
        Grid::from_fn(self.rows, count, |i: int, j: int| self.at(i, j))
    }

    /// The first `count` rows of this matrix.
    pub open spec fn leading_rows(self, count: nat) -> Grid<T>
        recommends
            count <= self.rows,
    {
        Grid::from_fn(count, self.cols, |i: int, j: int| self.at(i, j))
    }

    /// The square matrix with `values` on its diagonal and `zero` elsewhere.
    pub open spec fn diagonal(values: Seq<T>, zero: T) -> Grid<T> {
        Grid::from_fn(
            values.len(),
            values.len(),
            |i: int, j: int|
                if i == j {
                    values[i]
                } else {
                    zero
                },
        )
    }
}

/// A position of a matrix lies at an index inside its cells.
pub proof fn lemma_cell_index_in_range(rows: nat, cols: nat, i: int, j: int)
    requires
        0 <= i < rows,
        0 <= j < cols,
    ensures
        0 <= i * cols + j < rows * cols,
{
    assert(0 <= i * cols && i * cols + cols <= rows * cols) by (nonlinear_arith)
        requires
            0 <= i < rows,
            0 <= cols,
    ;
}

/// The index of a position gives the position back.
pub proof fn lemma_cell_index_splits(cols: nat, i: int, j: int)
    requires
        0 <= j < cols,
    ensures
        (i * cols + j) / (cols as int) == i,
        (i * cols + j) % (cols as int) == j,
{
    lemma_fundamental_div_mod_converse(i * cols + j, cols as int, i, j);
}

/// An index inside the cells is the index of exactly one position.
pub proof fn lemma_cell_index_position(rows: nat, cols: nat, k: int)
    requires
        0 <= k < rows * cols,
    ensures
        cols > 0,
        0 <= k / (cols as int) < rows,
        0 <= k % (cols as int) < cols,
        k == (k / (cols as int)) * cols + k % (cols as int),
{
    assert(cols > 0) by (nonlinear_arith)
        requires
            0 <= k < rows * cols,
    ;
    let d = cols as int;
    lemma_fundamental_div_mod(k, d);
    let q = k / d;
    let r = k % d;
    assert(d * q == q * d) by (nonlinear_arith);
    assert(0 <= q < rows) by (nonlinear_arith)
        requires
            0 <= r < d,
            k == q * d + r,
            0 <= k < rows * d,
    ;
}

impl<T> Grid<T> {
    /// The entry of `from_fn` at a position is what `f` gives there.
    pub proof fn lemma_from_fn_at(rows: nat, cols: nat, f: spec_fn(int, int) -> T, i: int, j: int)
        requires
            0 <= i < rows,
            0 <= j < cols,
        ensures
            Grid::from_fn(rows, cols, f).at(i, j) == f(i, j),
    {
        lemma_cell_index_in_range(rows, cols, i, j);
        lemma_cell_index_splits(cols, i, j);
    }

    /// Two functions that agree at every position of a shape give the same
    /// matrix of that shape.
    pub proof fn lemma_from_fn_agrees(
        rows: nat,
        cols: nat,
        f: spec_fn(int, int) -> T,
        g: spec_fn(int, int) -> T,
    )
        requires
            forall|i: int, j: int|
                0 <= i < rows && 0 <= j < cols ==> #[trigger] f(i, j) == g(i, j),
        ensures
            Grid::from_fn(rows, cols, f) == Grid::from_fn(rows, cols, g),
    {
        let left = Grid::from_fn(rows, cols, f);
        let right = Grid::from_fn(rows, cols, g);
        assert forall|k: int| 0 <= k < rows * cols implies left.cells[k] == right.cells[k] by {
            lemma_cell_index_position(rows, cols, k);
        }
        assert(left.cells =~= right.cells);
    }

    /// Two well-formed matrices of one shape that agree at every position
    /// are equal.
    pub proof fn lemma_equal_by_entries(self, other: Grid<T>)
        requires
            self.wf(),
            other.wf(),
            self.rows == other.rows,
            self.cols == other.cols,
            forall|i: int, j: int| self.has(i, j) ==> self.at(i, j) == other.at(i, j),
        ensures
            self == other,
    {
        assert forall|k: int| 0 <= k < self.cells.len() implies self.cells[k] == other.cells[k] by {
            lemma_cell_index_position(self.rows, self.cols, k);
            let i = k / (self.cols as int);
            let j = k % (self.cols as int);
            assert(self.at(i, j) == other.at(i, j));
        }
    }
}

} // verus!
