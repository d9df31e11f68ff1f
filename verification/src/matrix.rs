//! A dense matrix held row by row.
use crate::grid::lemma_cell_index_in_range;
use crate::grid::lemma_cell_index_position;
use crate::grid::lemma_cell_index_splits;
use crate::grid::Grid;
use vstd::prelude::*;

verus! {

/// A dense matrix of `rows` by `cols` entries.  Its view is the [`Grid`] with
/// the same shape and entries.
#[derive(Debug)]
pub struct Matrix<T> {
    rows: usize,
    cols: usize,
    data: Vec<T>,
}

impl<T> View for Matrix<T> {
    type V = Grid<T>;

    closed spec fn view(&self) -> Grid<T> {
        Grid { rows: self.rows as nat, cols: self.cols as nat, cells: self.data@ }
    }
}

/// The views of a sequence of matrices, in the same order.
pub open spec fn views<T>(matrices: Seq<Matrix<T>>) -> Seq<Grid<T>> {
    Seq::new(matrices.len(), |c: int| matrices[c]@)
}

impl<T> Matrix<T> {
    /// Every matrix has one cell for each of its positions, and no more
    /// cells than can be counted.
    #[verifier::type_invariant]
    pub open spec fn inv(&self) -> bool {
        self@.wf() && self@.cells.len() <= usize::MAX
    }

    /// The matrix of the given shape with the given cells, row by row.
    /// There is none if the number of cells does not fit the shape.
    pub fn from_vec(rows: usize, cols: usize, data: Vec<T>) -> (r: Option<Matrix<T>>)
        ensures
            data.len() == rows * cols ==> r.is_some() && r.unwrap()@ == (Grid {
                rows: rows as nat,
                cols: cols as nat,
                cells: data@,
            }),
            data.len() != rows * cols ==> r.is_none(),
    {
        match rows.checked_mul(cols) {
            Some(n) => {
                if n == data.len() {
                    Some(Matrix { rows, cols, data })
                } else {
                    None
                }
            },
            None => None,
        }
    }

    /// The number of rows.
    pub fn rows(&self) -> (n: usize)
        ensures
            n == self@.rows,
    {
        self.rows
    }

    /// The number of columns.
    pub fn cols(&self) -> (n: usize)
        ensures
            n == self@.cols,
    {
        self.cols
    }

    /// The cells, row by row.
    pub fn cells(&self) -> (cells: &Vec<T>)
        ensures
            cells@ == self@.cells,
    {
        &self.data
    }

    /// The cells, row by row.
    pub fn into_cells(self) -> (cells: Vec<T>)
        ensures
            cells@ == self@.cells,
    {
        self.data
    }
}

impl<T: Copy> Matrix<T> {
    /// The entry in row `i` and column `j`, if there is such a position.
    pub fn get(&self, i: usize, j: usize) -> (r: Option<T>)
        ensures
            self@.has(i as int, j as int) ==> r == Some(self@.at(i as int, j as int)),
            !self@.has(i as int, j as int) ==> r.is_none(),
    {
        if i < self.rows && j < self.cols {
            Some(self.entry(i, j))
        } else {
            None
        }
    }

    /// The entry at a position that is known to exist.
    pub(crate) fn entry(&self, i: usize, j: usize) -> (value: T)
        requires
            self@.has(i as int, j as int),
        ensures
            value == self@.at(i as int, j as int),
    {
        proof {
            use_type_invariant(self);
            lemma_cell_index_in_range(self.rows as nat, self.cols as nat, i as int, j as int);
            assert(0 <= i * self.cols) by (nonlinear_arith);
        }
        self.data[i * self.cols + j]
    }

    /// The first `count` columns, or nothing if there are fewer columns.
    pub fn leading_columns(&self, count: usize) -> (r: Option<Matrix<T>>)
        ensures
            count <= self@.cols ==> r.is_some() && r.unwrap()@ == self@.leading_columns(
                count as nat,
            ),
            count > self@.cols ==> r.is_none(),
    {
        if count > self.cols {
            return None;
        }
        proof {
            use_type_invariant(self);
            assert(self.rows * count <= self.rows * self.cols) by (nonlinear_arith)
                requires
                    count <= self.cols,
            ;
        }
        let mut data: Vec<T> = Vec::with_capacity(self.rows * count);
        let mut i: usize = 0;
        while i < self.rows
            invariant
                self@.wf(),
                count <= self.cols,
                self.rows * count <= usize::MAX,
                i <= self.rows,
                data.len() == i * count,
                forall|k: int|
                    0 <= k < data.len() ==> data[k] == self@.at(
                        k / (count as int),
                        k % (count as int),
                    ),
            decreases self.rows - i,
        {
            let mut j: usize = 0;
            while j < count
                invariant
                    self@.wf(),
                    count <= self.cols,
                    self.rows * count <= usize::MAX,
                    i < self.rows,
                    j <= count,
                    data.len() == i * count + j,
                    forall|k: int|
                        0 <= k < data.len() ==> data[k] == self@.at(
                            k / (count as int),
                            k % (count as int),
                        ),
                decreases count - j,
            {
                proof {
                    lemma_cell_index_splits(count as nat, i as int, j as int);
                }
                let value = self.entry(i, j);
                data.push(value);
                j += 1;
            }
            assert(i * count + count == (i + 1) * count) by (nonlinear_arith);
            i += 1;
        }
        let m = Matrix { rows: self.rows, cols: count, data };
        Some(m)
    }

    /// The first `count` rows, or nothing if there are fewer rows.
    pub fn leading_rows(&self, count: usize) -> (r: Option<Matrix<T>>)
        ensures
            count <= self@.rows ==> r.is_some() && r.unwrap()@ == self@.leading_rows(count as nat),
            count > self@.rows ==> r.is_none(),
    {
        if count > self.rows {
            return None;
        }
        proof {
            use_type_invariant(self);
            assert(count * self.cols <= self.rows * self.cols) by (nonlinear_arith)
                requires
                    count <= self.rows,
            ;
        }
        let total = count * self.cols;
        let mut data: Vec<T> = Vec::with_capacity(total);
        let mut k: usize = 0;
        while k < total
            invariant
                total == count * self.cols,
                total <= self.data.len(),
                k <= total,
                data.len() == k,
                forall|n: int| 0 <= n < k ==> data[n] == self.data[n],
            decreases total - k,
        {
            data.push(self.data[k]);
            k += 1;
        }
        let m = Matrix { rows: count, cols: self.cols, data };
        proof {
            let expected = self@.leading_rows(count as nat);
            assert forall|n: int| 0 <= n < total implies m@.cells[n] == expected.cells[n] by {
                lemma_cell_index_position(count as nat, self.cols as nat, n);
            }
        }
        Some(m)
    }

    /// The square matrix with the first `count` of `values` on its diagonal
    /// and `zero` elsewhere.  There is none if there are fewer values, or if
    /// the matrix would have more cells than can be counted.
    pub fn diagonal(values: &[T], count: usize, zero: T) -> (r: Option<Matrix<T>>)
        ensures
            count <= values.len() && count * count <= usize::MAX ==> r.is_some() && r.unwrap()@
                == Grid::diagonal(values@.take(count as int), zero),
            count > values.len() || count * count > usize::MAX ==> r.is_none(),
    {
        if count > values.len() {
            return None;
        }
        let total = match count.checked_mul(count) {
            Some(n) => n,
            None => {
                return None;
            },
        };
        let ghost kept = values@.take(count as int);
        let mut data: Vec<T> = Vec::new();
        let mut i: usize = 0;
        while i < count
            invariant
                count <= values.len(),
                total == count * count,
                kept == values@.take(count as int),
                i <= count,
                data.len() == i * count,
                forall|k: int|
                    0 <= k < data.len() ==> data[k] == (if k / (count as int) == k % (count as int) {
                        kept[k / (count as int)]
                    } else {
                        zero
                    }),
            decreases count - i,
        {
            let mut j: usize = 0;
            while j < count
                invariant
                    count <= values.len(),
                    total == count * count,
                    kept == values@.take(count as int),
                    i < count,
                    j <= count,
                    data.len() == i * count + j,
                    forall|k: int|
                        0 <= k < data.len() ==> data[k] == (if k / (count as int) == k % (
                        count as int) {
                            kept[k / (count as int)]
                        } else {
                            zero
                        }),
                decreases count - j,
            {
                proof {
                    lemma_cell_index_splits(count as nat, i as int, j as int);
                }
                if i == j {
                    data.push(values[i]);
                } else {
                    data.push(zero);
                }
                j += 1;
            }
            assert(i * count + count == (i + 1) * count) by (nonlinear_arith);
            i += 1;
        }
        let m = Matrix { rows: count, cols: count, data };
        Some(m)
    }
}

} // verus!
