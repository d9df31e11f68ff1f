//! Keeping the leading singular triplets of a factorization.
//!
//! A factorization of a matrix of `m` rows and `n` columns has three parts:
//! `u` with `m` rows, the singular values `sigma` in descending order, and
//! `vt` with `n` columns.  There are `min(m, n)` singular values, one for
//! each column of `u` and each row of `vt`.  Truncating to rank `r` keeps
//! the first `r` columns of `u`, the first `r` singular values as a square
//! diagonal matrix, and the first `r` rows of `vt`; the product of the three
//! is the approximation of rank `r`.  A rank beyond the number of singular
//! values keeps everything.
use crate::error::CompressError;
use crate::grid::Grid;
use crate::matrix::Matrix;
use vstd::prelude::*;

verus! {

/// The three parts of a factorization.
#[verifier::ext_equal]
pub struct Factors<T> {
    pub u: Grid<T>,
    pub sigma: Seq<T>,
    pub vt: Grid<T>,
}

/// The three parts that a truncation keeps, each as a matrix.
#[verifier::ext_equal]
pub struct TruncatedFactors<T> {
    pub u: Grid<T>,
    pub sigma: Grid<T>,
    pub vt: Grid<T>,
}

/// The number of singular triplets that are kept when `rank` are asked for
/// and `available` exist.
pub open spec fn effective_rank(rank: nat, available: nat) -> nat {
    if rank <= available {
        rank
    } else {
        available
    }
}

impl<T> Factors<T> {
    /// The number of rows of the factorized matrix.
    pub open spec fn rows(self) -> nat {
        self.u.rows
    }

    /// The number of columns of the factorized matrix.
    pub open spec fn cols(self) -> nat {
        self.vt.cols
    }

    /// The number of singular values of the factorized matrix: the smaller
    /// of its two dimensions.
    pub open spec fn rank_limit(self) -> nat {
        if self.rows() <= self.cols() {
            self.rows()
        } else {
            self.cols()
        }
    }

    /// The parts fit together: there are as many singular values as the
    /// factorized matrix has rows or columns, whichever is smaller, and as
    /// many columns of `u` and rows of `vt`.
    pub open spec fn wf(self) -> bool {
        &&& self.u.wf()
        &&& self.vt.wf()
        &&& self.sigma.len() == self.rank_limit()
        &&& self.u.cols == self.sigma.len()
        &&& self.vt.rows == self.sigma.len()
    }

    /// The parts kept by a truncation to `rank`, with `zero` off the
    /// diagonal of the singular values.
    pub open spec fn truncated(self, rank: nat, zero: T) -> TruncatedFactors<T> {
        let kept = effective_rank(rank, self.sigma.len());
        TruncatedFactors {
            u: self.u.leading_columns(kept),
            sigma: Grid::diagonal(self.sigma.take(kept as int), zero),
            vt: self.vt.leading_rows(kept),
        }
    }
}

/// A truncation keeps the shape of the factorized matrix: the three parts
/// are well-formed matrices of `rows` by `kept`, `kept` by `kept` and `kept`
/// by `cols` entries, where `kept` is the smaller of the rank asked for and
/// the number of singular values.
pub proof fn lemma_truncated_shapes<T>(factors: Factors<T>, rank: nat, zero: T)
    requires
        factors.wf(),
    ensures
        ({
            let kept = effective_rank(rank, factors.rank_limit());
            let parts = factors.truncated(rank, zero);
            &&& parts.u.wf() && parts.u.rows == factors.rows() && parts.u.cols == kept
            &&& parts.sigma.wf() && parts.sigma.rows == kept && parts.sigma.cols == kept
            &&& parts.vt.wf() && parts.vt.rows == kept && parts.vt.cols == factors.cols()
        }),
{
}

/// Asking for more singular triplets than there are is the same as asking
/// for all of them: every rank from the smaller dimension of the factorized
/// matrix upwards keeps the same parts.
pub proof fn lemma_rank_beyond_limit<T>(factors: Factors<T>, rank: nat, zero: T)
    requires
        factors.wf(),
        rank >= factors.rank_limit(),
    ensures
        factors.truncated(rank, zero) == factors.truncated(factors.rank_limit(), zero),
{
}

/// Keeping all singular triplets loses nothing: at every rank from the
/// smaller dimension of the factorized matrix upwards, the parts kept are
/// `u` and `vt` themselves, and the diagonal matrix of all singular values.
pub proof fn lemma_full_rank_keeps_all<T>(factors: Factors<T>, rank: nat, zero: T)
    requires
        factors.wf(),
        rank >= factors.rank_limit(),
    ensures
        factors.truncated(rank, zero).u == factors.u,
        factors.truncated(rank, zero).sigma == Grid::diagonal(factors.sigma, zero),
        factors.truncated(rank, zero).vt == factors.vt,
{
    let kept = factors.sigma.len();
    let parts = factors.truncated(rank, zero);
    assert forall|i: int, j: int| factors.u.has(i, j) implies parts.u.at(i, j) == factors.u.at(
        i,
        j,
    ) by {
        Grid::lemma_from_fn_at(
            factors.u.rows,
            kept,
            |i: int, j: int| factors.u.at(i, j),
            i,
            j,
        );
    }
    parts.u.lemma_equal_by_entries(factors.u);
    assert forall|i: int, j: int| factors.vt.has(i, j) implies parts.vt.at(i, j)
        == factors.vt.at(i, j) by {
        Grid::lemma_from_fn_at(
            kept,
            factors.vt.cols,
            |i: int, j: int| factors.vt.at(i, j),
            i,
            j,
        );
    }
    parts.vt.lemma_equal_by_entries(factors.vt);
}

/// Raising the rank only adds singular triplets: what a lower rank keeps is
/// the leading part of what a higher rank keeps.
pub proof fn lemma_truncation_nests<T>(factors: Factors<T>, lower: nat, higher: nat, zero: T)
    requires
        factors.wf(),
        lower <= higher,
    ensures
        ({
            let kept = effective_rank(lower, factors.rank_limit());
            let less = factors.truncated(lower, zero);
            let more = factors.truncated(higher, zero);
            &&& less.u == more.u.leading_columns(kept)
            &&& less.sigma == more.sigma.leading_rows(kept).leading_columns(kept)
            &&& less.vt == more.vt.leading_rows(kept)
        }),
{
    let kept = effective_rank(lower, factors.rank_limit());
    let wider = effective_rank(higher, factors.rank_limit());
    let more = factors.truncated(higher, zero);
    let values = factors.sigma.take(kept as int);
    let more_values = factors.sigma.take(wider as int);
    assert forall|i: int, j: int| 0 <= i < factors.u.rows && 0 <= j < kept implies factors.u.at(
        i,
        j,
    ) == more.u.at(i, j) by {
        Grid::lemma_from_fn_at(factors.u.rows, wider, |i: int, j: int| factors.u.at(i, j), i, j);
    }
    Grid::lemma_from_fn_agrees(
        factors.u.rows,
        kept,
        |i: int, j: int| factors.u.at(i, j),
        |i: int, j: int| more.u.at(i, j),
    );
    assert forall|i: int, j: int| 0 <= i < kept && 0 <= j < factors.vt.cols implies factors.vt.at(
        i,
        j,
    ) == more.vt.at(i, j) by {
        Grid::lemma_from_fn_at(wider, factors.vt.cols, |i: int, j: int| factors.vt.at(i, j), i, j);
    }
    Grid::lemma_from_fn_agrees(
        kept,
        factors.vt.cols,
        |i: int, j: int| factors.vt.at(i, j),
        |i: int, j: int| more.vt.at(i, j),
    );
    let block = more.sigma.leading_rows(kept);
    assert forall|i: int, j: int| 0 <= i < kept && 0 <= j < kept implies (if i == j {
        values[i]
    } else {
        zero
    }) == block.at(i, j) by {
        Grid::lemma_from_fn_at(
            wider,
            wider,
            |i: int, j: int|
                if i == j {
                    more_values[i]
                } else {
                    zero
                },
            i,
            j,
        );
        Grid::lemma_from_fn_at(kept, wider, |i: int, j: int| more.sigma.at(i, j), i, j);
    }
    Grid::lemma_from_fn_agrees(
        kept,
        kept,
        |i: int, j: int|
            if i == j {
                values[i]
            } else {
                zero
            },
        |i: int, j: int| block.at(i, j),
    );
}

/// A factorization whose parts fit together.
#[derive(Debug)]
pub struct Factorization<T> {
    u: Matrix<T>,
    sigma: Vec<T>,
    vt: Matrix<T>,
}

impl<T> View for Factorization<T> {
    type V = Factors<T>;

    closed spec fn view(&self) -> Factors<T> {
        Factors { u: self.u@, sigma: self.sigma@, vt: self.vt@ }
    }
}

impl<T> Factorization<T> {
    /// The parts of every factorization fit together.
    #[verifier::type_invariant]
    pub open spec fn inv(&self) -> bool {
        self@.wf()
    }

    /// The factorization with the given parts.  Parts that do not fit
    /// together are rejected.
    pub fn new(u: Matrix<T>, sigma: Vec<T>, vt: Matrix<T>) -> (r: Result<
        Factorization<T>,
        CompressError,
    >)
        ensures
            (Factors { u: u@, sigma: sigma@, vt: vt@ }).wf() ==> r.is_ok() && r.unwrap()@ == (
            Factors { u: u@, sigma: sigma@, vt: vt@ }),
            !(Factors { u: u@, sigma: sigma@, vt: vt@ }).wf() ==> r == Err::<
                Factorization<T>,
                CompressError,
            >(CompressError::Factorization),
    {
        proof {
            use_type_invariant(&u);
            use_type_invariant(&vt);
        }
        let available = clamp_rank(u.rows(), vt.cols());
        if sigma.len() == available && u.cols() == available && vt.rows() == available {
            Ok(Factorization { u, sigma, vt })
        } else {
            Err(CompressError::Factorization)
        }
    }

    /// The left singular vectors, one per column.
    pub fn u(&self) -> (u: &Matrix<T>)
        ensures
            u@ == self@.u,
    {
        &self.u
    }

    /// The singular values.
    pub fn sigma(&self) -> (sigma: &Vec<T>)
        ensures
            sigma@ == self@.sigma,
    {
        &self.sigma
    }

    /// The right singular vectors, one per row.
    pub fn vt(&self) -> (vt: &Matrix<T>)
        ensures
            vt@ == self@.vt,
    {
        &self.vt
    }
}

/// The parts kept by a truncation.
#[derive(Debug)]
pub struct Truncation<T> {
    pub u: Matrix<T>,
    pub sigma: Matrix<T>,
    pub vt: Matrix<T>,
}

impl<T> View for Truncation<T> {
    type V = TruncatedFactors<T>;

    open spec fn view(&self) -> TruncatedFactors<T> {
        TruncatedFactors { u: self.u@, sigma: self.sigma@, vt: self.vt@ }
    }
}

/// Accepts a rank of at least one.
pub fn check_rank(rank: usize) -> (r: Result<(), CompressError>)
    ensures
        rank >= 1 ==> r.is_ok(),
        rank == 0 ==> r == Err::<(), CompressError>(CompressError::InvalidRank),
{
    if rank == 0 {
        Err(CompressError::InvalidRank)
    } else {
        Ok(())
    }
}

/// The number of singular triplets that are kept when `rank` are asked for
/// and `available` exist.
pub fn clamp_rank(rank: usize, available: usize) -> (kept: usize)
    ensures
        kept == effective_rank(rank as nat, available as nat),
{
    if rank <= available {
        rank
    } else {
        available
    }
}

/// Truncates a factorization to `rank`, with `zero` off the diagonal of the
/// singular values.  A rank of zero is rejected.
pub fn truncate<T: Copy>(factorization: &Factorization<T>, rank: usize, zero: T) -> (r: Result<
    Truncation<T>,
    CompressError,
>)
    ensures
        rank >= 1 ==> r.is_ok() && r.unwrap()@ == factorization@.truncated(rank as nat, zero),
        rank == 0 ==> r == Err::<Truncation<T>, CompressError>(CompressError::InvalidRank),
{
    if rank == 0 {
        return Err(CompressError::InvalidRank);
    }
    let kept = clamp_rank(rank, factorization.sigma.len());
    proof {
        use_type_invariant(factorization);
        use_type_invariant(&factorization.u);
        let available = factorization@.sigma.len();
        assert(kept * kept <= factorization@.u.rows * available) by (nonlinear_arith)
            requires
                kept <= available,
                available <= factorization@.u.rows,
        ;
    }
    let u = factorization.u.leading_columns(kept).unwrap();
    let sigma = Matrix::diagonal(factorization.sigma.as_slice(), kept, zero).unwrap();
    let vt = factorization.vt.leading_rows(kept).unwrap();
    Ok(Truncation { u, sigma, vt })
}

} // verus!
