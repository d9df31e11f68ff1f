//! The ways in which a compression pass can fail.
use vstd::prelude::*;

verus! {

/// A failure of the compression pipeline.  Every failure is fatal for the
/// image at hand: no partial output is ever produced.
#[derive(Clone, Copy, Debug, PartialEq, Eq, Structural)]
pub enum CompressError {
    /// The pixel data does not fit the declared width, height and number of
    /// channels.
    MalformedBuffer,
    /// The parts of a factorization do not fit together.
    Factorization,
    /// The requested rank is zero.
    InvalidRank,
}

} // verus!
