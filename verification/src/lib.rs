//! Low-rank image compression: the exact part.
//!
//! An image is split into one matrix per channel, each matrix is factorized
//! by a singular value decomposition, the leading singular triplets are kept,
//! and the approximated channels are merged back into pixel bytes.  This
//! crate holds every step of that pipeline that is exact: the layout of
//! samples in channel matrices, the selection of the leading factors, and
//! the clamping and interleaving of the approximated samples.  The numeric
//! steps (the decomposition, the matrix product, the rounding) are left to
//! the caller, which is why the matrix type is generic in its entries.
pub mod error;
pub mod extract;
pub mod grid;
pub mod matrix;
pub mod recombine;
pub mod roundtrip;
pub mod truncate;
