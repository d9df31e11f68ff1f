//! Merging approximated channel matrices back into pixel bytes.
//!
//! The entries of the matrices are the approximated samples, already rounded
//! to whole numbers.  Each is clamped to the range of a byte, and the bytes
//! are laid out as in the buffer that the channels were taken from: pixel by
//! pixel along the image rows, and one byte per channel within a pixel.
use crate::error::CompressError;
use crate::extract::lemma_sample_index_in_range;
use crate::extract::sample_index;
use crate::grid::lemma_cell_index_in_range;
use crate::grid::lemma_cell_index_splits;
use crate::grid::Grid;
use crate::matrix::views;
use crate::matrix::Matrix;
use vstd::prelude::*;

verus! {

/// The byte nearest to a whole number: 0 below the range of a byte, 255
/// above it, the number itself inside.
pub open spec fn clamp_to_sample(value: int) -> u8 {
    if value < 0 {
        0u8
    } else if value > 255 {
        255u8
    } else {
        value as u8
    }
}

/// Whether there is at least one channel and all channels are well-formed
/// matrices of one shape.
pub open spec fn same_shape<T>(channels: Seq<Grid<T>>) -> bool {
    &&& channels.len() >= 1
    &&& forall|c: int|
        0 <= c < channels.len() ==> {
            &&& (#[trigger] channels[c]).wf()
            &&& channels[c].rows == channels[0].rows
            &&& channels[c].cols == channels[0].cols
        }
}

/// The number of bytes that the channels merge into.
pub open spec fn interleaved_len<T>(channels: Seq<Grid<T>>) -> nat {
    channels[0].rows * channels[0].cols * channels.len()
}

/// The pixel bytes that the channels merge into.  The byte at index `k`
/// belongs to channel `k % n` of pixel `k / n`, where `n` is the number of
/// channels; pixel `p` lies in column `p % width` and row `p / width` of the
/// image, and the channel matrices have one row per image column.
pub open spec fn interleaved(channels: Seq<Grid<i64>>) -> Seq<u8> {
    let width = channels[0].rows as int;
    let count = channels.len() as int;
    Seq::new(
        interleaved_len(channels),
        |k: int|
            clamp_to_sample(
                channels[k % count].at((k / count) % width, (k / count) / width) as int,
            ),
    )
}

/// Every sample is clamped, and lies where splitting reads it: the byte at
/// the place of channel `c` of the pixel in column `x` and row `y` is the
/// clamped entry `(x, y)` of the matrix of channel `c`.
pub proof fn lemma_interleaved_at(channels: Seq<Grid<i64>>, x: int, y: int, c: int)
    requires
        same_shape(channels),
        0 <= c < channels.len(),
        channels[c].has(x, y),
    ensures
        0 <= sample_index(channels[0].rows, channels.len(), x, y, c) < interleaved(
            channels,
        ).len(),
        interleaved(channels)[sample_index(channels[0].rows, channels.len(), x, y, c)]
            == clamp_to_sample(channels[c].at(x, y) as int),
{
    let width = channels[0].rows;
    let height = channels[0].cols;
    lemma_sample_index_in_range(width, height, channels.len(), x, y, c);
    lemma_cell_index_splits(channels.len(), y * width + x, c);
    lemma_cell_index_splits(width, y, x);
}

/// Clamps a rounded sample to the range of a byte.
pub fn clamp_sample(value: i64) -> (sample: u8)
    ensures
        sample == clamp_to_sample(value as int),
{
    if value < 0 {
        0
    } else if value > 255 {
        255
    } else {
        value as u8
    }
}

/// Merges the channels into one pixel buffer.
///
/// The channels must be one or more matrices of one shape, with one row per
/// image column, and the merged buffer must not be longer than a buffer can
/// be; any other input is rejected as malformed.
pub fn recombine(channels: &[Matrix<i64>]) -> (r: Result<Vec<u8>, CompressError>)
    ensures
        same_shape(views(channels@)) && interleaved_len(views(channels@)) <= usize::MAX
            ==> r.is_ok() && r.unwrap()@ == interleaved(views(channels@)),
        !(same_shape(views(channels@)) && interleaved_len(views(channels@)) <= usize::MAX)
            ==> r == Err::<Vec<u8>, CompressError>(CompressError::MalformedBuffer),
{
    let count = channels.len();
    if count == 0 {
        return Err(CompressError::MalformedBuffer);
    }
    let ghost grids = views(channels@);
    let width = channels[0].rows();
    let height = channels[0].cols();
    let mut c: usize = 0;
    while c < count
        invariant
            count == channels@.len(),
            grids == views(channels@),
            width == grids[0].rows,
            height == grids[0].cols,
            c <= count,
            forall|k: int|
                0 <= k < c ==> {
                    &&& (#[trigger] grids[k]).wf()
                    &&& grids[k].rows == width
                    &&& grids[k].cols == height
                },
        decreases count - c,
    {
        let m = &channels[c];
        proof {
            use_type_invariant(m);
            assert(grids[c as int] == m@);
        }
        if m.rows() != width || m.cols() != height {
            return Err(CompressError::MalformedBuffer);
        }
        c += 1;
    }
    let pixels = channels[0].cells().len();
    let total = match pixels.checked_mul(count) {
        Some(n) => n,
        None => {
            return Err(CompressError::MalformedBuffer);
        },
    };
    let mut out: Vec<u8> = Vec::with_capacity(total);
    let mut y: usize = 0;
    assert(0 * width * count == 0) by (nonlinear_arith);
    while y < height
        invariant
            count == channels@.len(),
            grids == views(channels@),
            same_shape(grids),
            width == grids[0].rows,
            height == grids[0].cols,
            total == width * height * count,
            y <= height,
            out.len() == y * width * count,
            forall|k: int| 0 <= k < out.len() ==> out[k] == interleaved(grids)[k],
        decreases height - y,
    {
        let mut x: usize = 0;
        while x < width
            invariant
                count == channels@.len(),
                grids == views(channels@),
                same_shape(grids),
                width == grids[0].rows,
                height == grids[0].cols,
                total == width * height * count,
                y < height,
                x <= width,
                out.len() == (y * width + x) * count,
                forall|k: int| 0 <= k < out.len() ==> out[k] == interleaved(grids)[k],
            decreases width - x,
        {
            let mut c: usize = 0;
            while c < count
                invariant
                    count == channels@.len(),
                    grids == views(channels@),
                    same_shape(grids),
                    width == grids[0].rows,
                    height == grids[0].cols,
                    total == width * height * count,
                    y < height,
                    x < width,
                    c <= count,
                    out.len() == (y * width + x) * count + c,
                    forall|k: int| 0 <= k < out.len() ==> out[k] == interleaved(grids)[k],
                decreases count - c,
            {
                proof {
                    let p = y * width + x;
                    lemma_cell_index_in_range(height as nat, width as nat, y as int, x as int);
                    lemma_cell_index_splits(width as nat, y as int, x as int);
                    assert(height * width == width * height) by (nonlinear_arith);
                    lemma_cell_index_in_range(
                        (width * height) as nat,
                        count as nat,
                        p,
                        c as int,
                    );
                    lemma_cell_index_splits(count as nat, p, c as int);
                    assert(grids[c as int].wf());
                }
                let value = channels[c].entry(x, y);
                out.push(clamp_sample(value));
                c += 1;
            }
            assert((y * width + x) * count + count == (y * width + (x + 1)) * count)
                by (nonlinear_arith);
            x += 1;
        }
        assert((y * width + width) * count == (y + 1) * width * count) by (nonlinear_arith);
        y += 1;
    }
    assert(height * width * count == width * height * count) by (nonlinear_arith);
    Ok(out)
}

} // verus!
