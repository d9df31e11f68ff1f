//! Splitting interleaved pixel bytes into one matrix per channel.
//!
//! A pixel buffer holds the pixels of an image row by row, and for each pixel
//! one byte per channel.  The matrix of a channel has one row per image
//! column and one column per image row: its entry at `(x, y)` is the sample
//! of that channel at the pixel in column `x` and row `y` of the image.
use crate::error::CompressError;
use crate::grid::lemma_cell_index_in_range;
use crate::grid::lemma_cell_index_splits;
use crate::grid::Grid;
use crate::matrix::views;
use crate::matrix::Matrix;
use vstd::prelude::*;

verus! {

/// Whether a buffer of `len` bytes holds exactly the pixels of an image of
/// the given size, with at least one channel.
pub open spec fn well_formed_buffer(len: nat, width: nat, height: nat, channels: nat) -> bool {
    channels >= 1 && len == width * height * channels
}

/// Where the sample of channel `c` at the pixel in column `x` and row `y`
/// lies in the buffer.
pub open spec fn sample_index(width: nat, channels: nat, x: int, y: int, c: int) -> int {
    (y * width + x) * channels + c
}

/// The matrix of channel `c`: `width` rows and `height` columns.
pub open spec fn channel_grid(
    buffer: Seq<u8>,
    width: nat,
    height: nat,
    channels: nat,
    c: int,
) -> Grid<u8> {
    Grid::from_fn(
        width,
        height,
        |x: int, y: int| buffer[sample_index(width, channels, x, y, c)],
    )
}

/// The matrices of all channels, in channel order.
pub open spec fn channel_grids(buffer: Seq<u8>, width: nat, height: nat, channels: nat) -> Seq<
    Grid<u8>,
> {
    Seq::new(channels, |c: int| channel_grid(buffer, width, height, channels, c))
}

/// Every sample of an image lies inside its buffer.
pub proof fn lemma_sample_index_in_range(
    width: nat,
    height: nat,
    channels: nat,
    x: int,
    y: int,
    c: int,
)
    requires
        0 <= x < width,
        0 <= y < height,
        0 <= c < channels,
    ensures
        0 <= y * width + x < width * height,
        0 <= sample_index(width, channels, x, y, c) < width * height * channels,
{
    lemma_cell_index_in_range(height, width, y, x);
    assert(height * width == width * height) by (nonlinear_arith);
    lemma_cell_index_in_range(width * height, channels, y * width + x, c);
}

/// The entry `(x, y)` of the matrix of channel `c` is the sample of that
/// channel at the pixel in column `x` and row `y`.
pub proof fn lemma_channel_grid_at(
    buffer: Seq<u8>,
    width: nat,
    height: nat,
    channels: nat,
    c: int,
    x: int,
    y: int,
)
    requires
        0 <= x < width,
        0 <= y < height,
    ensures
        channel_grid(buffer, width, height, channels, c).at(x, y) == buffer[sample_index(
            width,
            channels,
            x,
            y,
            c,
        )],
{
    Grid::lemma_from_fn_at(
        width,
        height,
        |x: int, y: int| buffer[sample_index(width, channels, x, y, c)],
        x,
        y,
    );
}

/// Splits a pixel buffer into one matrix per channel.
///
/// The buffer must hold `width * height` pixels of `channel_count` bytes
/// each, and there must be at least one channel; any other input is
/// rejected as malformed.
pub fn extract(buffer: &[u8], width: usize, height: usize, channel_count: usize) -> (r: Result<
    Vec<Matrix<u8>>,
    CompressError,
>)
    ensures
        well_formed_buffer(buffer@.len(), width as nat, height as nat, channel_count as nat)
            ==> r.is_ok() && r.unwrap().len() == channel_count && views(r.unwrap()@)
            == channel_grids(buffer@, width as nat, height as nat, channel_count as nat),
        !well_formed_buffer(buffer@.len(), width as nat, height as nat, channel_count as nat)
            ==> r == Err::<Vec<Matrix<u8>>, CompressError>(CompressError::MalformedBuffer),
{
    let len = buffer.len();
    if channel_count == 0 {
        return Err(CompressError::MalformedBuffer);
    }
    let pixels = match width.checked_mul(height) {
        Some(n) => n,
        None => {
            assert(width * height * channel_count >= width * height) by (nonlinear_arith)
                requires
                    channel_count >= 1,
            ;
            return Err(CompressError::MalformedBuffer);
        },
    };
    let total = match pixels.checked_mul(channel_count) {
        Some(n) => n,
        None => {
            return Err(CompressError::MalformedBuffer);
        },
    };
    if total != len {
        return Err(CompressError::MalformedBuffer);
    }
    let mut matrices: Vec<Matrix<u8>> = Vec::new();
    let mut c: usize = 0;
    while c < channel_count
        invariant
            well_formed_buffer(buffer@.len(), width as nat, height as nat, channel_count as nat),
            c <= channel_count,
            matrices.len() == c,
            forall|k: int|
                0 <= k < c ==> (#[trigger] matrices[k])@ == channel_grid(
                    buffer@,
                    width as nat,
                    height as nat,
                    channel_count as nat,
                    k,
                ),
        decreases channel_count - c,
    {
        let m = extract_channel(buffer, width, height, channel_count, c);
        matrices.push(m);
        c += 1;
    }
    assert(views(matrices@) =~= channel_grids(
        buffer@,
        width as nat,
        height as nat,
        channel_count as nat,
    ));
    Ok(matrices)
}

/// The matrix of one channel of a well-formed buffer.
fn extract_channel(
    buffer: &[u8],
    width: usize,
    height: usize,
    channel_count: usize,
    c: usize,
) -> (m: Matrix<u8>)
    requires
        well_formed_buffer(buffer.len() as nat, width as nat, height as nat, channel_count as nat),
        c < channel_count,
    ensures
        m@ == channel_grid(buffer@, width as nat, height as nat, channel_count as nat, c as int),
{
    assert(width * height <= width * height * channel_count) by (nonlinear_arith)
        requires
            channel_count >= 1,
    ;
    let mut data: Vec<u8> = Vec::with_capacity(width * height);
    let mut x: usize = 0;
    while x < width
        invariant
            well_formed_buffer(buffer.len() as nat, width as nat, height as nat, channel_count as nat),
            c < channel_count,
            x <= width,
            data.len() == x * height,
            forall|k: int|
                0 <= k < data.len() ==> data[k] == buffer[sample_index(
                    width as nat,
                    channel_count as nat,
                    k / (height as int),
                    k % (height as int),
                    c as int,
                )],
        decreases width - x,
    {
        let mut y: usize = 0;
        while y < height
            invariant
                well_formed_buffer(
                    buffer.len() as nat,
                    width as nat,
                    height as nat,
                    channel_count as nat,
                ),
                    c < channel_count,
                x < width,
                y <= height,
                data.len() == x * height + y,
                forall|k: int|
                    0 <= k < data.len() ==> data[k] == buffer[sample_index(
                        width as nat,
                        channel_count as nat,
                        k / (height as int),
                        k % (height as int),
                        c as int,
                    )],
            decreases height - y,
        {
            proof {
                lemma_sample_index_in_range(
                    width as nat,
                    height as nat,
                    channel_count as nat,
                    x as int,
                    y as int,
                    c as int,
                );
                lemma_cell_index_splits(height as nat, x as int, y as int);
                assert(width * height <= width * height * channel_count) by (nonlinear_arith)
                    requires
                        channel_count >= 1,
                ;
                assert(0 <= y * width) by (nonlinear_arith);
                assert(0 <= (y * width + x) * channel_count) by (nonlinear_arith);
            }
            data.push(buffer[(y * width + x) * channel_count + c]);
            y += 1;
        }
        assert(x * height + height == (x + 1) * height) by (nonlinear_arith);
        x += 1;
    }
    let m = Matrix::from_vec(width, height, data).unwrap();
    assert(m@.cells =~= channel_grid(
        buffer@,
        width as nat,
        height as nat,
        channel_count as nat,
        c as int,
    ).cells);
    m
}

} // verus!
