//! How splitting and merging fit together.
//!
//! Merging reads the channel matrices in the layout that splitting wrote
//! them in, so a buffer that is split and merged without any loss in between
//! comes back byte for byte, and whatever is done to the samples in between,
//! the merged buffer is as long as the one that was split.
use crate::extract::channel_grid;
use crate::extract::channel_grids;
use crate::extract::lemma_channel_grid_at;
use crate::extract::well_formed_buffer;
use crate::grid::lemma_cell_index_in_range;
use crate::grid::lemma_cell_index_position;
use crate::grid::Grid;
use crate::recombine::interleaved;
use crate::recombine::interleaved_len;
use crate::recombine::same_shape;
use vstd::prelude::*;

verus! {

/// The samples of a channel as whole numbers.
pub open spec fn exact_samples(channel: Grid<u8>) -> Grid<i64> {
    Grid {
        rows: channel.rows,
        cols: channel.cols,
        cells: Seq::new(channel.cells.len(), |k: int| channel.cells[k] as i64),
    }
}

/// The channels of a buffer as whole numbers, in channel order.
pub open spec fn exact_channels(buffer: Seq<u8>, width: nat, height: nat, channels: nat) -> Seq<
    Grid<i64>,
> {
    Seq::new(channels, |c: int| exact_samples(channel_grid(buffer, width, height, channels, c)))
}

/// The channels of a well-formed buffer can be merged: there is at least
/// one, and each is a well-formed matrix of `width` rows and `height`
/// columns.
pub proof fn lemma_channels_have_same_shape(
    buffer: Seq<u8>,
    width: nat,
    height: nat,
    channels: nat,
)
    requires
        well_formed_buffer(buffer.len(), width, height, channels),
    ensures
        same_shape(channel_grids(buffer, width, height, channels)),
        same_shape(exact_channels(buffer, width, height, channels)),
        forall|c: int|
            0 <= c < channels ==> {
                &&& (#[trigger] channel_grids(buffer, width, height, channels)[c]).rows == width
                &&& channel_grids(buffer, width, height, channels)[c].cols == height
            },
{
}

/// Merging channels of the shape that splitting gives yields a buffer as
/// long as the one that was split, whatever the channels hold.
pub proof fn lemma_merged_length_is_buffer_length(
    len: nat,
    width: nat,
    height: nat,
    channels: Seq<Grid<i64>>,
)
    requires
        well_formed_buffer(len, width, height, channels.len()),
        forall|c: int|
            0 <= c < channels.len() ==> (#[trigger] channels[c]).rows == width
                && channels[c].cols == height,
    ensures
        interleaved_len(channels) == len,
        interleaved(channels).len() == len,
{
}

/// Splitting a buffer and merging its channels, with every sample kept as
/// it is, gives the buffer back.
pub proof fn lemma_merge_inverts_split(buffer: Seq<u8>, width: nat, height: nat, channels: nat)
    requires
        well_formed_buffer(buffer.len(), width, height, channels),
    ensures
        interleaved(exact_channels(buffer, width, height, channels)) == buffer,
{
    let exact = exact_channels(buffer, width, height, channels);
    let merged = interleaved(exact);
    assert forall|k: int| 0 <= k < buffer.len() implies merged[k] == buffer[k] by {
        lemma_cell_index_position(width * height, channels, k);
        let c = k % (channels as int);
        let p = k / (channels as int);
        assert(width * height == height * width) by (nonlinear_arith);
        lemma_cell_index_position(height, width, p);
        let x = p % (width as int);
        let y = p / (width as int);
        lemma_channel_grid_at(buffer, width, height, channels, c, x, y);
        lemma_cell_index_in_range(width, height, x, y);
    }
}

} // verus!
