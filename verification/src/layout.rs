//! The retired tray layout formula, kept for callers that still position
//! tiles by hand: positions in whole logical pixels.
use vstd::prelude::*;

verus! {

/// The row coordinate of a tile placed after a word of `previous_len`
/// letters, for a word of `current_len` letters.
pub open spec fn spec_tile_row(pos: int, previous_len: int, current_len: int) -> int {
    pos + (previous_len * 12) / 2 + (current_len * 6) / 2 + 40
}

/// The column coordinate of the `i`-th tile: six tiles per band, bands 30
/// pixels apart, counting down from 300.
pub open spec fn spec_tile_column(i: int) -> int {
    300 - (i / 6) * 30
}

/// Position of the `i`-th tile: `(row, column)`.
pub fn create_tile_position(i: usize, pos: i64, previous_len: usize, current_len: usize) -> (res: (
    i64,
    i64,
))
    requires
        previous_len * 12 <= usize::MAX,
        current_len * 6 <= usize::MAX,
        i64::MIN <= spec_tile_row(pos as int, previous_len as int, current_len as int) <= i64::MAX,
        (i / 6) * 30 <= i64::MAX,
    ensures
        res.0 == spec_tile_row(pos as int, previous_len as int, current_len as int),
        res.1 == spec_tile_column(i as int),
{
    let previous_offset = previous_len * 12 / 2;
    let current_offset = current_len * 6 / 2;
    assert(previous_offset <= i64::MAX && current_offset <= i64::MAX) by {
        assert(previous_offset <= spec_tile_row(pos as int, previous_len as int, current_len as int) - pos - 40);
    }
    let row = pos + previous_offset as i64 + current_offset as i64 + 40;
    let band = (i / 6) as i64;
    let column = 300 - band * 30;
    (row, column)
}

} // verus!
