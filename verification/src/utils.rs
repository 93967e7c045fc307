//! Routines for library common and general purposes.

use vstd::prelude::*;

verus! {

/// Returns the index according to the horizontal and vertical positions.
pub fn get_index_from_positions(
    horizontal_position: u8,
    vertical_position: u8,
    width: u8,
) -> (r: usize)
    requires
        horizontal_position < width,
        vertical_position * width + horizontal_position <= u8::MAX,
    ensures
        r == vertical_position * width + horizontal_position,
{
    ((vertical_position * width) + horizontal_position) as usize
}

} // verus!
