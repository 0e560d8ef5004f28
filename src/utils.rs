use vstd::prelude::*;

use crate::algorithm::Coord;

verus! {

/// Translates an absolute screen position into a grid-local coordinate,
/// given the screen position of the grid's top-left cell.
pub fn abs_to_grid(abs_position: Coord, grid_start: Coord) -> (r: Coord)
    requires
        i32::MIN <= abs_position.0 - grid_start.0 <= i32::MAX,
        i32::MIN <= abs_position.1 - grid_start.1 <= i32::MAX,
    ensures
        r.0 == abs_position.0 - grid_start.0,
        r.1 == abs_position.1 - grid_start.1,
{
    (abs_position.0 - grid_start.0, abs_position.1 - grid_start.1)
}

} // verus!
