//! Wall placement and the sprite-selection mask a wall derives from its
//! orthogonal wall neighbours.

use vstd::prelude::*;
use crate::coord::Coord;
use crate::grid::{Grid, TileState};

verus! {

/// Claims `location` for a wall when the cell is still empty. Returns
/// whether the wall was placed; on refusal the grid is untouched.
pub fn place_wall(grid: &mut Grid, location: Coord) -> (placed: bool)
    ensures
        placed == (old(grid).spec_tile(location) == TileState::Empty),
        placed ==> final(grid).as_map() == old(grid).as_map().insert(location, TileState::Wall),
        !placed ==> *final(grid) == *old(grid),
{
    let state = grid.tile(location);
    if !matches!(state, TileState::Empty) {
        return false;
    }
    grid.set_tile(location, TileState::Wall);
    true
}

/// The sprite mask of the wall at `c`: bit 0 for a wall to the east, bit 1
/// north, bit 2 west, bit 3 south.
pub open spec fn spec_wall_mask(g: Grid, c: Coord) -> int {
    (if g.spec_tile(Coord { x: (c.x + 1) as i32, y: c.y }) == TileState::Wall {
        1int
    } else {
        0int
    }) + (if g.spec_tile(Coord { x: c.x, y: (c.y + 1) as i32 }) == TileState::Wall {
        2int
    } else {
        0int
    }) + (if g.spec_tile(Coord { x: (c.x - 1) as i32, y: c.y }) == TileState::Wall {
        4int
    } else {
        0int
    }) + (if g.spec_tile(Coord { x: c.x, y: (c.y - 1) as i32 }) == TileState::Wall {
        8int
    } else {
        0int
    })
}

/// Computes which wall sprite the wall at `index` should show, from the
/// walls on its four orthogonal sides.
pub fn wall_sprite_index(grid: &Grid, index: Coord) -> (r: usize)
    requires
        i32::MIN < index.x < i32::MAX,
        i32::MIN < index.y < i32::MAX,
    ensures
        r == spec_wall_mask(*grid, index),
        r <= 15,
{
    let mut state_index: usize = 0;
    if matches!(grid.tile(Coord { x: index.x + 1, y: index.y }), TileState::Wall) {
        state_index = state_index + 1;
    }
    if matches!(grid.tile(Coord { x: index.x, y: index.y + 1 }), TileState::Wall) {
        state_index = state_index + 2;
    }
    if matches!(grid.tile(Coord { x: index.x - 1, y: index.y }), TileState::Wall) {
        state_index = state_index + 4;
    }
    if matches!(grid.tile(Coord { x: index.x, y: index.y - 1 }), TileState::Wall) {
        state_index = state_index + 8;
    }
    state_index
}

} // verus!
