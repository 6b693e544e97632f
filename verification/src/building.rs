//! Building placement: a building claims a whole rectangle of cells, and is
//! refused when any of them is already occupied.

use vstd::prelude::*;
use crate::coord::Coord;
use crate::grid::{Grid, GridEntity, TileState, in_rect};

verus! {

/// The far corner of a building footprint anchored at `location` whose
/// size offsets are `size` (offsets may be negative, making the footprint
/// empty).
pub open spec fn spec_far_corner(location: Coord, size: Coord) -> Coord {
    Coord { x: (location.x + size.x) as i32, y: (location.y + size.y) as i32 }
}

/// Whether every cell of the inclusive rectangle from `min` to `max` is
/// still empty.
pub fn rect_all_empty(grid: &Grid, min: Coord, max: Coord) -> (r: bool)
    ensures
        r == (forall|c: Coord| in_rect(min, max, c) ==> grid.spec_tile(c) == TileState::Empty),
{
    if min.x > max.x || min.y > max.y {
        return true;
    }
    let mut x: i32 = min.x;
    loop
        invariant_except_break
            forall|c: Coord|
                (in_rect(min, max, c) && c.x < x) ==> grid.spec_tile(c) == TileState::Empty,
        invariant
            min.x <= x <= max.x,
            min.y <= max.y,
        ensures
            forall|c: Coord| in_rect(min, max, c) ==> grid.spec_tile(c) == TileState::Empty,
        decreases max.x - x,
    {
        let mut y: i32 = min.y;
        loop
            invariant_except_break
                forall|c: Coord|
                    (in_rect(min, max, c) && (c.x < x || (c.x == x && c.y < y))) ==> grid.spec_tile(
                        c,
                    ) == TileState::Empty,
            invariant
                min.x <= x <= max.x,
                min.y <= y <= max.y,
            ensures
                forall|c: Coord|
                    (in_rect(min, max, c) && c.x <= x) ==> grid.spec_tile(c) == TileState::Empty,
            decreases max.y - y,
        {
            let state = grid.tile(Coord { x, y });
            if !matches!(state, TileState::Empty) {
                proof {
                    assert(in_rect(min, max, Coord { x, y }));
                }
                return false;
            }
            if y == max.y {
                break ;
            }
            y = y + 1;
        }
        if x == max.x {
            break ;
        }
        x = x + 1;
    }
    true
}

/// Claims the rectangle from `location` to `location + size` for a building
/// when all of it is still empty, and returns its footprint; on refusal the
/// grid is untouched.
pub fn place_building(grid: &mut Grid, location: Coord, size: Coord) -> (r: Option<GridEntity>)
    requires
        i32::MIN <= location.x + size.x <= i32::MAX,
        i32::MIN <= location.y + size.y <= i32::MAX,
    ensures
        r.is_some() == (forall|c: Coord|
            in_rect(location, spec_far_corner(location, size), c) ==> old(grid).spec_tile(c)
                == TileState::Empty),
        r matches Some(e) ==> e.min == location && e.max == spec_far_corner(location, size) && (
        forall|c: Coord|
            e.cells@.contains(c) <==> in_rect(location, spec_far_corner(location, size), c)) && (
        forall|c: Coord|
            final(grid).spec_tile(c) == if in_rect(location, spec_far_corner(location, size), c) {
                TileState::Building
            } else {
                old(grid).spec_tile(c)
            }),
        r.is_none() ==> *final(grid) == *old(grid),
{
    let far = Coord { x: location.x + size.x, y: location.y + size.y };
    if !rect_all_empty(grid, location, far) {
        return None;
    }
    let entity = GridEntity::new(location, Some(far));
    let mut k: usize = 0;
    while k < entity.cells.len()
        invariant
            k <= entity.cells@.len(),
            forall|c: Coord| entity.cells@.contains(c) <==> in_rect(location, far, c),
            forall|c: Coord|
                grid.spec_tile(c) == if exists|p: int|
                    0 <= p < k && entity.cells@[p] == c {
                    TileState::Building
                } else {
                    old(grid).spec_tile(c)
                },
        decreases entity.cells@.len() - k,
    {
        let cell = entity.cells[k];
        let ghost pre = *grid;
        grid.set_tile(cell, TileState::Building);
        proof {
            assert(grid.as_map() == pre.as_map().insert(cell, TileState::Building));
            assert forall|c: Coord|
                grid.spec_tile(c) == if exists|p: int|
                    0 <= p < k + 1 && entity.cells@[p] == c {
                    TileState::Building
                } else {
                    old(grid).spec_tile(c)
                } by {
                if c == cell {
                    assert(grid.spec_tile(c) == TileState::Building);
                    assert(entity.cells@[k as int] == c);
                    assert(exists|p: int| 0 <= p < k + 1 && entity.cells@[p] == c);
                } else {
                    assert(grid.spec_tile(c) == pre.spec_tile(c));
                    if exists|p: int| 0 <= p < k + 1 && entity.cells@[p] == c {
                        let p = choose|p: int| 0 <= p < k + 1 && entity.cells@[p] == c;
                        assert(entity.cells@[p] != cell);
                        assert(0 <= p < k && entity.cells@[p] == c);
                        assert(exists|p2: int| 0 <= p2 < k && entity.cells@[p2] == c);
                    } else {
                        assert(!(exists|p2: int| 0 <= p2 < k && entity.cells@[p2] == c));
                    }
                }
            }
        }
        k = k + 1;
    }
    proof {
        assert forall|c: Coord|
            grid.spec_tile(c) == if in_rect(location, far, c) {
                TileState::Building
            } else {
                old(grid).spec_tile(c)
            } by {
            if in_rect(location, far, c) {
                assert(entity.cells@.contains(c));
                let p = choose|p: int| 0 <= p < entity.cells@.len() && entity.cells@[p] == c;
                assert(exists|q: int| 0 <= q < entity.cells@.len() && entity.cells@[q] == c);
            } else {
                if exists|p: int| 0 <= p < entity.cells@.len() && entity.cells@[p] == c {
                    assert(entity.cells@.contains(c));
                }
            }
        }
    }
    Some(entity)
}

} // verus!
