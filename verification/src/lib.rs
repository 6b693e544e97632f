//! Grid pathfinding for a tile world: a budgeted best-first search over a
//! 4-connected grid of integer coordinates, the priority sort that keeps its
//! frontier ordered, and the pass that walks the visited cells back into a
//! waypoint path.

pub mod a_star;
pub mod animation;
pub mod building;
pub mod coord;
pub mod grid;
pub mod walls;
