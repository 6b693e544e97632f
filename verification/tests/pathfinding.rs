use grid_search::a_star::a_star;
use grid_search::coord::Coord;
use grid_search::grid::{Grid, TileState};

fn c(x: i32, y: i32) -> Coord {
    Coord::new(x, y)
}

fn dist_sq(a: Coord, b: Coord) -> i128 {
    a.distance_squared(b)
}

fn assert_connected_path(path: &Vec<Coord>, start: Coord, end: Coord) {
    assert!(path.len() >= 1);
    assert_eq!(path[0], start);
    assert_eq!(path[path.len() - 1], end);
    for i in 0..path.len() - 1 {
        assert_eq!(dist_sq(path[i], path[i + 1]), 1);
        for j in i + 1..path.len() {
            assert_ne!(path[i], path[j]);
        }
    }
}

#[test]
fn degenerate_path_on_empty_grid() {
    let grid = Grid::new();
    let r = a_star(c(0, 0), c(0, 0), &grid, 0);
    assert_eq!(r, Some(vec![c(0, 0)]));
}

#[test]
fn degenerate_path_ignores_walkability_of_start() {
    let mut grid = Grid::new();
    grid.set_tile(c(7, -3), TileState::Wall);
    let r = a_star(c(7, -3), c(7, -3), &grid, 0);
    assert_eq!(r, Some(vec![c(7, -3)]));
}

#[test]
fn straight_line_on_empty_grid() {
    let grid = Grid::new();
    let r = a_star(c(0, 0), c(10, 0), &grid, 0);
    let path = r.expect("a clear straight line must be found");
    let expected: Vec<Coord> = (0..=10).map(|x| c(x, 0)).collect();
    assert_eq!(path, expected);
}

#[test]
fn routes_through_gap_in_wall() {
    let mut grid = Grid::new();
    // a five-tile wall across the corridor at x == 5, with gaps at (5, 1)
    // and (5, -1)
    let wall_cells = [c(5, 0), c(5, 2), c(5, -2), c(5, 3), c(5, -3)];
    for w in wall_cells.iter() {
        grid.set_tile(*w, TileState::Wall);
    }
    let r = a_star(c(0, 0), c(10, 0), &grid, 0);
    let path = r.expect("the gap must be found well inside the budget");
    assert_connected_path(&path, c(0, 0), c(10, 0));
    for p in path.iter() {
        assert!(!wall_cells.contains(p));
    }
}

#[test]
fn enclosed_goal_is_unreachable() {
    let mut grid = Grid::new();
    for w in [c(2, 3), c(4, 3), c(3, 2), c(3, 4)].iter() {
        grid.set_tile(*w, TileState::Wall);
    }
    let r = a_star(c(0, 0), c(3, 3), &grid, 0);
    assert_eq!(r, None);
}

#[test]
fn enclosed_goal_by_buildings_is_unreachable() {
    let mut grid = Grid::new();
    for w in [c(-1, 0), c(1, 0), c(0, 1), c(0, -1)].iter() {
        grid.set_tile(*w, TileState::Building);
    }
    let r = a_star(c(5, 5), c(0, 0), &grid, 0);
    assert_eq!(r, None);
}

#[test]
fn walkable_tile_states_can_be_entered() {
    let mut grid = Grid::new();
    // a corridor of interaction points and robots through otherwise solid
    // walls
    for y in [-1, 1].iter() {
        for x in 0..=4 {
            grid.set_tile(c(x, *y), TileState::Wall);
        }
    }
    grid.set_tile(c(1, 0), TileState::InteractionPoint);
    grid.set_tile(c(2, 0), TileState::Robot);
    grid.set_tile(c(3, 0), TileState::Empty);
    let r = a_star(c(0, 0), c(4, 0), &grid, 0);
    let path = r.expect("interaction points and robots are walkable");
    assert_eq!(path, vec![c(0, 0), c(1, 0), c(2, 0), c(3, 0), c(4, 0)]);
}

#[test]
fn goal_on_wall_tile_is_never_reached() {
    let mut grid = Grid::new();
    grid.set_tile(c(2, 0), TileState::Wall);
    let r = a_star(c(0, 0), c(2, 0), &grid, 0);
    assert_eq!(r, None);
}

#[test]
fn adjacent_goal_found_at_once() {
    let grid = Grid::new();
    let r = a_star(c(0, 0), c(1, 0), &grid, 0);
    assert_eq!(r, Some(vec![c(0, 0), c(1, 0)]));
    let r = a_star(c(0, 0), c(0, -1), &grid, 0);
    assert_eq!(r, Some(vec![c(0, 0), c(0, -1)]));
}

#[test]
fn enclosure_does_not_hold_against_a_start_on_its_wall() {
    // start is never walkability-checked, so a start standing on one of the
    // enclosing wall tiles still steps onto the walkable goal
    let mut grid = Grid::new();
    for w in [c(1, 0), c(-1, 0), c(0, 1), c(0, -1)].iter() {
        grid.set_tile(*w, TileState::Wall);
    }
    let r = a_star(c(1, 0), c(0, 0), &grid, 0);
    assert_eq!(r, Some(vec![c(1, 0), c(0, 0)]));
}

#[test]
fn finds_goal_across_a_small_room() {
    // the reachable region is a walled 3-by-3 room, far below the expansion
    // budget, so the goal in the opposite corner must be found
    let mut grid = Grid::new();
    for t in -1..=3 {
        grid.set_tile(c(t, -1), TileState::Wall);
        grid.set_tile(c(t, 3), TileState::Wall);
        grid.set_tile(c(-1, t), TileState::Wall);
        grid.set_tile(c(3, t), TileState::Wall);
    }
    let r = a_star(c(0, 0), c(2, 2), &grid, 0);
    let path = r.expect("a goal inside the room must be found");
    assert_connected_path(&path, c(0, 0), c(2, 2));
}

#[test]
fn walled_in_start_exhausts_its_frontier() {
    let mut grid = Grid::new();
    for w in [c(1, 5), c(-1, 5), c(0, 6), c(0, 4)].iter() {
        grid.set_tile(*w, TileState::Wall);
    }
    let r = a_star(c(0, 5), c(9, 9), &grid, 0);
    assert_eq!(r, None);
}

#[test]
fn search_wraps_around_obstacles() {
    let mut grid = Grid::new();
    // a cup-shaped pocket opening away from the goal
    for y in 0..=2 {
        grid.set_tile(c(2, y), TileState::Wall);
    }
    grid.set_tile(c(0, 2), TileState::Wall);
    grid.set_tile(c(1, 2), TileState::Wall);
    let r = a_star(c(1, 1), c(4, 1), &grid, 0);
    let path = r.expect("leaving the pocket must succeed");
    assert_connected_path(&path, c(1, 1), c(4, 1));
}
