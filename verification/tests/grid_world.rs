use grid_search::building::{place_building, rect_all_empty};
use grid_search::coord::Coord;
use grid_search::grid::{clear_entity_cells, Grid, GridEntity, TileState};
use grid_search::walls::{place_wall, wall_sprite_index};

fn c(x: i32, y: i32) -> Coord {
    Coord::new(x, y)
}

#[test]
fn unwritten_cells_read_empty() {
    let grid = Grid::new();
    assert_eq!(grid.tile(c(123, -456)), TileState::Empty);
}

#[test]
fn set_tile_writes_and_overwrites() {
    let mut grid = Grid::new();
    grid.set_tile(c(1, 2), TileState::Robot);
    assert_eq!(grid.tile(c(1, 2)), TileState::Robot);
    assert_eq!(grid.tile(c(2, 1)), TileState::Empty);
    grid.set_tile(c(1, 2), TileState::Wall);
    assert_eq!(grid.tile(c(1, 2)), TileState::Wall);
}

#[test]
fn place_wall_claims_empty_cell_only() {
    let mut grid = Grid::new();
    assert!(place_wall(&mut grid, c(3, 3)));
    assert_eq!(grid.tile(c(3, 3)), TileState::Wall);
    assert!(!place_wall(&mut grid, c(3, 3)));
    grid.set_tile(c(4, 4), TileState::Building);
    assert!(!place_wall(&mut grid, c(4, 4)));
    assert_eq!(grid.tile(c(4, 4)), TileState::Building);
}

#[test]
fn place_building_marks_whole_footprint() {
    let mut grid = Grid::new();
    let entity = place_building(&mut grid, c(2, 2), c(1, 2)).expect("empty ground");
    assert_eq!(entity.min, c(2, 2));
    assert_eq!(entity.max, c(3, 4));
    assert_eq!(entity.cells, vec![c(2, 2), c(2, 3), c(2, 4), c(3, 2), c(3, 3), c(3, 4)]);
    for x in 2..=3 {
        for y in 2..=4 {
            assert_eq!(grid.tile(c(x, y)), TileState::Building);
        }
    }
    assert_eq!(grid.tile(c(1, 2)), TileState::Empty);
    assert_eq!(grid.tile(c(4, 2)), TileState::Empty);
}

#[test]
fn place_building_refuses_occupied_ground() {
    let mut grid = Grid::new();
    grid.set_tile(c(3, 3), TileState::Wall);
    let r = place_building(&mut grid, c(2, 2), c(1, 2));
    assert!(r.is_none());
    // nothing else was written
    for x in 2..=3 {
        for y in 2..=4 {
            if (x, y) != (3, 3) {
                assert_eq!(grid.tile(c(x, y)), TileState::Empty);
            }
        }
    }
}

#[test]
fn place_building_with_negative_size_claims_nothing() {
    let mut grid = Grid::new();
    grid.set_tile(c(0, 0), TileState::Wall);
    // the footprint from (1, 1) to (0, 0) is empty, so nothing blocks it and
    // nothing is written
    let entity = place_building(&mut grid, c(1, 1), c(-1, -1)).expect("empty footprint");
    assert_eq!(entity.cells.len(), 0);
    assert_eq!(grid.tile(c(1, 1)), TileState::Empty);
}

#[test]
fn rect_all_empty_sees_any_obstacle() {
    let mut grid = Grid::new();
    assert!(rect_all_empty(&grid, c(-2, -2), c(2, 2)));
    grid.set_tile(c(0, 1), TileState::Robot);
    assert!(!rect_all_empty(&grid, c(-2, -2), c(2, 2)));
    assert!(rect_all_empty(&grid, c(1, 1), c(0, 0)));
}

#[test]
fn clear_entity_cells_resets_footprint() {
    let mut grid = Grid::new();
    let entity = place_building(&mut grid, c(0, 0), c(2, 1)).expect("empty ground");
    grid.set_tile(c(5, 5), TileState::Wall);
    clear_entity_cells(&mut grid, &entity);
    for x in 0..=2 {
        for y in 0..=1 {
            assert_eq!(grid.tile(c(x, y)), TileState::Empty);
        }
    }
    assert_eq!(grid.tile(c(5, 5)), TileState::Wall);
}

#[test]
fn grid_entity_footprints() {
    let single = GridEntity::new(c(7, 8), None);
    assert_eq!(single.min, c(7, 8));
    assert_eq!(single.max, c(7, 8));
    assert_eq!(single.cells, vec![c(7, 8)]);

    let rect = GridEntity::new(c(0, 0), Some(c(1, 1)));
    // x-major, y varying fastest
    assert_eq!(rect.cells, vec![c(0, 0), c(0, 1), c(1, 0), c(1, 1)]);

    let inverted = GridEntity::new(c(2, 2), Some(c(1, 1)));
    assert_eq!(inverted.cells.len(), 0);
}

#[test]
fn grid_entity_contains_cell_is_the_rectangle() {
    let rect = GridEntity::new(c(-1, -1), Some(c(1, 1)));
    assert!(rect.contains_cell(c(0, 0)));
    assert!(rect.contains_cell(c(-1, 1)));
    assert!(!rect.contains_cell(c(2, 0)));
    assert!(!rect.contains_cell(c(0, -2)));
}

#[test]
fn wall_sprite_index_reads_four_neighbours() {
    let mut grid = Grid::new();
    assert_eq!(wall_sprite_index(&grid, c(0, 0)), 0);
    grid.set_tile(c(1, 0), TileState::Wall);
    assert_eq!(wall_sprite_index(&grid, c(0, 0)), 1);
    grid.set_tile(c(0, 1), TileState::Wall);
    assert_eq!(wall_sprite_index(&grid, c(0, 0)), 3);
    grid.set_tile(c(-1, 0), TileState::Wall);
    assert_eq!(wall_sprite_index(&grid, c(0, 0)), 7);
    grid.set_tile(c(0, -1), TileState::Wall);
    assert_eq!(wall_sprite_index(&grid, c(0, 0)), 15);
    // a building does not count as a wall
    grid.set_tile(c(1, 0), TileState::Building);
    assert_eq!(wall_sprite_index(&grid, c(0, 0)), 14);
}
