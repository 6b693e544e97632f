use grid_search::a_star::trim_a_star;
use grid_search::coord::Coord;

fn c(x: i32, y: i32) -> Coord {
    Coord::new(x, y)
}

#[test]
fn trim_is_identity_on_adjacent_chain() {
    let raw = vec![c(0, 0), c(1, 0), c(1, 1), c(2, 1), c(2, 2)];
    let trimmed = trim_a_star(raw.clone());
    assert_eq!(trimmed, raw);
}

#[test]
fn trim_returns_short_paths_unchanged() {
    let empty: Vec<Coord> = Vec::new();
    assert_eq!(trim_a_star(empty), Vec::<Coord>::new());
    let single = vec![c(4, 4)];
    assert_eq!(trim_a_star(single.clone()), single);
    let pair = vec![c(0, 0), c(9, 9)];
    assert_eq!(trim_a_star(pair.clone()), pair);
}

#[test]
fn trim_drops_dead_end_visit() {
    // the second cell is a dead end the walk back from the goal never needs
    let raw = vec![c(0, 0), c(1, 0), c(0, 1), c(1, 1)];
    let trimmed = trim_a_star(raw);
    assert_eq!(trimmed, vec![c(0, 0), c(0, 1), c(1, 1)]);
}

#[test]
fn trim_keeps_start_and_goal() {
    let raw = vec![c(0, 0), c(0, 1), c(1, 0), c(2, 0), c(2, 1)];
    let trimmed = trim_a_star(raw);
    assert_eq!(trimmed[0], c(0, 0));
    assert_eq!(trimmed[trimmed.len() - 1], c(2, 1));
    for i in 0..trimmed.len() - 1 {
        assert_eq!(trimmed[i].distance_squared(trimmed[i + 1]), 1);
    }
}
