use grid_search::a_star::in_search_margin;
use grid_search::coord::Coord;

fn c(x: i32, y: i32) -> Coord {
    Coord::new(x, y)
}

#[test]
fn distance_squared_exact_values() {
    assert_eq!(c(0, 0).distance_squared(c(0, 0)), 0);
    assert_eq!(c(0, 0).distance_squared(c(1, 0)), 1);
    assert_eq!(c(0, 0).distance_squared(c(0, -1)), 1);
    assert_eq!(c(2, 3).distance_squared(c(5, 7)), 25);
    assert_eq!(c(-3, 4).distance_squared(c(3, -4)), 100);
}

#[test]
fn distance_squared_handles_extreme_coordinates() {
    let lo = c(i32::MIN, i32::MIN);
    let hi = c(i32::MAX, i32::MAX);
    let span = (i32::MAX as i128) - (i32::MIN as i128);
    assert_eq!(lo.distance_squared(hi), 2 * span * span);
}

#[test]
fn search_margin_bounds() {
    assert!(in_search_margin(c(0, 0)));
    assert!(in_search_margin(c(i32::MAX - 1002, i32::MIN + 1002)));
    assert!(!in_search_margin(c(i32::MAX - 1001, 0)));
    assert!(!in_search_margin(c(0, i32::MIN + 1001)));
}
