use grid_search::a_star::quicksort;
use grid_search::coord::Coord;

fn c(x: i32, y: i32) -> Coord {
    Coord::new(x, y)
}

fn count_of(list: &Vec<(i128, Coord)>, item: (i128, Coord)) -> usize {
    list.iter().filter(|e| **e == item).count()
}

#[test]
fn quicksort_orders_by_priority() {
    let input = vec![(9i128, c(0, 9)), (1, c(0, 1)), (4, c(0, 4)), (1, c(1, 1)), (0, c(0, 0))];
    let sorted = quicksort(input.clone());
    assert_eq!(sorted.len(), input.len());
    for i in 0..sorted.len() - 1 {
        assert!(sorted[i].0 <= sorted[i + 1].0);
    }
    for item in input.iter() {
        assert_eq!(count_of(&sorted, *item), count_of(&input, *item));
    }
}

#[test]
fn quicksort_exact_order() {
    let input = vec![(3i128, c(3, 0)), (1, c(1, 0)), (2, c(2, 0))];
    let sorted = quicksort(input);
    assert_eq!(sorted, vec![(1i128, c(1, 0)), (2, c(2, 0)), (3, c(3, 0))]);
}

#[test]
fn quicksort_keeps_duplicate_pairs() {
    let input = vec![(5i128, c(5, 5)), (5, c(5, 5)), (2, c(2, 2))];
    let sorted = quicksort(input);
    assert_eq!(sorted, vec![(2i128, c(2, 2)), (5, c(5, 5)), (5, c(5, 5))]);
}

#[test]
fn quicksort_empty_and_single() {
    let empty: Vec<(i128, Coord)> = Vec::new();
    assert_eq!(quicksort(empty), Vec::<(i128, Coord)>::new());
    let single = vec![(7i128, c(1, 2))];
    assert_eq!(quicksort(single.clone()), single);
}

#[test]
fn quicksort_reverse_sorted_input() {
    let input: Vec<(i128, Coord)> = (0..20).map(|i| ((20 - i) as i128, c(i, 0))).collect();
    let sorted = quicksort(input);
    for i in 0..sorted.len() - 1 {
        assert!(sorted[i].0 <= sorted[i + 1].0);
    }
    assert_eq!(sorted[0].0, 1);
    assert_eq!(sorted[19].0, 20);
}
