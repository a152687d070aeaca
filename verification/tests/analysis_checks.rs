//! Direct checks of the liberty analysis, the normalizer, and the decimal
//! reader.

use goban::analysis::find_dead_stones;
use goban::grid::{Grid, GridPoint, Stone};
use goban::normalize::{normalize_stones, sort_stones};

fn points(input: Vec<(u8, u8)>) -> Vec<Stone> {
    input.iter().map(|(x, y)| Stone { x: *x, y: *y }).collect()
}

fn board_with(size: u8, white: &[(u8, u8)], black: &[(u8, u8)]) -> Grid {
    let mut grid = Grid::new(size);
    for (x, y) in white {
        grid.set(*x, *y, GridPoint::White);
    }
    for (x, y) in black {
        grid.set(*x, *y, GridPoint::Black);
    }
    grid
}

#[test]
fn lone_stone_on_empty_board_is_alive() {
    let grid = board_with(9, &[], &[(4, 4)]);
    let dead = find_dead_stones(&grid, &points(vec![(4, 4)]));
    assert_eq!(points(vec![]), dead);
}

#[test]
fn fully_surrounded_stone_is_dead() {
    let grid = board_with(5, &[(1, 2), (3, 2), (2, 1), (2, 3)], &[(2, 2)]);
    let dead = find_dead_stones(&grid, &points(vec![(2, 2)]));
    assert_eq!(points(vec![(2, 2)]), dead);
}

#[test]
fn group_connected_to_liberty_survives() {
    // Only the row's far end touches an empty point; the whole row reaches
    // it through same-colour adjacency.
    let white = [(0, 1), (1, 1), (2, 1)];
    let grid = board_with(5, &white, &[(0, 0), (1, 0), (2, 0)]);
    let dead = find_dead_stones(&grid, &points(vec![(0, 0), (1, 0), (2, 0)]));
    assert_eq!(points(vec![]), dead);
}

#[test]
fn surrounded_group_dies_whole() {
    // The same black row with its last outside liberty filled at (3, 0).
    let white = [(0, 1), (1, 1), (2, 1), (3, 0)];
    let grid = board_with(5, &white, &[(0, 0), (1, 0), (2, 0)]);
    let dead = find_dead_stones(&grid, &points(vec![(0, 0), (1, 0), (2, 0)]));
    assert_eq!(points(vec![(0, 0), (1, 0), (2, 0)]), dead);
}

#[test]
fn edge_stone_liberty_is_found() {
    // A corner stone with one empty neighbour left.
    let grid = board_with(3, &[(1, 0)], &[(0, 0)]);
    let dead = find_dead_stones(&grid, &points(vec![(0, 0)]));
    assert_eq!(points(vec![]), dead);
}

#[test]
fn two_disjoint_dead_groups_are_both_found() {
    let white = [(1, 0), (0, 1), (1, 2), (2, 1), (3, 4), (4, 3)];
    let black = [(1, 1), (4, 4)];
    let grid = board_with(5, &white, &black);
    let dead = find_dead_stones(&grid, &points(vec![(1, 1), (4, 4)]));
    assert_eq!(points(vec![(1, 1), (4, 4)]), dead);
}

#[test]
fn sort_orders_by_canonical_key() {
    let sorted = sort_stones(points(vec![(2, 0), (0, 2), (1, 1)]), 3);
    assert_eq!(points(vec![(0, 2), (1, 1), (2, 0)]), sorted);
}

#[test]
fn sorting_twice_changes_nothing() {
    let once = sort_stones(points(vec![(2, 0), (0, 2), (1, 1), (0, 0)]), 3);
    let twice = sort_stones(once.clone(), 3);
    assert_eq!(once, twice);
}

#[test]
fn normalize_sorts_then_shifts() {
    let out = normalize_stones(points(vec![(2, 0), (0, 2), (1, 1)]), 3);
    assert_eq!(points(vec![(1, 3), (2, 2), (3, 1)]), out);
}

#[test]
fn normalize_keeps_equal_key_order_stable() {
    // Keys on a 13 board: (0,5) -> 5, (5,0) -> 65.
    let out = normalize_stones(points(vec![(5, 0), (0, 5)]), 13);
    assert_eq!(points(vec![(1, 6), (6, 1)]), out);
}

#[test]
fn decimal_reader_accepts_plain_numerals() {
    assert_eq!(Some(0), goban::engine::parse_decimal("0"));
    assert_eq!(Some(123), goban::engine::parse_decimal("123"));
    assert_eq!(Some(7), goban::engine::parse_decimal("007"));
}

#[test]
fn decimal_reader_rejects_everything_else() {
    assert_eq!(None, goban::engine::parse_decimal(""));
    assert_eq!(None, goban::engine::parse_decimal("12a"));
    assert_eq!(None, goban::engine::parse_decimal("-4"));
    assert_eq!(None, goban::engine::parse_decimal(" 9"));
    assert_eq!(None, goban::engine::parse_decimal("99999999999999999999999999"));
}
