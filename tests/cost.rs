use astar::cost::{heuristic, isqrt, step_cost};
use astar::Position;

#[test]
fn heuristic_of_diagonal_offset() {
    // sqrt(20^2 + 20^2) = 28.28..., rounded down
    assert_eq!(heuristic(Position::new(0, 0), Position::new(2, 2)), 28);
}

#[test]
fn heuristic_of_three_four_five() {
    assert_eq!(heuristic(Position::new(0, 0), Position::new(3, 4)), 50);
    assert_eq!(heuristic(Position::new(3, 4), Position::new(0, 0)), 50);
}

#[test]
fn heuristic_of_same_cell_is_zero() {
    assert_eq!(heuristic(Position::new(5, 7), Position::new(5, 7)), 0);
}

#[test]
fn heuristic_rounds_down() {
    // sqrt(70^2 + 70^2) = 98.99...
    assert_eq!(heuristic(Position::new(1, 1), Position::new(8, 8)), 98);
    // sqrt(80^2 + 80^2) = 113.13..., above the diagonal step cost of 112
    assert_eq!(heuristic(Position::new(0, 0), Position::new(8, 8)), 113);
    assert_eq!(heuristic(Position::new(0, 0), Position::new(1, 0)), 10);
}

#[test]
fn step_costs() {
    assert_eq!(step_cost(Position::new(1, 1), Position::new(2, 2)), 14);
    assert_eq!(step_cost(Position::new(1, 1), Position::new(0, 2)), 14);
    assert_eq!(step_cost(Position::new(1, 1), Position::new(1, 2)), 10);
    assert_eq!(step_cost(Position::new(1, 1), Position::new(0, 1)), 10);
}

#[test]
fn integer_square_roots() {
    assert_eq!(isqrt(0), 0);
    assert_eq!(isqrt(1), 1);
    assert_eq!(isqrt(15), 3);
    assert_eq!(isqrt(16), 4);
    assert_eq!(isqrt(17), 4);
    assert_eq!(isqrt(800), 28);
    assert_eq!(isqrt(u128::MAX), u64::MAX as u128);
}
