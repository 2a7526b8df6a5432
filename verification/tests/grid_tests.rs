use sudoku_stepper::grid::{Grid, DRAW_LIMIT};

fn given_count(grid: &Grid) -> usize {
    let mut n = 0;
    for y in 0..9 {
        for x in 0..9 {
            if grid.is_fixed(x, y) {
                n += 1;
            }
        }
    }
    n
}

fn check_puzzle(grid: &Grid) {
    for y in 0..9 {
        for x in 0..9 {
            match grid.value_at(x, y) {
                Some(v) => {
                    assert!(grid.is_fixed(x, y));
                    assert!((1..=9).contains(&v));
                    assert!(grid.can_add(x, y, v), "({}, {}) = {} breaks a rule", x, y, v);
                }
                None => assert!(!grid.is_fixed(x, y)),
            }
        }
    }
}

#[test]
fn new_grid_is_empty() {
    let grid = Grid::new();
    for y in 0..9 {
        for x in 0..9 {
            assert_eq!(grid.value_at(x, y), None);
            assert!(!grid.is_fixed(x, y));
        }
    }
}

#[test]
fn set_given_writes_and_marks() {
    let mut grid = Grid::new();
    grid.set_given(3, 7, 4);
    assert_eq!(grid.value_at(3, 7), Some(4));
    assert!(grid.is_fixed(3, 7));
    assert_eq!(grid.value_at(7, 3), None);
    assert_eq!(given_count(&grid), 1);
}

#[test]
fn row_rule_looks_at_the_other_cells_of_the_row() {
    let mut grid = Grid::new();
    grid.set_given(2, 3, 5);
    assert!(!grid.row_can_add(0, 3, 5));
    assert!(!grid.row_can_add(8, 3, 5));
    assert!(grid.row_can_add(2, 3, 5));
    assert!(grid.row_can_add(0, 3, 4));
    assert!(grid.row_can_add(2, 4, 5));
}

#[test]
fn column_rule_looks_at_the_other_cells_of_the_column() {
    let mut grid = Grid::new();
    grid.set_given(2, 3, 5);
    assert!(!grid.column_can_add(2, 0, 5));
    assert!(!grid.column_can_add(2, 8, 5));
    assert!(grid.column_can_add(2, 3, 5));
    assert!(grid.column_can_add(2, 0, 6));
    assert!(grid.column_can_add(3, 3, 5));
}

#[test]
fn square_rule_looks_at_the_other_cells_of_the_box() {
    let mut grid = Grid::new();
    grid.set_given(4, 7, 5);
    assert!(!grid.square_can_add(3, 6, 5));
    assert!(!grid.square_can_add(5, 8, 5));
    assert!(grid.square_can_add(4, 7, 5));
    assert!(grid.square_can_add(2, 7, 5));
    assert!(grid.square_can_add(4, 5, 5));
    assert!(grid.square_can_add(3, 6, 1));
}

#[test]
fn can_add_joins_the_three_rules() {
    let mut grid = Grid::new();
    grid.set_given(4, 4, 9);
    assert!(!grid.can_add(0, 4, 9));
    assert!(!grid.can_add(4, 0, 9));
    assert!(!grid.can_add(5, 3, 9));
    assert!(grid.can_add(0, 0, 9));
    assert!(grid.can_add(4, 4, 9));
}

#[test]
fn try_given_takes_only_a_legal_value_for_an_empty_cell() {
    let mut grid = Grid::new();
    assert!(grid.try_given(1, 1, 3));
    assert!(grid.is_fixed(1, 1));
    assert_eq!(grid.value_at(1, 1), Some(3));
    assert!(!grid.try_given(1, 1, 4));
    assert_eq!(grid.value_at(1, 1), Some(3));
    assert!(!grid.try_given(8, 1, 3));
    assert!(!grid.is_fixed(8, 1));
    assert_eq!(grid.value_at(8, 1), None);
    assert!(grid.try_given(8, 1, 4));
}

#[test]
fn random_with_no_givens_is_empty() {
    for n in [0, -1, i32::MIN] {
        let grid = Grid::random(n).unwrap();
        assert_eq!(given_count(&grid), 0);
        check_puzzle(&grid);
    }
}

#[test]
fn random_with_too_many_givens_gives_up() {
    assert!(Grid::random(82).is_none());
    assert!(Grid::random(i32::MAX).is_none());
}

#[test]
fn random_places_the_givens_legally() {
    assert_eq!(DRAW_LIMIT, 1_000_000);
    for n in [1, 5, 10, 17] {
        let grid = Grid::random(n).unwrap();
        assert_eq!(given_count(&grid), n as usize);
        check_puzzle(&grid);
    }
}

#[test]
fn random_draws_more_than_one_cell_and_digit() {
    macroquad::rand::srand(7);
    let mut cells = std::collections::BTreeSet::new();
    let mut digits = std::collections::BTreeSet::new();
    for _ in 0..20 {
        let grid = Grid::random(1).unwrap();
        for y in 0..9 {
            for x in 0..9 {
                if let Some(v) = grid.value_at(x, y) {
                    cells.insert((x, y));
                    digits.insert(v);
                }
            }
        }
    }
    assert!(cells.len() > 1);
    assert!(digits.len() > 1);
}

#[test]
fn random_is_reproducible_under_a_seed() {
    macroquad::rand::srand(12345);
    let first = Grid::random(10).unwrap();
    macroquad::rand::srand(12345);
    let second = Grid::random(10).unwrap();
    for y in 0..9 {
        for x in 0..9 {
            assert_eq!(first.value_at(x, y), second.value_at(x, y));
        }
    }
}
