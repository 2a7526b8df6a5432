use sudoku_stepper::grid::{ExitCode, Grid};
use sudoku_stepper::solver::Solver;

fn cell(grid: &Grid, x: usize, y: usize) -> i32 {
    grid.value_at(x, y).unwrap_or(0)
}

/// Whether no two filled cells of one row, column or box hold the same value.
fn is_legal(grid: &Grid) -> bool {
    for y in 0..9 {
        for x in 0..9 {
            let v = match grid.value_at(x, y) {
                Some(v) => v,
                None => continue,
            };
            for b in 0..9 {
                for a in 0..9 {
                    if a == x && b == y {
                        continue;
                    }
                    let peer = b == y || a == x || (a / 3 == x / 3 && b / 3 == y / 3);
                    if peer && grid.value_at(a, b) == Some(v) {
                        return false;
                    }
                }
            }
        }
    }
    true
}

fn is_full(grid: &Grid) -> bool {
    (0..9).all(|y| (0..9).all(|x| matches!(grid.value_at(x, y), Some(v) if (1..=9).contains(&v))))
}

fn row_of(grid: &Grid, y: usize) -> Vec<i32> {
    (0..9).map(|x| cell(grid, x, y)).collect()
}

/// A board on which cell (1, 0) accepts no digit once cell (0, 0) holds 1:
/// row 0 holds 2 twice.
fn blocked_board() -> Grid {
    let mut grid = Grid::new();
    grid.set_given(2, 0, 2);
    grid.set_given(3, 0, 2);
    grid.set_given(4, 0, 3);
    grid.set_given(5, 0, 4);
    grid.set_given(6, 0, 5);
    grid.set_given(7, 0, 6);
    grid.set_given(8, 0, 7);
    grid.set_given(1, 1, 8);
    grid.set_given(1, 2, 9);
    grid
}

#[test]
fn empty_board_is_solved() {
    let mut solver = Solver::new(Grid::new());
    assert_eq!(solver.solve(), ExitCode::Success);
    assert!(is_full(solver.grid()));
    assert!(is_legal(solver.grid()));
    assert_eq!(solver.cursor(), (8, 8));
    assert_eq!(row_of(solver.grid(), 0), vec![1, 2, 3, 4, 5, 6, 7, 8, 9]);
    assert_eq!(row_of(solver.grid(), 1), vec![4, 5, 6, 7, 8, 9, 1, 2, 3]);
}

#[test]
fn single_given_survives_the_search() {
    let mut grid = Grid::new();
    grid.set_given(0, 0, 5);
    let mut solver = Solver::new(grid);
    assert_eq!(solver.solve(), ExitCode::Success);
    assert_eq!(solver.grid().value_at(0, 0), Some(5));
    assert!(solver.grid().is_fixed(0, 0));
    assert!(is_full(solver.grid()));
    assert!(is_legal(solver.grid()));
}

#[test]
fn duplicate_givens_in_a_row_fail() {
    let mut solver = Solver::new(blocked_board());
    assert_eq!(solver.solve(), ExitCode::Failure);
    assert_eq!(solver.cursor(), (0, 0));
    assert_eq!(solver.grid().value_at(2, 0), Some(2));
    assert_eq!(solver.grid().value_at(3, 0), Some(2));
}

#[test]
fn first_step_on_empty_board() {
    let mut solver = Solver::new(Grid::new());
    assert_eq!(solver.solve_step(), ExitCode::InProgress);
    assert_eq!(solver.grid().value_at(0, 0), Some(1));
    assert_eq!(solver.cursor(), (1, 0));
    assert_eq!(solver.start_num(0, 0), 2);
    assert_eq!(solver.start_num(1, 0), 1);
}

#[test]
fn fresh_solver_starts_at_origin() {
    let solver = Solver::new(Grid::new());
    assert_eq!(solver.cursor(), (0, 0));
    for y in 0..9 {
        for x in 0..9 {
            assert_eq!(solver.start_num(x, y), 1);
            assert_eq!(solver.grid().value_at(x, y), None);
            assert!(!solver.grid().is_fixed(x, y));
        }
    }
}

#[test]
fn every_step_keeps_the_board_legal() {
    let mut grid = Grid::new();
    grid.set_given(4, 4, 7);
    grid.set_given(0, 8, 3);
    let mut solver = Solver::new(grid);
    let mut steps = 0u32;
    loop {
        let code = solver.solve_step();
        steps += 1;
        assert!(is_legal(solver.grid()), "illegal board after step {}", steps);
        assert_eq!(solver.grid().value_at(4, 4), Some(7));
        assert_eq!(solver.grid().value_at(0, 8), Some(3));
        assert!(solver.grid().is_fixed(4, 4) && solver.grid().is_fixed(0, 8));
        if code == ExitCode::Success {
            break;
        }
        assert!(steps < 1_000_000, "the search did not stop");
    }
    assert!(is_full(solver.grid()));
}

#[test]
fn solve_is_deterministic() {
    let build = || {
        let mut grid = Grid::new();
        grid.set_given(0, 0, 5);
        grid.set_given(3, 1, 1);
        grid.set_given(7, 6, 9);
        grid
    };
    let mut first = Solver::new(build());
    let mut second = Solver::new(build());
    assert_eq!(first.solve(), second.solve());
    for y in 0..9 {
        assert_eq!(row_of(first.grid(), y), row_of(second.grid(), y));
    }
    assert_eq!(first.cursor(), second.cursor());
}

#[test]
fn empty_board_stops_within_bound() {
    let mut solver = Solver::new(Grid::new());
    assert_eq!(solver.solve_n_steps(81 * 9 * 81), ExitCode::Success);
    assert!(is_full(solver.grid()));
}

#[test]
fn solve_n_steps_yields_after_the_given_count() {
    let mut solver = Solver::new(Grid::new());
    assert_eq!(solver.solve_n_steps(0), ExitCode::InProgress);
    assert_eq!(solver.cursor(), (0, 0));
    assert_eq!(solver.grid().value_at(0, 0), None);
    assert_eq!(solver.solve_n_steps(3), ExitCode::InProgress);
    assert_eq!(solver.cursor(), (3, 0));
    assert_eq!(row_of(solver.grid(), 0), vec![1, 2, 3, 0, 0, 0, 0, 0, 0]);
}

#[test]
fn solve_n_steps_stops_on_failure_at_origin() {
    let mut solver = Solver::new(blocked_board());
    assert_eq!(solver.solve_n_steps(1000), ExitCode::Failure);
    assert_eq!(solver.cursor(), (0, 0));
}

#[test]
fn dead_end_moves_back_and_clears() {
    let mut solver = Solver::new(blocked_board());
    assert_eq!(solver.solve_step(), ExitCode::InProgress);
    assert_eq!(solver.grid().value_at(0, 0), Some(1));
    assert_eq!(solver.cursor(), (1, 0));
    assert_eq!(solver.solve_step(), ExitCode::Failure);
    assert_eq!(solver.cursor(), (0, 0));
    assert_eq!(solver.grid().value_at(0, 0), None);
    assert_eq!(solver.grid().value_at(1, 0), None);
    assert_eq!(solver.start_num(0, 0), 2);
    assert_eq!(solver.start_num(1, 0), 1);
    // Row and box leave no digit above 1 for cell (0, 0): it starts over.
    assert_eq!(solver.solve_step(), ExitCode::Failure);
    assert_eq!(solver.cursor(), (0, 0));
    assert_eq!(solver.grid().value_at(0, 0), None);
    assert_eq!(solver.start_num(0, 0), 1);
}

/// Row 0 holds 3 to 9 and column 1 holds 2 further down: cell (1, 0) can
/// only take 1.
fn narrow_board() -> Grid {
    let mut grid = Grid::new();
    for x in 2..9 {
        grid.set_given(x, 0, x as i32 + 1);
    }
    grid.set_given(1, 5, 2);
    grid
}

#[test]
fn cell_resumes_above_the_digit_it_gave_up() {
    let mut solver = Solver::new(narrow_board());
    assert_eq!(solver.solve_step(), ExitCode::InProgress);
    assert_eq!(solver.grid().value_at(0, 0), Some(1));
    assert_eq!(solver.solve_step(), ExitCode::Failure);
    assert_eq!(solver.cursor(), (0, 0));
    assert_eq!(solver.grid().value_at(0, 0), None);
    assert_eq!(solver.start_num(0, 0), 2);
    assert_eq!(solver.start_num(1, 0), 1);
    assert_eq!(solver.solve_step(), ExitCode::InProgress);
    assert_eq!(solver.grid().value_at(0, 0), Some(2));
    assert_eq!(solver.start_num(0, 0), 3);
    assert_eq!(solver.cursor(), (1, 0));
    assert_eq!(solver.solve_step(), ExitCode::InProgress);
    assert_eq!(solver.grid().value_at(1, 0), Some(1));
    assert_eq!(solver.start_num(1, 0), 2);
    assert_eq!(solver.cursor(), (2, 0));
}

#[test]
fn solve_stops_on_the_first_failure_at_origin() {
    let mut solver = Solver::new(narrow_board());
    assert_eq!(solver.solve(), ExitCode::Failure);
    assert_eq!(solver.cursor(), (0, 0));
    assert_eq!(solver.grid().value_at(0, 0), None);
    assert_eq!(solver.start_num(0, 0), 2);
}

#[test]
fn moving_back_skips_givens() {
    let mut grid = Grid::new();
    grid.set_given(1, 0, 2);
    for x in 3..9 {
        grid.set_given(x, 0, x as i32);
    }
    grid.set_given(2, 1, 9);
    let mut solver = Solver::new(grid);
    assert_eq!(solver.solve_step(), ExitCode::InProgress);
    assert_eq!(solver.grid().value_at(0, 0), Some(1));
    assert_eq!(solver.solve_step(), ExitCode::InProgress);
    assert_eq!(solver.cursor(), (2, 0));
    assert_eq!(solver.solve_step(), ExitCode::Failure);
    assert_eq!(solver.cursor(), (0, 0));
    assert_eq!(solver.grid().value_at(0, 0), None);
    assert_eq!(solver.grid().value_at(1, 0), Some(2));
    assert_eq!(solver.start_num(0, 0), 2);
    assert_eq!(solver.start_num(2, 0), 1);
    // Nothing is left for cell (0, 0): the cursor stays and the cell starts over.
    assert_eq!(solver.solve_step(), ExitCode::Failure);
    assert_eq!(solver.cursor(), (0, 0));
    assert_eq!(solver.grid().value_at(0, 0), None);
    assert_eq!(solver.start_num(0, 0), 1);
}

#[test]
fn moving_back_stops_on_a_given_at_origin() {
    let mut grid = Grid::new();
    grid.set_given(0, 0, 1);
    for x in 2..9 {
        grid.set_given(x, 0, x as i32);
    }
    grid.set_given(1, 1, 9);
    let mut solver = Solver::new(grid);
    assert_eq!(solver.solve_step(), ExitCode::InProgress);
    assert_eq!(solver.cursor(), (1, 0));
    assert_eq!(solver.solve_step(), ExitCode::Failure);
    assert_eq!(solver.cursor(), (0, 0));
    assert_eq!(solver.grid().value_at(0, 0), Some(1));
    assert!(solver.grid().is_fixed(0, 0));
    assert_eq!(solver.start_num(1, 0), 1);

    let mut grid = Grid::new();
    grid.set_given(0, 0, 1);
    for x in 2..9 {
        grid.set_given(x, 0, x as i32);
    }
    grid.set_given(1, 1, 9);
    let mut solver = Solver::new(grid);
    assert_eq!(solver.solve(), ExitCode::Failure);
    assert_eq!(solver.cursor(), (0, 0));
    assert_eq!(solver.grid().value_at(0, 0), Some(1));
}

#[test]
fn step_on_finished_board_reports_success_again() {
    let mut solver = Solver::new(Grid::new());
    assert_eq!(solver.solve(), ExitCode::Success);
    let last = solver.grid().value_at(8, 8);
    assert_eq!(solver.solve_step(), ExitCode::Success);
    assert_eq!(solver.cursor(), (8, 8));
    assert_eq!(solver.grid().value_at(8, 8), last);
}

#[test]
fn try_add_places_a_legal_value() {
    let mut solver = Solver::new(Grid::new());
    assert_eq!(solver.try_add(4, 5, 6), ExitCode::Success);
    assert_eq!(solver.grid().value_at(4, 5), Some(6));
    assert!(!solver.grid().is_fixed(4, 5));
    assert_eq!(solver.cursor(), (0, 0));
}

#[test]
fn try_add_refuses_an_occupied_cell() {
    let mut solver = Solver::new(Grid::new());
    assert_eq!(solver.try_add(4, 5, 6), ExitCode::Success);
    assert_eq!(solver.try_add(4, 5, 7), ExitCode::Failure);
    assert_eq!(solver.try_add(4, 5, 6), ExitCode::Failure);
    assert_eq!(solver.grid().value_at(4, 5), Some(6));
}

#[test]
fn try_add_refuses_a_value_of_the_row_column_or_box() {
    let mut solver = Solver::new(Grid::new());
    assert_eq!(solver.try_add(4, 4, 6), ExitCode::Success);
    assert_eq!(solver.try_add(0, 4, 6), ExitCode::Failure);
    assert_eq!(solver.try_add(4, 8, 6), ExitCode::Failure);
    assert_eq!(solver.try_add(3, 5, 6), ExitCode::Failure);
    assert_eq!(solver.grid().value_at(0, 4), None);
    assert_eq!(solver.grid().value_at(4, 8), None);
    assert_eq!(solver.grid().value_at(3, 5), None);
    assert_eq!(solver.try_add(2, 5, 6), ExitCode::Success);
    assert_eq!(solver.try_add(0, 4, 7), ExitCode::Success);
}
