//! The solver: a board, a cursor, and for each cell the next digit to try.

use crate::grid::{cell_index, ExitCode, Grid};
use crate::search::{retreat, tick_limit, SearchState};
use vstd::prelude::*;

verus! {

/// A backtracking search over one board that advances one cell per step.
pub struct Solver {
    grid: Grid,
    current: (usize, usize),
    start_nums: [i32; 81],
}

impl View for Solver {
    type V = SearchState;

    closed spec fn view(&self) -> SearchState {
        SearchState {
            board: self.grid@,
            cursor: cell_index(self.current.0 as int, self.current.1 as int),
            resume: self.start_nums@,
        }
    }
}

impl Solver {
    /// The cursor is on the board and the state of the search is well
    /// formed.
    pub closed spec fn wf(&self) -> bool {
        &&& self.current.0 < 9
        &&& self.current.1 < 9
        &&& self@.wf()
    }

    /// A solver at the start of its search of `grid`.
    pub fn new(grid: Grid) -> (s: Solver)
        requires
            grid.wf(),
        ensures
            s.wf(),
            s@ == SearchState::start(grid@),
    {
        let s = Solver { grid, current: (0, 0), start_nums: [1; 81] };
        assert(s@.resume =~= SearchState::start(grid@).resume);
        s
    }

    /// Writes `value` into cell `(x, y)` if the cell is empty and `value`
    /// breaks no rule there, and reports `Success`; else changes nothing and
    /// reports `Failure`.
    pub fn try_add(&mut self, x: usize, y: usize, value: i32) -> (r: ExitCode)
        requires
            x < 9,
            y < 9,
        ensures
            r == ExitCode::Success || r == ExitCode::Failure,
            r == ExitCode::Success <==> old(self)@.board.cells[cell_index(x as int, y as int)]
                is None && old(self)@.board.can_add(x as int, y as int, value),
            r == ExitCode::Success ==> final(self)@ == (SearchState {
                board: old(self)@.board.put(cell_index(x as int, y as int), value),
                ..old(self)@
            }),
            r == ExitCode::Failure ==> final(self)@ == old(self)@,
            final(self).cursor_spec() == old(self).cursor_spec(),
            old(self).wf() ==> final(self).wf(),
            old(self)@.board.legal() ==> final(self)@.board.legal(),
    {
        let index = Grid::two_d_to_index(x, y);
        if self.grid.value_at(x, y).is_some() || !self.grid.can_add(x, y, value) {
            return ExitCode::Failure;
        }
        proof {
            broadcast use Grid::lemma_len;

            if self@.board.legal() {
                self@.board.lemma_put_legal(x as int, y as int, value);
            }
        }
        self.grid.put(index, value);
        ExitCode::Success
    }

    /// The cursor as column and row.
    pub closed spec fn cursor_spec(&self) -> (usize, usize) {
        self.current
    }

    /// The cursor as column and row.
    pub fn cursor(&self) -> (c: (usize, usize))
        requires
            self.wf(),
        ensures
            c == self.cursor_spec(),
            c.0 < 9,
            c.1 < 9,
            cell_index(c.0 as int, c.1 as int) == self@.cursor,
    {
        self.current
    }

    /// The board as the search has left it.
    pub fn grid(&self) -> (g: &Grid)
        ensures
            g@ == self@.board,
    {
        &self.grid
    }

    /// The next digit that the search will try at cell `(x, y)`; 10 where
    /// none is left.
    pub fn start_num(&self, x: usize, y: usize) -> (n: i32)
        requires
            x < 9,
            y < 9,
        ensures
            n == self@.resume[cell_index(x as int, y as int)],
    {
        self.start_nums[Grid::two_d_to_index(x, y)]
    }

    fn increment_indices(&mut self)
        requires
            old(self).wf(),
            old(self)@.cursor < 80,
        ensures
            final(self)@ == (SearchState { cursor: old(self)@.cursor + 1, ..old(self)@ }),
            final(self).current.0 < 9,
            final(self).current.1 < 9,
    {
        let (x, y) = self.current;
        self.current = if x == 8 {
            (0, y + 1)
        } else {
            (x + 1, y)
        };
    }

    fn decrement_indices(&mut self)
        requires
            old(self).current.0 < 9,
            old(self).current.1 < 9,
            old(self)@.cursor > 0,
        ensures
            final(self)@ == (SearchState { cursor: old(self)@.cursor - 1, ..old(self)@ }),
            final(self).current.0 < 9,
            final(self).current.1 < 9,
    {
        let (x, y) = self.current;
        self.current = if x == 0 {
            (8, y - 1)
        } else {
            (x - 1, y)
        };
    }
    /// Moves the cursor back to the nearest earlier cell that is no given,
    /// or to cell `(0, 0)` where every earlier cell is a given.
    fn step_back(&mut self)
        requires
            old(self).current.0 < 9,
            old(self).current.1 < 9,
        ensures
            final(self)@ == (SearchState {
                cursor: retreat(old(self)@.board.fixed, old(self)@.cursor),
                ..old(self)@
            }),
            final(self).current.0 < 9,
            final(self).current.1 < 9,
    {
        let ghost from = self@.cursor;
        let ghost fixed = self@.board.fixed;
        let mut landed = false;
        while !landed && (self.current.0 != 0 || self.current.1 != 0)
            invariant
                self.current.0 < 9,
                self.current.1 < 9,
                self@ == (SearchState { cursor: self@.cursor, ..old(self)@ }),
                fixed == old(self)@.board.fixed,
                from == old(self)@.cursor,
                0 <= self@.cursor <= from,
                landed ==> retreat(fixed, from) == self@.cursor,
                !landed ==> retreat(fixed, from) == retreat(fixed, self@.cursor),
            decreases self@.cursor + (if landed { 0int } else { 1int }),
        {
            self.decrement_indices();
            let (x, y) = self.current;
            if !self.grid.is_fixed(x, y) {
                landed = true;
            }
        }
    }

    /// One step of the search. On the last cell, if it holds a value:
    /// `Success`. On a given: the cursor moves on, `InProgress`. Else the
    /// cell takes the first digit from its resume value to 9 that it accepts
    /// and the cursor moves on (`InProgress`, or `Success` on the last cell);
    /// where it accepts none, its resume value is 1 again, the cursor moves
    /// back to the nearest earlier cell that is no given, that cell is
    /// emptied, and the step reports `Failure`.
    pub fn solve_step(&mut self) -> (r: ExitCode)
        requires
            old(self).wf(),
        ensures
            final(self).wf(),
            (final(self)@, r) == old(self)@.step(),
            final(self)@.board.fixed == old(self)@.board.fixed,
            forall|i: int|
                0 <= i < 81 && old(self)@.board.fixed[i] ==> final(self)@.board.cells[i] == old(
                    self,
                )@.board.cells[i],
            old(self)@.board.legal() ==> final(self)@.board.legal(),
    {
        proof {
            self@.lemma_step();
            self@.lemma_step_board();
        }
        let (x, y) = self.current;
        let index = Grid::two_d_to_index(x, y);

        if x == 8 && y == 8 && self.grid.value_at(x, y).is_some() {
            return ExitCode::Success;
        }
        if self.grid.is_fixed(x, y) {
            self.increment_indices();
            return ExitCode::InProgress;
        }
        let first = self.start_nums[index];
        let mut num = first;
        while num <= 9
            invariant
                self@ == old(self)@,
                self.current == old(self).current,
                self.wf(),
                x == self.current.0,
                y == self.current.1,
                index == self@.cursor,
                !self@.board.fixed[index as int],
                !(index == 80 && self@.board.cells[80] is Some),
                first == self@.resume[index as int],
                1 <= first <= num <= 10,
                self@.first_fit(first as int) == self@.first_fit(num as int),
            decreases 10 - num,
        {
            assert(self@.accepts(num) <==> self@.board.cells[index as int] is None
                && self@.board.can_add(x as int, y as int, num));
            assert(self@.first_fit(num as int) == (if self@.accepts(num) {
                num as int
            } else {
                self@.first_fit(num + 1)
            }));
            if self.try_add(x, y, num) == ExitCode::Success {
                self.start_nums[index] = num + 1;
                assert(self@ == (SearchState { cursor: index as int, ..old(self)@.placed(num) }));
                if x == 8 && y == 8 {
                    return ExitCode::Success;
                }
                self.increment_indices();
                return ExitCode::InProgress;
            }
            num += 1;
        }
        self.start_nums[index] = 1;
        self.step_back();
        let (x, y) = self.current;
        if !self.grid.is_fixed(x, y) {
            self.grid.wipe(Grid::two_d_to_index(x, y));
        }
        ExitCode::Failure
    }
    /// Steps until a step succeeds, or fails and leaves the cursor on cell
    /// `(0, 0)`, and reports which.
    pub fn solve(&mut self) -> (r: ExitCode)
        requires
            old(self).wf(),
        ensures
            final(self).wf(),
            (final(self)@, r) == old(self)@.run(),
            r == ExitCode::Success || r == ExitCode::Failure,
            r == ExitCode::Success ==> final(self)@.board.full() && final(self).cursor_spec() == (
                8usize,
                8usize,
            ),
            r == ExitCode::Failure ==> final(self).cursor_spec() == (0usize, 0usize),
            final(self)@.board.fixed == old(self)@.board.fixed,
            forall|i: int|
                0 <= i < 81 && old(self)@.board.fixed[i] ==> final(self)@.board.cells[i] == old(
                    self,
                )@.board.cells[i],
            old(self)@.board.legal() ==> final(self)@.board.legal(),
    {
        let ghost start = self@;
        loop
            invariant
                self.wf(),
                start.wf(),
                start == old(self)@,
                self@.run() == start.run(),
            decreases tick_limit() - self@.ticks(),
        {
            proof {
                start.lemma_run();
                self@.lemma_step();
                self@.lemma_ticks_bounded();
                self@.step().0.lemma_ticks_bounded();
            }
            match self.solve_step() {
                ExitCode::Success => {
                    return ExitCode::Success;
                },
                ExitCode::Failure => {
                    if self.current.0 == 0 && self.current.1 == 0 {
                        return ExitCode::Failure;
                    }
                },
                ExitCode::InProgress => (),
            }
        }
    }

    /// Makes at most `max_steps` steps: stops as `solve` does, with the
    /// same report, or reports `InProgress` after `max_steps` steps none of
    /// which stopped it.
    pub fn solve_n_steps(&mut self, max_steps: usize) -> (r: ExitCode)
        requires
            old(self).wf(),
        ensures
            final(self).wf(),
            (final(self)@, r) == old(self)@.run_for(max_steps as nat),
            final(self)@.board.fixed == old(self)@.board.fixed,
            forall|i: int|
                0 <= i < 81 && old(self)@.board.fixed[i] ==> final(self)@.board.cells[i] == old(
                    self,
                )@.board.cells[i],
            old(self)@.board.legal() ==> final(self)@.board.legal(),
    {
        let mut left = max_steps;
        while left > 0
            invariant
                self.wf(),
                self@.run_for(left as nat) == old(self)@.run_for(max_steps as nat),
                self@.board.fixed == old(self)@.board.fixed,
                forall|i: int|
                    0 <= i < 81 && old(self)@.board.fixed[i] ==> self@.board.cells[i] == old(
                        self,
                    )@.board.cells[i],
                old(self)@.board.legal() ==> self@.board.legal(),
            decreases left,
        {
            match self.solve_step() {
                ExitCode::Success => {
                    return ExitCode::Success;
                },
                ExitCode::Failure => {
                    if self.current.0 == 0 && self.current.1 == 0 {
                        return ExitCode::Failure;
                    }
                },
                ExitCode::InProgress => (),
            }
            left -= 1;
        }
        ExitCode::InProgress
    }
}

} // verus!
