//! The search as mathematics: a state, the step that leads from one state
//! to the next, and the count that shows that the search ends.

use crate::grid::{cell_index, Board, ExitCode};
use vstd::prelude::*;

verus! {

/// A moment of the search: the board, the index of the cell under
/// examination, and for each cell the next digit to try there.
pub struct SearchState {
    pub board: Board,
    pub cursor: int,
    pub resume: Seq<i32>,
}

/// The nearest cell before `c` that is not a given, or cell 0 where there
/// is none.
pub open spec fn retreat(fixed: Seq<bool>, c: int) -> int
    decreases c,
{
    if c <= 0 {
        0
    } else if !fixed[c - 1] {
        c - 1
    } else {
        retreat(fixed, c - 1)
    }
}

/// Ten to the power of `n`.
pub open spec fn pow10(n: nat) -> nat
    decreases n,
{
    if n == 0 {
        1
    } else {
        10 * pow10((n - 1) as nat)
    }
}

/// A bound on `ticks` that holds of every state.
pub open spec fn tick_limit() -> nat {
    81 * pow10(81) + 81
}

/// Where `retreat` lands: below `c`, with nothing but givens between it and
/// `c`, and on a given only at cell 0.
pub proof fn lemma_retreat(fixed: Seq<bool>, c: int)
    requires
        0 <= c < 81,
    ensures
        0 <= retreat(fixed, c) <= c,
        c > 0 ==> retreat(fixed, c) < c,
        forall|i: int| retreat(fixed, c) < i < c ==> fixed[i],
        fixed[retreat(fixed, c)] ==> retreat(fixed, c) == 0,
    decreases c,
{
    if c > 0 && fixed[c - 1] {
        lemma_retreat(fixed, c - 1);
    }
}

impl SearchState {
    /// The state in which a search of `board` begins.
    pub open spec fn start(board: Board) -> SearchState {
        SearchState { board, cursor: 0, resume: Seq::new(81, |i: int| 1i32) }
    }

    /// The cursor is on the board; every resume value is between 1 and 10;
    /// it is 1 behind the cursor and on the givens; each cell before the
    /// cursor that is no given holds a digit, and its resume value is the
    /// next digit.
    pub open spec fn wf(self) -> bool {
        &&& self.board.wf()
        &&& 0 <= self.cursor < 81
        &&& self.resume.len() == 81
        &&& forall|i: int| 0 <= i < 81 ==> 1 <= #[trigger] self.resume[i] <= 10
        &&& forall|i: int| self.cursor < i < 81 ==> #[trigger] self.resume[i] == 1
        &&& forall|i: int| 0 <= i < 81 && self.board.fixed[i] ==> #[trigger] self.resume[i] == 1
        &&& forall|i: int|
            0 <= i < self.cursor && !self.board.fixed[i] ==> #[trigger] self.resume[i] >= 2
                && self.board.cells[i] == Some((self.resume[i] - 1) as i32)
    }

    /// Whether the cell under the cursor is empty and `value` breaks no
    /// rule there.
    pub open spec fn accepts(self, value: i32) -> bool {
        &&& self.board.cells[self.cursor] is None
        &&& self.board.can_add(self.cursor % 9, self.cursor / 9, value)
    }

    /// The least digit from `from` to 9 that the cell under the cursor
    /// accepts, or 10 where it accepts none of them.
    pub open spec fn first_fit(self, from: int) -> int
        decreases 10 - from,
    {
        if from >= 10 {
            10
        } else if self.accepts(from as i32) {
            from
        } else {
            self.first_fit(from + 1)
        }
    }

    /// The state after the cell under the cursor took `value`.
    pub open spec fn placed(self, value: i32) -> SearchState {
        SearchState {
            board: self.board.put(self.cursor, value),
            cursor: if self.cursor == 80 {
                80
            } else {
                self.cursor + 1
            },
            resume: self.resume.update(self.cursor, (value + 1) as i32),
        }
    }

    /// The state after the search gave up the cell under the cursor: the
    /// cursor is on the nearest earlier cell that is no given, and that cell
    /// is empty. Where every earlier cell is a given the cursor is on cell 0,
    /// and a given there keeps its value.
    pub open spec fn undone(self) -> SearchState {
        let back = retreat(self.board.fixed, self.cursor);
        SearchState {
            board: if self.board.fixed[back] {
                self.board
            } else {
                self.board.wipe(back)
            },
            cursor: back,
            resume: self.resume.update(self.cursor, 1),
        }
    }

    /// One step of the search and what it reports.
    pub open spec fn step(self) -> (SearchState, ExitCode) {
        if self.cursor == 80 && self.board.cells[80] is Some {
            (self, ExitCode::Success)
        } else if self.board.fixed[self.cursor] {
            (SearchState { cursor: self.cursor + 1, ..self }, ExitCode::InProgress)
        } else {
            let digit = self.first_fit(self.resume[self.cursor] as int);
            if digit <= 9 {
                (
                    self.placed(digit as i32),
                    if self.cursor == 80 {
                        ExitCode::Success
                    } else {
                        ExitCode::InProgress
                    },
                )
            } else {
                (self.undone(), ExitCode::Failure)
            }
        }
    }

    /// Whether a run stops after a step that reported `code` and led to
    /// `self`: on success, and on a failure that left the cursor on cell 0.
    pub open spec fn stops(self, code: ExitCode) -> bool {
        code == ExitCode::Success || (code == ExitCode::Failure && self.cursor == 0)
    }

    /// What the search has used up at cell `i`: the digits below the one
    /// the cell holds, for a cell before the cursor; the digits tried so far,
    /// for the cell under the cursor; nothing for a given or a later cell.
    pub open spec fn digit(self, i: int) -> int {
        if i == self.cursor {
            self.resume[i] - 1
        } else if i < self.cursor && !self.board.fixed[i] {
            self.resume[i] - 2
        } else {
            0
        }
    }

    /// The number whose decimal digits are `digit(0)` to `digit(n)`.
    pub open spec fn prefix_value(self, n: int) -> int
        decreases n + 1,
    {
        if n < 0 {
            0
        } else {
            self.prefix_value(n - 1) * 10 + self.digit(n)
        }
    }

    /// A count that every step of a run raises.
    pub open spec fn ticks(self) -> int {
        self.prefix_value(80) * 81 + self.cursor
    }

    /// Every used-up count is a decimal digit.
    pub proof fn lemma_digit_range(self, i: int)
        requires
            self.wf(),
            0 <= i < 81,
        ensures
            0 <= self.digit(i) <= 9,
    {
    }

    proof fn lemma_prefix_bound(self, n: int)
        requires
            self.wf(),
            -1 <= n < 81,
        ensures
            0 <= self.prefix_value(n) < pow10((n + 1) as nat),
        decreases n + 1,
    {
        if n >= 0 {
            self.lemma_prefix_bound(n - 1);
            self.lemma_digit_range(n);
        }
    }

    proof fn lemma_prefix_monotone(self, other: SearchState, n: int)
        requires
            self.wf(),
            other.wf(),
            -1 <= n < 81,
            forall|i: int| 0 <= i <= n ==> self.digit(i) <= other.digit(i),
        ensures
            self.prefix_value(n) <= other.prefix_value(n),
        decreases n + 1,
    {
        if n >= 0 {
            self.lemma_prefix_monotone(other, n - 1);
        }
    }

    proof fn lemma_prefix_strict(self, other: SearchState, k: int, n: int)
        requires
            self.wf(),
            other.wf(),
            0 <= k <= n < 81,
            forall|i: int| 0 <= i < k ==> self.digit(i) <= other.digit(i),
            self.digit(k) < other.digit(k),
        ensures
            self.prefix_value(n) < other.prefix_value(n),
        decreases n - k,
    {
        if n == k {
            self.lemma_prefix_monotone(other, k - 1);
        } else {
            self.lemma_prefix_strict(other, k, n - 1);
            self.lemma_digit_range(n);
            other.lemma_digit_range(n);
        }
    }

    /// `first_fit` lies between `from` and 10, names a digit that the cell
    /// accepts where it is below 10, and passes over no digit that the cell
    /// accepts.
    pub proof fn lemma_first_fit(self, from: int)
        requires
            1 <= from <= 10,
        ensures
            from <= self.first_fit(from) <= 10,
            self.first_fit(from) <= 9 ==> self.accepts(self.first_fit(from) as i32),
            forall|v: i32| from <= v < self.first_fit(from) ==> !#[trigger] self.accepts(v),
        decreases 10 - from,
    {
        if from < 10 && !self.accepts(from as i32) {
            self.lemma_first_fit(from + 1);
        }
    }

    proof fn lemma_skipped(self)
        requires
            self.wf(),
            self.cursor < 80,
            self.board.fixed[self.cursor],
        ensures
            (SearchState { cursor: self.cursor + 1, ..self }).wf(),
            self.ticks() < (SearchState { cursor: self.cursor + 1, ..self }).ticks(),
    {
        let next = SearchState { cursor: self.cursor + 1, ..self };
        assert(next.wf());
        assert forall|i: int| 0 <= i <= 80 implies self.digit(i) <= next.digit(i) by {}
        self.lemma_prefix_monotone(next, 80);
    }

    proof fn lemma_placed(self, value: i32)
        requires
            self.wf(),
            !self.board.fixed[self.cursor],
            self.resume[self.cursor] <= value <= 9,
        ensures
            self.placed(value).wf(),
            self.cursor < 80 ==> self.ticks() < self.placed(value).ticks(),
    {
        let next = self.placed(value);
        let c = self.cursor;
        assert(next.board.wf());
        assert forall|i: int| 0 <= i < next.cursor && !next.board.fixed[i] implies #[trigger] next.resume[i]
            >= 2 && next.board.cells[i] == Some((next.resume[i] - 1) as i32) by {
            if i != c {
                assert(self.resume[i] >= 2);
            }
        }
        assert(next.wf());
        if c < 80 {
            assert forall|i: int| 0 <= i <= 80 implies self.digit(i) <= next.digit(i) by {}
            self.lemma_prefix_monotone(next, 80);
        }
    }

    proof fn lemma_undone(self)
        requires
            self.wf(),
            !self.board.fixed[self.cursor],
        ensures
            self.undone().wf(),
            self.undone().cursor > 0 ==> self.ticks() < self.undone().ticks(),
    {
        let next = self.undone();
        let c = self.cursor;
        let back = retreat(self.board.fixed, c);
        lemma_retreat(self.board.fixed, c);
        assert(next.board.wf());
        assert forall|i: int| 0 <= i < 81 implies 1 <= #[trigger] next.resume[i] <= 10 by {
            assert(1 <= self.resume[i] <= 10);
        }
        assert forall|i: int| back < i < 81 implies #[trigger] next.resume[i] == 1 by {
            if i < c {
                assert(self.board.fixed[i]);
                assert(self.resume[i] == 1);
            } else if i > c {
                assert(self.resume[i] == 1);
            }
        }
        assert forall|i: int| 0 <= i < 81 && next.board.fixed[i] implies #[trigger] next.resume[i]
            == 1 by {
            assert(self.resume[i] == 1);
        }
        assert forall|i: int| 0 <= i < back && !next.board.fixed[i] implies #[trigger] next.resume[i]
            >= 2 && next.board.cells[i] == Some((next.resume[i] - 1) as i32) by {
            assert(self.resume[i] >= 2);
        }
        assert(next.wf());
        if back > 0 {
            assert(self.resume[back] >= 2);
            assert forall|i: int| 0 <= i < back implies self.digit(i) <= next.digit(i) by {}
            assert(self.digit(back) < next.digit(back));
            self.lemma_prefix_strict(next, back, 80);
        }
    }

    /// One step keeps the givens as they are and a legal board legal.
    pub proof fn lemma_step_board(self)
        requires
            self.wf(),
        ensures
            self.step().0.board.fixed == self.board.fixed,
            forall|i: int|
                0 <= i < 81 && self.board.fixed[i] ==> self.step().0.board.cells[i]
                    == self.board.cells[i],
            self.board.legal() ==> self.step().0.board.legal(),
    {
        let c = self.cursor;
        if !(c == 80 && self.board.cells[80] is Some) && !self.board.fixed[c] {
            let digit = self.first_fit(self.resume[c] as int);
            self.lemma_first_fit(self.resume[c] as int);
            if digit <= 9 {
                assert(cell_index(c % 9, c / 9) == c);
                if self.board.legal() {
                    self.board.lemma_put_legal(c % 9, c / 9, digit as i32);
                }
            } else {
                let back = retreat(self.board.fixed, c);
                lemma_retreat(self.board.fixed, c);
                if !self.board.fixed[back] && self.board.legal() {
                    self.board.lemma_wipe_legal(back);
                }
            }
        }
    }

    /// One step keeps the state well formed and, unless the run stops after
    /// it, raises the count.
    pub proof fn lemma_step(self)
        requires
            self.wf(),
        ensures
            self.step().0.wf(),
            !self.step().0.stops(self.step().1) ==> self.ticks() < self.step().0.ticks(),
    {
        let c = self.cursor;
        if c == 80 && self.board.cells[80] is Some {
        } else if self.board.fixed[c] {
            self.lemma_skipped();
        } else {
            let digit = self.first_fit(self.resume[c] as int);
            self.lemma_first_fit(self.resume[c] as int);
            if digit <= 9 {
                self.lemma_placed(digit as i32);
            } else {
                self.lemma_undone();
            }
        }
    }

    /// The state and the report with which a run from `self` stops: it
    /// steps until a step succeeds, or fails and leaves the cursor on cell 0.
    pub open spec fn run(self) -> (SearchState, ExitCode)
        decreases tick_limit() - self.ticks(),
        when self.wf()
        via Self::run_decreases
    {
        let (next, code) = self.step();
        if next.stops(code) {
            (next, code)
        } else {
            next.run()
        }
    }

    #[via_fn]
    proof fn run_decreases(self) {
        self.lemma_step();
        self.lemma_ticks_bounded();
        self.step().0.lemma_ticks_bounded();
    }

    /// Where a run stops: the state is well formed, the givens are as they
    /// were, and a board that was legal is legal. The report is `Success`, with
    /// a full board and the cursor on the last cell, or `Failure`, with the
    /// cursor on cell 0.
    pub proof fn lemma_run(self)
        requires
            self.wf(),
        ensures
            self.run().0.wf(),
            self.run().0.board.fixed == self.board.fixed,
            forall|i: int|
                0 <= i < 81 && self.board.fixed[i] ==> self.run().0.board.cells[i]
                    == self.board.cells[i],
            self.board.legal() ==> self.run().0.board.legal(),
            self.run().1 == ExitCode::Success || self.run().1 == ExitCode::Failure,
            self.run().1 == ExitCode::Success ==> self.run().0.cursor == 80
                && self.run().0.board.full(),
            self.run().1 == ExitCode::Failure ==> self.run().0.cursor == 0,
        decreases tick_limit() - self.ticks(),
    {
        let (next, code) = self.step();
        self.lemma_step();
        self.lemma_step_board();
        self.lemma_ticks_bounded();
        next.lemma_ticks_bounded();
        if next.stops(code) {
            if code == ExitCode::Success {
                assert forall|i: int| 0 <= i < 81 implies #[trigger] next.board.cells[i] is Some by {
                    if next.board.fixed[i] {
                    } else if i < 80 {
                        assert(next.resume[i] >= 2);
                    }
                }
            }
        } else {
            next.lemma_run();
        }
    }

    /// The state and the report after at most `n` steps from `self`: those
    /// of the step after which a run stops, or `InProgress` after `n` steps
    /// none of which stopped it.
    pub open spec fn run_for(self, n: nat) -> (SearchState, ExitCode)
        decreases n,
    {
        if n == 0 {
            (self, ExitCode::InProgress)
        } else {
            let (next, code) = self.step();
            if next.stops(code) {
                (next, code)
            } else {
                next.run_for((n - 1) as nat)
            }
        }
    }

    /// The count stays between 0 and its limit.
    pub proof fn lemma_ticks_bounded(self)
        requires
            self.wf(),
        ensures
            0 <= self.ticks() < tick_limit(),
    {
        self.lemma_prefix_bound(80);
    }
}

} // verus!
