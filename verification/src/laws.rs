//! What holds of every search: it is a function of the board it starts
//! from, it stops within a known number of steps, and it finds a solution that
//! lies ahead of it.

use crate::grid::{cell_index, Board, ExitCode};
use crate::search::{lemma_retreat, retreat, tick_limit, SearchState};
use vstd::prelude::*;

verus! {

/// Whether `digits` is a finished Sudoku: 81 digits from 1 to 9, no two of
/// them equal in one row, one column or one box.
pub open spec fn is_solution(digits: Seq<i32>) -> bool {
    &&& digits.len() == 81
    &&& forall|i: int| 0 <= i < 81 ==> 1 <= #[trigger] digits[i] <= 9
    &&& forall|x: int, y: int, a: int, b: int|
        0 <= x < 9 && 0 <= y < 9 && 0 <= a < 9 && 0 <= b < 9 && (x != a || y != b) && (y == b || x
            == a || (x / 3 == a / 3 && y / 3 == b / 3)) ==> digits[#[trigger] cell_index(x, y)]
            != digits[#[trigger] cell_index(a, b)]
}

/// Whether the search in state `s` has yet to reach `digits`. The givens
/// agree with `digits`; the cells from the cursor on that are no givens are
/// empty; the cells before cell `j` agree with `digits`; and cell `j`, at or
/// before the cursor, has not yet tried the digit that `digits` has there.
pub open spec fn ahead(s: SearchState, digits: Seq<i32>, j: int) -> bool {
    &&& 0 <= j <= s.cursor
    &&& forall|i: int| 0 <= i < j ==> #[trigger] s.board.cells[i] == Some(digits[i])
    &&& forall|i: int|
        0 <= i < 81 && #[trigger] s.board.fixed[i] ==> s.board.cells[i] == Some(digits[i])
    &&& forall|i: int|
        s.cursor <= i < 81 && !s.board.fixed[i] ==> #[trigger] s.board.cells[i] is None
    &&& !s.board.fixed[j] ==> s.resume[j] <= digits[j]
    &&& j < s.cursor ==> !s.board.fixed[j]
}

/// The cell under the cursor accepts the digit of a solution with which
/// the board agrees so far.
proof fn lemma_solution_fits(s: SearchState, digits: Seq<i32>)
    requires
        s.wf(),
        is_solution(digits),
        ahead(s, digits, s.cursor),
        !s.board.fixed[s.cursor],
    ensures
        s.accepts(digits[s.cursor]),
{
    let c = s.cursor;
    let x = c % 9;
    let y = c / 9;
    let v = digits[c];
    assert(cell_index(x, y) == c);
    assert forall|a: int, b: int|
        0 <= a < 9 && 0 <= b < 9 && (a != x || b != y) && (b == y || a == x || (a / 3 == x / 3 && b
            / 3 == y / 3)) implies s.board.cells[#[trigger] cell_index(a, b)] != Some(v) by {
        let i = cell_index(a, b);
        if s.board.cells[i] is Some {
            if s.board.fixed[i] {
            } else if i < c {
            } else {
                assert(s.board.cells[i] is None);
            }
            assert(s.board.cells[i] == Some(digits[i]));
            assert(digits[cell_index(a, b)] != digits[cell_index(x, y)]);
        }
    }
}

/// A search that has a solution ahead of it, beyond cell 0, succeeds.
pub proof fn lemma_run_succeeds(s: SearchState, digits: Seq<i32>, j: int)
    requires
        s.wf(),
        is_solution(digits),
        ahead(s, digits, j),
        j >= 1,
    ensures
        s.run().1 == ExitCode::Success,
    decreases tick_limit() - s.ticks(),
{
    let (next, code) = s.step();
    let c = s.cursor;
    s.lemma_step();
    s.lemma_ticks_bounded();
    next.lemma_ticks_bounded();
    if c == 80 && s.board.cells[80] is Some {
    } else if s.board.fixed[c] {
        let k = if j == c {
            c + 1
        } else {
            j
        };
        assert(ahead(next, digits, k));
        lemma_run_succeeds(next, digits, k);
    } else {
        let from = s.resume[c] as int;
        let digit = s.first_fit(from);
        s.lemma_first_fit(from);
        if j == c {
            lemma_solution_fits(s, digits);
            assert(digit <= digits[c]);
        }
        if digit <= 9 {
            if c < 80 {
                let k = if j == c && digit == digits[c] {
                    c + 1
                } else {
                    j
                };
                assert(ahead(next, digits, k));
                lemma_run_succeeds(next, digits, k);
            }
        } else {
            let back = retreat(s.board.fixed, c);
            lemma_retreat(s.board.fixed, c);
            assert(back >= j) by {
                if back < j {
                    assert(s.board.fixed[j]);
                }
            }
            assert(ahead(next, digits, j));
            lemma_run_succeeds(next, digits, j);
        }
    }
}

/// The digits of one finished Sudoku: each row is the row above it moved
/// left by three cells, and by one more where a new band of boxes begins.
pub open spec fn shifted_rows() -> Seq<i32> {
    Seq::new(81, |i: int| (shifted(i % 9, i / 9) + 1) as i32)
}

/// The digit of `shifted_rows` in column `x` and row `y`, less one.
pub open spec fn shifted(x: int, y: int) -> int {
    (x + 3 * (y % 3) + y / 3) % 9
}

proof fn lemma_shifted_distinct(x: int, y: int, a: int, b: int)
    requires
        0 <= x < 9,
        0 <= y < 9,
        0 <= a < 9,
        0 <= b < 9,
        x != a || y != b,
        y == b || x == a || (x / 3 == a / 3 && y / 3 == b / 3),
    ensures
        shifted(x, y) != shifted(a, b),
{
    let p = x + 3 * (y % 3) + y / 3;
    let q = a + 3 * (b % 3) + b / 3;
    assert(0 <= p < 18 && 0 <= q < 18);
    assert(p % 9 == if p >= 9 {
        p - 9
    } else {
        p
    });
    assert(q % 9 == if q >= 9 {
        q - 9
    } else {
        q
    });
    assert(y == 3 * (y / 3) + y % 3 && b == 3 * (b / 3) + b % 3);
    assert(x == 3 * (x / 3) + x % 3 && a == 3 * (a / 3) + a % 3);
}

/// `shifted_rows` is a finished Sudoku.
pub proof fn lemma_shifted_rows_solve()
    ensures
        is_solution(shifted_rows()),
{
    let d = shifted_rows();
    assert forall|x: int, y: int, a: int, b: int|
        0 <= x < 9 && 0 <= y < 9 && 0 <= a < 9 && 0 <= b < 9 && (x != a || y != b) && (y == b || x
            == a || (x / 3 == a / 3 && y / 3 == b / 3)) implies d[#[trigger] cell_index(x, y)]
        != d[#[trigger] cell_index(a, b)] by {
        let i = cell_index(x, y);
        let k = cell_index(a, b);
        assert(i % 9 == x && i / 9 == y);
        assert(k % 9 == a && k / 9 == b);
        assert(d[i] == shifted(x, y) + 1);
        assert(d[k] == shifted(a, b) + 1);
        lemma_shifted_distinct(x, y, a, b);
    }
}

/// The search of the empty board succeeds.
pub proof fn lemma_empty_board_solved()
    ensures
        SearchState::start(Board::empty()).run().1 == ExitCode::Success,
{
    let s = SearchState::start(Board::empty());
    let d = shifted_rows();
    lemma_shifted_rows_solve();
    assert(s.wf());
    assert(ahead(s, d, 0));
    lemma_solution_fits(s, d);
    assert(d[0] == 1);
    assert(s.first_fit(1) == 1);
    let (next, code) = s.step();
    assert(next == s.placed(1));
    s.lemma_step();
    assert(ahead(next, d, 1));
    lemma_run_succeeds(next, d, 1);
}

/// A run stops within as many steps as the count is below its limit: so
/// many steps, or more, lead to the state and the report of the run.
pub proof fn lemma_run_within(s: SearchState, n: nat)
    requires
        s.wf(),
        n >= tick_limit() - s.ticks(),
    ensures
        s.run_for(n) == s.run(),
    decreases tick_limit() - s.ticks(),
{
    let (next, code) = s.step();
    s.lemma_step();
    s.lemma_ticks_bounded();
    next.lemma_ticks_bounded();
    if !next.stops(code) {
        lemma_run_within(next, (n - 1) as nat);
    }
}

/// Two searches that begin on the same board stop in the same state with
/// the same report.
pub proof fn lemma_run_deterministic(a: Board, b: Board)
    requires
        a == b,
    ensures
        SearchState::start(a).run() == SearchState::start(b).run(),
{
}

} // verus!
