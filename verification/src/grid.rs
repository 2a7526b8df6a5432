//! The board: 81 cells, the marking of the given cells, and the three
//! uniqueness rules of Sudoku.

use vstd::prelude::*;

verus! {

/// What one operation of the search reports.
#[derive(Debug, Copy, Clone, PartialEq, Eq, Structural)]
pub enum ExitCode {
    Success,
    Failure,
    InProgress,
}

/// The index of the cell in column `x` and row `y`.
pub open spec fn cell_index(x: int, y: int) -> int {
    x + y * 9
}

/// How many entries of `flags` are true.
pub open spec fn count_true(flags: Seq<bool>) -> nat
    decreases flags.len(),
{
    if flags.len() == 0 {
        0
    } else {
        count_true(flags.drop_last()) + if flags.last() {
            1nat
        } else {
            0nat
        }
    }
}

/// Where no entry is true the count is 0.
pub proof fn lemma_count_true_none(flags: Seq<bool>)
    requires
        forall|i: int| 0 <= i < flags.len() ==> !flags[i],
    ensures
        count_true(flags) == 0,
    decreases flags.len(),
{
    if flags.len() > 0 {
        lemma_count_true_none(flags.drop_last());
    }
}

/// Setting a false entry raises the count by one.
pub proof fn lemma_count_true_set(flags: Seq<bool>, i: int)
    requires
        0 <= i < flags.len(),
        !flags[i],
    ensures
        count_true(flags.update(i, true)) == count_true(flags) + 1,
    decreases flags.len(),
{
    let after = flags.update(i, true);
    if i == flags.len() - 1 {
        assert(after.drop_last() =~= flags.drop_last());
    } else {
        assert(after.drop_last() =~= flags.drop_last().update(i, true));
        lemma_count_true_set(flags.drop_last(), i);
    }
}

/// The mathematical content of a board: what each of the 81 cells holds and
/// which of them are given.
pub struct Board {
    pub cells: Seq<Option<i32>>,
    pub fixed: Seq<bool>,
}

impl Board {
    /// The board without any digit.
    pub open spec fn empty() -> Board {
        Board { cells: Seq::new(81, |i: int| None::<i32>), fixed: Seq::new(81, |i: int| false) }
    }

    /// There are 81 cells, and every given cell holds a value.
    pub open spec fn wf(self) -> bool {
        &&& self.cells.len() == 81
        &&& self.fixed.len() == 81
        &&& forall|i: int| 0 <= i < 81 && #[trigger] self.fixed[i] ==> self.cells[i] is Some
    }

    /// No other cell of row `y` holds `value`.
    pub open spec fn row_free(self, x: int, y: int, value: i32) -> bool {
        forall|a: int, b: int|
            0 <= a < 9 && b == y && a != x ==> self.cells[#[trigger] cell_index(a, b)] != Some(
                value,
            )
    }

    /// No other cell of column `x` holds `value`.
    pub open spec fn column_free(self, x: int, y: int, value: i32) -> bool {
        forall|a: int, b: int|
            0 <= b < 9 && a == x && b != y ==> self.cells[#[trigger] cell_index(a, b)] != Some(
                value,
            )
    }

    /// No other cell of the 3x3 box around `(x, y)` holds `value`.
    pub open spec fn square_free(self, x: int, y: int, value: i32) -> bool {
        forall|a: int, b: int|
            0 <= a < 9 && 0 <= b < 9 && a / 3 == x / 3 && b / 3 == y / 3 && (a != x || b != y)
                ==> self.cells[#[trigger] cell_index(a, b)] != Some(value)
    }

    /// `value` breaks none of the three rules at `(x, y)`.
    pub open spec fn can_add(self, x: int, y: int, value: i32) -> bool {
        &&& self.row_free(x, y, value)
        &&& self.column_free(x, y, value)
        &&& self.square_free(x, y, value)
    }

    /// Every value on the board is the only one of its kind in its row, its
    /// column and its box.
    pub open spec fn legal(self) -> bool {
        forall|x: int, y: int|
            0 <= x < 9 && 0 <= y < 9 && self.cells[#[trigger] cell_index(x, y)] is Some
                ==> self.can_add(x, y, self.cells[cell_index(x, y)]->0)
    }

    /// How many cells are givens.
    pub open spec fn given_count(self) -> nat {
        count_true(self.fixed)
    }

    /// The givens are the cells that hold a value, and each of these values
    /// is a digit from 1 to 9.
    pub open spec fn is_puzzle(self) -> bool {
        forall|i: int|
            0 <= i < 81 ==> (#[trigger] self.cells[i] is Some <==> self.fixed[i]) && (
            self.cells[i] is Some ==> 1 <= self.cells[i]->0 <= 9)
    }

    /// Every cell holds a value.
    pub open spec fn full(self) -> bool {
        forall|i: int| 0 <= i < 81 ==> #[trigger] self.cells[i] is Some
    }

    /// The board with `value` written into cell `i`.
    pub open spec fn put(self, i: int, value: i32) -> Board {
        Board { cells: self.cells.update(i, Some(value)), fixed: self.fixed }
    }

    /// The board with `value` written into cell `i` as a given.
    pub open spec fn put_given(self, i: int, value: i32) -> Board {
        Board { cells: self.cells.update(i, Some(value)), fixed: self.fixed.update(i, true) }
    }

    /// The board with cell `i` emptied.
    pub open spec fn wipe(self, i: int) -> Board {
        Board { cells: self.cells.update(i, None), fixed: self.fixed }
    }

    /// A legal board stays legal when an empty cell takes a value that
    /// breaks no rule there.
    pub proof fn lemma_put_legal(self, x: int, y: int, value: i32)
        requires
            self.cells.len() == 81,
            self.legal(),
            0 <= x < 9,
            0 <= y < 9,
            self.can_add(x, y, value),
        ensures
            self.put(cell_index(x, y), value).legal(),
            self.put_given(cell_index(x, y), value).legal(),
    {
        let after = self.put(cell_index(x, y), value);
        assert forall|p: int, q: int|
            0 <= p < 9 && 0 <= q < 9 && after.cells[#[trigger] cell_index(p, q)] is Some implies after.can_add(
            p,
            q,
            after.cells[cell_index(p, q)]->0,
        ) by {
            let w = after.cells[cell_index(p, q)]->0;
            if p == x && q == y {
                assert(w == value);
            } else {
                assert(self.cells[cell_index(p, q)] == Some(w));
                assert(self.can_add(p, q, w));
                assert(after.row_free(p, q, w)) by {
                    if q == y && w == value {
                        assert(!self.row_free(x, y, value));
                    }
                }
                assert(after.column_free(p, q, w)) by {
                    if p == x && w == value {
                        assert(!self.column_free(x, y, value));
                    }
                }
                assert(after.square_free(p, q, w)) by {
                    if p / 3 == x / 3 && q / 3 == y / 3 && w == value {
                        assert(!self.square_free(x, y, value));
                    }
                }
            }
        }
        assert(self.put_given(cell_index(x, y), value).cells == after.cells);
    }

    /// A puzzle that gets one more given, a digit in a cell that was none,
    /// is a puzzle with one given more.
    pub proof fn lemma_put_given_puzzle(self, i: int, value: i32)
        requires
            self.wf(),
            self.is_puzzle(),
            0 <= i < 81,
            !self.fixed[i],
            1 <= value <= 9,
        ensures
            self.put_given(i, value).wf(),
            self.put_given(i, value).is_puzzle(),
            self.put_given(i, value).given_count() == self.given_count() + 1,
    {
        let after = self.put_given(i, value);
        lemma_count_true_set(self.fixed, i);
        assert forall|k: int| 0 <= k < 81 && #[trigger] after.fixed[k] implies after.cells[k] is Some by {
            if k != i {
                assert(self.fixed[k]);
            }
        }
        assert forall|k: int| 0 <= k < 81 implies (#[trigger] after.cells[k] is Some
            <==> after.fixed[k]) && (after.cells[k] is Some ==> 1 <= after.cells[k]->0 <= 9) by {
            if k != i {
                assert(self.cells[k] is Some <==> self.fixed[k]);
            }
        }
    }

    /// A legal board stays legal when a cell is emptied.
    pub proof fn lemma_wipe_legal(self, i: int)
        requires
            self.cells.len() == 81,
            self.legal(),
            0 <= i < 81,
        ensures
            self.wipe(i).legal(),
    {
        let after = self.wipe(i);
        assert forall|p: int, q: int|
            0 <= p < 9 && 0 <= q < 9 && after.cells[#[trigger] cell_index(p, q)] is Some implies after.can_add(
            p,
            q,
            after.cells[cell_index(p, q)]->0,
        ) by {
            let w = after.cells[cell_index(p, q)]->0;
            assert(self.cells[cell_index(p, q)] == Some(w));
            assert(self.can_add(p, q, w));
        }
    }
}

/// How many random numbers one call of `Grid::random` draws at most.
pub const DRAW_LIMIT: usize = 1_000_000;

/// Calls `gen_range` of `macroquad::rand` with `low` and `high`. That
/// function maps the next number of the process-wide generator linearly into
/// the range, in double precision, and cuts off the fraction. With no bound
/// above 2^20 every intermediate value is exact, so the result is at least
/// `low` and below `high`; which number of the range it is depends on the
/// generator's state, and nothing is claimed of it.
#[verifier::external_body]
fn draw(low: usize, high: usize) -> (r: usize)
    requires
        low < high <= 0x10_0000,
    ensures
        low <= r < high,
{
    macroquad::rand::gen_range(low, high)
}

/// A 9x9 board. Cell `(x, y)` (column, row) lives at index `x + 9 * y`.
pub struct Grid {
    cells: [Option<i32>; 81],
    fixed: [bool; 81],
}

impl View for Grid {
    type V = Board;

    closed spec fn view(&self) -> Board {
        Board { cells: self.cells@, fixed: self.fixed@ }
    }
}

impl Grid {
    /// A board of this type always has 81 cells.
    pub broadcast proof fn lemma_len(&self)
        ensures
            (#[trigger] self@).cells.len() == 81,
            self@.fixed.len() == 81,
    {
    }

    /// Every given cell holds a value.
    pub open spec fn wf(&self) -> bool {
        self@.wf()
    }

    /// An empty board without given cells.
    pub fn new() -> (g: Grid)
        ensures
            g@ == Board::empty(),
            g.wf(),
    {
        let g = Grid { cells: [None; 81], fixed: [false; 81] };
        assert(g@.cells =~= Board::empty().cells);
        assert(g@.fixed =~= Board::empty().fixed);
        g
    }

    pub(crate) fn two_d_to_index(x: usize, y: usize) -> (index: usize)
        requires
            x < 9,
            y < 9,
        ensures
            index == cell_index(x as int, y as int),
            index < 81,
    {
        x + y * 9
    }

    /// Writes `value` into cell `index`.
    pub(crate) fn put(&mut self, index: usize, value: i32)
        requires
            index < 81,
        ensures
            final(self)@ == old(self)@.put(index as int, value),
    {
        self.cells[index] = Some(value);
    }

    /// Empties cell `index`.
    pub(crate) fn wipe(&mut self, index: usize)
        requires
            index < 81,
        ensures
            final(self)@ == old(self)@.wipe(index as int),
    {
        self.cells[index] = None;
    }

    /// Writes `value` into cell `(x, y)` and marks the cell as a given,
    /// whatever the cell held and whether or not `value` breaks a rule there.
    pub fn set_given(&mut self, x: usize, y: usize, value: i32)
        requires
            x < 9,
            y < 9,
        ensures
            final(self)@ == old(self)@.put_given(cell_index(x as int, y as int), value),
            old(self).wf() ==> final(self).wf(),
    {
        let index = Grid::two_d_to_index(x, y);
        self.cells[index] = Some(value);
        self.fixed[index] = true;
    }

    /// Makes cell `(x, y)` a given that holds `value` if the cell is empty
    /// and `value` breaks no rule there; else changes nothing. Says whether
    /// it did.
    pub fn try_given(&mut self, x: usize, y: usize, value: i32) -> (done: bool)
        requires
            x < 9,
            y < 9,
        ensures
            done == (old(self)@.cells[cell_index(x as int, y as int)] is None && old(
                self,
            )@.can_add(x as int, y as int, value)),
            done ==> final(self)@ == old(self)@.put_given(cell_index(x as int, y as int), value),
            !done ==> final(self)@ == old(self)@,
            old(self).wf() ==> final(self).wf(),
            old(self)@.legal() ==> final(self)@.legal(),
    {
        if self.value_at(x, y).is_some() || !self.can_add(x, y, value) {
            return false;
        }
        proof {
            if self@.legal() {
                self@.lemma_put_legal(x as int, y as int, value);
            }
        }
        self.set_given(x, y, value);
        true
    }

    /// Draws cells until one is no given, and gives up only where `budget`
    /// runs out first: `None` leaves nothing of it. Each draw takes one from
    /// `budget`, so a cell has cost at least one.
    fn draw_free_cell(&self, budget: &mut usize) -> (r: Option<usize>)
        ensures
            r is Some ==> r->0 < 81 && !self@.fixed[r->0 as int],
            r is Some ==> *final(budget) < *old(budget),
            r is None ==> *final(budget) == 0,
    {
        loop
            invariant
                *budget <= *old(budget),
            decreases *budget,
        {
            if *budget == 0 {
                return None;
            }
            *budget -= 1;
            let index = draw(0, 81);
            if !self.fixed[index] {
                return Some(index);
            }
        }
    }

    /// Draws digits from 1 to 9 until cell `index` takes one as a given,
    /// and gives up only where `budget` runs out first: false leaves the
    /// board unchanged and nothing of the budget. Each draw takes one from
    /// `budget`, so a given has cost at least one.
    fn draw_given(&mut self, index: usize, budget: &mut usize) -> (done: bool)
        requires
            index < 81,
        ensures
            !done ==> final(self)@ == old(self)@ && *final(budget) == 0,
            done ==> {
                &&& *final(budget) < *old(budget)
                &&& old(self)@.cells[index as int] is None
                &&& final(self)@.cells[index as int] is Some
                &&& 1 <= final(self)@.cells[index as int]->0 <= 9
                &&& old(self)@.can_add(
                    index as int % 9,
                    index as int / 9,
                    final(self)@.cells[index as int]->0,
                )
                &&& final(self)@ == old(self)@.put_given(
                    index as int,
                    final(self)@.cells[index as int]->0,
                )
            },
            old(self)@.legal() ==> final(self)@.legal(),
    {
        loop
            invariant
                index < 81,
                self@ == old(self)@,
                *budget <= *old(budget),
            decreases *budget,
        {
            if *budget == 0 {
                return false;
            }
            *budget -= 1;
            let value = draw(1, 10) as i32;
            if self.try_given(index % 9, index / 9, value) {
                return true;
            }
        }
    }

    /// A board with `n_fixed` givens: as many times, draws a cell until one
    /// is no given, then a digit from 1 to 9 until one breaks no rule there,
    /// and makes the cell a given with that digit. Gives up, with `None`,
    /// after `DRAW_LIMIT` draws. A count of 0 or less gives the empty board;
    /// one above 81 gives `None`.
    pub fn random(n_fixed: i32) -> (r: Option<Grid>)
        ensures
            n_fixed <= 0 ==> r is Some && r->0@ == Board::empty(),
            n_fixed > 81 ==> r is None,
            r is Some ==> {
                &&& r->0.wf()
                &&& r->0@.legal()
                &&& r->0@.is_puzzle()
                &&& r->0@.given_count() == if n_fixed > 0 {
                    n_fixed as int
                } else {
                    0
                }
            },
    {
        let mut grid = Grid::new();
        proof {
            lemma_count_true_none(grid@.fixed);
        }
        if n_fixed > 81 {
            return None;
        }
        let mut budget = DRAW_LIMIT;
        let mut placed: i32 = 0;
        while placed < n_fixed
            invariant
                n_fixed <= 81,
                0 <= placed,
                placed == 0 || placed <= n_fixed,
                placed == 0 ==> grid@ == Board::empty(),
                grid.wf(),
                grid@.legal(),
                grid@.is_puzzle(),
                grid@.given_count() == placed,
            decreases n_fixed - placed,
        {
            let index = match grid.draw_free_cell(&mut budget) {
                Some(index) => index,
                None => {
                    return None;
                },
            };
            let ghost before = grid@;
            if !grid.draw_given(index, &mut budget) {
                return None;
            }
            proof {
                broadcast use Grid::lemma_len;

                before.lemma_put_given_puzzle(index as int, grid@.cells[index as int]->0);
            }
            placed += 1;
        }
        Some(grid)
    }

    /// Whether cell `(x, y)` holds `value`.
    fn holds(&self, x: usize, y: usize, value: i32) -> (r: bool)
        requires
            x < 9,
            y < 9,
        ensures
            r == (self@.cells[cell_index(x as int, y as int)] == Some(value)),
    {
        match self.cells[Grid::two_d_to_index(x, y)] {
            Some(v) => v == value,
            None => false,
        }
    }

    /// What cell `(x, y)` holds.
    pub fn value_at(&self, x: usize, y: usize) -> (v: Option<i32>)
        requires
            x < 9,
            y < 9,
        ensures
            v == self@.cells[cell_index(x as int, y as int)],
    {
        self.cells[Grid::two_d_to_index(x, y)]
    }

    /// Whether cell `(x, y)` is a given.
    pub fn is_fixed(&self, x: usize, y: usize) -> (r: bool)
        requires
            x < 9,
            y < 9,
        ensures
            r == self@.fixed[cell_index(x as int, y as int)],
    {
        self.fixed[Grid::two_d_to_index(x, y)]
    }

    /// Whether no other cell of row `y` holds `value`.
    pub fn row_can_add(&self, x: usize, y: usize, value: i32) -> (r: bool)
        requires
            x < 9,
            y < 9,
        ensures
            r == self@.row_free(x as int, y as int, value),
    {
        for i in 0..9usize
            invariant
                x < 9,
                y < 9,
                forall|a: int, b: int|
                    0 <= a < i && b == y && a != x ==> self@.cells[#[trigger] cell_index(a, b)]
                        != Some(value),
        {
            if i != x && self.holds(i, y, value) {
                return false;
            }
        }
        true
    }

    /// Whether no other cell of column `x` holds `value`.
    pub fn column_can_add(&self, x: usize, y: usize, value: i32) -> (r: bool)
        requires
            x < 9,
            y < 9,
        ensures
            r == self@.column_free(x as int, y as int, value),
    {
        for i in 0..9usize
            invariant
                x < 9,
                y < 9,
                forall|a: int, b: int|
                    0 <= b < i && a == x && b != y ==> self@.cells[#[trigger] cell_index(a, b)]
                        != Some(value),
        {
            if i != y && self.holds(x, i, value) {
                return false;
            }
        }
        true
    }

    /// Whether no other cell of the 3x3 box around `(x, y)` holds `value`.
    pub fn square_can_add(&self, x: usize, y: usize, value: i32) -> (r: bool)
        requires
            x < 9,
            y < 9,
        ensures
            r == self@.square_free(x as int, y as int, value),
    {
        let square_x = x / 3;
        let square_y = y / 3;
        for i in 0..3usize
            invariant
                x < 9,
                y < 9,
                square_x == x / 3,
                square_y == y / 3,
                forall|a: int, b: int|
                    0 <= a < 9 && square_y * 3 <= b < square_y * 3 + i && a / 3 == x / 3 && (a != x
                        || b != y) ==> self@.cells[#[trigger] cell_index(a, b)] != Some(value),
        {
            for j in 0..3usize
                invariant
                    x < 9,
                    y < 9,
                    i < 3,
                    square_x == x / 3,
                    square_y == y / 3,
                    forall|a: int, b: int|
                        0 <= a < 9 && square_y * 3 <= b < square_y * 3 + i && a / 3 == x / 3 && (a
                            != x || b != y) ==> self@.cells[#[trigger] cell_index(a, b)] != Some(
                            value,
                        ),
                    forall|a: int, b: int|
                        square_x * 3 <= a < square_x * 3 + j && b == square_y * 3 + i && (a != x
                            || b != y) ==> self@.cells[#[trigger] cell_index(a, b)] != Some(value),
            {
                let cx = square_x * 3 + j;
                let cy = square_y * 3 + i;
                if (cx != x || cy != y) && self.holds(cx, cy, value) {
                    return false;
                }
            }
        }
        true
    }

    /// Whether `value` breaks none of the three rules at `(x, y)`.
    pub fn can_add(&self, x: usize, y: usize, value: i32) -> (r: bool)
        requires
            x < 9,
            y < 9,
        ensures
            r == self@.can_add(x as int, y as int, value),
    {
        self.row_can_add(x, y, value) && self.column_can_add(x, y, value) && self.square_can_add(
            x,
            y,
            value,
        )
    }
}

} // verus!
