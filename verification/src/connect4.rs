//! Connect four on a board of six rows and seven columns.
//!
//! Row 0 is the bottom row: a piece dropped into a column comes to rest in
//! the lowest empty row of that column.
use crate::game::MinMaxGame;
use crate::notation::{read_squares, rendered, squares_in, write_squares, TooFewSquares};
use vstd::array::spec_array_update;
use vstd::prelude::*;

verus! {

/// A connect-four position. A cell holds `None` while it is empty,
/// `Some(true)` for a piece of the maximizing player and `Some(false)` for a
/// piece of the minimizing player.
#[derive(Clone, Copy, Debug, PartialEq, Eq)]
pub struct Connect4Game {
    pub board: [[Option<bool>; 7]; 6],
}

/// `k` steps along one axis in the direction `delta`, of which only the sign
/// counts.
pub open spec fn shift(delta: int, k: int) -> int {
    if delta > 0 {
        k
    } else if delta < 0 {
        -k
    } else {
        0
    }
}

impl Connect4Game {
    /// The content of the cell in `row` and `col`.
    pub open spec fn cell(&self, row: int, col: int) -> Option<bool> {
        self.board[row][col]
    }

    /// Whether `row` and `col` name a cell of the board that holds `mark`.
    pub open spec fn marked(&self, mark: bool, row: int, col: int) -> bool {
        0 <= row < 6 && 0 <= col < 7 && self.cell(row, col) == Some(mark)
    }

    /// Whether four cells in a row hold `mark`: the one in `row` and `col`
    /// and the next three in the direction `drow`, `dcol`.
    pub open spec fn run_of_four(&self, mark: bool, row: int, col: int, drow: int, dcol: int)
        -> bool {
        &&& self.marked(mark, row, col)
        &&& self.marked(mark, row + drow, col + dcol)
        &&& self.marked(mark, row + 2 * drow, col + 2 * dcol)
        &&& self.marked(mark, row + 3 * drow, col + 3 * dcol)
    }

    /// Whether some four cells in a row in the direction `drow`, `dcol` hold
    /// `mark`.
    pub open spec fn has_run(&self, mark: bool, drow: int, dcol: int) -> bool {
        exists|row: int, col: int| #[trigger] self.run_of_four(mark, row, col, drow, dcol)
    }

    /// Whether `mark` has four in a row: upwards, to the right, or along
    /// either diagonal.
    pub open spec fn has_four(&self, mark: bool) -> bool {
        ||| self.has_run(mark, 1, 0)
        ||| self.has_run(mark, 0, 1)
        ||| self.has_run(mark, -1, 1)
        ||| self.has_run(mark, 1, 1)
    }

    /// Whether no cell is empty.
    pub open spec fn full(&self) -> bool {
        forall|row: int, col: int|
            0 <= row < 6 && 0 <= col < 7 ==> (#[trigger] self.cell(row, col)).is_some()
    }

    /// The score of the position: 1 when the maximizing player has four in a
    /// row, else -1 when the minimizing player has, else 0 when the board is
    /// full, and none while the game is open.
    pub open spec fn score(&self) -> Option<i8> {
        if self.has_four(true) {
            Some(1i8)
        } else if self.has_four(false) {
            Some(-1i8)
        } else if self.full() {
            Some(0i8)
        } else {
            None
        }
    }

    /// Whether the `k`-th cell of the line that starts in `row` and `col` and
    /// runs in the direction `drow`, `dcol` holds `mark`.
    pub open spec fn on_line(
        &self,
        mark: bool,
        row: int,
        col: int,
        drow: int,
        dcol: int,
        k: int,
    ) -> bool {
        self.marked(mark, row + shift(drow, k), col + shift(dcol, k))
    }

    /// Whether the first `len` cells of a line hold four marks in a row.
    pub open spec fn line_has_four(
        &self,
        mark: bool,
        row: int,
        col: int,
        drow: int,
        dcol: int,
        len: int,
    ) -> bool {
        exists|s: int|
            0 <= s && s + 4 <= len && #[trigger] self.on_line(mark, row, col, drow, dcol, s)
                && self.on_line(mark, row, col, drow, dcol, s + 1) && self.on_line(
                mark,
                row,
                col,
                drow,
                dcol,
                s + 2,
            ) && self.on_line(mark, row, col, drow, dcol, s + 3)
    }

    /// Walks along a line of `len` cells, counting how many marks in a row
    /// lie behind it, and reports whether the count ever reaches four.
    fn four_on_line(&self, mark: bool, row: usize, col: usize, drow: i8, dcol: i8, len: usize) -> (found:
        bool)
        requires
            len <= 7,
            forall|k: int|
                0 <= k < len ==> 0 <= row + #[trigger] shift(drow as int, k) < 6 && 0 <= col
                    + shift(dcol as int, k) < 7,
        ensures
            found == self.line_has_four(
                mark,
                row as int,
                col as int,
                drow as int,
                dcol as int,
                len as int,
            ),
    {
        let mut count: usize = 0;
        let mut k: usize = 0;
        while k < len
            invariant
                k <= len <= 7,
                count <= 3,
                count <= k,
                forall|j: int|
                    0 <= j < len ==> 0 <= row + #[trigger] shift(drow as int, j) < 6 && 0 <= col
                        + shift(dcol as int, j) < 7,
                forall|j: int|
                    k - count <= j < k ==> #[trigger] self.on_line(
                        mark,
                        row as int,
                        col as int,
                        drow as int,
                        dcol as int,
                        j,
                    ),
                count < k ==> !self.on_line(
                    mark,
                    row as int,
                    col as int,
                    drow as int,
                    dcol as int,
                    k - count - 1,
                ),
                forall|s: int|
                    0 <= s && s + 4 <= k ==> !(#[trigger] self.on_line(
                        mark,
                        row as int,
                        col as int,
                        drow as int,
                        dcol as int,
                        s,
                    ) && self.on_line(mark, row as int, col as int, drow as int, dcol as int, s + 1)
                        && self.on_line(
                        mark,
                        row as int,
                        col as int,
                        drow as int,
                        dcol as int,
                        s + 2,
                    ) && self.on_line(
                        mark,
                        row as int,
                        col as int,
                        drow as int,
                        dcol as int,
                        s + 3,
                    )),
            decreases len - k,
        {
            assert(0 <= row + shift(drow as int, k as int) < 6);
            let r = if drow > 0 {
                row + k
            } else if drow < 0 {
                row - k
            } else {
                row
            };
            let c = if dcol > 0 {
                col + k
            } else if dcol < 0 {
                col - k
            } else {
                col
            };
            if self.board[r][c] == Some(mark) {
                count += 1;
                if count >= 4 {
                    assert(self.on_line(
                        mark,
                        row as int,
                        col as int,
                        drow as int,
                        dcol as int,
                        k - 3,
                    ));
                    return true;
                }
            } else {
                count = 0;
            }
            k += 1;
        }
        false
    }

    /// A run of four that lies on a line is found on that line.
    proof fn lemma_run_lies_on_line(
        &self,
        mark: bool,
        row: int,
        col: int,
        drow: int,
        dcol: int,
        s: int,
        len: int,
    )
        requires
            -1 <= drow <= 1,
            -1 <= dcol <= 1,
            0 <= s,
            s + 4 <= len,
            self.run_of_four(mark, row + shift(drow, s), col + shift(dcol, s), drow, dcol),
        ensures
            self.line_has_four(mark, row, col, drow, dcol, len),
    {
        assert(self.on_line(mark, row, col, drow, dcol, s));
        assert(self.on_line(mark, row, col, drow, dcol, s + 1));
        assert(self.on_line(mark, row, col, drow, dcol, s + 2));
        assert(self.on_line(mark, row, col, drow, dcol, s + 3));
    }

    /// Four in a row found on a line is a run of four on the board.
    proof fn lemma_line_gives_run(
        &self,
        mark: bool,
        row: int,
        col: int,
        drow: int,
        dcol: int,
        len: int,
    )
        requires
            -1 <= drow <= 1,
            -1 <= dcol <= 1,
            self.line_has_four(mark, row, col, drow, dcol, len),
        ensures
            self.has_run(mark, drow, dcol),
    {
        let s = choose|s: int|
            0 <= s && s + 4 <= len && #[trigger] self.on_line(mark, row, col, drow, dcol, s)
                && self.on_line(mark, row, col, drow, dcol, s + 1) && self.on_line(
                mark,
                row,
                col,
                drow,
                dcol,
                s + 2,
            ) && self.on_line(mark, row, col, drow, dcol, s + 3);
        assert(self.run_of_four(mark, row + shift(drow, s), col + shift(dcol, s), drow, dcol));
    }

    /// Looks for four in a row upwards, column by column, each from the
    /// bottom to the top.
    fn vertical_search(&self, mark: bool) -> (found: bool)
        ensures
            found == self.has_run(mark, 1, 0),
    {
        let mut col: usize = 0;
        while col < 7
            invariant
                col <= 7,
                forall|c: int| 0 <= c < col ==> !#[trigger] self.line_has_four(mark, 0, c, 1, 0, 6),
            decreases 7 - col,
        {
            if self.four_on_line(mark, 0, col, 1, 0, 6) {
                proof {
                    self.lemma_line_gives_run(mark, 0, col as int, 1, 0, 6);
                }
                return true;
            }
            col += 1;
        }
        proof {
            assert forall|row: int, c: int| !#[trigger] self.run_of_four(mark, row, c, 1, 0) by {
                if self.run_of_four(mark, row, c, 1, 0) {
                    self.lemma_run_lies_on_line(mark, 0, c, 1, 0, row, 6);
                }
            }
        }
        false
    }

    /// Looks for four in a row to the right, row by row, each from left to
    /// right.
    fn horizontal_search(&self, mark: bool) -> (found: bool)
        ensures
            found == self.has_run(mark, 0, 1),
    {
        let mut row: usize = 0;
        while row < 6
            invariant
                row <= 6,
                forall|r: int| 0 <= r < row ==> !#[trigger] self.line_has_four(mark, r, 0, 0, 1, 7),
            decreases 6 - row,
        {
            if self.four_on_line(mark, row, 0, 0, 1, 7) {
                proof {
                    self.lemma_line_gives_run(mark, row as int, 0, 0, 1, 7);
                }
                return true;
            }
            row += 1;
        }
        proof {
            assert forall|r: int, col: int| !#[trigger] self.run_of_four(mark, r, col, 0, 1) by {
                if self.run_of_four(mark, r, col, 0, 1) {
                    self.lemma_run_lies_on_line(mark, r, 0, 0, 1, col, 7);
                }
            }
        }
        false
    }

    /// The column in which the diagonal numbered `diagonal` enters the board.
    /// Diagonals are numbered so that 3 to 8 are those of four cells or more.
    pub open spec fn diagonal_col(diagonal: int) -> int {
        if diagonal > 5 {
            diagonal - 5
        } else {
            0
        }
    }

    /// The row in which a diagonal that falls to the right enters the board.
    pub open spec fn falling_row(diagonal: int) -> int {
        diagonal - Self::diagonal_col(diagonal)
    }

    /// The number of cells of a diagonal that falls to the right: it ends in
    /// the bottom row or in the last column, whichever comes first.
    pub open spec fn falling_len(diagonal: int) -> int {
        if diagonal < 6 {
            diagonal - Self::diagonal_col(diagonal) + 1
        } else {
            6 - Self::diagonal_col(diagonal) + 1
        }
    }

    /// The row in which a diagonal that rises to the right enters the board.
    pub open spec fn rising_row(diagonal: int) -> int {
        if diagonal < 5 {
            5 - diagonal
        } else {
            0
        }
    }

    /// The number of cells of a diagonal that rises to the right.
    pub open spec fn rising_len(diagonal: int) -> int {
        if 6 - Self::rising_row(diagonal) <= 7 - Self::diagonal_col(diagonal) {
            6 - Self::rising_row(diagonal)
        } else {
            7 - Self::diagonal_col(diagonal)
        }
    }

    /// Looks for four in a row along the diagonals that fall to the right:
    /// those on which row and column add up to 3, 4, and so on up to 8, each
    /// from its leftmost cell.
    fn falling_diagonal_search(&self, mark: bool) -> (found: bool)
        ensures
            found == self.has_run(mark, -1, 1),
    {
        let mut diagonal: usize = 3;
        while diagonal < 9
            invariant
                3 <= diagonal <= 9,
                forall|d: int|
                    3 <= d < diagonal ==> !#[trigger] self.line_has_four(
                        mark,
                        Self::falling_row(d),
                        Self::diagonal_col(d),
                        -1,
                        1,
                        Self::falling_len(d),
                    ),
            decreases 9 - diagonal,
        {
            let col: usize = if diagonal > 5 {
                diagonal - 5
            } else {
                0
            };
            let row: usize = diagonal - col;
            let last: usize = if diagonal < 6 {
                diagonal
            } else {
                6
            };
            if self.four_on_line(mark, row, col, -1, 1, last - col + 1) {
                proof {
                    self.lemma_line_gives_run(
                        mark,
                        row as int,
                        col as int,
                        -1,
                        1,
                        Self::falling_len(diagonal as int),
                    );
                }
                return true;
            }
            diagonal += 1;
        }
        proof {
            assert forall|row: int, col: int| !#[trigger] self.run_of_four(
                mark,
                row,
                col,
                -1,
                1,
            ) by {
                if self.run_of_four(mark, row, col, -1, 1) {
                    let d = row + col;
                    self.lemma_run_lies_on_line(
                        mark,
                        Self::falling_row(d),
                        Self::diagonal_col(d),
                        -1,
                        1,
                        col - Self::diagonal_col(d),
                        Self::falling_len(d),
                    );
                }
            }
        }
        false
    }

    /// Looks for four in a row along the diagonals that rise to the right:
    /// the six of four cells or more, each from its leftmost cell.
    fn rising_diagonal_search(&self, mark: bool) -> (found: bool)
        ensures
            found == self.has_run(mark, 1, 1),
    {
        let mut diagonal: usize = 3;
        while diagonal < 9
            invariant
                3 <= diagonal <= 9,
                forall|d: int|
                    3 <= d < diagonal ==> !#[trigger] self.line_has_four(
                        mark,
                        Self::rising_row(d),
                        Self::diagonal_col(d),
                        1,
                        1,
                        Self::rising_len(d),
                    ),
            decreases 9 - diagonal,
        {
            let col: usize = if diagonal > 5 {
                diagonal - 5
            } else {
                0
            };
            let row: usize = if diagonal < 5 {
                5 - diagonal
            } else {
                0
            };
            let len: usize = if 6 - row <= 7 - col {
                6 - row
            } else {
                7 - col
            };
            if self.four_on_line(mark, row, col, 1, 1, len) {
                proof {
                    self.lemma_line_gives_run(mark, row as int, col as int, 1, 1, len as int);
                }
                return true;
            }
            diagonal += 1;
        }
        proof {
            assert forall|row: int, col: int| !#[trigger] self.run_of_four(mark, row, col, 1, 1) by {
                if self.run_of_four(mark, row, col, 1, 1) {
                    let d = col - row + 5;
                    self.lemma_run_lies_on_line(
                        mark,
                        Self::rising_row(d),
                        Self::diagonal_col(d),
                        1,
                        1,
                        col - Self::diagonal_col(d),
                        Self::rising_len(d),
                    );
                }
            }
        }
        false
    }

    /// Whether `mark` has four in a row in any of the four directions.
    fn wins(&self, mark: bool) -> (won: bool)
        ensures
            won == self.has_four(mark),
    {
        self.vertical_search(mark) || self.horizontal_search(mark)
            || self.falling_diagonal_search(mark) || self.rising_diagonal_search(mark)
    }

    /// Whether every cell holds a piece.
    fn is_full(&self) -> (full: bool)
        ensures
            full == self.full(),
    {
        let mut row: usize = 0;
        while row < 6
            invariant
                row <= 6,
                forall|r: int, c: int|
                    0 <= r < row && 0 <= c < 7 ==> (#[trigger] self.cell(r, c)).is_some(),
            decreases 6 - row,
        {
            let mut col: usize = 0;
            while col < 7
                invariant
                    row < 6,
                    col <= 7,
                    forall|r: int, c: int|
                        0 <= r < row && 0 <= c < 7 ==> (#[trigger] self.cell(r, c)).is_some(),
                    forall|c: int| 0 <= c < col ==> (#[trigger] self.cell(row as int, c)).is_some(),
                decreases 7 - col,
            {
                if self.board[row][col].is_none() {
                    assert(self.cell(row as int, col as int).is_none());
                    return false;
                }
                col += 1;
            }
            row += 1;
        }
        true
    }

    /// The position in which a piece of `mark` has been put into the cell in
    /// `row` and `col`, whatever that cell held before.
    pub open spec fn with_mark(&self, row: int, col: int, mark: bool) -> Self {
        Connect4Game {
            board: spec_array_update(
                self.board,
                row,
                spec_array_update(self.board[row], col, Some(mark)),
            ),
        }
    }

    /// Putting a piece into a cell changes that cell and no other.
    pub proof fn lemma_with_mark(&self, row: int, col: int, mark: bool)
        requires
            0 <= row < 6,
            0 <= col < 7,
        ensures
            forall|r: int, c: int|
                0 <= r < 6 && 0 <= c < 7 ==> #[trigger] self.with_mark(row, col, mark).cell(r, c)
                    == if r == row && c == col {
                    Some(mark)
                } else {
                    self.cell(r, c)
                },
    {
    }

    /// The lowest empty row of a column, and 6 when the column is full.
    pub open spec fn landing_row(&self, col: int) -> int {
        if self.cell(0, col).is_none() {
            0
        } else if self.cell(1, col).is_none() {
            1
        } else if self.cell(2, col).is_none() {
            2
        } else if self.cell(3, col).is_none() {
            3
        } else if self.cell(4, col).is_none() {
            4
        } else if self.cell(5, col).is_none() {
            5
        } else {
            6
        }
    }

    /// The position after `mark` has been dropped into `col`.
    pub open spec fn dropped(&self, col: int, mark: bool) -> Self {
        self.with_mark(self.landing_row(col), col, mark)
    }

    /// The order in which the columns are tried: from the centre outwards.
    pub open spec fn column_order() -> Seq<int> {
        seq![3, 2, 4, 1, 5, 0, 6]
    }

    /// Those of the first `n` columns of [`Self::column_order`] that still
    /// have room, in that order.
    pub open spec fn open_columns(&self, n: nat) -> Seq<int>
        decreases n,
    {
        if n == 0 || n > 7 {
            Seq::empty()
        } else {
            let earlier = self.open_columns((n - 1) as nat);
            let col = Self::column_order()[n - 1];
            if self.landing_row(col) < 6 {
                earlier.push(col)
            } else {
                earlier
            }
        }
    }

    /// The positions that one move of `player` leads to: a piece dropped into
    /// each column that has room, the columns taken from the centre outwards.
    pub open spec fn drops(&self, player: bool) -> Seq<Self> {
        Seq::new(
            self.open_columns(7).len(),
            |i: int| self.dropped(self.open_columns(7)[i], player),
        )
    }

    /// The number of empty cells among the first `n`, counted row by row from
    /// the bottom.
    pub open spec fn empty_cells(&self, n: nat) -> nat
        decreases n,
    {
        if n == 0 {
            0
        } else {
            let rest = self.empty_cells((n - 1) as nat);
            if self.cell((n - 1) / 7, (n - 1) % 7).is_none() {
                rest + 1
            } else {
                rest
            }
        }
    }

    /// Among the first `n` cells no more than `n` are empty.
    proof fn lemma_empty_cells_bounded(&self, n: nat)
        ensures
            self.empty_cells(n) <= n,
        decreases n,
    {
        if n > 0 {
            self.lemma_empty_cells_bounded((n - 1) as nat);
        }
    }

    /// Filling an empty cell leaves one empty cell less.
    proof fn lemma_fill_empties(&self, row: int, col: int, mark: bool, n: nat)
        requires
            0 <= row < 6,
            0 <= col < 7,
            self.cell(row, col).is_none(),
            n <= 42,
        ensures
            self.with_mark(row, col, mark).empty_cells(n) + (if 7 * row + col < n {
                1nat
            } else {
                0nat
            }) == self.empty_cells(n),
        decreases n,
    {
        if n > 0 {
            self.lemma_fill_empties(row, col, mark, (n - 1) as nat);
            self.lemma_with_mark(row, col, mark);
            let k = n - 1;
            assert(0 <= k / 7 < 6 && 0 <= k % 7 < 7);
            assert(k == 7 * row + col <==> (k / 7 == row && k % 7 == col));
        }
    }

    /// The columns are tried in the order 3, 2, 4, 1, 5, 0, 6.
    pub proof fn lemma_column_order()
        ensures
            Self::column_order().len() == 7,
            Self::column_order()[0] == 3,
            Self::column_order()[1] == 2,
            Self::column_order()[2] == 4,
            Self::column_order()[3] == 1,
            Self::column_order()[4] == 5,
            Self::column_order()[5] == 0,
            Self::column_order()[6] == 6,
    {
    }

    /// Finds the lowest empty row of `col`; the answer is 6 when there is
    /// none.
    fn lowest_empty(&self, col: usize) -> (row: usize)
        requires
            col < 7,
        ensures
            row == self.landing_row(col as int),
    {
        let mut row: usize = 0;
        while row < 6
            invariant
                row <= 6,
                col < 7,
                forall|r: int| 0 <= r < row ==> (#[trigger] self.cell(r, col as int)).is_some(),
            decreases 6 - row,
        {
            if self.board[row][col].is_none() {
                assert(self.cell(row as int, col as int).is_none());
                return row;
            }
            row += 1;
        }
        row
    }

    /// The 42 squares in the order in which they are written: row by row
    /// from the top row down, each row from left to right.
    pub open spec fn squares(&self) -> Seq<Option<bool>> {
        Seq::new(42, |k: int| self.cell(5 - k / 7, k % 7))
    }

    /// The place of a column in [`Self::column_order`].
    pub open spec fn turn_of(col: int) -> int {
        if col == 3 {
            0
        } else if col == 2 {
            1
        } else if col == 4 {
            2
        } else if col == 1 {
            3
        } else if col == 5 {
            4
        } else if col == 0 {
            5
        } else {
            6
        }
    }

    /// The list of open columns among the first `n` of the order holds
    /// exactly the columns that have room, each once, in that order.
    pub proof fn lemma_open_columns(&self, n: nat)
        requires
            n <= 7,
        ensures
            forall|i: int|
                0 <= i < self.open_columns(n).len() ==> 0 <= #[trigger] self.open_columns(n)[i] < 7
                    && Self::turn_of(self.open_columns(n)[i]) < n && self.landing_row(
                    self.open_columns(n)[i],
                ) < 6,
            forall|i: int, j: int|
                0 <= i < j < self.open_columns(n).len() ==> Self::turn_of(
                    #[trigger] self.open_columns(n)[i],
                ) < Self::turn_of(#[trigger] self.open_columns(n)[j]),
            forall|col: int|
                0 <= col < 7 && Self::turn_of(col) < n && #[trigger] self.landing_row(col) < 6
                    ==> exists|i: int|
                    0 <= i < self.open_columns(n).len() && #[trigger] self.open_columns(n)[i]
                        == col,
        decreases n,
    {
        if n > 0 {
            let earlier = self.open_columns((n - 1) as nat);
            let now = self.open_columns(n);
            let last = Self::column_order()[n - 1];
            self.lemma_open_columns((n - 1) as nat);
            Self::lemma_column_order();
            assert(0 <= last < 7 && Self::turn_of(last) == n - 1);
            assert forall|i: int| 0 <= i < now.len() implies 0 <= #[trigger] now[i] < 7
                && Self::turn_of(now[i]) < n && self.landing_row(now[i]) < 6 by {
                if i < earlier.len() {
                    assert(now[i] == earlier[i]);
                } else {
                    assert(now[i] == last);
                }
            }
            assert forall|i: int, j: int| 0 <= i < j < now.len() implies Self::turn_of(
                #[trigger] now[i],
            ) < Self::turn_of(#[trigger] now[j]) by {
                assert(now[i] == earlier[i]);
                if j < earlier.len() {
                    assert(now[j] == earlier[j]);
                } else {
                    assert(now[j] == last);
                }
            }
            assert forall|col: int|
                0 <= col < 7 && Self::turn_of(col) < n && #[trigger] self.landing_row(col)
                    < 6 implies exists|i: int| 0 <= i < now.len() && #[trigger] now[i] == col by {
                if Self::turn_of(col) < n - 1 {
                    let i = choose|i: int| 0 <= i < earlier.len() && #[trigger] earlier[i] == col;
                    assert(now[i] == col);
                } else {
                    assert(col == last);
                    assert(now[now.len() - 1] == col);
                }
            }
        }
    }

    /// Two positions with the same squares are the same position.
    pub proof fn lemma_same_squares(&self, other: Self)
        requires
            self.squares() == other.squares(),
        ensures
            *self == other,
    {
        assert forall|row: int| 0 <= row < 6 implies self.board[row] == other.board[row] by {
            assert forall|col: int| 0 <= col < 7 implies self.board[row][col]
                == other.board[row][col] by {
                let k = 7 * (5 - row) + col;
                assert(k / 7 == 5 - row && k % 7 == col);
                assert(self.squares()[k] == self.cell(row, col));
                assert(other.squares()[k] == other.cell(row, col));
            }
            assert(self.board[row] =~= other.board[row]);
        }
        assert(self.board =~= other.board);
    }

    /// Reads a position from its text form: the first 42 squares that `text`
    /// holds, the top row first. Characters that stand for no square are
    /// skipped, and squares after the last are ignored. A text with fewer
    /// than 42 squares is refused.
    pub fn from_str(text: &str) -> (parsed: Result<Self, TooFewSquares>)
        ensures
            match parsed {
                Ok(game) => squares_in(text@).len() >= 42 && game.squares() == squares_in(
                    text@,
                ).take(42),
                Err(e) => squares_in(text@).len() < 42 && e.expected == 42 && e.found
                    == squares_in(text@).len(),
            },
    {
        let found = read_squares(text);
        if found.len() < 42 {
            return Err(TooFewSquares { expected: 42, found: found.len() });
        }
        let mut board: [[Option<bool>; 7]; 6] = [[None; 7]; 6];
        let mut k: usize = 0;
        while k < 42
            invariant
                k <= 42,
                found.len() >= 42,
                forall|j: int| 0 <= j < k ==> board[5 - j / 7][j % 7] == #[trigger] found@[j],
            decreases 42 - k,
        {
            board[5 - k / 7][k % 7] = found[k];
            k += 1;
        }
        let game = Connect4Game { board };
        assert(game.squares() =~= found@.take(42));
        Ok(game)
    }

    /// Writes the text form of the position: `<`, the six rows from the top
    /// one down, separated by [`crate::notation::ROW_SEPARATOR`], and `>`.
    pub fn to_text(&self) -> (text: String)
        ensures
            text@ == rendered(self.squares(), 7),
    {
        let mut squares: Vec<Option<bool>> = Vec::with_capacity(42);
        let mut k: usize = 0;
        while k < 42
            invariant
                k <= 42,
                squares@ == self.squares().take(k as int),
            decreases 42 - k,
        {
            squares.push(self.board[5 - k / 7][k % 7]);
            assert(squares@ =~= self.squares().take(k + 1));
            k += 1;
        }
        assert(self.squares().take(42) == self.squares());
        write_squares(&squares, 7)
    }
}

impl Default for Connect4Game {
    /// The empty board.
    fn default() -> (game: Self)
        ensures
            forall|row: int, col: int|
                0 <= row < 6 && 0 <= col < 7 ==> (#[trigger] game.cell(row, col)).is_none(),
    {
        Connect4Game { board: [[None; 7]; 6] }
    }
}

impl MinMaxGame for Connect4Game {
    open spec fn outcome(&self) -> Option<i8> {
        self.score()
    }

    open spec fn successors(&self, player: bool) -> Seq<Self> {
        self.drops(player)
    }

    open spec fn plies_left(&self) -> nat {
        self.empty_cells(42)
    }

    proof fn successors_shrink(&self, player: bool, i: int) {
        self.lemma_open_columns(7);
        let col = self.open_columns(7)[i];
        self.lemma_fill_empties(self.landing_row(col), col, player, 42);
    }

    /// Returns 1 when the maximizing player has four in a row, else -1 when
    /// the minimizing player has, else 0 when the board is full, and `None`
    /// while the game is open.
    fn finished(&self) -> (score: Option<i8>) {
        if self.wins(true) {
            Some(1)
        } else if self.wins(false) {
            Some(-1)
        } else if self.is_full() {
            Some(0)
        } else {
            None
        }
    }

    /// Returns one position for each column that has room, with a piece of
    /// `player` in the lowest empty row of that column. The columns are
    /// taken from the centre outwards: 3, 2, 4, 1, 5, 0, 6.
    fn moves(&self, player: bool) -> (next: Vec<Self>) {
        let order: [usize; 7] = [3, 2, 4, 1, 5, 0, 6];
        let mut next: Vec<Connect4Game> = Vec::with_capacity(7);
        let mut i: usize = 0;
        while i < 7
            invariant
                i <= 7,
                forall|j: int| 0 <= j < 7 ==> order[j] == Self::column_order()[j],
                next@ == Seq::new(
                    self.open_columns(i as nat).len(),
                    |j: int| self.dropped(self.open_columns(i as nat)[j], player),
                ),
            decreases 7 - i,
        {
            let col = order[i];
            let row = self.lowest_empty(col);
            if row < 6 {
                let mut board = self.board;
                board[row][col] = Some(player);
                let after = Connect4Game { board };
                assert(after == self.dropped(col as int, player));
                next.push(after);
            }
            i += 1;
        }
        next
    }
}

/// For every board, the game is finished exactly when a player has four in
/// a row or the board is full, and the sign of the score names the player
/// whose run it is.
pub proof fn finished_iff_four_or_full(game: Connect4Game)
    ensures
        game.outcome().is_some() <==> game.has_four(true) || game.has_four(false) || game.full(),
        game.outcome() == Some(1i8) <==> game.has_four(true),
        game.outcome() == Some(-1i8) <==> game.has_four(false) && !game.has_four(true),
        game.outcome() == Some(0i8) <==> game.full() && !game.has_four(true) && !game.has_four(
            false,
        ),
        game.outcome() matches Some(score) ==> -1 <= score <= 1,
{
}

/// For every board, the moves of a player stand one to one for the columns
/// that have room, in the order from the centre outwards, and each differs
/// from the board in exactly one cell: the lowest empty one of its column,
/// which now holds the player's piece.
pub proof fn moves_drop_one_piece(game: Connect4Game, player: bool)
    ensures
        game.successors(player).len() == game.open_columns(7).len(),
        forall|i: int|
            0 <= i < game.successors(player).len() ==> {
                let col = #[trigger] game.open_columns(7)[i];
                let row = game.landing_row(col);
                &&& 0 <= col < 7
                &&& 0 <= row < 6
                &&& game.cell(row, col).is_none()
                &&& forall|r: int| 0 <= r < row ==> (#[trigger] game.cell(r, col)).is_some()
                &&& game.successors(player)[i].cell(row, col) == Some(player)
                &&& forall|r: int, c: int|
                    0 <= r < 6 && 0 <= c < 7 && !(r == row && c == col)
                        ==> #[trigger] game.successors(player)[i].cell(r, c) == game.cell(r, c)
            },
        forall|i: int, j: int|
            0 <= i < j < game.open_columns(7).len() ==> Connect4Game::turn_of(
                #[trigger] game.open_columns(7)[i],
            ) < Connect4Game::turn_of(#[trigger] game.open_columns(7)[j]),
        forall|col: int|
            0 <= col < 7 && #[trigger] game.landing_row(col) < 6 ==> exists|i: int|
                0 <= i < game.open_columns(7).len() && #[trigger] game.open_columns(7)[i] == col,
{
    game.lemma_open_columns(7);
    assert forall|i: int| 0 <= i < game.successors(player).len() implies {
        let col = #[trigger] game.open_columns(7)[i];
        let row = game.landing_row(col);
        &&& 0 <= col < 7
        &&& 0 <= row < 6
        &&& game.cell(row, col).is_none()
        &&& forall|r: int| 0 <= r < row ==> (#[trigger] game.cell(r, col)).is_some()
        &&& game.successors(player)[i].cell(row, col) == Some(player)
        &&& forall|r: int, c: int|
            0 <= r < 6 && 0 <= c < 7 && !(r == row && c == col)
                ==> #[trigger] game.successors(player)[i].cell(r, c) == game.cell(r, c)
    } by {
        let col = game.open_columns(7)[i];
        game.lemma_with_mark(game.landing_row(col), col, player);
    }
}

/// For every board, reading its text form gives the board back.
pub proof fn text_reads_back(game: Connect4Game, read: Connect4Game)
    requires
        read.squares() == squares_in(rendered(game.squares(), 7)).take(42),
    ensures
        squares_in(rendered(game.squares(), 7)).len() == 42,
        read == game,
{
    crate::notation::text_round_trip(game.squares(), 7);
    assert(game.squares().take(42) == game.squares());
    read.lemma_same_squares(game);
}

/// For every board, a game that is not finished has a move, and no more than
/// 42 moves are left in any game.
pub proof fn open_board_has_a_move(game: Connect4Game, player: bool)
    ensures
        game.outcome().is_none() ==> game.successors(player).len() > 0,
        game.plies_left() <= 42,
{
    game.lemma_open_columns(7);
    game.lemma_empty_cells_bounded(42);
    if !game.full() {
        let (row, col) = choose|row: int, col: int|
            0 <= row < 6 && 0 <= col < 7 && !(#[trigger] game.cell(row, col)).is_some();
        assert(game.cell(row, col).is_none());
        assert(game.landing_row(col) < 6);
    }
}

/// The value of every board, for either player, is -1, 0 or 1.
pub proof fn value_is_a_score(game: Connect4Game, player: bool)
    ensures
        -1 <= crate::min_max_game_strategy::value(game, player) <= 1,
{
    assert(crate::pruning::scores_within::<Connect4Game>(-1i8, 1i8));
    crate::pruning::value_within_scores(game, player, -1i8, 1i8);
}

} // verus!
