//! Tic-tac-toe on a board of three rows and three columns.
//!
//! The squares are numbered row by row: square `k` lies in row `k / 3` and
//! column `k % 3`, and row 0 is the one written first.
use crate::game::MinMaxGame;
use crate::notation::{read_squares, rendered, squares_in, write_squares, TooFewSquares};
use vstd::array::spec_array_update;
use vstd::prelude::*;

verus! {

/// A tic-tac-toe position. A square holds `None` while it is empty,
/// `Some(true)` for a mark of the maximizing player (`O`) and `Some(false)`
/// for a mark of the minimizing player (`X`).
#[derive(Clone, Copy, Debug, PartialEq, Eq)]
pub struct TicTacToeGame {
    pub board: [[Option<bool>; 3]; 3],
}

impl TicTacToeGame {
    /// The content of the square in `row` and `col`.
    pub open spec fn cell(&self, row: int, col: int) -> Option<bool> {
        self.board[row][col]
    }

    /// The content of square `k`, the squares numbered row by row.
    pub open spec fn square(&self, k: int) -> Option<bool> {
        self.cell(k / 3, k % 3)
    }

    /// The nine squares, row by row.
    pub open spec fn squares(&self) -> Seq<Option<bool>> {
        Seq::new(9, |k: int| self.square(k))
    }

    /// Whether the square in `row` and `col` holds `mark`.
    pub open spec fn holds(&self, mark: bool, row: int, col: int) -> bool {
        self.cell(row, col) == Some(mark)
    }

    /// Whether all three squares of `row` hold `mark`.
    pub open spec fn row_complete(&self, mark: bool, row: int) -> bool {
        self.holds(mark, row, 0) && self.holds(mark, row, 1) && self.holds(mark, row, 2)
    }

    /// Whether all three squares of `col` hold `mark`.
    pub open spec fn column_complete(&self, mark: bool, col: int) -> bool {
        self.holds(mark, 0, col) && self.holds(mark, 1, col) && self.holds(mark, 2, col)
    }

    /// Whether `mark` fills one of the eight lines: the two diagonals, the
    /// three rows and the three columns.
    pub open spec fn has_line(&self, mark: bool) -> bool {
        ||| self.holds(mark, 0, 0) && self.holds(mark, 1, 1) && self.holds(mark, 2, 2)
        ||| self.holds(mark, 0, 2) && self.holds(mark, 1, 1) && self.holds(mark, 2, 0)
        ||| exists|i: int| 0 <= i < 3 && #[trigger] self.column_complete(mark, i)
        ||| exists|i: int| 0 <= i < 3 && #[trigger] self.row_complete(mark, i)
    }

    /// Whether no square is empty.
    pub open spec fn full(&self) -> bool {
        forall|k: int| 0 <= k < 9 ==> (#[trigger] self.square(k)).is_some()
    }

    /// The score of the position: 1 when the maximizing player fills a line,
    /// else -1 when the minimizing player does, else 0 when the board is
    /// full, and none while the game is open.
    pub open spec fn score(&self) -> Option<i8> {
        if self.has_line(true) {
            Some(1i8)
        } else if self.has_line(false) {
            Some(-1i8)
        } else if self.full() {
            Some(0i8)
        } else {
            None
        }
    }

    /// The position in which `mark` has been put into the square in `row`
    /// and `col`, whatever that square held before.
    pub open spec fn with_mark(&self, row: int, col: int, mark: bool) -> Self {
        TicTacToeGame {
            board: spec_array_update(
                self.board,
                row,
                spec_array_update(self.board[row], col, Some(mark)),
            ),
        }
    }

    /// The position in which `mark` has been put into square `k`.
    pub open spec fn placed(&self, k: int, mark: bool) -> Self {
        self.with_mark(k / 3, k % 3, mark)
    }

    /// The numbers of the empty squares among the first `n`, in rising
    /// order.
    pub open spec fn empty_squares(&self, n: nat) -> Seq<int>
        decreases n,
    {
        if n == 0 {
            Seq::empty()
        } else {
            let earlier = self.empty_squares((n - 1) as nat);
            if self.square(n - 1).is_none() {
                earlier.push(n - 1)
            } else {
                earlier
            }
        }
    }

    /// The positions that one move of `player` leads to: a mark in each
    /// empty square, the squares taken row by row.
    pub open spec fn placements(&self, player: bool) -> Seq<Self> {
        Seq::new(
            self.empty_squares(9).len(),
            |i: int| self.placed(self.empty_squares(9)[i], player),
        )
    }

    /// Putting a mark into a square changes that square and no other.
    pub proof fn lemma_placed(&self, k: int, mark: bool)
        requires
            0 <= k < 9,
        ensures
            forall|j: int|
                0 <= j < 9 ==> #[trigger] self.placed(k, mark).square(j) == if j == k {
                    Some(mark)
                } else {
                    self.square(j)
                },
    {
        assert forall|j: int| 0 <= j < 9 implies #[trigger] self.placed(k, mark).square(j) == if j
            == k {
            Some(mark)
        } else {
            self.square(j)
        } by {
            assert(0 <= j / 3 < 3 && 0 <= j % 3 < 3);
            assert(j == k <==> (j / 3 == k / 3 && j % 3 == k % 3));
        }
    }

    /// The list of empty squares among the first `n` holds exactly the empty
    /// squares below `n`, each once, in rising order.
    pub proof fn lemma_empty_squares(&self, n: nat)
        ensures
            self.empty_squares(n).len() <= n,
            forall|i: int|
                0 <= i < self.empty_squares(n).len() ==> 0 <= #[trigger] self.empty_squares(n)[i]
                    < n && self.square(self.empty_squares(n)[i]).is_none(),
            forall|i: int, j: int|
                0 <= i < j < self.empty_squares(n).len() ==> #[trigger] self.empty_squares(n)[i]
                    < #[trigger] self.empty_squares(n)[j],
            forall|k: int|
                0 <= k < n && (#[trigger] self.square(k)).is_none() ==> exists|i: int|
                    0 <= i < self.empty_squares(n).len() && #[trigger] self.empty_squares(n)[i]
                        == k,
        decreases n,
    {
        if n > 0 {
            let earlier = self.empty_squares((n - 1) as nat);
            let now = self.empty_squares(n);
            self.lemma_empty_squares((n - 1) as nat);
            assert forall|i: int| 0 <= i < now.len() implies 0 <= #[trigger] now[i] < n
                && self.square(now[i]).is_none() by {
                if i < earlier.len() {
                    assert(now[i] == earlier[i]);
                }
            }
            assert forall|i: int, j: int| 0 <= i < j < now.len() implies #[trigger] now[i]
                < #[trigger] now[j] by {
                assert(now[i] == earlier[i]);
                if j < earlier.len() {
                    assert(now[j] == earlier[j]);
                }
            }
            assert forall|k: int| 0 <= k < n && (#[trigger] self.square(k)).is_none() implies exists|
                i: int,
            | 0 <= i < now.len() && #[trigger] now[i] == k by {
                if k < n - 1 {
                    let i = choose|i: int| 0 <= i < earlier.len() && #[trigger] earlier[i] == k;
                    assert(now[i] == k);
                } else {
                    assert(now[now.len() - 1] == k);
                }
            }
        }
    }

    /// Filling an empty square leaves one empty square less.
    proof fn lemma_fill_empties(&self, k: int, mark: bool, n: nat)
        requires
            0 <= k < 9,
            self.square(k).is_none(),
            n <= 9,
        ensures
            self.placed(k, mark).empty_squares(n).len() + (if k < n {
                1nat
            } else {
                0nat
            }) == self.empty_squares(n).len(),
        decreases n,
    {
        if n > 0 {
            self.lemma_fill_empties(k, mark, (n - 1) as nat);
            self.lemma_placed(k, mark);
            assert(self.placed(k, mark).square(n - 1) == if n - 1 == k {
                Some(mark)
            } else {
                self.square(n - 1)
            });
        }
    }

    /// Two positions with the same squares are the same position.
    pub proof fn lemma_same_squares(&self, other: Self)
        requires
            self.squares() == other.squares(),
        ensures
            *self == other,
    {
        assert forall|row: int| 0 <= row < 3 implies self.board[row] == other.board[row] by {
            assert forall|col: int| 0 <= col < 3 implies self.board[row][col]
                == other.board[row][col] by {
                let k = 3 * row + col;
                assert(k / 3 == row && k % 3 == col);
                assert(self.squares()[k] == self.square(k));
                assert(other.squares()[k] == other.square(k));
            }
            assert(self.board[row] =~= other.board[row]);
        }
        assert(self.board =~= other.board);
    }

    /// Whether `mark` fills one of the eight lines.
    fn completes_line(&self, mark: bool) -> (won: bool)
        ensures
            won == self.has_line(mark),
    {
        let board = &self.board;
        let wanted = Some(mark);
        if board[0][0] == wanted && board[1][1] == wanted && board[2][2] == wanted {
            return true;
        }
        if board[0][2] == wanted && board[1][1] == wanted && board[2][0] == wanted {
            return true;
        }
        let mut i: usize = 0;
        while i < 3
            invariant
                i <= 3,
                wanted == Some(mark),
                board == &self.board,
                forall|j: int| 0 <= j < i ==> !#[trigger] self.column_complete(mark, j),
                forall|j: int| 0 <= j < i ==> !#[trigger] self.row_complete(mark, j),
            decreases 3 - i,
        {
            if board[0][i] == wanted && board[1][i] == wanted && board[2][i] == wanted {
                assert(self.column_complete(mark, i as int));
                return true;
            }
            if board[i][0] == wanted && board[i][1] == wanted && board[i][2] == wanted {
                assert(self.row_complete(mark, i as int));
                return true;
            }
            i += 1;
        }
        false
    }

    /// Whether every square holds a mark.
    fn is_full(&self) -> (full: bool)
        ensures
            full == self.full(),
    {
        let mut k: usize = 0;
        while k < 9
            invariant
                k <= 9,
                forall|j: int| 0 <= j < k ==> (#[trigger] self.square(j)).is_some(),
            decreases 9 - k,
        {
            if self.board[k / 3][k % 3].is_none() {
                assert(self.square(k as int).is_none());
                return false;
            }
            k += 1;
        }
        true
    }

    /// Reads a position from its text form: the first nine squares that
    /// `text` holds, row by row. Characters that stand for no square are
    /// skipped, and squares after the ninth are ignored. A text with fewer
    /// than nine squares is refused.
    pub fn from_str(text: &str) -> (parsed: Result<Self, TooFewSquares>)
        ensures
            match parsed {
                Ok(game) => squares_in(text@).len() >= 9 && game.squares() == squares_in(
                    text@,
                ).take(9),
                Err(e) => squares_in(text@).len() < 9 && e.expected == 9 && e.found == squares_in(
                    text@,
                ).len(),
            },
    {
        let found = read_squares(text);
        if found.len() < 9 {
            return Err(TooFewSquares { expected: 9, found: found.len() });
        }
        let game = TicTacToeGame {
            board: [
                [found[0], found[1], found[2]],
                [found[3], found[4], found[5]],
                [found[6], found[7], found[8]],
            ],
        };
        assert(game.squares() =~= found@.take(9));
        Ok(game)
    }

    /// Writes the text form of the position: `<`, the three rows separated
    /// by [`crate::notation::ROW_SEPARATOR`], and `>`.
    pub fn to_text(&self) -> (text: String)
        ensures
            text@ == rendered(self.squares(), 3),
    {
        let mut squares: Vec<Option<bool>> = Vec::with_capacity(9);
        let mut k: usize = 0;
        while k < 9
            invariant
                k <= 9,
                squares@ == self.squares().take(k as int),
            decreases 9 - k,
        {
            squares.push(self.board[k / 3][k % 3]);
            assert(squares@ =~= self.squares().take(k + 1));
            k += 1;
        }
        assert(self.squares().take(9) == self.squares());
        write_squares(&squares, 3)
    }
}

impl Default for TicTacToeGame {
    /// The empty board.
    fn default() -> (game: Self)
        ensures
            forall|row: int, col: int|
                0 <= row < 3 && 0 <= col < 3 ==> (#[trigger] game.cell(row, col)).is_none(),
    {
        TicTacToeGame { board: [[None; 3]; 3] }
    }
}

impl MinMaxGame for TicTacToeGame {
    open spec fn outcome(&self) -> Option<i8> {
        self.score()
    }

    open spec fn successors(&self, player: bool) -> Seq<Self> {
        self.placements(player)
    }

    open spec fn plies_left(&self) -> nat {
        self.empty_squares(9).len()
    }

    proof fn successors_shrink(&self, player: bool, i: int) {
        self.lemma_empty_squares(9);
        self.lemma_fill_empties(self.empty_squares(9)[i], player, 9);
    }

    /// Returns 1 when the maximizing player fills a line, else -1 when the
    /// minimizing player does, else 0 when the board is full, and `None`
    /// while the game is open.
    fn finished(&self) -> (score: Option<i8>) {
        if self.completes_line(true) {
            Some(1)
        } else if self.completes_line(false) {
            Some(-1)
        } else if self.is_full() {
            Some(0)
        } else {
            None
        }
    }

    /// Returns one position for each empty square, with a mark of `player`
    /// in it, the squares taken row by row.
    fn moves(&self, player: bool) -> (next: Vec<Self>) {
        let mut next: Vec<TicTacToeGame> = Vec::new();
        let mut k: usize = 0;
        while k < 9
            invariant
                k <= 9,
                next@ == Seq::new(
                    self.empty_squares(k as nat).len(),
                    |i: int| self.placed(self.empty_squares(k as nat)[i], player),
                ),
            decreases 9 - k,
        {
            if self.board[k / 3][k % 3].is_none() {
                let mut board = self.board;
                board[k / 3][k % 3] = Some(player);
                let after = TicTacToeGame { board };
                assert(after == self.placed(k as int, player));
                next.push(after);
            }
            k += 1;
        }
        next
    }
}

/// For every board, the game is finished exactly when a line is complete or
/// the board is full, and the sign of the score names the player whose line
/// it is.
pub proof fn finished_iff_line_or_full(game: TicTacToeGame)
    ensures
        game.outcome().is_some() <==> game.has_line(true) || game.has_line(false) || game.full(),
        game.outcome() == Some(1i8) <==> game.has_line(true),
        game.outcome() == Some(-1i8) <==> game.has_line(false) && !game.has_line(true),
        game.outcome() == Some(0i8) <==> game.full() && !game.has_line(true) && !game.has_line(
            false,
        ),
        game.outcome() matches Some(score) ==> -1 <= score <= 1,
{
}

/// For every board, the moves of a player stand one to one for the empty
/// squares, in rising order of the squares, and each differs from the board
/// in exactly that square, which now holds the player's mark.
pub proof fn moves_fill_one_empty_square(game: TicTacToeGame, player: bool)
    ensures
        game.successors(player).len() == game.empty_squares(9).len(),
        forall|i: int|
            0 <= i < game.successors(player).len() ==> {
                let k = #[trigger] game.empty_squares(9)[i];
                &&& 0 <= k < 9
                &&& game.square(k).is_none()
                &&& game.successors(player)[i].square(k) == Some(player)
                &&& forall|j: int|
                    0 <= j < 9 && j != k ==> #[trigger] game.successors(player)[i].square(j)
                        == game.square(j)
            },
        forall|i: int, j: int|
            0 <= i < j < game.empty_squares(9).len() ==> #[trigger] game.empty_squares(9)[i]
                < #[trigger] game.empty_squares(9)[j],
        forall|k: int|
            0 <= k < 9 && (#[trigger] game.square(k)).is_none() ==> exists|i: int|
                0 <= i < game.empty_squares(9).len() && #[trigger] game.empty_squares(9)[i] == k,
{
    game.lemma_empty_squares(9);
    assert forall|i: int| 0 <= i < game.successors(player).len() implies {
        let k = #[trigger] game.empty_squares(9)[i];
        &&& 0 <= k < 9
        &&& game.square(k).is_none()
        &&& game.successors(player)[i].square(k) == Some(player)
        &&& forall|j: int|
            0 <= j < 9 && j != k ==> #[trigger] game.successors(player)[i].square(j) == game.square(
                j,
            )
    } by {
        game.lemma_placed(game.empty_squares(9)[i], player);
    }
}

/// For every board, reading its text form gives the board back.
pub proof fn text_reads_back(game: TicTacToeGame, read: TicTacToeGame)
    requires
        read.squares() == squares_in(rendered(game.squares(), 3)).take(9),
    ensures
        squares_in(rendered(game.squares(), 3)).len() == 9,
        read == game,
{
    crate::notation::text_round_trip(game.squares(), 3);
    assert(game.squares().take(9) == game.squares());
    read.lemma_same_squares(game);
}

/// For every board, a game that is not finished has a move, and no more than
/// nine moves are left in any game.
pub proof fn open_board_has_a_move(game: TicTacToeGame, player: bool)
    ensures
        game.outcome().is_none() ==> game.successors(player).len() > 0,
        game.plies_left() <= 9,
        game.plies_left() == 0 <==> game.full(),
{
    game.lemma_empty_squares(9);
    if !game.full() {
        let k = choose|k: int| 0 <= k < 9 && !(#[trigger] game.square(k)).is_some();
        assert(game.square(k).is_none());
    }
    if game.plies_left() > 0 {
        assert(game.square(game.empty_squares(9)[0]).is_none());
    }
}

/// The value of every board, for either player, is -1, 0 or 1.
pub proof fn value_is_a_score(game: TicTacToeGame, player: bool)
    ensures
        -1 <= crate::min_max_game_strategy::value(game, player) <= 1,
{
    assert(crate::pruning::scores_within::<TicTacToeGame>(-1i8, 1i8));
    crate::pruning::value_within_scores(game, player, -1i8, 1i8);
}

} // verus!
