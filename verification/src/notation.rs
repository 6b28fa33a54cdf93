//! The text form of a board: `<`, the rows from the top one down, separated
//! by a heavy vertical bar, and `>`. A square is written as a space while it
//! is empty, as `O` for the maximizing player and as `X` for the minimizing
//! player. Reading skips every other character.
use vstd::prelude::*;
use vstd::string::StringExecFns;

verus! {

/// The character that stands between two rows.
pub const ROW_SEPARATOR: char = '\u{2503}';

/// Why a text could not be read as a board: it holds fewer squares than the
/// board has.
#[derive(Clone, Copy, Debug, PartialEq, Eq)]
pub struct TooFewSquares {
    /// The number of squares of the board.
    pub expected: usize,
    /// The number of squares found in the text.
    pub found: usize,
}

/// The square that a character stands for, if it stands for one.
pub open spec fn square_of(c: char) -> Option<Option<bool>> {
    if c == ' ' {
        Some(None)
    } else if c == 'O' {
        Some(Some(true))
    } else if c == 'X' {
        Some(Some(false))
    } else {
        None
    }
}

/// The character that stands for a square.
pub open spec fn char_of(square: Option<bool>) -> char {
    match square {
        None => ' ',
        Some(true) => 'O',
        Some(false) => 'X',
    }
}

/// The squares that a text holds, in the order in which they appear: each
/// character that stands for a square gives one, every other is skipped.
pub open spec fn squares_in(text: Seq<char>) -> Seq<Option<bool>>
    decreases text.len(),
{
    if text.len() == 0 {
        Seq::empty()
    } else {
        let earlier = squares_in(text.drop_last());
        match square_of(text.last()) {
            Some(square) => earlier.push(square),
            None => earlier,
        }
    }
}

/// The squares written one after the other, with a separator wherever a row
/// of `width` squares is complete and another square follows. A width of 0
/// stands for a single row.
pub open spec fn rows(squares: Seq<Option<bool>>, width: int) -> Seq<char>
    decreases squares.len(),
{
    if squares.len() == 0 {
        Seq::empty()
    } else {
        let earlier = rows(squares.drop_last(), width);
        let k = squares.len() - 1;
        if width > 0 && k > 0 && k % width == 0 {
            earlier.push(ROW_SEPARATOR).push(char_of(squares.last()))
        } else {
            earlier.push(char_of(squares.last()))
        }
    }
}

/// The text form of a board given by its squares, row by row.
pub open spec fn rendered(squares: Seq<Option<bool>>, width: int) -> Seq<char> {
    seq!['<'] + rows(squares, width) + seq!['>']
}

/// Reading a text piece by piece gives the squares of the pieces, one after
/// the other.
pub proof fn lemma_squares_in_concat(a: Seq<char>, b: Seq<char>)
    ensures
        squares_in(a + b) == squares_in(a) + squares_in(b),
    decreases b.len(),
{
    if b.len() == 0 {
        assert(a + b == a);
        assert(squares_in(a) + squares_in(b) == squares_in(a));
    } else {
        lemma_squares_in_concat(a, b.drop_last());
        assert((a + b).drop_last() == a + b.drop_last());
        assert((a + b).last() == b.last());
        match square_of(b.last()) {
            Some(square) => {
                assert(squares_in(a + b) == (squares_in(a) + squares_in(b.drop_last())).push(
                    square,
                ));
            },
            None => {},
        }
    }
}

/// The rows of a board hold exactly its squares.
pub proof fn lemma_rows_round_trip(squares: Seq<Option<bool>>, width: int)
    ensures
        squares_in(rows(squares, width)) == squares,
    decreases squares.len(),
{
    if squares.len() > 0 {
        lemma_rows_round_trip(squares.drop_last(), width);
        let earlier = rows(squares.drop_last(), width);
        let k = squares.len() - 1;
        let last = char_of(squares.last());
        assert(square_of(last) == Some(squares.last()));
        assert(square_of(ROW_SEPARATOR).is_none());
        if width > 0 && k > 0 && k % width == 0 {
            let middle = earlier.push(ROW_SEPARATOR);
            assert(middle.drop_last() == earlier);
            assert(middle.last() == ROW_SEPARATOR);
            assert(squares_in(middle) == squares_in(earlier));
            assert(middle.push(last).drop_last() == middle);
            assert(middle.push(last).last() == last);
        } else {
            assert(earlier.push(last).drop_last() == earlier);
            assert(earlier.push(last).last() == last);
        }
        assert(squares.drop_last().push(squares.last()) == squares);
    }
}

/// For every board, reading the text form gives back the squares that were
/// written, whatever the width of a row.
pub proof fn text_round_trip(squares: Seq<Option<bool>>, width: int)
    ensures
        squares_in(rendered(squares, width)) == squares,
{
    let open = seq!['<'];
    let close = seq!['>'];
    lemma_squares_in_concat(open + rows(squares, width), close);
    lemma_squares_in_concat(open, rows(squares, width));
    lemma_rows_round_trip(squares, width);
    assert(squares_in(open) == Seq::<Option<bool>>::empty()) by {
        assert(open.drop_last() == Seq::<char>::empty());
        assert(squares_in(open.drop_last()) == Seq::<Option<bool>>::empty());
        assert(square_of(open.last()).is_none());
    }
    assert(squares_in(close) == Seq::<Option<bool>>::empty()) by {
        assert(close.drop_last() == Seq::<char>::empty());
        assert(squares_in(close.drop_last()) == Seq::<Option<bool>>::empty());
        assert(square_of(close.last()).is_none());
    }
    assert(Seq::<Option<bool>>::empty() + squares + Seq::<Option<bool>>::empty() == squares);
}

/// Reads one character.
pub fn read_square(c: char) -> (square: Option<Option<bool>>)
    ensures
        square == square_of(c),
{
    if c == ' ' {
        Some(None)
    } else if c == 'O' {
        Some(Some(true))
    } else if c == 'X' {
        Some(Some(false))
    } else {
        None
    }
}

/// The text of one square.
pub fn square_text(square: Option<bool>) -> (text: &'static str)
    ensures
        text@ == seq![char_of(square)],
{
    match square {
        None => {
            proof {
                reveal_strlit(" ");
            }
            assert(" "@ == seq![' ']);
            " "
        },
        Some(true) => {
            proof {
                reveal_strlit("O");
            }
            assert("O"@ == seq!['O']);
            "O"
        },
        Some(false) => {
            proof {
                reveal_strlit("X");
            }
            assert("X"@ == seq!['X']);
            "X"
        },
    }
}

/// Collects the squares that `text` holds, skipping every character that
/// does not stand for a square.
pub fn read_squares(text: &str) -> (squares: Vec<Option<bool>>)
    ensures
        squares@ == squares_in(text@),
{
    let mut squares: Vec<Option<bool>> = Vec::new();
    let n = text.unicode_len();
    let mut i: usize = 0;
    while i < n
        invariant
            i <= n,
            n == text@.len(),
            squares@ == squares_in(text@.take(i as int)),
        decreases n - i,
    {
        let c = text.get_char(i);
        proof {
            let upto = text@.take(i + 1);
            assert(upto.drop_last() == text@.take(i as int));
            assert(upto.last() == c);
        }
        match read_square(c) {
            Some(square) => {
                squares.push(square);
            },
            None => {},
        }
        i += 1;
    }
    assert(text@.take(n as int) == text@);
    squares
}

/// Writes the text form of a board given by its squares, row by row, with
/// `width` squares to a row. A width of 0 stands for a single row.
pub fn write_squares(squares: &Vec<Option<bool>>, width: usize) -> (text: String)
    ensures
        text@ == rendered(squares@, width as int),
{
    proof {
        reveal_strlit("<");
        reveal_strlit(">");
        reveal_strlit("\u{2503}");
    }
    assert("<"@ == seq!['<']);
    assert(">"@ == seq!['>']);
    assert("\u{2503}"@ == seq![ROW_SEPARATOR]);
    let mut text = String::from_str("<");
    let mut k: usize = 0;
    while k < squares.len()
        invariant
            k <= squares.len(),
            "\u{2503}"@ == seq![ROW_SEPARATOR],
            text@ == seq!['<'] + rows(squares@.take(k as int), width as int),
        decreases squares.len() - k,
    {
        proof {
            let upto = squares@.take(k + 1);
            assert(upto.drop_last() == squares@.take(k as int));
            assert(upto.last() == squares@[k as int]);
        }
        if width > 0 && k > 0 && k % width == 0 {
            text.append("\u{2503}");
        }
        text.append(square_text(squares[k]));
        k += 1;
    }
    assert(squares@.take(squares.len() as int) == squares@);
    text.append(">");
    text
}

} // verus!
