use min_max_game::notation::TooFewSquares;
use min_max_game::{MinMaxGame, TicTacToeGame};

fn board(text: &str) -> TicTacToeGame {
    TicTacToeGame::from_str(text).unwrap()
}

#[test]
fn lib_finished() {
    let f = |string: &str| TicTacToeGame::from_str(string).unwrap().finished();

    // Not finished
    assert_eq!(f("<O O┃   ┃ X >"), None);
    // Horizontal
    assert_eq!(f("<OOO┃   ┃ XX>"), Some(1));
    assert_eq!(f("<   ┃OOO┃ XX>"), Some(1));
    assert_eq!(f("<   ┃ XX┃OOO>"), Some(1));
    // Vertical
    assert_eq!(f("<O  ┃O  ┃OXX>"), Some(1));
    assert_eq!(f("< O ┃ O ┃XOX>"), Some(1));
    assert_eq!(f("<  O┃  O┃XXO>"), Some(1));
    // Diagonal
    assert_eq!(f("<O  ┃ O ┃XXO>"), Some(1));
    assert_eq!(f("<  O┃ O ┃OXX>"), Some(1));
    // Other player
    assert_eq!(f("<O O┃ O ┃XXX>"), Some(-1));
    // No win
    assert_eq!(f("<OXO┃XOO┃XOX>"), Some(0));
}

#[test]
fn debug() {
    assert_eq!(TicTacToeGame::default().to_text(), "<   ┃   ┃   >");
}

#[test]
fn moves() {
    let states: Vec<TicTacToeGame> = TicTacToeGame::from_str("<  O┃   ┃ X >")
        .unwrap()
        .moves(true);
    assert_eq!(
        states,
        vec!(
            TicTacToeGame::from_str("<O O┃   ┃ X >").unwrap(),
            TicTacToeGame::from_str("< OO┃   ┃ X >").unwrap(),
            TicTacToeGame::from_str("<  O┃O  ┃ X >").unwrap(),
            TicTacToeGame::from_str("<  O┃ O ┃ X >").unwrap(),
            TicTacToeGame::from_str("<  O┃  O┃ X >").unwrap(),
            TicTacToeGame::from_str("<  O┃   ┃OX >").unwrap(),
            TicTacToeGame::from_str("<  O┃   ┃ XO>").unwrap(),
        )
    );
}

#[test]
fn from_str() {
    let game = "<  O┃   ┃ X >";
    assert_eq!(TicTacToeGame::from_str(game).unwrap().to_text(), game);
}

#[test]
fn the_first_row_of_the_text_is_row_0() {
    let g = board("<O  ┃  X┃   >");
    assert_eq!(g.board[0][0], Some(true));
    assert_eq!(g.board[1][2], Some(false));
    assert_eq!(g.board[2][2], None);
    assert_eq!(TicTacToeGame::default().board, [[None; 3]; 3]);
}

#[test]
fn a_text_with_fewer_than_nine_squares_is_refused() {
    assert_eq!(
        TicTacToeGame::from_str("<O O┃   ┃ X>"),
        Err(TooFewSquares { expected: 9, found: 8 })
    );
    assert_eq!(
        TicTacToeGame::from_str(""),
        Err(TooFewSquares { expected: 9, found: 0 })
    );
    assert_eq!(
        TicTacToeGame::from_str("<abc┃def┃ghi>"),
        Err(TooFewSquares { expected: 9, found: 0 })
    );
}

#[test]
fn other_characters_are_skipped() {
    assert_eq!(
        TicTacToeGame::from_str("O.O|-.-|.X. and x o"),
        Err(TooFewSquares { expected: 9, found: 6 })
    );
    assert_eq!(
        TicTacToeGame::from_str("O O\n   \n X \n").unwrap(),
        board("<O O┃   ┃ X >")
    );
    assert_eq!(
        TicTacToeGame::from_str("<O O┃   ┃ X >XXX").unwrap(),
        board("<O O┃   ┃ X >")
    );
}

#[test]
fn every_board_reads_back_from_its_text() {
    let marks = [None, Some(true), Some(false)];
    for code in 0..19683usize {
        let mut rest = code;
        let mut game = TicTacToeGame::default();
        for k in 0..9 {
            game.board[k / 3][k % 3] = marks[rest % 3];
            rest /= 3;
        }
        assert_eq!(TicTacToeGame::from_str(&game.to_text()), Ok(game));
    }
}

#[test]
fn each_move_fills_one_empty_square() {
    let g = board("<O X┃ X ┃  O>");
    for player in [true, false] {
        let states = g.moves(player);
        assert_eq!(states.len(), 5);
        let mut filled = Vec::new();
        for state in states.iter() {
            let mut changed = Vec::new();
            for k in 0..9 {
                if state.board[k / 3][k % 3] != g.board[k / 3][k % 3] {
                    assert_eq!(g.board[k / 3][k % 3], None);
                    assert_eq!(state.board[k / 3][k % 3], Some(player));
                    changed.push(k);
                }
            }
            assert_eq!(changed.len(), 1);
            filled.push(changed[0]);
        }
        assert_eq!(filled, vec![1, 3, 5, 6, 7]);
    }
}

#[test]
fn a_full_tic_tac_toe_board_gives_no_move() {
    assert!(board("<OXO┃XOO┃XOX>").moves(true).is_empty());
    assert_eq!(TicTacToeGame::default().moves(false).len(), 9);
}

#[test]
fn moves_leave_the_board_as_it_was() {
    let g = board("<  O┃   ┃ X >");
    let before = g;
    let _ = g.moves(true);
    let _ = g.finished();
    assert_eq!(g, before);
}

#[test]
fn a_line_counts_before_a_full_board() {
    assert_eq!(board("<OOO┃XXO┃OXX>").finished(), Some(1));
    assert_eq!(board("<XOO┃OXX┃OOX>").finished(), Some(-1));
    // Both players with a line: the maximizing player is looked at first.
    assert_eq!(board("<OOO┃XXX┃   >").finished(), Some(1));
}
