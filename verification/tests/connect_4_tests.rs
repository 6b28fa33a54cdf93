use min_max_game::min_max_game_strategy::{minimax, next};
use min_max_game::notation::TooFewSquares;
use min_max_game::{Connect4Game, MinMaxGame};

fn board(text: &str) -> Connect4Game {
    Connect4Game::from_str(text).unwrap()
}

#[test]
fn from_str_debug() {
    for s in [
        "<       ┃       ┃       ┃       ┃       ┃       >",
        "<X   O  ┃       ┃       ┃       ┃       ┃       >",
    ]
    .into_iter()
    {
        let g = Connect4Game::from_str(s).unwrap();
        assert_eq!(&g.to_text(), s);
    }
}

#[test]
fn finished() {
    let f = |string: &str| Connect4Game::from_str(string).unwrap().finished();

    // Not finished
    assert_eq!(
        f("<X   O  ┃       ┃       ┃       ┃       ┃       >"),
        None
    );
    // No winner
    assert_eq!(
        f("<OOOXXXO┃XXXOOOX┃OOOXXXO┃XXXOOOX┃OOOXXXO┃XXXOOOX>"),
        Some(0)
    );

    // Vertical
    assert_eq!(
        f("<O   XXX┃O      ┃O      ┃O      ┃       ┃       >"),
        Some(1)
    );

    // Horizontal
    assert_eq!(
        f("<OOOOXXX┃       ┃       ┃       ┃       ┃       >"),
        Some(1)
    );

    // First diagonal, at the left border
    assert_eq!(
        f("<OXXOX  ┃XOOXX  ┃OXXO   ┃ OOX   ┃  OO   ┃   O   >"),
        Some(1)
    );

    // Diagonal at the left border
    assert_eq!(
        f("<OXXX   ┃ OOX   ┃ OOX   ┃   O   ┃       ┃       >"),
        Some(1)
    );

    // Last diagonal, at the right border
    assert_eq!(
        f("<   OXXX┃   XOOX┃     OO┃      O┃       ┃       >"),
        Some(1)
    );

    // First diagonal the other way, at the left border
    assert_eq!(
        f("<XXXOX  ┃XOO    ┃OO     ┃O      ┃       ┃       >"),
        Some(1)
    );

    // Last diagonal the other way, at the right border
    assert_eq!(
        f("< X XXXO┃   XOOX┃   OXXO┃   XOO ┃   OO  ┃   O   >"),
        Some(1)
    );

    // Other winner
    assert_eq!(
        f("<OO XXXX┃OO     ┃       ┃       ┃       ┃       >"),
        Some(-1)
    )
}

#[test]
fn complete_game() {
    let mut game = Connect4Game::from_str("<XXXOOO ┃XOO    ┃OX     ┃XO     ┃XX     ┃OO     >")
        .unwrap();
    let mut player = true;
    loop {
        match next(&game, player) {
            Some(g) => game = g,
            None => break,
        }
        println!("{:?}", game);
        player = !player;
    }
    assert!(game.finished().is_some());
}

#[test]
fn empty_board_has_no_piece() {
    let empty = Connect4Game::default();
    assert_eq!(empty.board, [[None; 7]; 6]);
    assert_eq!(
        empty.to_text(),
        "<       ┃       ┃       ┃       ┃       ┃       >"
    );
    assert_eq!(empty.finished(), None);
}

#[test]
fn the_last_row_of_the_text_is_the_bottom_row() {
    let g = board("<      X┃       ┃       ┃       ┃       ┃O       >");
    assert_eq!(g.board[5][6], Some(false));
    assert_eq!(g.board[0][0], Some(true));
    assert_eq!(g.board[0][6], None);
}

#[test]
fn too_few_squares_are_refused() {
    assert_eq!(
        Connect4Game::from_str("<X   O  ┃       >"),
        Err(TooFewSquares { expected: 42, found: 14 })
    );
    assert_eq!(
        Connect4Game::from_str(""),
        Err(TooFewSquares { expected: 42, found: 0 })
    );
    let almost = "<       ┃       ┃       ┃       ┃       ┃      >";
    assert_eq!(
        Connect4Game::from_str(almost),
        Err(TooFewSquares { expected: 42, found: 41 })
    );
}

#[test]
fn squares_after_the_last_are_ignored() {
    let g = board("<       ┃       ┃       ┃       ┃       ┃   O   >XOXO");
    assert_eq!(
        g.to_text(),
        "<       ┃       ┃       ┃       ┃       ┃   O   >"
    );
}

#[test]
fn moves_go_from_the_centre_outwards() {
    let states = Connect4Game::default().moves(true);
    let texts: Vec<String> = states.iter().map(|g| g.to_text()).collect();
    assert_eq!(
        texts,
        vec![
            "<       ┃       ┃       ┃       ┃       ┃   O   >",
            "<       ┃       ┃       ┃       ┃       ┃  O    >",
            "<       ┃       ┃       ┃       ┃       ┃    O  >",
            "<       ┃       ┃       ┃       ┃       ┃ O     >",
            "<       ┃       ┃       ┃       ┃       ┃     O >",
            "<       ┃       ┃       ┃       ┃       ┃O      >",
            "<       ┃       ┃       ┃       ┃       ┃      O>",
        ]
    );
}

#[test]
fn a_piece_lands_on_the_lowest_empty_row() {
    let g = board("<       ┃       ┃       ┃       ┃   X   ┃  OXO  >");
    let states = g.moves(false);
    assert_eq!(states.len(), 7);
    assert_eq!(
        states[0].to_text(),
        "<       ┃       ┃       ┃   X   ┃   X   ┃  OXO  >"
    );
    assert_eq!(
        states[1].to_text(),
        "<       ┃       ┃       ┃       ┃  XX   ┃  OXO  >"
    );
    assert_eq!(
        states[3].to_text(),
        "<       ┃       ┃       ┃       ┃   X   ┃ XOXO  >"
    );
}

#[test]
fn a_piece_falls_below_one_that_hangs() {
    let g = board("<   O   ┃       ┃       ┃       ┃       ┃       >");
    assert_eq!(
        g.moves(false)[0].to_text(),
        "<   O   ┃       ┃       ┃       ┃       ┃   X   >"
    );
}

#[test]
fn a_full_column_gives_no_move() {
    let g = board("<   X   ┃   O   ┃   X   ┃   O   ┃   X   ┃   O   >");
    let states = g.moves(true);
    assert_eq!(states.len(), 6);
    for state in states.iter() {
        assert_eq!(state.board[0][3], Some(true));
        assert_eq!(state.board[5][3], Some(false));
    }
    assert_eq!(
        states[0].to_text(),
        "<   X   ┃   O   ┃   X   ┃   O   ┃   X   ┃  OO   >"
    );
}

#[test]
fn each_move_changes_one_empty_cell() {
    let g = board("<       ┃       ┃   O   ┃   X   ┃ X O   ┃ OXXO  >");
    for player in [true, false] {
        let states = g.moves(player);
        assert_eq!(states.len(), 7);
        for state in states.iter() {
            let mut changed = 0;
            for row in 0..6 {
                for col in 0..7 {
                    if state.board[row][col] != g.board[row][col] {
                        assert_eq!(g.board[row][col], None);
                        assert_eq!(state.board[row][col], Some(player));
                        changed += 1;
                    }
                }
            }
            assert_eq!(changed, 1);
        }
    }
}

#[test]
fn a_full_board_gives_no_move() {
    let g = board("<OOOXXXO┃XXXOOOX┃OOOXXXO┃XXXOOOX┃OOOXXXO┃XXXOOOX>");
    assert!(g.moves(true).is_empty());
    assert!(g.moves(false).is_empty());
}

#[test]
fn a_drawn_board_has_no_best_move() {
    let g = board("<OOOXXXO┃XXXOOOX┃OOOXXXO┃XXXOOOX┃OOOXXXO┃XXXOOOX>");
    assert_eq!(g.finished(), Some(0));
    assert_eq!(next(&g, true), None);
    assert_eq!(next(&g, false), None);
    assert_eq!(minimax(&g, None, None, true), (0, None));
    assert_eq!(minimax(&g, None, None, false), (0, None));
}

#[test]
fn the_fourth_piece_on_a_column_wins() {
    let g = board("<  OXXXO┃ XXOOOX┃ OOXXXO┃OXXOOOX┃OOOXXXO┃OXXOOOX>");
    assert_eq!(g.finished(), None);
    assert_eq!(g.moves(true).len(), 2);
    let won = board("<  OXXXO┃ XXOOOX┃OOOXXXO┃OXXOOOX┃OOOXXXO┃OXXOOOX>");
    assert_eq!(won.finished(), Some(1));
    assert_eq!(next(&g, true), Some(won));
    assert_eq!(minimax(&g, None, None, true), (1, Some(won)));
}

#[test]
fn the_other_player_blocks_the_column() {
    let g = board("<  OXXXO┃ XXOOOX┃ OOXXXO┃OXXOOOX┃OOOXXXO┃OXXOOOX>");
    let blocked = board("<  OXXXO┃ XXOOOX┃XOOXXXO┃OXXOOOX┃OOOXXXO┃OXXOOOX>");
    assert_eq!(next(&g, false), Some(blocked));
    assert_eq!(minimax(&g, None, None, false), (0, Some(blocked)));
}

#[test]
fn a_win_is_taken_where_it_is_not_the_first_move() {
    // The first column tried does not win; the last one does.
    let g = board("< OOXXX ┃ XXOOOX┃ OOXXXO┃XXXOOOX┃OOOXXXO┃XXXOOOX>");
    let won = board("< OOXXXX┃ XXOOOX┃ OOXXXO┃XXXOOOX┃OOOXXXO┃XXXOOOX>");
    assert_eq!(minimax(&g, None, None, false), (-1, Some(won)));
}

#[test]
fn four_in_a_row_needs_four() {
    let f = |string: &str| board(string).finished();
    assert_eq!(
        f("<       ┃       ┃       ┃O      ┃O      ┃O      >"),
        None
    );
    assert_eq!(
        f("<       ┃       ┃       ┃       ┃       ┃OOO OOO>"),
        None
    );
    assert_eq!(
        f("<       ┃       ┃       ┃       ┃       ┃   XXXX>"),
        Some(-1)
    );
    assert_eq!(
        f("<      X┃      X┃      X┃      X┃       ┃       >"),
        Some(-1)
    );
    assert_eq!(
        f("<       ┃       ┃  O    ┃   O   ┃    O  ┃       >"),
        None
    );
    assert_eq!(
        f("<       ┃       ┃   X   ┃    X  ┃     X ┃      X>"),
        Some(-1)
    );
    assert_eq!(
        f("<       ┃       ┃   X   ┃  X    ┃ X     ┃X      >"),
        Some(-1)
    );
}

#[test]
fn the_maximizing_player_is_looked_at_first() {
    let g = board("<       ┃       ┃       ┃       ┃XXXX   ┃OOOO   >");
    assert_eq!(g.finished(), Some(1));
}

#[test]
fn a_short_game_is_played_to_its_end() {
    let mut game = board("< OOXXX ┃ XXOOOX┃ OOXXXO┃XXXOOOX┃OOOXXXO┃XXXOOOX>");
    let mut player = false;
    let mut plies = 0;
    loop {
        match next(&game, player) {
            Some(g) => game = g,
            None => break,
        }
        plies += 1;
        player = !player;
    }
    assert_eq!(game.finished(), Some(-1));
    assert_eq!(plies, 1);
}
