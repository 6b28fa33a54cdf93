use min_max_game::min_max_game_strategy::{best_pick, minimax, next};
use min_max_game::{MinMaxGame, TicTacToeGame};

fn board(text: &str) -> TicTacToeGame {
    TicTacToeGame::from_str(text).unwrap()
}

/// The value of a position by plain minimax, with no pruning.
fn exhaustive(game: &TicTacToeGame, player: bool) -> i8 {
    if let Some(score) = game.finished() {
        return score;
    }
    let values = game
        .moves(player)
        .iter()
        .map(|m| exhaustive(m, !player))
        .collect::<Vec<i8>>();
    let best = if player {
        values.iter().max()
    } else {
        values.iter().min()
    };
    best.copied().unwrap_or(0)
}

/// Every position that can come up in play from `game`, with the player to
/// move in it.
fn reachable(game: &TicTacToeGame, player: bool, found: &mut Vec<(TicTacToeGame, bool)>) {
    found.push((*game, player));
    if game.finished().is_none() {
        for m in game.moves(player) {
            reachable(&m, !player, found);
        }
    }
}

#[test]
fn finishing_move_x() {
    let g = TicTacToeGame::from_str("<O O┃ O ┃X X>").unwrap();
    let e = TicTacToeGame::from_str("<O O┃ O ┃XXX>").unwrap();
    assert_eq!(next(&g, false), Some(e));
}

#[test]
fn finishing_move_o() {
    let g = TicTacToeGame::from_str("<O O┃   ┃X X>").unwrap();
    let e = TicTacToeGame::from_str("<OOO┃   ┃X X>").unwrap();
    assert_eq!(next(&g, true), Some(e));
}

#[test]
fn the_only_legal_move_is_taken() {
    let g = board("<OXO┃XOX┃XO >");
    assert_eq!(next(&g, false), Some(board("<OXO┃XOX┃XOX>")));
    assert_eq!(minimax(&g, None, None, false), (0, Some(board("<OXO┃XOX┃XOX>"))));
    assert_eq!(next(&g, true), Some(board("<OXO┃XOX┃XOO>")));
    assert_eq!(minimax(&g, None, None, true).0, 1);
}

#[test]
fn best_pick_takes_the_better_score() {
    assert_eq!(best_pick(None, None, true), None);
    assert_eq!(best_pick(None, None, false), None);
    assert_eq!(best_pick(Some(-1), None, true), Some(-1));
    assert_eq!(best_pick(Some(1), None, false), Some(1));
    assert_eq!(best_pick(None, Some(-1), true), Some(-1));
    assert_eq!(best_pick(None, Some(1), false), Some(1));
    assert_eq!(best_pick(Some(0), Some(1), true), Some(1));
    assert_eq!(best_pick(Some(1), Some(0), true), Some(1));
    assert_eq!(best_pick(Some(0), Some(1), false), Some(0));
    assert_eq!(best_pick(Some(1), Some(0), false), Some(0));
    assert_eq!(best_pick(Some(-128), Some(127), true), Some(127));
    assert_eq!(best_pick(Some(-128), Some(127), false), Some(-128));
    assert_eq!(best_pick(Some(0), Some(0), true), Some(0));
}

#[test]
fn a_finished_game_has_no_best_move() {
    for text in ["<OOO┃   ┃ XX>", "<O O┃ O ┃XXX>", "<OXO┃XOO┃XOX>"] {
        let g = board(text);
        let score = g.finished().unwrap();
        for player in [true, false] {
            assert_eq!(next(&g, player), None);
            assert_eq!(minimax(&g, None, None, player), (score, None));
            assert_eq!(minimax(&g, Some(-1), Some(1), player), (score, None));
            assert_eq!(minimax(&g, Some(1), Some(-1), player), (score, None));
        }
    }
}

#[test]
fn the_empty_board_is_a_draw() {
    let empty = TicTacToeGame::default();
    assert_eq!(minimax(&empty, None, None, true).0, 0);
    assert_eq!(minimax(&empty, None, None, false).0, 0);
}

#[test]
fn best_play_from_the_empty_board_ends_in_a_draw() {
    for first in [true, false] {
        let mut game = TicTacToeGame::default();
        let mut player = first;
        let mut plies = 0;
        loop {
            match next(&game, player) {
                Some(g) => game = g,
                None => break,
            }
            plies += 1;
            player = !player;
        }
        assert_eq!(plies, 9);
        assert_eq!(game.finished(), Some(0));
    }
}

#[test]
fn the_first_of_several_best_moves_is_taken() {
    let empty = TicTacToeGame::default();
    assert_eq!(next(&empty, true), Some(board("<O  ┃   ┃   >")));
    assert_eq!(next(&empty, false), Some(board("<X  ┃   ┃   >")));
    // Both the top row and the diagonal win; the top row comes first.
    let g = board("<OO ┃ O ┃XX >");
    assert_eq!(next(&g, true), Some(board("<OOO┃ O ┃XX >")));
}

#[test]
fn pruning_keeps_the_value_on_every_reachable_board() {
    let mut found = Vec::new();
    reachable(&board("<O  ┃ X ┃   >"), true, &mut found);
    reachable(&board("<X O┃   ┃   >"), false, &mut found);
    assert!(found.len() > 1000);
    for (game, player) in found.iter() {
        assert_eq!(
            minimax(game, None, None, *player).0,
            exhaustive(game, *player)
        );
    }
}

#[test]
fn the_best_move_is_the_first_with_the_value_of_the_board() {
    let mut found = Vec::new();
    reachable(&board("<O X┃ X ┃   >"), true, &mut found);
    for (game, player) in found.iter() {
        let value = exhaustive(game, *player);
        let expected = if game.finished().is_some() {
            None
        } else {
            game.moves(*player)
                .into_iter()
                .find(|m| exhaustive(m, !*player) == value)
        };
        assert_eq!(next(game, *player), expected);
        assert_eq!(minimax(game, None, None, *player), (value, expected));
    }
}

#[test]
fn a_window_bounds_the_value_where_it_does_not_give_it() {
    let mut found = Vec::new();
    reachable(&board("<O X┃ X ┃ O >"), true, &mut found);
    reachable(&board("<X  ┃ O ┃   >"), false, &mut found);
    let bounds = [None, Some(-1), Some(0), Some(1)];
    for (game, player) in found.iter() {
        let value = exhaustive(game, *player);
        for alpha in bounds {
            for beta in bounds {
                if let (Some(a), Some(b)) = (alpha, beta) {
                    if a >= b {
                        continue;
                    }
                }
                let score = minimax(game, alpha, beta, *player).0;
                let low = alpha.map_or(false, |a| score <= a);
                let high = beta.map_or(false, |b| score >= b);
                if low {
                    assert!(value <= score);
                } else if high {
                    assert!(value >= score);
                } else {
                    assert_eq!(value, score);
                }
            }
        }
    }
}

#[test]
fn a_closed_window_stops_after_the_first_move() {
    // With the bounds met, only the first move is looked at, all the way down.
    let g = board("<O O┃   ┃X X>");
    assert_eq!(
        minimax(&g, Some(1), Some(-1), true),
        (1, Some(board("<OOO┃   ┃X X>")))
    );
    let h = board("<OX ┃XOX┃XO >");
    assert_eq!(
        minimax(&h, Some(0), Some(0), false),
        (1, Some(board("<OXX┃XOX┃XO >")))
    );
    assert_eq!(minimax(&h, None, None, false).0, 0);
}

#[test]
fn a_win_in_one_is_worth_one() {
    assert_eq!(minimax(&board("<O O┃   ┃X X>"), None, None, true).0, 1);
    assert_eq!(minimax(&board("<O O┃   ┃X X>"), None, None, false).0, -1);
    assert_eq!(minimax(&board("<O O┃ O ┃X X>"), None, None, false).0, -1);
    assert_eq!(minimax(&board("<O O┃ O ┃X X>"), None, None, true).0, 1);
}
