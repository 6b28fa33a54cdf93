//! Minimax search with alpha-beta pruning over any [`MinMaxGame`].
//!
//! Two mathematical descriptions of a game tree live here. [`value`] is the
//! game-theoretic value: the score that exhaustive minimax assigns to a state.
//! [`scan`], [`search_value`] and [`search_choice`] describe what the pruned
//! search computes for an arbitrary window. [`minimax`] is proved to compute
//! the latter, and the laws in [`crate::pruning`] relate it to the former.
use crate::game::MinMaxGame;
use crate::pruning::{choice_is_first_optimal, search_respects_window, within_window};
use vstd::prelude::*;

verus! {

/// The better of two optional scores for the side given by `maximise`: the
/// larger one for the maximizing side, the smaller one for the minimizing
/// side. A missing score never beats a present one.
pub open spec fn pick(a: Option<i8>, b: Option<i8>, maximise: bool) -> Option<i8> {
    match (a, b) {
        (None, None) => None,
        (Some(x), None) => Some(x),
        (None, Some(y)) => Some(y),
        (Some(x), Some(y)) => Some(
            if maximise {
                if x >= y {
                    x
                } else {
                    y
                }
            } else {
                if x <= y {
                    x
                } else {
                    y
                }
            },
        ),
    }
}

/// A score that stands for a missing one: a state without a score and without
/// a move counts as a draw.
pub open spec fn or_draw(score: Option<i8>) -> i8 {
    match score {
        Some(v) => v,
        None => 0,
    }
}

/// The best exhaustive value among the first `n` successors of an open state,
/// from the point of view of `player`; `None` when there is none to look at.
pub open spec fn best_of<G: MinMaxGame>(game: G, player: bool, n: nat) -> Option<i8>
    decreases game.plies_left(), n,
{
    if game.outcome().is_some() || n == 0 || n > game.successors(player).len() {
        None
    } else {
        proof {
            game.successors_shrink(player, n - 1);
        }
        pick(
            best_of(game, player, (n - 1) as nat),
            Some(value(game.successors(player)[n - 1], !player)),
            player,
        )
    }
}

/// The game-theoretic value of a state with `player` to move: the score of a
/// finished game, and otherwise the largest (for the maximizing player) or
/// smallest (for the minimizing player) value among all successors, each
/// valued with the other player to move.
pub open spec fn value<G: MinMaxGame>(game: G, player: bool) -> i8
    decreases game.plies_left(), game.successors(player).len() + 1,
{
    match game.outcome() {
        Some(score) => score,
        None => or_draw(best_of(game, player, game.successors(player).len())),
    }
}

/// Whether the two bounds of a window have met: both are set and the lower
/// one has reached the upper one.
pub open spec fn closed(alpha: Option<i8>, beta: Option<i8>) -> bool {
    alpha matches Some(a) && beta matches Some(b) && a >= b
}

/// What the pruned search knows after it has dealt with some of the
/// successors of a state.
pub struct Scan {
    /// The best score seen so far.
    pub value: Option<i8>,
    /// The lower bound of the window, as raised so far.
    pub alpha: Option<i8>,
    /// The upper bound of the window, as lowered so far.
    pub beta: Option<i8>,
    /// The position, among the successors, of the first one that reached
    /// `value`.
    pub best: Option<int>,
    /// Whether the window has closed, so that no further successor is looked
    /// at.
    pub cut: bool,
}

/// The state of the pruned search of an open state after the first `n`
/// successors, started with the window `alpha`..`beta`. Successors that come
/// after the window has closed leave the state as it is.
pub open spec fn scan<G: MinMaxGame>(
    game: G,
    alpha: Option<i8>,
    beta: Option<i8>,
    player: bool,
    n: nat,
) -> Scan
    decreases game.plies_left(), n,
{
    if game.outcome().is_some() || n == 0 || n > game.successors(player).len() {
        Scan { value: None, alpha, beta, best: None, cut: false }
    } else {
        let before = scan(game, alpha, beta, player, (n - 1) as nat);
        if before.cut {
            before
        } else {
            proof {
                game.successors_shrink(player, n - 1);
            }
            let child = search_value(
                game.successors(player)[n - 1],
                before.alpha,
                before.beta,
                !player,
            );
            let value = pick(before.value, Some(child), player);
            let alpha = if player {
                pick(before.alpha, value, player)
            } else {
                before.alpha
            };
            let beta = if player {
                before.beta
            } else {
                pick(before.beta, value, player)
            };
            Scan {
                value,
                alpha,
                beta,
                best: if value != before.value {
                    Some(n - 1)
                } else {
                    before.best
                },
                cut: closed(alpha, beta),
            }
        }
    }
}

/// The score that the pruned search reports for a state, started with the
/// window `alpha`..`beta` and with `player` to move.
pub open spec fn search_value<G: MinMaxGame>(
    game: G,
    alpha: Option<i8>,
    beta: Option<i8>,
    player: bool,
) -> i8
    decreases game.plies_left(), game.successors(player).len() + 1,
{
    match game.outcome() {
        Some(score) => score,
        None => or_draw(scan(game, alpha, beta, player, game.successors(player).len()).value),
    }
}

/// The position, among the successors, of the move that the pruned search
/// reports; `None` for a finished game and for a state without a move.
pub open spec fn search_choice<G: MinMaxGame>(
    game: G,
    alpha: Option<i8>,
    beta: Option<i8>,
    player: bool,
) -> Option<int> {
    scan(game, alpha, beta, player, game.successors(player).len()).best
}

/// The successor found at an optional position.
pub open spec fn successor_at<G: MinMaxGame>(game: G, player: bool, at: Option<int>) -> Option<G> {
    match at {
        Some(k) => Some(game.successors(player)[k]),
        None => None,
    }
}

/// Whether the `k`-th successor is the first one whose value, with the other
/// player to move, is the value of the state itself.
pub open spec fn first_optimal<G: MinMaxGame>(game: G, player: bool, k: int) -> bool {
    &&& 0 <= k < game.successors(player).len()
    &&& value(game.successors(player)[k], !player) == value(game, player)
    &&& forall|j: int|
        0 <= j < k ==> value(#[trigger] game.successors(player)[j], !player) != value(
            game,
            player,
        )
}

/// Whether `chosen` is the answer owed for a state: the first optimal
/// successor of an open state that has a move, and nothing otherwise.
pub open spec fn is_best_move<G: MinMaxGame>(game: G, player: bool, chosen: Option<G>) -> bool {
    match chosen {
        Some(m) => game.outcome().is_none() && exists|k: int|
            #[trigger] first_optimal(game, player, k) && m == game.successors(player)[k],
        None => game.outcome().is_some() || game.successors(player).len() == 0,
    }
}

/// Combines a running best score with a new candidate.
pub fn best_pick(a: Option<i8>, b: Option<i8>, maximise: bool) -> (best: Option<i8>)
    ensures
        best == pick(a, b, maximise),
{
    match (a, b) {
        (None, None) => None,
        (Some(x), None) => Some(x),
        (None, Some(y)) => Some(y),
        (Some(x), Some(y)) => Some(
            if maximise {
                if x >= y {
                    x
                } else {
                    y
                }
            } else {
                if x <= y {
                    x
                } else {
                    y
                }
            },
        ),
    }
}

/// Once the window has closed, looking at further successors changes nothing.
proof fn lemma_scan_settles<G: MinMaxGame>(
    game: G,
    alpha: Option<i8>,
    beta: Option<i8>,
    player: bool,
    n: nat,
    m: nat,
)
    requires
        scan(game, alpha, beta, player, n).cut,
        n <= m <= game.successors(player).len(),
    ensures
        scan(game, alpha, beta, player, m) == scan(game, alpha, beta, player, n),
    decreases m,
{
    if n < m {
        lemma_scan_settles(game, alpha, beta, player, n, (m - 1) as nat);
    }
}

/// Searches the game tree below `game` with `player` to move, pruning with
/// the window `alpha`..`beta`, and returns the score together with the chosen
/// successor.
///
/// A finished game yields its score and no successor. Otherwise the
/// successors are tried in order; each improves the running best score for
/// `player` or leaves it, the first one to reach the final score is the one
/// returned, and the search stops as soon as the window has closed. A state
/// that is open but has no move yields a draw and no successor.
///
/// The result is exactly [`search_value`] and the successor at
/// [`search_choice`]. With no bound set, the score is the game-theoretic
/// [`value`] and the successor is the first optimal one. With bounds set, and
/// the lower below the upper, a score strictly inside the window is the
/// value, and a score at or beyond a bound lies between that bound and the
/// value.
pub fn minimax<G: MinMaxGame>(
    game: &G,
    alpha: Option<i8>,
    beta: Option<i8>,
    player: bool,
) -> (found: (i8, Option<G>))
    ensures
        found.0 == search_value(*game, alpha, beta, player),
        found.1 == successor_at(*game, player, search_choice(*game, alpha, beta, player)),
        game.outcome() matches Some(score) ==> found == (score, None::<G>),
        !closed(alpha, beta) ==> within_window(alpha, beta, found.0, value(*game, player)),
        alpha.is_none() && beta.is_none() ==> found.0 == value(*game, player) && is_best_move(
            *game,
            player,
            found.1,
        ),
    decreases game.plies_left(),
{
    proof {
        if !closed(alpha, beta) {
            search_respects_window(*game, alpha, beta, player);
        }
        if alpha.is_none() && beta.is_none() {
            choice_is_first_optimal(*game, player);
        }
    }
    match game.finished() {
        Some(score) => (score, None),
        None => {
            let mut moves = game.moves(player);
            let mut low = alpha;
            let mut high = beta;
            let mut value: Option<i8> = None;
            let mut best: Option<usize> = None;
            let mut stop = false;
            let mut i: usize = 0;
            while i < moves.len() && !stop
                invariant
                    game.outcome().is_none(),
                    moves@ == game.successors(player),
                    i <= moves.len(),
                    scan(*game, alpha, beta, player, i as nat).value == value,
                    scan(*game, alpha, beta, player, i as nat).alpha == low,
                    scan(*game, alpha, beta, player, i as nat).beta == high,
                    scan(*game, alpha, beta, player, i as nat).cut == stop,
                    match best {
                        Some(k) => scan(*game, alpha, beta, player, i as nat).best == Some(
                            k as int,
                        ) && k < i,
                        None => scan(*game, alpha, beta, player, i as nat).best.is_none(),
                    },
                decreases moves.len() - i,
            {
                proof {
                    game.successors_shrink(player, i as int);
                }
                let child = minimax(&moves[i], low, high, !player).0;
                let before = value;
                value = best_pick(value, Some(child), player);
                if before != value {
                    best = Some(i);
                }
                if player {
                    low = best_pick(low, value, player);
                } else {
                    high = best_pick(high, value, player);
                }
                stop = match (low, high) {
                    (Some(a), Some(b)) => a >= b,
                    _ => false,
                };
                i += 1;
            }
            proof {
                if stop {
                    lemma_scan_settles(
                        *game,
                        alpha,
                        beta,
                        player,
                        i as nat,
                        game.successors(player).len(),
                    );
                }
            }
            let chosen = match best {
                Some(k) => Some(moves.swap_remove(k)),
                None => None,
            };
            let score = match value {
                Some(v) => v,
                None => 0,
            };
            (score, chosen)
        },
    }
}

/// Returns the best move for `player`: the first successor, in the order of
/// [`MinMaxGame::moves`], whose value is the value of `game`. Returns `None`
/// when the game is finished, or when the state has no move.
pub fn next<G: MinMaxGame>(game: &G, player: bool) -> (chosen: Option<G>)
    ensures
        is_best_move(*game, player, chosen),
        chosen == successor_at(*game, player, search_choice(*game, None, None, player)),
{
    minimax(game, None, None, player).1
}

} // verus!
