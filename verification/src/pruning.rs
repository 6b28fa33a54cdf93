//! Why pruning is sound: the laws that tie the pruned search to the
//! game-theoretic value.
use crate::game::MinMaxGame;
use crate::min_max_game_strategy::{
    best_of, closed, first_optimal, or_draw, pick, scan, search_choice, search_value, value,
};
use vstd::prelude::*;

verus! {

/// Whether `score` has not risen above the lower bound `alpha`.
pub open spec fn at_or_below(score: i8, alpha: Option<i8>) -> bool {
    alpha matches Some(a) && score <= a
}

/// Whether `score` has reached the upper bound `beta`.
pub open spec fn at_or_above(score: i8, beta: Option<i8>) -> bool {
    beta matches Some(b) && score >= b
}

/// What a score reported for the window `alpha`..`beta` says about the true
/// value: a score at or below the lower bound is an upper bound of the value,
/// a score at or above the upper bound is a lower bound of it, and any other
/// score is the value.
pub open spec fn within_window(alpha: Option<i8>, beta: Option<i8>, score: i8, truth: i8) -> bool {
    &&& at_or_below(score, alpha) ==> truth <= score
    &&& at_or_above(score, beta) ==> truth >= score
    &&& !at_or_below(score, alpha) && !at_or_above(score, beta) ==> truth == score
}

/// How the pruned search of the first `n` successors relates to the best
/// exhaustive value among them.
pub open spec fn scan_sound<G: MinMaxGame>(
    game: G,
    alpha: Option<i8>,
    beta: Option<i8>,
    player: bool,
    n: nat,
) -> bool {
    let seen = scan(game, alpha, beta, player, n);
    let truth = best_of(game, player, n);
    if seen.cut {
        &&& seen.value matches Some(r)
        &&& truth matches Some(x)
        &&& if player {
            at_or_above(r, beta) && x >= r
        } else {
            at_or_below(r, alpha) && x <= r
        }
    } else {
        &&& seen.alpha == if player {
            pick(alpha, seen.value, player)
        } else {
            alpha
        }
        &&& seen.beta == if player {
            beta
        } else {
            pick(beta, seen.value, player)
        }
        &&& !closed(seen.alpha, seen.beta)
        &&& seen.value.is_none() <==> truth.is_none()
        &&& seen.value matches Some(r) ==> {
            &&& truth matches Some(x)
            &&& if player {
                if at_or_below(r, alpha) {
                    x <= r
                } else {
                    x == r
                }
            } else {
                if at_or_above(r, beta) {
                    x >= r
                } else {
                    x == r
                }
            }
        }
    }
}

/// The pruned search of the first `n` successors is sound for any window
/// whose bounds have not met.
proof fn lemma_scan_sound<G: MinMaxGame>(
    game: G,
    alpha: Option<i8>,
    beta: Option<i8>,
    player: bool,
    n: nat,
)
    requires
        game.outcome().is_none(),
        n <= game.successors(player).len(),
        !closed(alpha, beta),
    ensures
        scan_sound(game, alpha, beta, player, n),
    decreases game.plies_left(), n,
{
    if n > 0 {
        let before = scan(game, alpha, beta, player, (n - 1) as nat);
        lemma_scan_sound(game, alpha, beta, player, (n - 1) as nat);
        if !before.cut {
            game.successors_shrink(player, n - 1);
            search_respects_window(
                game.successors(player)[n - 1],
                before.alpha,
                before.beta,
                !player,
            );
        }
    }
}

/// For every state and every window whose bounds have not met, the score of
/// the pruned search is the game-theoretic value if it lies strictly inside
/// the window, bounds the value from above if it lies at or below the lower
/// bound, and bounds it from below if it lies at or above the upper bound.
pub proof fn search_respects_window<G: MinMaxGame>(
    game: G,
    alpha: Option<i8>,
    beta: Option<i8>,
    player: bool,
)
    requires
        !closed(alpha, beta),
    ensures
        within_window(alpha, beta, search_value(game, alpha, beta, player), value(game, player)),
    decreases game.plies_left(), game.successors(player).len() + 1,
{
    if game.outcome().is_none() {
        lemma_scan_sound(game, alpha, beta, player, game.successors(player).len());
    }
}

/// For every state, the pruned search started without bounds reports the
/// same score as exhaustive minimax.
pub proof fn pruning_preserves_value<G: MinMaxGame>(game: G, player: bool)
    ensures
        search_value(game, None, None, player) == value(game, player),
{
    search_respects_window(game, None, None, player);
}

/// Whether no score among the first `n` successors is better for `player`
/// than `best`.
pub open spec fn none_better<G: MinMaxGame>(game: G, player: bool, n: nat, best: i8) -> bool {
    forall|j: int|
        0 <= j < n ==> if player {
            value(#[trigger] game.successors(player)[j], !player) <= best
        } else {
            value(#[trigger] game.successors(player)[j], !player) >= best
        }
}

/// The best exhaustive value among the first `n` successors of an open state
/// is the value of one of them, and none of them is better.
pub proof fn best_of_is_extremum<G: MinMaxGame>(game: G, player: bool, n: nat)
    requires
        game.outcome().is_none(),
        0 < n <= game.successors(player).len(),
    ensures
        best_of(game, player, n) matches Some(best) && none_better(game, player, n, best)
            && exists|k: int|
            0 <= k < n && value(#[trigger] game.successors(player)[k], !player) == best,
    decreases n,
{
    let last = value(game.successors(player)[n - 1], !player);
    if n > 1 {
        best_of_is_extremum(game, player, (n - 1) as nat);
        let earlier = best_of(game, player, (n - 1) as nat)->0;
        let best = best_of(game, player, n)->0;
        if best == last {
            assert(value(game.successors(player)[n - 1], !player) == best);
        } else {
            let k = choose|k: int|
                0 <= k < n - 1 && value(#[trigger] game.successors(player)[k], !player) == earlier;
            assert(value(game.successors(player)[k], !player) == best);
        }
    } else {
        assert(value(game.successors(player)[0], !player) == last);
    }
}

/// For every open state that has a move, the value of the state is the value
/// of its best successor: the largest one when the maximizing player moves,
/// the smallest one when the minimizing player moves.
pub proof fn value_is_best_reply<G: MinMaxGame>(game: G, player: bool)
    requires
        game.outcome().is_none(),
        game.successors(player).len() > 0,
    ensures
        none_better(game, player, game.successors(player).len(), value(game, player)),
        exists|k: int|
            0 <= k < game.successors(player).len() && value(
                #[trigger] game.successors(player)[k],
                !player,
            ) == value(game, player),
{
    best_of_is_extremum(game, player, game.successors(player).len());
}

/// How the search without bounds stands after the first `n` successors: it
/// has not stopped, its best score is the best exhaustive value, and it
/// remembers the first successor that has that value.
pub open spec fn unbounded_scan_exact<G: MinMaxGame>(game: G, player: bool, n: nat) -> bool {
    let seen = scan(game, None, None, player, n);
    &&& !seen.cut
    &&& seen.value == best_of(game, player, n)
    &&& seen.alpha == if player {
        seen.value
    } else {
        None
    }
    &&& seen.beta == if player {
        None
    } else {
        seen.value
    }
    &&& match seen.best {
        None => n == 0,
        Some(k) => {
            &&& 0 <= k < n
            &&& seen.value == Some(value(game.successors(player)[k], !player))
            &&& forall|j: int|
                0 <= j < k ==> seen.value != Some(
                    value(#[trigger] game.successors(player)[j], !player),
                )
        },
    }
}

proof fn lemma_unbounded_scan_exact<G: MinMaxGame>(game: G, player: bool, n: nat)
    requires
        game.outcome().is_none(),
        n <= game.successors(player).len(),
    ensures
        unbounded_scan_exact(game, player, n),
    decreases n,
{
    if n > 0 {
        let before = scan(game, None, None, player, (n - 1) as nat);
        lemma_unbounded_scan_exact(game, player, (n - 1) as nat);
        search_respects_window(game.successors(player)[n - 1], before.alpha, before.beta, !player);
        if n > 1 {
            best_of_is_extremum(game, player, (n - 1) as nat);
        }
    }
}

/// For every state, the move that the search without bounds reports is the
/// first successor whose value is the value of the state; it reports none
/// exactly when the game is finished or the state has no move.
pub proof fn choice_is_first_optimal<G: MinMaxGame>(game: G, player: bool)
    ensures
        match search_choice(game, None, None, player) {
            Some(k) => game.outcome().is_none() && first_optimal(game, player, k),
            None => game.outcome().is_some() || game.successors(player).len() == 0,
        },
{
    if game.outcome().is_none() {
        lemma_unbounded_scan_exact(game, player, game.successors(player).len());
    }
}

/// At most one successor is the first optimal one.
pub proof fn first_optimal_is_unique<G: MinMaxGame>(game: G, player: bool, k: int, l: int)
    requires
        first_optimal(game, player, k),
        first_optimal(game, player, l),
    ensures
        k == l,
{
    if k < l {
        assert(value(game.successors(player)[k], !player) != value(game, player));
    } else if l < k {
        assert(value(game.successors(player)[l], !player) != value(game, player));
    }
}

/// Whether every finished state of the game `G` has a score from `lo` to
/// `hi`.
pub open spec fn scores_within<G: MinMaxGame>(lo: i8, hi: i8) -> bool {
    forall|state: G| (#[trigger] state.outcome()) matches Some(score) ==> lo <= score <= hi
}

proof fn lemma_best_of_within_scores<G: MinMaxGame>(
    game: G,
    player: bool,
    n: nat,
    lo: i8,
    hi: i8,
)
    requires
        scores_within::<G>(lo, hi),
        lo <= 0 <= hi,
    ensures
        best_of(game, player, n) matches Some(best) ==> lo <= best <= hi,
    decreases game.plies_left(), n,
{
    if game.outcome().is_none() && 0 < n <= game.successors(player).len() {
        lemma_best_of_within_scores(game, player, (n - 1) as nat, lo, hi);
        game.successors_shrink(player, n - 1);
        value_within_scores(game.successors(player)[n - 1], !player, lo, hi);
    }
}

/// In a game whose scores all lie in a range that holds the draw, the value
/// of every state lies in that range.
pub proof fn value_within_scores<G: MinMaxGame>(game: G, player: bool, lo: i8, hi: i8)
    requires
        scores_within::<G>(lo, hi),
        lo <= 0 <= hi,
    ensures
        lo <= value(game, player) <= hi,
    decreases game.plies_left(), game.successors(player).len() + 1,
{
    if game.outcome().is_none() {
        lemma_best_of_within_scores(game, player, game.successors(player).len(), lo, hi);
    }
}

} // verus!
