//! The capability a game state offers to the search.
use vstd::prelude::*;

verus! {

/// A snapshot of a two-player, zero-sum, perfect-information game.
///
/// The player flag `true` stands for the maximizing player and `false` for the
/// minimizing one. A state is described by three mathematical functions, which
/// the two executable methods compute:
///
/// * `outcome` is the score of a state at which play has ended, and `None`
///   while play goes on;
/// * `successors` lists, in a fixed order, the states that one move of the
///   given player leads to;
/// * `plies_left` bounds the number of moves that can still be made, which is
///   what makes a search of the whole game tree finite.
pub trait MinMaxGame: Sized {
    /// The score of a finished game; `None` while the game is still open.
    spec fn outcome(&self) -> Option<i8>;

    /// The states reachable by one move of `player`, in the order in which
    /// they are tried.
    spec fn successors(&self, player: bool) -> Seq<Self>;

    /// An upper bound on the number of moves left in the game.
    spec fn plies_left(&self) -> nat;

    /// Every move out of an open state uses up at least one of the moves left.
    proof fn successors_shrink(&self, player: bool, i: int)
        requires
            self.outcome().is_none(),
            0 <= i < self.successors(player).len(),
        ensures
            self.successors(player)[i].plies_left() < self.plies_left(),
    ;

    /// Returns the score if the game has ended, and `None` otherwise.
    fn finished(&self) -> (score: Option<i8>)
        ensures
            score == self.outcome(),
    ;

    /// Returns every state that `player` can move to, in a fixed order.
    fn moves(&self, player: bool) -> (next: Vec<Self>)
        ensures
            next@ == self.successors(player),
    ;
}

} // verus!
