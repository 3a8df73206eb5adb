//! What the search needs from a game: the capability contract that a game
//! state type provides to the engine.

use vstd::prelude::*;

verus! {

/// A move: origin square and target square.
pub type Action = (u32, u32);

/// Identity of the first player to move.
pub const WHITE: usize = 0;

/// Identity of the second player to move.
pub const BLACK: usize = 1;

/// Rewards and evaluations lie in `[-MAX_VALUE, MAX_VALUE]`: `MAX_VALUE` is a
/// win, `-MAX_VALUE` a loss and 0 a draw, from the side named.
pub const MAX_VALUE: i64 = 1000;

/// A game state of a two-player game in which the players alternate.
///
/// The spec functions describe the state; each method is tied to them. Their
/// default bodies leave the description unknown, so that a state type written
/// outside Verus can implement the trait; one written in Verus overrides them.
/// `step` must only be given an action from `legal_actions` of the same
/// state; `legal_actions` is empty exactly when the game is over.
pub trait Env: Sized {
    /// Whether the game has ended in this state.
    closed spec fn over_spec(&self) -> bool {
        arbitrary()
    }

    /// The outcome for `player` in this state.
    closed spec fn reward_spec(&self, player: usize) -> i64 {
        arbitrary()
    }

    /// The side to move in this state.
    closed spec fn turn_spec(&self) -> usize {
        arbitrary()
    }

    /// The legal moves in this state, in the order `legal_actions` gives them.
    closed spec fn legal_spec(&self) -> Seq<Action> {
        arbitrary()
    }

    /// The state after `action` is played.
    closed spec fn after_spec(&self, action: Action) -> Self {
        arbitrary()
    }

    /// The initial state.
    fn new() -> Self;

    /// An independent copy of this state.
    fn duplicate(&self) -> (r: Self)
        ensures
            r == *self,
    ;

    /// The moves available to the side to move, each once.
    fn legal_actions(&self) -> (r: Vec<Action>)
        ensures
            r@ == self.legal_spec(),
            r@.no_duplicates(),
    ;

    /// Plays `action` in place.
    fn step(&mut self, action: &Action)
        ensures
            *final(self) == old(self).after_spec(*action),
    ;

    /// Whether the game has ended.
    fn is_over(&self) -> (r: bool)
        ensures
            r == self.over_spec(),
    ;

    /// The outcome for `player`, once the game is over.
    fn reward(&self, player: usize) -> (r: i64)
        ensures
            r == self.reward_spec(player),
            -MAX_VALUE <= r <= MAX_VALUE,
    ;

    /// The side to move.
    fn turn(&self) -> (r: usize)
        ensures
            r == self.turn_spec(),
    ;
}

} // verus!
