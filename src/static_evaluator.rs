//! The static evaluation function: a value for a state without lookahead.

use vstd::prelude::*;

verus! {

/// Assigns a value to a game state from Alice's point of view, without looking ahead. Alice seeks the highest value and
/// Bob the lowest. Values should lie in `[bob_wins_value(), alice_wins_value()]`: a finished game that Alice has won has
/// `alice_wins_value()`, one that Bob has won has `bob_wins_value()`.
pub trait StaticEvaluator<G> {
    /// The value of `state` from Alice's point of view.
    spec fn value_of(&self, state: &G) -> i32;

    /// The value that means that Alice has won.
    spec fn alice_wins_of(&self) -> i32;

    /// The value that means that Bob has won.
    spec fn bob_wins_of(&self) -> i32;

    /// Returns the value of `state` from Alice's point of view.
    fn evaluate(&self, state: &G) -> (r: i32)
        ensures
            r == self.value_of(state),
    ;

    /// Returns the value that means that Alice has won.
    fn alice_wins_value(&self) -> (r: i32)
        ensures
            r == self.alice_wins_of(),
    ;

    /// Returns the value that means that Bob has won.
    fn bob_wins_value(&self) -> (r: i32)
        ensures
            r == self.bob_wins_of(),
    ;
}

} // verus!
