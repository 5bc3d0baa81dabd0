//! The interface of a game state that is driven by actions.

use vstd::prelude::*;

verus! {

/// The two players of a game. Alice (index 0) maximizes the value of a state and Bob (index 1) minimizes it.
#[allow(non_camel_case_types)]
#[derive(Debug, Clone, Copy, PartialEq, Eq, Structural)]
pub enum PlayerId {
    ALICE,
    BOB,
}

impl PlayerId {
    /// The numeric index of the player.
    pub open spec fn index(self) -> u8 {
        match self {
            PlayerId::ALICE => 0,
            PlayerId::BOB => 1,
        }
    }

    /// Returns the other player.
    pub fn other(self) -> (r: Self)
        ensures
            r != self,
            r.index() == 1 - self.index(),
    {
        match self {
            PlayerId::ALICE => PlayerId::BOB,
            PlayerId::BOB => PlayerId::ALICE,
        }
    }
}

/// A game state on which actions of type `A` can be applied.
pub trait State<A>: Sized {
    /// Returns the fingerprint of the state: the same position always gives the same fingerprint, and no state has
    /// `u64::MAX`.
    fn fingerprint(&self) -> u64;

    /// Returns the index of the player to move: 0 for Alice, 1 for Bob.
    fn whose_turn(&self) -> u8;

    /// Returns true when the game is over in this state.
    fn is_terminal(&self) -> bool;

    /// Returns the state that results from applying `action` to this state.
    fn apply(&self, action: &A) -> Self;
}

} // verus!
