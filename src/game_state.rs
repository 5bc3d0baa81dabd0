//! The interface a game-specific state offers to the search.

use vstd::prelude::*;

verus! {

/// The two players of a game. Alice (index 0) maximizes the value of a state and Bob (index 1) minimizes it.
#[allow(non_camel_case_types)]
#[derive(Debug, Clone, Copy, PartialEq, Eq, Structural)]
pub enum PlayerId {
    ALICE,
    BOB,
}

impl PlayerId {
    /// The index of the player as used by `GameState::whose_turn`.
    pub open spec fn index(self) -> u8 {
        match self {
            PlayerId::ALICE => 0,
            PlayerId::BOB => 1,
        }
    }

    /// Returns the other player.
    pub fn other(self) -> (r: Self)
        ensures
            r != self,
            r.index() == 1 - self.index(),
    {
        match self {
            PlayerId::ALICE => PlayerId::BOB,
            PlayerId::BOB => PlayerId::ALICE,
        }
    }
}

/// A game state as the search sees it.
pub trait GameState: Sized {
    /// The state's fingerprint, a function of the position alone.
    spec fn fingerprint_of(&self) -> u64;

    /// The index of the player to move: 0 for Alice, 1 for Bob.
    spec fn turn_of(&self) -> u8;

    /// Returns the fingerprint of the state. It depends only on the position, never on the moves that led to it,
    /// and is never `u64::MAX`, which marks an unused table slot.
    fn fingerprint(&self) -> (r: u64)
        ensures
            r == self.fingerprint_of(),
            r != u64::MAX,
    ;

    /// Returns the index of the player to move: 0 for Alice, 1 for Bob.
    fn whose_turn(&self) -> (r: u8)
        ensures
            r == self.turn_of(),
    ;
}

} // verus!
