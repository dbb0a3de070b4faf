//! The two sides of a game.

use vstd::prelude::*;

verus! {

/// One of the two sides.
#[derive(Clone, Copy, Debug, PartialEq, Eq, Structural)]
pub enum Player {
    Black,
    White,
}

impl Player {
    /// The other side, as a specification.
    pub open spec fn opponent(&self) -> Player {
        match *self {
            Player::White => Player::Black,
            Player::Black => Player::White,
        }
    }

    /// Returns the other side.
    #[verifier::when_used_as_spec(opponent)]
    pub fn switch(&self) -> (other: Player)
        ensures
            other == self.opponent(),
    {
        match self {
            Player::White => Player::Black,
            Player::Black => Player::White,
        }
    }
}

/// Switching sides twice gives back the side one started from.
pub proof fn lemma_switch_involution(p: Player)
    ensures
        p.switch().switch() == p,
{
}

} // verus!
