//! The two players.

use vstd::prelude::*;

verus! {

/// One of the two players. `Cross` moves first.
#[derive(Debug, Clone, Copy, PartialEq, Eq, Structural)]
pub enum Player {
    Cross,
    Circle,
}

impl Player {
    /// The opponent of `self`.
    pub open spec fn other_spec(self) -> Player {
        match self {
            Player::Cross => Player::Circle,
            Player::Circle => Player::Cross,
        }
    }

    /// The opponent of `self`.
    #[verifier::when_used_as_spec(other_spec)]
    pub fn other(self) -> (p: Player)
        ensures
            p == self.other_spec(),
    {
        match self {
            Player::Cross => Player::Circle,
            Player::Circle => Player::Cross,
        }
    }
}

impl Default for Player {
    /// The player who opens the game.
    fn default() -> (p: Player)
        ensures
            p == Player::Cross,
    {
        Player::Cross
    }
}

} // verus!
