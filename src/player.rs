use vstd::prelude::*;

verus! {

/// One of the two sides of a two-player game.
#[derive(Debug, Clone, Copy, PartialEq, Eq, Structural)]
pub enum Player {
    White,
    Black,
}

/// The other side.
pub open spec fn opponent_of(p: Player) -> Player {
    match p {
        Player::White => Player::Black,
        Player::Black => Player::White,
    }
}

impl Player {
    /// Returns the opponent player.
    pub fn opponent(&self) -> (r: Player)
        ensures
            r == opponent_of(*self),
            r != *self,
    {
        match *self {
            Player::White => Player::Black,
            Player::Black => Player::White,
        }
    }
}

/// Taking the opponent twice gives back the same player.
pub proof fn lemma_opponent_involutive(p: Player)
    ensures
        opponent_of(opponent_of(p)) == p,
{
}

} // verus!
