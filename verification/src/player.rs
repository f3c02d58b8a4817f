//! Participants of a game: a mark paired with who controls it.

use vstd::prelude::*;
use crate::mark::Mark;

verus! {

/// Who decides a player's moves.
#[derive(Clone, Copy, Debug, PartialEq, Eq, Structural)]
pub enum PlayerType {
    User,
    Machine,
}

/// A participant: the mark it plays and who controls it.
pub struct Player {
    pub mark: Mark,
    pub player_type: PlayerType,
}

impl Player {
    /// A player of the given mark and controller.
    pub fn create(mark: Mark, player_type: PlayerType) -> (r: Player)
        ensures
            r.mark == mark,
            r.player_type == player_type,
    {
        Player { mark, player_type }
    }

    /// The mark this player places.
    pub fn get_mark(&self) -> (r: &Mark)
        ensures
            *r == self.mark,
    {
        &self.mark
    }

    /// Who controls this player.
    pub fn get_player_type(&self) -> (r: &PlayerType)
        ensures
            *r == self.player_type,
    {
        &self.player_type
    }
}

} // verus!
