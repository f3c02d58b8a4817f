//! A game in progress: a board together with its two players.

use vstd::prelude::*;
use crate::mark::Mark;
use crate::board::Board;
use crate::player::Player;

verus! {

/// A board paired with the two participants.
pub struct Game {
    pub board: Board,
    pub players: (Player, Player),
}

impl Game {
    /// A fresh game on an empty board whose first mover is `start`.
    pub fn create(start: Mark, player1: Player, player2: Player) -> (r: Game)
        ensures
            r.board.wf(),
            forall|k: int| 0 <= k < 9 ==> r.board.tiles@[k] is None,
            r.board.outcome is None,
            r.board.turn == start,
            r.players.0 == player1,
            r.players.1 == player2,
    {
        Game { board: Board::empty(start), players: (player1, player2) }
    }

    /// The player that places `mark`; the first player if both do.
    pub fn get_player_by_mark(&self, mark: &Mark) -> (r: &Player)
        ensures
            *r == if self.players.0.mark == mark { self.players.0 } else { self.players.1 },
    {
        if mark == self.players.0.get_mark() {
            &self.players.0
        } else {
            &self.players.1
        }
    }
}

} // verus!
