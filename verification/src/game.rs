//! A game: a board plus the identifier of the controlled agent.

use vstd::prelude::*;
use crate::board::{Board, BoardModel};

verus! {

/// The unit of state the searches advance: a board together with the id of
/// the controlled agent ("you"). The id stays stable as other agents are
/// eliminated and is always looked up, never treated as an index.
#[derive(Debug)]
pub struct Game {
    pub board: Board,
    pub you_id: usize,
}

impl Clone for Game {
    /// A clone carries the same model.
    fn clone(&self) -> (r: Self)
        ensures
            r@ == self@,
    {
        Game { board: self.board.clone(), you_id: self.you_id }
    }
}

/// Model of a game.
pub ghost struct GameModel {
    pub board: BoardModel,
    pub you_id: int,
}

impl View for Game {
    type V = GameModel;

    open spec fn view(&self) -> GameModel {
        GameModel { board: self.board@, you_id: self.you_id as int }
    }
}

} // verus!
