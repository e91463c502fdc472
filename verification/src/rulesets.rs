//! The polymorphic ruleset capability: generating moves, applying a joint
//! move to a board, and classifying terminal states.

use vstd::prelude::*;
use crate::board::{Board, BoardModel, MoveModel, SnakeMove, board_ready, covers, moves_view};
use crate::board::four_moves;

verus! {

/// The outcome classification of a board.
#[derive(PartialEq, Eq, Structural, Debug, Clone, Copy)]
pub enum Terminal {
    /// Two or more agents are still alive.
    Ongoing,
    /// No agent is alive; nobody won.
    Draw,
    /// Exactly one agent is alive and has won; it carries that agent's id.
    Won(usize),
}

/// Model of a terminal classification.
pub ghost enum TerminalModel {
    Ongoing,
    Draw,
    Won(int),
}

impl View for Terminal {
    type V = TerminalModel;

    open spec fn view(&self) -> TerminalModel {
        match *self {
            Terminal::Ongoing => TerminalModel::Ongoing,
            Terminal::Draw => TerminalModel::Draw,
            Terminal::Won(id) => TerminalModel::Won(id as int),
        }
    }
}

/// The terminal classification of a board: zero living agents is a draw,
/// exactly one living agent has won, and two or more means the game goes on.
pub open spec fn terminal_of(b: BoardModel) -> TerminalModel {
    if b.snakes.len() == 0 {
        TerminalModel::Draw
    } else if b.snakes.len() == 1 {
        TerminalModel::Won(b.snakes[0].id)
    } else {
        TerminalModel::Ongoing
    }
}

/// A ruleset: a capability that generates an agent's candidate moves, applies
/// one joint move to a board, and classifies terminal states. Rulesets are
/// stateless capabilities: applying a move leaves the ruleset itself
/// unchanged, which lets the searches speak of one fixed transition relation.
pub trait Ruleset: Sized {
    /// What one joint move does to a board, as a function on models.
    spec fn apply_spec(&self, b: BoardModel, moves: Seq<MoveModel>) -> BoardModel;

    /// How this ruleset classifies a board.
    spec fn terminal_spec(&self, b: BoardModel) -> TerminalModel;

    /// All candidate moves for the living agent `id`: the four directions,
    /// unconditionally. Legality is deliberately not filtered here; moves
    /// that lead to immediate elimination are pruned by the elimination
    /// logic of the next application.
    fn gen_moves(&self, id: usize) -> (r: Vec<SnakeMove>)
        ensures
            moves_view(r@) == four_moves(id as int),
            r@.len() == 4,
    ;

    /// Apply a given joint move to the given board. The joint move must hold
    /// an entry for every living snake; the board must be one the engine
    /// could be handed (well-formed, heads in bounds, healths positive).
    fn make_move(&mut self, board: &mut Board, moves: &[SnakeMove])
        requires
            board_ready(old(board)@),
            covers(moves_view(moves@), old(board)@.snakes),
        ensures
            final(board)@ == old(self).apply_spec(old(board)@, moves_view(moves@)),
            board_ready(final(board)@),
            *final(self) == *old(self),
    ;

    /// Classify a board.
    fn game_over(&self, board: &Board) -> (r: Terminal)
        ensures
            r@ == self.terminal_spec(board@),
    ;
}

} // verus!
