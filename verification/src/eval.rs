//! The pluggable heuristic-scoring capability.
//!
//! Scores are fixed-point integers: the unit interval is scaled to
//! `0 ..= MAX_SCORE`, so `MIN_SCORE` is the worst outcome, `MAX_SCORE` the
//! best, and `DRAW_SCORE` a draw.

use vstd::prelude::*;
use crate::board::SnakeModel;
use crate::game::{Game, GameModel};

verus! {

/// The worst possible score (a certain loss).
pub const MIN_SCORE: u64 = 0;

/// The best possible score (a certain win). Scores are thousandths of the
/// unit interval.
pub const MAX_SCORE: u64 = 1000;

/// The score of a draw: the midpoint of the scale.
pub const DRAW_SCORE: u64 = 500;

/// An evaluation: a capability producing a desirability estimate of a game
/// state from the controlled agent's perspective, on the `0 ..= MAX_SCORE`
/// scale. The heuristic itself is pluggable; the searches rely only on the
/// returned value being the one `score_spec` names and being in range.
pub trait Evaluation {
    /// The score this evaluation assigns to a game state.
    spec fn score_spec(&self, g: GameModel) -> int;

    /// Compute the heuristic score of a game state.
    fn calculate(&self, game: &Game) -> (r: u64)
        ensures
            r as int == self.score_spec(game@),
            MIN_SCORE <= r <= MAX_SCORE,
    ;
}

/// The health of the first snake of `snakes` with the id `id`, or 0 when
/// there is none.
pub open spec fn health_of(snakes: Seq<SnakeModel>, id: int) -> int
    decreases snakes.len(),
{
    if snakes.len() == 0 {
        0
    } else if snakes[0].id == id {
        snakes[0].health
    } else {
        health_of(snakes.drop_first(), id)
    }
}

/// A health value clamped into `0 ..= 100`.
pub open spec fn clamp_health(h: int) -> int {
    if h < 0 {
        0
    } else if h > 100 {
        100
    } else {
        h
    }
}

/// A simple concrete evaluation: the controlled agent's current health,
/// clamped to `0 ..= 100` and scaled by 10 onto the score scale. A dead
/// controlled agent scores `MIN_SCORE`.
pub struct HealthEvaluation;

impl Evaluation for HealthEvaluation {
    open spec fn score_spec(&self, g: GameModel) -> int {
        clamp_health(health_of(g.board.snakes, g.you_id)) * 10
    }

    fn calculate(&self, game: &Game) -> (r: u64) {
        let n = game.board.snakes.len();
        let mut i: usize = 0;
        proof {
            assert(game@.board.snakes.skip(0) =~= game@.board.snakes);
        }
        while i < n
            invariant
                0 <= i <= n,
                n == game.board.snakes@.len(),
                health_of(game@.board.snakes, game@.you_id) == health_of(
                    game@.board.snakes.skip(i as int),
                    game@.you_id,
                ),
            decreases n - i,
        {
            if game.board.snakes[i].id == game.you_id {
                let h = game.board.snakes[i].health;
                proof {
                    assert(game@.board.snakes.skip(i as int)[0] == game@.board.snakes[i as int]);
                }
                let clamped: u64 = if h < 0 {
                    0
                } else if h > 100 {
                    100
                } else {
                    h as u64
                };
                return clamped * 10;
            }
            proof {
                assert(game@.board.snakes.skip(i as int).drop_first() =~= game@.board.snakes.skip(
                    i as int + 1,
                ));
                assert(game@.board.snakes.skip(i as int)[0] == game@.board.snakes[i as int]);
            }
            i += 1;
        }
        proof {
            assert(game@.board.snakes.skip(n as int).len() == 0);
        }
        0
    }
}

} // verus!
