//! The standard ruleset: the canonical tick order and terminal
//! classification.

use vstd::prelude::*;
use crate::board::{
    Board, Direction, Snake, SnakeMove, SnakeModel, board_ready, covers, first_move_dir,
    four_moves, has_move_for, moves_view, snakes_view, apply_moves, movement_step, moved_snakes,
    lemma_take_step, lemma_moved_snakes, lemma_hazarded_snakes, lemma_fed_snakes,
    lemma_snake_fed_props, lemma_hazard_health_cap, lemma_kept_in_bounds_props,
    lemma_kept_healthy_props, lemma_apply_moves_ready, hazard_step, feeding_step, oob_step,
    starvation_step,
};
use crate::board::{BoardModel, MoveModel};
use crate::rulesets::{Ruleset, Terminal, TerminalModel, terminal_of};

verus! {

/// The standard rules.
pub struct Standard;

/// The direction of the first entry of `moves` for the agent `id`.
fn find_dir(moves: &[SnakeMove], id: usize) -> (r: Direction)
    requires
        has_move_for(moves_view(moves@), id as int),
    ensures
        r == first_move_dir(moves_view(moves@), id as int),
{
    let n = moves.len();
    let mut k: usize = 0;
    proof {
        assert(moves_view(moves@).skip(0) =~= moves_view(moves@));
    }
    while k < n
        invariant
            k <= n,
            n == moves@.len(),
            first_move_dir(moves_view(moves@), id as int) == first_move_dir(
                moves_view(moves@).skip(k as int),
                id as int,
            ),
            forall|j: int| 0 <= j < k ==> moves_view(moves@)[j].id != id as int,
        decreases n - k,
    {
        proof {
            assert(moves_view(moves@).skip(k as int)[0] == moves_view(moves@)[k as int]);
            assert(moves_view(moves@)[k as int] == moves@[k as int]@);
        }
        if moves[k].id == id {
            return moves[k].direction;
        }
        proof {
            assert(moves_view(moves@).skip(k as int).drop_first() =~= moves_view(moves@).skip(
                k as int + 1,
            ));
        }
        k += 1;
    }
    proof {
        let w = choose|j: int| 0 <= j < moves_view(moves@).len() && moves_view(moves@)[j].id
            == id as int;
        assert(false);
    }
    Direction::Up
}

impl Ruleset for Standard {
    open spec fn apply_spec(&self, b: BoardModel, moves: Seq<MoveModel>) -> BoardModel {
        apply_moves(b, moves)
    }

    open spec fn terminal_spec(&self, b: BoardModel) -> TerminalModel {
        terminal_of(b)
    }

    fn gen_moves(&self, id: usize) -> (r: Vec<SnakeMove>) {
        let r = vec![
            SnakeMove::new(Direction::Up, id),
            SnakeMove::new(Direction::Right, id),
            SnakeMove::new(Direction::Left, id),
            SnakeMove::new(Direction::Down, id),
        ];
        proof {
            assert(moves_view(r@) =~= four_moves(id as int));
        }
        r
    }

    fn make_move(&mut self, board: &mut Board, moves: &[SnakeMove]) {
        let ghost mv = moves_view(moves@);
        // Movement: every snake is advanced by its own joint-move entry.
        let mut new_snakes: Vec<Snake> = Vec::new();
        let n = board.snakes.len();
        let mut i: usize = 0;
        proof {
            assert(old(board)@.snakes.take(0) =~= Seq::<SnakeModel>::empty());
        }
        while i < n
            invariant
                i <= n,
                *board == *old(board),
                n == board.snakes@.len(),
                board_ready(old(board)@),
                covers(mv, old(board)@.snakes),
                mv == moves_view(moves@),
                snakes_view(new_snakes@) == moved_snakes(old(board)@.snakes.take(i as int), mv),
            decreases n - i,
        {
            proof {
                lemma_take_step(old(board)@.snakes, i as int);
                assert(old(board)@.snakes[i as int] == board.snakes@[i as int]@);
            }
            let d = find_dir(moves, board.snakes[i].id);
            let mut s = board.snakes[i].clone();
            proof {
                assert(s@ == old(board)@.snakes[i as int]);
                assert(s.body@.len() == s@.body.len());
                assert(s@.body[0] == s.body@[0]@);
            }
            s.apply_move(d);
            new_snakes.push(s);
            proof {
                assert(snakes_view(new_snakes@) =~= moved_snakes(
                    old(board)@.snakes.take(i as int + 1),
                    mv,
                ));
            }
            i += 1;
        }
        proof {
            assert(old(board)@.snakes.take(n as int) =~= old(board)@.snakes);
        }
        board.snakes = new_snakes;
        proof {
            assert(board@ =~= movement_step(old(board)@, mv));
        }
        let ghost b1 = movement_step(old(board)@, mv);

        // Hazard damage on the post-movement heads.
        proof {
            lemma_moved_snakes(old(board)@.snakes, mv);
            assert forall|j: int| 0 <= j < board@.snakes.len() implies (#[trigger] board@.snakes[j]).body.len()
                >= 1 && -0x8000_0000 <= board@.snakes[j].health <= 100 by {
                assert(board@.snakes[j] == b1.snakes[j]);
                assert(crate::board::snake_wf(old(board)@.snakes[j]));
                assert(old(board)@.snakes[j].health >= 1);
            }
        }
        board.apply_hazard_damage();
        let ghost b2 = hazard_step(b1);

        // Feeding.
        proof {
            lemma_hazarded_snakes(b1.snakes, b1.hazards, b1.hazard_damage);
            assert forall|j: int| 0 <= j < board@.snakes.len() implies (#[trigger] board@.snakes[j]).body.len()
                >= 1 by {
                assert(board@.snakes[j] == b2.snakes[j]);
                assert(b1.snakes[j].body.len() >= 1);
            }
        }
        board.maybe_feed();
        let ghost b3 = feeding_step(b2);

        // Out-of-bounds eliminations.
        proof {
            lemma_fed_snakes(b2.snakes, b2.food);
            assert forall|j: int| 0 <= j < board@.snakes.len() implies (#[trigger] board@.snakes[j]).body.len()
                >= 1 by {
                assert(board@.snakes[j] == b3.snakes[j]);
                lemma_snake_fed_props(b2.snakes[j], b2.food);
            }
        }
        board.out_of_bounds_elims();
        let ghost b4 = oob_step(b3);

        // Out-of-health eliminations.
        board.out_of_health_elims();
        let ghost b5 = starvation_step(b4);

        // Collision eliminations, against the post-movement snapshot.
        proof {
            lemma_kept_in_bounds_props(b3.snakes, b3.width, b3.height);
            lemma_kept_healthy_props(b4.snakes);
            assert forall|j: int| 0 <= j < board@.snakes.len() implies (#[trigger] board@.snakes[j]).body.len()
                >= 1 by {
                assert(board@.snakes[j] == b5.snakes[j]);
                let i4 = choose|i4: int| 0 <= i4 < b4.snakes.len() && b5.snakes[j] == b4.snakes[i4];
                let i3 = choose|i3: int| 0 <= i3 < b3.snakes.len() && b4.snakes[i4] == b3.snakes[i3];
                lemma_snake_fed_props(b2.snakes[i3], b2.food);
            }
        }
        board.apply_collision_eliminations();
        proof {
            assert(board@ == apply_moves(old(board)@, mv));
            lemma_apply_moves_ready(old(board)@, mv);
        }
    }

    fn game_over(&self, board: &Board) -> (r: Terminal) {
        if board.snakes.len() == 0 {
            Terminal::Draw
        } else if board.snakes.len() == 1 {
            proof {
                assert(board@.snakes[0] == board.snakes@[0]@);
            }
            Terminal::Won(board.snakes[0].id)
        } else {
            Terminal::Ongoing
        }
    }
}

} // verus!
