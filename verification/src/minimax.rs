//! Adversarial fixed-depth search with alpha-beta pruning.
//!
//! All agents move simultaneously each real game tick, but minimax requires
//! strictly alternating decision points. One full ply is therefore the
//! controlled agent's direction choice (the maximizing phase) paired with the
//! cartesian product of every other living agent's four-direction choice,
//! collapsed into one minimizing ply and applied as a joint move.
//!
//! The mathematical value of a position is [`mm_max`], a full minimax with no
//! pruning. The executable search prunes with an alpha-beta window, and its
//! contract proves that pruning never changes the returned score, only the
//! work done: [`MinimaxTreeSearch::get_best`] returns exactly the unpruned
//! value [`mm_max`] of the root.

use vstd::prelude::*;
use crate::board::{
    Board, BoardModel, Direction, MoveModel, Snake, SnakeModel, SnakeMove, board_ready, covers,
    four_moves, moves_view, snakes_view, lemma_take_step,
};
use crate::eval::{Evaluation, DRAW_SCORE, MAX_SCORE, MIN_SCORE};
use crate::game::{Game, GameModel};
use crate::rulesets::{Ruleset, Terminal, TerminalModel};

verus! {

/// The fixed search depth, in full plies.
pub const SEARCH_DEPTH: u8 = 3;

/// The smaller of two integers.
pub open spec fn min2(a: int, b: int) -> int {
    if a <= b {
        a
    } else {
        b
    }
}

/// The larger of two integers.
pub open spec fn max2(a: int, b: int) -> int {
    if a >= b {
        a
    } else {
        b
    }
}

/// A score clamped into the `MIN_SCORE ..= MAX_SCORE` scale.
pub open spec fn clamped(s: int) -> int {
    if s < MIN_SCORE as int {
        MIN_SCORE as int
    } else if s > MAX_SCORE as int {
        MAX_SCORE as int
    } else {
        s
    }
}

/// Each combination of `combos` with the entry `m` prepended.
pub open spec fn prepended(combos: Seq<Seq<MoveModel>>, m: MoveModel) -> Seq<Seq<MoveModel>> {
    combos.map_values(|c: Seq<MoveModel>| seq![m] + c)
}

/// All joint moves over the snakes from index `i` on, where the snake with
/// the id `you` plays `yd` and every other snake plays any of its four
/// directions: the cartesian product of the opponents' choices.
pub open spec fn opp_combos_from(
    snakes: Seq<SnakeModel>,
    i: int,
    you: int,
    yd: Direction,
) -> Seq<Seq<MoveModel>>
    decreases snakes.len() - i,
{
    if i < 0 || i >= snakes.len() {
        seq![Seq::empty()]
    } else {
        let rest = opp_combos_from(snakes, i + 1, you, yd);
        let id = snakes[i].id;
        if id == you {
            prepended(rest, MoveModel { id: id, direction: yd })
        } else {
            prepended(rest, MoveModel { id: id, direction: Direction::Up }) + prepended(
                rest,
                MoveModel { id: id, direction: Direction::Right },
            ) + prepended(rest, MoveModel { id: id, direction: Direction::Left }) + prepended(
                rest,
                MoveModel { id: id, direction: Direction::Down },
            )
        }
    }
}

/// The unpruned minimax value of a game state with `depth` full plies left:
/// a terminal state scores by who won, a depth-zero state scores by the
/// evaluation (clamped onto the score scale), and otherwise the controlled
/// agent picks the direction maximizing the minimizing ply's value.
pub open spec fn mm_max<R: Ruleset, E: Evaluation>(rs: R, ev: E, g: GameModel, depth: nat) -> int
    decreases depth, 2nat, 0nat,
{
    match rs.terminal_spec(g.board) {
        TerminalModel::Won(id) => if id == g.you_id {
            MAX_SCORE as int
        } else {
            MIN_SCORE as int
        },
        TerminalModel::Draw => DRAW_SCORE as int,
        TerminalModel::Ongoing => {
            if depth == 0 {
                clamped(ev.score_spec(g))
            } else {
                let vu = mm_min_dir(rs, ev, g, depth, Direction::Up);
                let vr = mm_min_dir(rs, ev, g, depth, Direction::Right);
                let vl = mm_min_dir(rs, ev, g, depth, Direction::Left);
                let vd = mm_min_dir(rs, ev, g, depth, Direction::Down);
                max2(max2(vu, vr), max2(vl, vd))
            }
        },
    }
}

/// The minimizing ply's value when the controlled agent has committed to
/// `yd`: the minimum over every joint move completing it.
pub open spec fn mm_min_dir<R: Ruleset, E: Evaluation>(
    rs: R,
    ev: E,
    g: GameModel,
    depth: nat,
    yd: Direction,
) -> int
    decreases depth, 1nat, 0nat,
{
    mm_min_combos(rs, ev, g, depth, opp_combos_from(g.board.snakes, 0, g.you_id, yd))
}

/// The minimum of the values of the positions reached by each joint move of
/// `combos` (the empty minimum is `MAX_SCORE`, but the combination sequence
/// is never empty).
pub open spec fn mm_min_combos<R: Ruleset, E: Evaluation>(
    rs: R,
    ev: E,
    g: GameModel,
    depth: nat,
    combos: Seq<Seq<MoveModel>>,
) -> int
    decreases depth, 0nat, combos.len(),
{
    if combos.len() == 0 {
        MAX_SCORE as int
    } else {
        let prev = mm_min_combos(rs, ev, g, depth, combos.drop_last());
        let child = GameModel { board: rs.apply_spec(g.board, combos.last()), you_id: g.you_id };
        let cv = if depth == 0 {
            MIN_SCORE as int
        } else {
            mm_max(rs, ev, child, (depth - 1) as nat)
        };
        min2(prev, cv)
    }
}

/// Minimax values stay on the score scale.
pub proof fn lemma_mm_max_bounds<R: Ruleset, E: Evaluation>(rs: R, ev: E, g: GameModel, depth: nat)
    ensures
        MIN_SCORE as int <= mm_max(rs, ev, g, depth) <= MAX_SCORE as int,
    decreases depth, 2nat, 0nat,
{
    if rs.terminal_spec(g.board) is Ongoing && depth > 0 {
        lemma_mm_min_dir_bounds(rs, ev, g, depth, Direction::Up);
        lemma_mm_min_dir_bounds(rs, ev, g, depth, Direction::Right);
        lemma_mm_min_dir_bounds(rs, ev, g, depth, Direction::Left);
        lemma_mm_min_dir_bounds(rs, ev, g, depth, Direction::Down);
    }
}

/// Minimizing-ply values stay on the score scale.
pub proof fn lemma_mm_min_dir_bounds<R: Ruleset, E: Evaluation>(
    rs: R,
    ev: E,
    g: GameModel,
    depth: nat,
    yd: Direction,
)
    ensures
        MIN_SCORE as int <= mm_min_dir(rs, ev, g, depth, yd) <= MAX_SCORE as int,
    decreases depth, 1nat, 0nat,
{
    lemma_mm_min_combos_bounds(rs, ev, g, depth, opp_combos_from(g.board.snakes, 0, g.you_id, yd));
}

/// Minimum-over-combinations values stay on the score scale.
pub proof fn lemma_mm_min_combos_bounds<R: Ruleset, E: Evaluation>(
    rs: R,
    ev: E,
    g: GameModel,
    depth: nat,
    combos: Seq<Seq<MoveModel>>,
)
    ensures
        MIN_SCORE as int <= mm_min_combos(rs, ev, g, depth, combos) <= MAX_SCORE as int,
    decreases depth, 0nat, combos.len(),
{
    if combos.len() > 0 {
        lemma_mm_min_combos_bounds(rs, ev, g, depth, combos.drop_last());
        if depth > 0 {
            let child = GameModel {
                board: rs.apply_spec(g.board, combos.last()),
                you_id: g.you_id,
            };
            lemma_mm_max_bounds(rs, ev, child, (depth - 1) as nat);
        }
    }
}

/// The minimum over a prefix of the combinations is no smaller than the
/// minimum over all of them.
pub proof fn lemma_mm_min_prefix<R: Ruleset, E: Evaluation>(
    rs: R,
    ev: E,
    g: GameModel,
    depth: nat,
    combos: Seq<Seq<MoveModel>>,
    i: int,
)
    requires
        0 <= i <= combos.len(),
    ensures
        mm_min_combos(rs, ev, g, depth, combos) <= mm_min_combos(rs, ev, g, depth, combos.take(i)),
    decreases combos.len(),
{
    if i == combos.len() {
        assert(combos.take(i) =~= combos);
    } else {
        assert(combos.drop_last().take(i) =~= combos.take(i));
        lemma_mm_min_prefix(rs, ev, g, depth, combos.drop_last(), i);
    }
}

/// The sequence of joint-move models carried by a sequence of concrete
/// joint moves.
pub open spec fn combos_view(vs: Seq<Vec<SnakeMove>>) -> Seq<Seq<MoveModel>> {
    vs.map_values(|v: Vec<SnakeMove>| moves_view(v@))
}

/// Every joint move of [`opp_combos_from`] holds, in order, exactly one
/// entry per snake from index `i` on, under that snake's id.
pub proof fn lemma_combos_aligned(snakes: Seq<SnakeModel>, i: int, you: int, yd: Direction)
    requires
        0 <= i <= snakes.len(),
    ensures
        forall|c: int|
            0 <= c < opp_combos_from(snakes, i, you, yd).len() ==> {
                let combo = #[trigger] opp_combos_from(snakes, i, you, yd)[c];
                combo.len() == snakes.len() - i && forall|j: int|
                    i <= j < snakes.len() ==> (#[trigger] combo[j - i]).id == snakes[j].id
            },
    decreases snakes.len() - i,
{
    if i < snakes.len() {
        lemma_combos_aligned(snakes, i + 1, you, yd);
        let rest = opp_combos_from(snakes, i + 1, you, yd);
        let cur = opp_combos_from(snakes, i, you, yd);
        let id = snakes[i].id;
        assert forall|c: int| 0 <= c < cur.len() implies {
            let combo = #[trigger] cur[c];
            combo.len() == snakes.len() - i && forall|j: int|
                i <= j < snakes.len() ==> (#[trigger] combo[j - i]).id == snakes[j].id
        } by {
            let combo = cur[c];
            let rl = rest.len() as int;
            let k: int = if id == you {
                c
            } else if c < rl {
                c
            } else if c < 2 * rl {
                c - rl
            } else if c < 3 * rl {
                c - 2 * rl
            } else {
                c - 3 * rl
            };
            if id == you {
                assert(combo == seq![MoveModel { id: id, direction: yd }] + rest[k]);
            } else {
                let pu = prepended(rest, MoveModel { id: id, direction: Direction::Up });
                let pr = prepended(rest, MoveModel { id: id, direction: Direction::Right });
                let pl = prepended(rest, MoveModel { id: id, direction: Direction::Left });
                let pd = prepended(rest, MoveModel { id: id, direction: Direction::Down });
                assert(cur == pu + pr + pl + pd);
                if c < rl {
                    assert(combo == pu[k]);
                    assert(combo == seq![MoveModel { id: id, direction: Direction::Up }] + rest[k]);
                } else if c < 2 * rl {
                    assert(combo == pr[k]);
                    assert(combo == seq![MoveModel { id: id, direction: Direction::Right }]
                        + rest[k]);
                } else if c < 3 * rl {
                    assert(combo == pl[k]);
                    assert(combo == seq![MoveModel { id: id, direction: Direction::Left }]
                        + rest[k]);
                } else {
                    assert(combo == pd[k]);
                    assert(combo == seq![MoveModel { id: id, direction: Direction::Down }]
                        + rest[k]);
                }
            }
            assert(combo.len() == 1 + rest[k].len());
            assert forall|j: int| i <= j < snakes.len() implies (#[trigger] combo[j - i]).id
                == snakes[j].id by {
                if j > i {
                    assert(combo[j - i] == rest[k][j - i - 1]);
                    assert(rest[k][j - (i + 1)].id == snakes[j].id);
                }
            }
        }
    }
}

/// Every joint move of [`opp_combos_from`] starting at index 0 covers every
/// snake of the board.
pub proof fn lemma_combos_cover(snakes: Seq<SnakeModel>, you: int, yd: Direction)
    ensures
        forall|c: int|
            0 <= c < opp_combos_from(snakes, 0, you, yd).len() ==> covers(
                #[trigger] opp_combos_from(snakes, 0, you, yd)[c],
                snakes,
            ),
{
    lemma_combos_aligned(snakes, 0, you, yd);
    assert forall|c: int| 0 <= c < opp_combos_from(snakes, 0, you, yd).len() implies covers(
        #[trigger] opp_combos_from(snakes, 0, you, yd)[c],
        snakes,
    ) by {
        let combo = opp_combos_from(snakes, 0, you, yd)[c];
        assert forall|j: int| 0 <= j < snakes.len() implies crate::board::has_move_for(
            combo,
            (#[trigger] snakes[j]).id,
        ) by {
            assert(combo[j - 0].id == snakes[j].id);
        }
    }
}

/// Each combination of `combos`, with the entry `m` prepended.
pub(crate) fn prepend_all(combos: &Vec<Vec<SnakeMove>>, m: SnakeMove) -> (r: Vec<Vec<SnakeMove>>)
    ensures
        combos_view(r@) == prepended(combos_view(combos@), m@),
{
    let mut r: Vec<Vec<SnakeMove>> = Vec::new();
    let n = combos.len();
    let mut i: usize = 0;
    while i < n
        invariant
            i <= n,
            n == combos@.len(),
            r@.len() == i,
            forall|j: int| 0 <= j < i ==> combos_view(r@)[j] == seq![m@] + combos_view(combos@)[j],
        decreases n - i,
    {
        let mut c = combos[i].clone();
        proof {
            assert(c@ =~= combos@[i as int]@);
        }
        c.insert(0, m);
        proof {
            assert(moves_view(c@) =~= seq![m@] + combos_view(combos@)[i as int]);
        }
        let ghost prev_r = r@;
        let ghost cs = c@;
        r.push(c);
        proof {
            assert forall|j: int| 0 <= j < i + 1 implies combos_view(r@)[j] == seq![m@]
                + combos_view(combos@)[j] by {
                assert(combos_view(r@)[j] == moves_view(r@[j]@));
                if j < i {
                    assert(r@[j] == prev_r[j]);
                    assert(combos_view(prev_r)[j] == moves_view(prev_r[j]@));
                } else {
                    assert(r@[j]@ == cs);
                }
            }
        }
        i += 1;
    }
    proof {
        assert(combos_view(r@) =~= prepended(combos_view(combos@), m@));
    }
    r
}

/// All joint moves over the snakes from index `i` on, with the controlled
/// agent committed to its entry `you_move`.
pub(crate) fn combos_rec(snakes: &Vec<Snake>, i: usize, you_move: SnakeMove) -> (r: Vec<Vec<SnakeMove>>)
    requires
        i <= snakes@.len(),
    ensures
        combos_view(r@) == opp_combos_from(
            snakes_view(snakes@),
            i as int,
            you_move@.id,
            you_move@.direction,
        ),
    decreases snakes@.len() - i,
{
    let n = snakes.len();
    if i == n {
        let mut r: Vec<Vec<SnakeMove>> = Vec::new();
        r.push(Vec::new());
        proof {
            assert(moves_view(r@[0]@) =~= Seq::<MoveModel>::empty());
            assert(combos_view(r@) =~= seq![Seq::<MoveModel>::empty()]);
        }
        r
    } else {
        let rest = combos_rec(snakes, i + 1, you_move);
        let id = snakes[i].id;
        proof {
            assert(snakes_view(snakes@)[i as int] == snakes@[i as int]@);
        }
        if id == you_move.id {
            let r = prepend_all(&rest, SnakeMove::new(you_move.direction, id));
            proof {
                assert(combos_view(r@) == opp_combos_from(
                    snakes_view(snakes@),
                    i as int,
                    you_move@.id,
                    you_move@.direction,
                ));
            }
            r
        } else {
            let mut r = prepend_all(&rest, SnakeMove::new(Direction::Up, id));
            let mut r2 = prepend_all(&rest, SnakeMove::new(Direction::Right, id));
            let mut r3 = prepend_all(&rest, SnakeMove::new(Direction::Left, id));
            let mut r4 = prepend_all(&rest, SnakeMove::new(Direction::Down, id));
            r.append(&mut r2);
            r.append(&mut r3);
            r.append(&mut r4);
            proof {
                assert(combos_view(r@) =~= opp_combos_from(
                    snakes_view(snakes@),
                    i as int,
                    you_move@.id,
                    you_move@.direction,
                ));
            }
            r
        }
    }
}

/// In an ongoing position with plies left, no single committed direction is
/// worth more than the maximizing phase's value.
pub proof fn lemma_mm_min_le_max<R: Ruleset, E: Evaluation>(
    rs: R,
    ev: E,
    g: GameModel,
    depth: nat,
    d: Direction,
)
    requires
        rs.terminal_spec(g.board) is Ongoing,
        depth >= 1,
    ensures
        mm_min_dir(rs, ev, g, depth, d) <= mm_max(rs, ev, g, depth),
{
    match d {
        Direction::Up => {},
        Direction::Down => {},
        Direction::Left => {},
        Direction::Right => {},
    }
}

/// A direction decision together with the score the search proved for it.
pub struct Decision {
    pub direction: Direction,
    pub score: u64,
}

/// The adversarial fixed-depth searcher: a ruleset, an evaluation, and the
/// root game state the search starts from.
pub struct MinimaxTreeSearch<R: Ruleset, E: Evaluation> {
    pub ruleset: R,
    pub evaluation: E,
    pub root: Game,
}

impl<R: Ruleset, E: Evaluation> MinimaxTreeSearch<R, E> {
    /// Make a searcher over the given capabilities, rooted at `origin`.
    pub fn new(ruleset: R, eval: E, origin: Game) -> (r: MinimaxTreeSearch<R, E>)
        ensures
            r.ruleset == ruleset,
            r.evaluation == eval,
            r.root == origin,
    {
        MinimaxTreeSearch { ruleset, evaluation: eval, root: origin }
    }

    /// The best decision for the controlled agent at the root, searched to
    /// the fixed depth. Pruning never changes the answer: the returned score
    /// is exactly the unpruned minimax value [`mm_max`] of the root, and the
    /// returned direction is one achieving it.
    pub fn get_best(&mut self) -> (d: Decision)
        requires
            board_ready(old(self).root@.board),
            old(self).ruleset.terminal_spec(old(self).root@.board) is Ongoing,
        ensures
            *final(self) == *old(self),
            MIN_SCORE <= d.score <= MAX_SCORE,
            d.score as int == mm_max(
                old(self).ruleset,
                old(self).evaluation,
                old(self).root@,
                SEARCH_DEPTH as nat,
            ),
            mm_min_dir(
                old(self).ruleset,
                old(self).evaluation,
                old(self).root@,
                SEARCH_DEPTH as nat,
                d.direction,
            ) == d.score as int,
    {
        let ghost rs = self.ruleset;
        let ghost ev = self.evaluation;
        let g = self.root.clone();
        let x = self.minimax_max(&g, SEARCH_DEPTH, MIN_SCORE, MAX_SCORE);
        proof {
            let v = mm_max(rs, ev, g@, SEARCH_DEPTH as nat);
            lemma_mm_max_bounds(rs, ev, g@, SEARCH_DEPTH as nat);
            lemma_mm_min_dir_bounds(rs, ev, g@, SEARCH_DEPTH as nat, x.1);
            lemma_mm_min_le_max(rs, ev, g@, SEARCH_DEPTH as nat, x.1);
            if x.0 <= MIN_SCORE {
                assert(v == MIN_SCORE as int);
                assert(mm_min_dir(rs, ev, g@, SEARCH_DEPTH as nat, x.1) == MIN_SCORE as int);
            } else if x.0 >= MAX_SCORE {
                assert(v == MAX_SCORE as int);
            }
        }
        Decision { direction: x.1, score: x.0 }
    }

    /// The maximizing phase: the controlled agent picks among its four
    /// candidate directions, pruned by the `(alpha, beta)` window. The result
    /// is fail-soft sound: a score inside the window is exactly the unpruned
    /// value, and a score at or beyond a bound is on the same side of that
    /// bound as the unpruned value.
    fn minimax_max(&mut self, g: &Game, depth: u8, alpha: u64, beta: u64) -> (r: (u64, Direction))
        requires
            board_ready(g@.board),
            MIN_SCORE <= alpha,
            alpha < beta,
            beta <= MAX_SCORE,
        ensures
            *final(self) == *old(self),
            MIN_SCORE <= r.0 <= MAX_SCORE,
            r.0 <= alpha ==> mm_max(old(self).ruleset, old(self).evaluation, g@, depth as nat)
                <= alpha as int,
            r.0 >= beta ==> mm_max(old(self).ruleset, old(self).evaluation, g@, depth as nat)
                >= beta as int,
            alpha < r.0 < beta ==> r.0 as int == mm_max(
                old(self).ruleset,
                old(self).evaluation,
                g@,
                depth as nat,
            ),
            (old(self).ruleset.terminal_spec(g@.board) is Ongoing && depth > 0 && alpha < r.0
                < beta) ==> mm_min_dir(
                old(self).ruleset,
                old(self).evaluation,
                g@,
                depth as nat,
                r.1,
            ) == r.0 as int,
            (old(self).ruleset.terminal_spec(g@.board) is Ongoing && depth > 0 && r.0 >= beta)
                ==> mm_min_dir(old(self).ruleset, old(self).evaluation, g@, depth as nat, r.1)
                >= beta as int,
        decreases depth as int, 1int,
    {
        let ghost rs = self.ruleset;
        let ghost ev = self.evaluation;
        let over = self.ruleset.game_over(&g.board);
        match over {
            Terminal::Draw => {
                return (DRAW_SCORE, Direction::Up);
            },
            Terminal::Won(id) => {
                if id == g.you_id {
                    return (MAX_SCORE, Direction::Up);
                }
                return (MIN_SCORE, Direction::Up);
            },
            Terminal::Ongoing => {},
        }
        if depth == 0 {
            let s = self.evaluation.calculate(g);
            return (s, Direction::Up);
        }
        let moves = self.ruleset.gen_moves(g.you_id);
        if moves.len() == 0 {
            // No candidate moves at all: a terminal-like short circuit,
            // treated as an immediate loss for the controlled agent. This is
            // distinct from moves that merely lead to elimination, which are
            // scored by simulating them; it is unreachable under rulesets
            // that generate all four directions unconditionally.
            return (MIN_SCORE, Direction::Up);
        }
        let mut value: u64 = MIN_SCORE;
        let mut out: Direction = Direction::Up;
        let mut alpha_cur: u64 = alpha;
        let mut k: usize = 0;
        while k < 4
            invariant
                k <= 4,
                *self == *old(self),
                rs == old(self).ruleset,
                ev == old(self).evaluation,
                board_ready(g@.board),
                rs.terminal_spec(g@.board) is Ongoing,
                depth >= 1,
                MIN_SCORE <= alpha,
                alpha < beta,
                beta <= MAX_SCORE,
                moves@.len() == 4,
                moves_view(moves@) == four_moves(g@.you_id),
                MIN_SCORE <= value <= MAX_SCORE,
                value < beta,
                alpha_cur as int == max2(alpha as int, value as int),
                forall|j: int| 0 <= j < k ==> mm_min_dir(
                    rs,
                    ev,
                    g@,
                    depth as nat,
                    #[trigger] four_moves(g@.you_id)[j].direction,
                ) <= max2(alpha as int, value as int),
                value > alpha ==> mm_min_dir(rs, ev, g@, depth as nat, out) == value as int,
            decreases 4 - k,
        {
            let d = moves[k].direction;
            proof {
                assert(moves_view(moves@)[k as int] == moves@[k as int]@);
                assert(d == four_moves(g@.you_id)[k as int].direction);
            }
            let ghost vd = mm_min_dir(rs, ev, g@, depth as nat, d);
            let ghost value_old = value;
            let s = self.minimax_min(g, depth, d, alpha_cur, beta);
            if s > value {
                value = s;
                out = d;
            }
            if value >= beta {
                proof {
                    assert(s == value);
                    assert(vd >= beta as int);
                    lemma_mm_min_le_max(rs, ev, g@, depth as nat, d);
                    assert(mm_max(rs, ev, g@, depth as nat) >= beta as int);
                }
                return (value, out);
            }
            proof {
                if s > value_old {
                    if s <= alpha_cur {
                        assert(value_old <= alpha);
                        assert(alpha_cur == alpha);
                        assert(vd <= alpha as int);
                    } else {
                        assert(vd == s as int);
                    }
                } else {
                    if s <= alpha_cur {
                        assert(vd <= alpha_cur as int);
                    } else {
                        assert(vd == s as int);
                    }
                }
                assert(vd <= max2(alpha as int, value as int));
            }
            if value > alpha_cur {
                alpha_cur = value;
            }
            k += 1;
        }
        proof {
            assert(four_moves(g@.you_id)[0].direction == Direction::Up);
            assert(four_moves(g@.you_id)[1].direction == Direction::Right);
            assert(four_moves(g@.you_id)[2].direction == Direction::Left);
            assert(four_moves(g@.you_id)[3].direction == Direction::Down);
            let v = mm_max(rs, ev, g@, depth as nat);
            assert(v <= max2(alpha as int, value as int));
            if value > alpha {
                lemma_mm_min_le_max(rs, ev, g@, depth as nat, out);
                assert(v == value as int);
            } else {
                assert(v <= alpha as int);
            }
        }
        (value, out)
    }

    /// The minimizing phase: the controlled agent has committed to `yd`, and
    /// the opponents jointly pick the combination minimizing the value,
    /// pruned by the `(alpha, beta)` window, fail-soft as in
    /// [`Self::minimax_max`].
    fn minimax_min(&mut self, g: &Game, depth: u8, yd: Direction, alpha: u64, beta: u64) -> (r:
        u64)
        requires
            board_ready(g@.board),
            depth >= 1,
            MIN_SCORE <= alpha,
            alpha < beta,
            beta <= MAX_SCORE,
        ensures
            *final(self) == *old(self),
            MIN_SCORE <= r <= MAX_SCORE,
            r <= alpha ==> mm_min_dir(old(self).ruleset, old(self).evaluation, g@, depth as nat, yd)
                <= alpha as int,
            r >= beta ==> mm_min_dir(old(self).ruleset, old(self).evaluation, g@, depth as nat, yd)
                >= beta as int,
            alpha < r < beta ==> r as int == mm_min_dir(
                old(self).ruleset,
                old(self).evaluation,
                g@,
                depth as nat,
                yd,
            ),
        decreases depth as int, 0int,
    {
        let ghost rs = self.ruleset;
        let ghost ev = self.evaluation;
        let ghost cb = opp_combos_from(g@.board.snakes, 0, g@.you_id, yd);
        let combos = combos_rec(&g.board.snakes, 0, SnakeMove::new(yd, g.you_id));
        proof {
            lemma_combos_cover(g@.board.snakes, g@.you_id, yd);
            assert(cb.take(0) =~= Seq::<Seq<MoveModel>>::empty());
        }
        let n = combos.len();
        let mut value: u64 = MAX_SCORE;
        let mut beta_cur: u64 = beta;
        let mut i: usize = 0;
        while i < n
            invariant
                i <= n,
                *self == *old(self),
                rs == old(self).ruleset,
                ev == old(self).evaluation,
                board_ready(g@.board),
                depth >= 1,
                MIN_SCORE <= alpha,
                alpha < beta,
                beta <= MAX_SCORE,
                n == combos@.len(),
                combos_view(combos@) == cb,
                cb == opp_combos_from(g@.board.snakes, 0, g@.you_id, yd),
                MIN_SCORE <= value <= MAX_SCORE,
                alpha < value,
                beta_cur as int == min2(beta as int, value as int),
                mm_min_combos(rs, ev, g@, depth as nat, cb.take(i as int)) >= min2(
                    beta as int,
                    value as int,
                ),
                value < beta ==> mm_min_combos(rs, ev, g@, depth as nat, cb.take(i as int))
                    <= value as int,
            decreases n - i,
        {
            proof {
                lemma_take_step(cb, i as int);
                lemma_combos_cover(g@.board.snakes, g@.you_id, yd);
                assert(combos_view(combos@)[i as int] == moves_view(combos@[i as int]@));
                assert(cb.len() == combos_view(combos@).len());
                assert(cb.len() == n as int);
                assert(covers(
                    opp_combos_from(g@.board.snakes, 0, g@.you_id, yd)[i as int],
                    g@.board.snakes,
                ));
                assert(covers(cb[i as int], g@.board.snakes));
            }
            let mut child_board = g.board.clone();
            self.ruleset.make_move(&mut child_board, combos[i].as_slice());
            let child = Game { board: child_board, you_id: g.you_id };
            proof {
                assert(child@ == GameModel {
                    board: rs.apply_spec(g@.board, cb[i as int]),
                    you_id: g@.you_id,
                });
            }
            let ghost cv = mm_max(rs, ev, child@, (depth - 1) as nat);
            let ghost value_old = value;
            let ghost pm = mm_min_combos(rs, ev, g@, depth as nat, cb.take(i as int));
            let ghost pm_next = mm_min_combos(rs, ev, g@, depth as nat, cb.take(i as int + 1));
            let sm = self.minimax_max(&child, depth - 1, alpha, beta_cur);
            let s = sm.0;
            proof {
                assert(cb.take(i as int + 1).drop_last() =~= cb.take(i as int));
                assert(cb.take(i as int + 1).last() == cb[i as int]);
                assert(pm_next == min2(pm, cv));
            }
            if s < value {
                value = s;
            }
            if value <= alpha {
                proof {
                    assert(s == value);
                    assert(cv <= alpha as int);
                    lemma_mm_min_prefix(rs, ev, g@, depth as nat, cb, i as int + 1);
                    assert(mm_min_combos(rs, ev, g@, depth as nat, cb) <= alpha as int);
                }
                return value;
            }
            proof {
                if s < value_old {
                    if s >= beta_cur {
                        assert(cv >= beta_cur as int);
                        assert(value_old > beta_cur);
                        assert(beta_cur == beta);
                        assert(value as int >= beta as int);
                    } else {
                        assert(cv == s as int);
                    }
                } else {
                    if s >= beta_cur {
                        assert(cv >= beta_cur as int);
                    } else {
                        assert(cv == s as int);
                        assert(cv >= value as int);
                    }
                }
                assert(pm_next >= min2(beta as int, value as int));
                if value < beta {
                    assert(pm_next <= value as int);
                }
            }
            if value < beta_cur {
                beta_cur = value;
            }
            i += 1;
        }
        proof {
            assert(cb.take(n as int) =~= cb);
            let v = mm_min_combos(rs, ev, g@, depth as nat, cb);
            assert(v >= min2(beta as int, value as int));
            if value < beta {
                assert(v == value as int);
            } else {
                assert(v >= beta as int);
            }
        }
        value
    }
}

} // verus!
