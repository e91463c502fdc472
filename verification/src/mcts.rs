//! Monte Carlo tree search with UCB1-style selection.
//!
//! The tree is owned: each node holds its own state snapshot and its children
//! exclusively. One iteration ([`MonteCarloTreeSearch::run`]) selects a leaf
//! by descending through the child maximizing the UCB score, expands it (one
//! child per joint outcome reachable by one generated move of the controlled
//! agent combined with every opponent combination), evaluates the leaf's
//! state once, and walks the reward back up the path, flipping it with
//! `reward = MAX_SCORE - reward` at every level to model the alternating
//! perspective across plies. The root itself records no statistics.
//!
//! Scores are fixed-point integers in thousandths, so the UCB exploration
//! term `sqrt(2) * sqrt(ln(parent) / child)` is computed in integer
//! arithmetic: `ln` is approximated by `floor(log2(n)) * 693` (thousandths of
//! `ln 2`), and the square root is the exact integer square root. A child
//! with zero visits has the largest possible priority and is selected before
//! any visited sibling is reconsidered.

use vstd::prelude::*;
use vstd::pervasive::VecAdditionalExecFns;
use crate::board::{
    Board, Direction, MoveModel, SnakeMove, board_ready, covers, lemma_take_step, moves_view,
};
use crate::eval::{Evaluation, MAX_SCORE};
use crate::game::{Game, GameModel};
use crate::minimax::{combos_view, combos_rec, lemma_combos_cover, opp_combos_from, Decision};
use crate::rulesets::{Ruleset, Terminal};

verus! {

/// Thousandths of the natural logarithm of 2.
pub const LN2_MILLI: u64 = 693;

/// The exact integer square root, characterized by its square bracketing.
pub open spec fn sqrt_floor(x: nat) -> nat
    decreases x,
{
    if x == 0 {
        0
    } else {
        let r = sqrt_floor((x - 1) as nat);
        if (r + 1) * (r + 1) <= x {
            r + 1
        } else {
            r
        }
    }
}

/// The integer square root is bracketed by its square.
pub proof fn lemma_sqrt_floor_brackets(x: nat)
    ensures
        sqrt_floor(x) * sqrt_floor(x) <= x,
        x < (sqrt_floor(x) + 1) * (sqrt_floor(x) + 1),
    decreases x,
{
    if x > 0 {
        lemma_sqrt_floor_brackets((x - 1) as nat);
        let r = sqrt_floor((x - 1) as nat);
        assert(r * r <= x - 1);
        assert(x - 1 < (r + 1) * (r + 1));
        if (r + 1) * (r + 1) <= x {
            assert(sqrt_floor(x) == r + 1);
            assert((r + 1) * (r + 1) < (r + 2) * (r + 2)) by (nonlinear_arith);
            assert(x < (r + 2) * (r + 2));
        } else {
            assert(sqrt_floor(x) == r);
        }
        assert(sqrt_floor(x) * sqrt_floor(x) <= x);
        assert(x < (sqrt_floor(x) + 1) * (sqrt_floor(x) + 1));
    } else {
        assert(sqrt_floor(x) == 0);
        assert(sqrt_floor(x) * sqrt_floor(x) <= x);
        assert((sqrt_floor(x) + 1) * (sqrt_floor(x) + 1) == 1) by (nonlinear_arith)
            requires
                sqrt_floor(x) == 0,
        ;
        assert(x < (sqrt_floor(x) + 1) * (sqrt_floor(x) + 1));
    }
}

/// The bracketing pins the integer square root uniquely.
pub proof fn lemma_sqrt_unique(x: nat, r: nat)
    requires
        r * r <= x,
        x < (r + 1) * (r + 1),
    ensures
        r == sqrt_floor(x),
{
    lemma_sqrt_floor_brackets(x);
    let s = sqrt_floor(x);
    assert(r == s) by (nonlinear_arith)
        requires
            r * r <= x,
            x < (r + 1) * (r + 1),
            s * s <= x,
            x < (s + 1) * (s + 1),
    ;
}

/// The exact integer square root of `x`.
fn isqrt(x: u64) -> (r: u64)
    requires
        x < 0x1_0000_0000,
    ensures
        r as nat == sqrt_floor(x as nat),
        r as int * r as int <= x as int,
{
    let mut r: u64 = 0;
    let mut done = false;
    while !done
        invariant
            x < 0x1_0000_0000,
            r <= 0xffff,
            r as int * r as int <= x as int,
            done ==> x < (r as int + 1) * (r as int + 1),
        decreases 0x1_0000 - r, (if done { 0int } else { 1int }),
    {
        let next = r + 1;
        proof {
            assert(next as int * next as int <= 0x1_0000_0000) by (nonlinear_arith)
                requires
                    next <= 0x1_0000,
            ;
        }
        let sq = next * next;
        if sq <= x {
            r = next;
            proof {
                assert(r <= 0xffff) by (nonlinear_arith)
                    requires
                        r as int * r as int <= x as int,
                        x < 0x1_0000_0000,
                        r >= 0,
                ;
            }
        } else {
            done = true;
        }
    }
    proof {
        lemma_sqrt_unique(x as nat, r as nat);
    }
    r
}

/// The floor of the base-two logarithm (0 for inputs below 2).
pub open spec fn log2_floor(n: nat) -> nat
    decreases n,
{
    if n < 2 {
        0
    } else {
        1 + log2_floor(n / 2)
    }
}

/// Two to the floor log never exceeds a positive argument.
proof fn lemma_log2_pow(n: nat)
    requires
        n >= 1,
    ensures
        vstd::arithmetic::power2::pow2(log2_floor(n)) <= n,
    decreases n,
{
    if n >= 2 {
        lemma_log2_pow(n / 2);
        vstd::arithmetic::power2::lemma_pow2_unfold(log2_floor(n));
    } else {
        vstd::arithmetic::power2::lemma2_to64();
    }
}

/// The floor log of a value that fits in a `u64` is at most 63.
proof fn lemma_log2_le63(n: u64)
    ensures
        log2_floor(n as nat) <= 63,
{
    if n >= 1 {
        lemma_log2_pow(n as nat);
        let l = log2_floor(n as nat);
        if l > 63 {
            vstd::arithmetic::power2::lemma2_to64();
            vstd::arithmetic::power2::lemma2_to64_rest();
            if l > 64 {
                vstd::arithmetic::power2::lemma_pow2_strictly_increases(64, l);
            }
            assert(false);
        }
    }
}

/// The floor of the base-two logarithm of `n`.
fn log2(n: u64) -> (r: u64)
    ensures
        r as nat == log2_floor(n as nat),
        r <= 63,
{
    let mut v = n;
    let mut r: u64 = 0;
    proof {
        lemma_log2_le63(n);
    }
    while v >= 2
        invariant
            log2_floor(n as nat) == r + log2_floor(v as nat),
            log2_floor(n as nat) <= 63,
        decreases v,
    {
        v = v / 2;
        r = r + 1;
    }
    r
}

/// The fixed-point UCB score of a child: its mean score plus the exploration
/// bonus `sqrt(2 * ln(parent_visits) / visits)`, all in thousandths; a child
/// with zero visits has the largest possible score.
pub open spec fn ucb_spec(visits: nat, cum: nat, parent_visits: nat) -> int {
    if visits == 0 {
        u64::MAX as int
    } else {
        cum / visits + sqrt_floor((2 * LN2_MILLI as nat * log2_floor(parent_visits) * 1000) / visits) as int
    }
}

/// Compute the fixed-point UCB score of a child.
fn ucb_milli(visits: u64, cum: u64, parent_visits: u64) -> (r: u64)
    requires
        cum <= 1000 * visits,
    ensures
        r as int == ucb_spec(visits as nat, cum as nat, parent_visits as nat),
        visits > 0 ==> r <= 11000,
{
    if visits == 0 {
        return u64::MAX;
    }
    let l = log2(parent_visits);
    let arg = (2 * LN2_MILLI * l * 1000) / visits;
    proof {
        assert(2 * LN2_MILLI * l * 1000 <= 87_318_000) by {
            assert(l <= 63);
        }
        assert(arg < 0x1_0000_0000);
    }
    let e = isqrt(arg);
    proof {
        assert(e as int * e as int <= arg as int);
        assert(e <= 10_000) by (nonlinear_arith)
            requires
                e as int * e as int <= arg as int,
                arg <= 87_318_000,
        ;
        assert(cum as int / visits as int <= 1000) by (nonlinear_arith)
            requires
                cum <= 1000 * visits,
                visits >= 1,
        ;
    }
    cum / visits + e
}

/// One node of the owned search tree: a state snapshot, the controlled
/// agent's direction that led here, exclusively-owned children, and the
/// node's visit and score statistics.
pub struct Node {
    pub state: Game,
    pub you_dir: Direction,
    pub children: Vec<Node>,
    pub num_visits: u64,
    pub cumulative_score: u64,
    pub simulated: bool,
}

/// Model of a search-tree node.
pub ghost struct NodeModel {
    pub state: GameModel,
    pub you_dir: Direction,
    pub children: Seq<NodeModel>,
    pub num_visits: nat,
    pub cumulative_score: nat,
    pub simulated: bool,
}

/// The models of a sequence of nodes.
pub open spec fn children_models(cs: Seq<Node>) -> Seq<NodeModel>
    decreases cs, 0nat,
{
    if cs.len() == 0 {
        Seq::empty()
    } else {
        children_models(cs.drop_last()).push(node_model(cs.last()))
    }
}

/// The model of a node.
pub open spec fn node_model(n: Node) -> NodeModel
    decreases n, 1nat,
{
    NodeModel {
        state: n.state@,
        you_dir: n.you_dir,
        children: children_models(n.children@),
        num_visits: n.num_visits as nat,
        cumulative_score: n.cumulative_score as nat,
        simulated: n.simulated,
    }
}

/// Pointwise characterization of [`children_models`].
pub proof fn lemma_children_models(cs: Seq<Node>)
    ensures
        children_models(cs).len() == cs.len(),
        forall|i: int| 0 <= i < cs.len() ==> #[trigger] children_models(cs)[i] == node_model(cs[i]),
    decreases cs.len(),
{
    if cs.len() > 0 {
        lemma_children_models(cs.drop_last());
    }
}

/// [`children_models`] distributes over concatenation.
pub proof fn lemma_children_models_concat(a: Seq<Node>, b: Seq<Node>)
    ensures
        children_models(a + b) =~= children_models(a) + children_models(b),
{
    lemma_children_models(a);
    lemma_children_models(b);
    lemma_children_models(a + b);
    assert forall|i: int| 0 <= i < (a + b).len() implies #[trigger] children_models(a + b)[i] == (
    children_models(a) + children_models(b))[i] by {
        if i < a.len() {
            assert((a + b)[i] == a[i]);
        } else {
            assert((a + b)[i] == b[i - a.len()]);
        }
    }
}

/// Well-formedness of a tree: scores never exceed the scale times the visit
/// count, an unsimulated node has no children and no visits, every node's
/// state is one the engine can advance, and the children are well-formed.
pub open spec fn node_wf(m: NodeModel) -> bool
    decreases m,
{
    &&& m.cumulative_score <= 1000 * m.num_visits
    &&& (!m.simulated ==> m.children.len() == 0 && m.num_visits == 0)
    &&& board_ready(m.state.board)
    &&& forall|i: int| 0 <= i < m.children.len() ==> node_wf(#[trigger] m.children[i])
}

/// Every visit count in the tree is below `cap` (machine-limit headroom for
/// one more iteration).
pub open spec fn counts_below(m: NodeModel, cap: nat) -> bool
    decreases m,
{
    &&& m.num_visits < cap
    &&& m.cumulative_score < cap
    &&& forall|i: int| 0 <= i < m.children.len() ==> counts_below(#[trigger] m.children[i], cap)
}

/// The headroom cap used by one iteration.
pub const VISIT_CAP: u64 = 0x0040_0000_0000_0000;

/// The index of the child with the greatest UCB score among the first `k`
/// children (earlier children win ties).
pub open spec fn best_in(children: Seq<NodeModel>, pv: nat, k: int) -> int
    decreases k,
{
    if k <= 1 {
        0
    } else {
        let b = best_in(children, pv, k - 1);
        if ucb_spec(children[k - 1].num_visits, children[k - 1].cumulative_score, pv) > ucb_spec(
            children[b].num_visits,
            children[b].cumulative_score,
            pv,
        ) {
            k - 1
        } else {
            b
        }
    }
}

/// The best index over a nonempty prefix is in range.
pub proof fn lemma_best_in_range(children: Seq<NodeModel>, pv: nat, k: int)
    requires
        k >= 1,
    ensures
        0 <= best_in(children, pv, k) < k,
    decreases k,
{
    if k > 1 {
        lemma_best_in_range(children, pv, k - 1);
    }
}

/// The best index attains the maximum UCB score over the prefix.
pub proof fn lemma_best_in_max(children: Seq<NodeModel>, pv: nat, k: int)
    requires
        k >= 1,
    ensures
        forall|j: int|
            0 <= j < k ==> ucb_spec(
                (#[trigger] children[j]).num_visits,
                children[j].cumulative_score,
                pv,
            ) <= ucb_spec(
                children[best_in(children, pv, k)].num_visits,
                children[best_in(children, pv, k)].cumulative_score,
                pv,
            ),
    decreases k,
{
    if k > 1 {
        lemma_best_in_max(children, pv, k - 1);
    }
}

/// The child index selection descends through: the UCB argmax, clamped into
/// range (the clamp never binds; see [`lemma_best_in_range`]).
pub open spec fn chosen_child(m: NodeModel) -> int {
    let b = best_in(m.children, m.num_visits, m.children.len() as int);
    if 0 <= b < m.children.len() {
        b
    } else {
        0
    }
}

/// The index path selection walks: descend through the UCB-best child while
/// the node has children, stopping at the first childless node.
pub open spec fn select_path(m: NodeModel) -> Seq<int>
    decreases m,
{
    if m.children.len() == 0 {
        Seq::empty()
    } else {
        seq![chosen_child(m)] + select_path(m.children[chosen_child(m)])
    }
}

/// The node an index path leads to (stopping early on an invalid step; paths
/// from [`select_path`] are always valid).
pub open spec fn node_at(m: NodeModel, path: Seq<int>) -> NodeModel
    decreases path.len(),
{
    if path.len() == 0 {
        m
    } else if 0 <= path[0] < m.children.len() {
        node_at(m.children[path[0]], path.drop_first())
    } else {
        m
    }
}

/// The fresh children of an expansion over one committed direction: one per
/// joint move, each holding its own resulting state, zero statistics, and
/// the simulated flag clear.
pub open spec fn kids_from<R: Ruleset>(
    rs: R,
    g: GameModel,
    d: Direction,
    combos: Seq<Seq<MoveModel>>,
) -> Seq<NodeModel>
    decreases combos.len(),
{
    if combos.len() == 0 {
        Seq::empty()
    } else {
        kids_from(rs, g, d, combos.drop_last()).push(
            NodeModel {
                state: GameModel { board: rs.apply_spec(g.board, combos.last()), you_id: g.you_id },
                you_dir: d,
                children: Seq::empty(),
                num_visits: 0,
                cumulative_score: 0,
                simulated: false,
            },
        )
    }
}

/// All fresh children of an expansion: one node per legal joint outcome
/// reachable by one generated move of the controlled agent combined with
/// every opponent combination, grouped by the controlled agent's direction.
pub open spec fn expand_kids<R: Ruleset>(rs: R, g: GameModel) -> Seq<NodeModel> {
    kids_from(rs, g, Direction::Up, opp_combos_from(g.board.snakes, 0, g.you_id, Direction::Up))
        + kids_from(
        rs,
        g,
        Direction::Right,
        opp_combos_from(g.board.snakes, 0, g.you_id, Direction::Right),
    ) + kids_from(
        rs,
        g,
        Direction::Left,
        opp_combos_from(g.board.snakes, 0, g.you_id, Direction::Left),
    ) + kids_from(
        rs,
        g,
        Direction::Down,
        opp_combos_from(g.board.snakes, 0, g.you_id, Direction::Down),
    )
}

/// One select/expand/evaluate/backup iteration below the root: the returned
/// node is the subtree after the iteration, and the returned integer is the
/// perspective-flipped reward handed to the parent. A childless node is the
/// selected leaf: it gains its children, the simulated mark, one visit and
/// the evaluation reward; an inner node descends through the UCB-best child
/// and then records the flipped reward coming back up.
pub open spec fn iter_node<R: Ruleset, E: Evaluation>(rs: R, ev: E, m: NodeModel) -> (NodeModel,
    int)
    decreases m,
{
    if m.children.len() == 0 {
        let reward = crate::minimax::clamped(ev.score_spec(m.state));
        let m2 = NodeModel {
            children: expand_kids(rs, m.state),
            simulated: true,
            num_visits: m.num_visits + 1,
            cumulative_score: (m.cumulative_score + reward) as nat,
            ..m
        };
        (m2, MAX_SCORE as int - reward)
    } else {
        let b = chosen_child(m);
        let sub = iter_node(rs, ev, m.children[b]);
        let m2 = NodeModel {
            children: m.children.update(b, sub.0),
            num_visits: m.num_visits + 1,
            cumulative_score: (m.cumulative_score + sub.1) as nat,
            ..m
        };
        (m2, MAX_SCORE as int - sub.1)
    }
}

/// The flipped reward an iteration hands up is always on the score scale.
pub proof fn lemma_iter_reward_bounds<R: Ruleset, E: Evaluation>(rs: R, ev: E, m: NodeModel)
    ensures
        0 <= iter_node(rs, ev, m).1 <= MAX_SCORE as int,
    decreases m,
{
    if m.children.len() != 0 {
        lemma_iter_reward_bounds(rs, ev, m.children[chosen_child(m)]);
    }
}

/// The whole tree after one iteration. The root records no statistics: the
/// backup walk stops just below it, and a root that is itself the expanded
/// leaf only gains its children and the simulated mark.
pub open spec fn root_after<R: Ruleset, E: Evaluation>(rs: R, ev: E, m: NodeModel) -> NodeModel {
    if m.children.len() == 0 {
        NodeModel { children: expand_kids(rs, m.state), simulated: true, ..m }
    } else {
        let b = chosen_child(m);
        NodeModel { children: m.children.update(b, iter_node(rs, ev, m.children[b]).0), ..m }
    }
}

/// The integer square root never exceeds its argument.
proof fn lemma_sqrt_le(x: nat)
    ensures
        sqrt_floor(x) <= x,
{
    lemma_sqrt_floor_brackets(x);
    let s = sqrt_floor(x);
    if s >= 1 {
        assert(s <= s * s) by (nonlinear_arith)
            requires
                s >= 1,
        ;
    }
}

/// Values below a power of two have a floor log below its exponent.
proof fn lemma_log2_lt(n: nat, k: nat)
    requires
        k >= 1,
        n < vstd::arithmetic::power2::pow2(k),
    ensures
        log2_floor(n) < k,
{
    if n >= 1 {
        lemma_log2_pow(n);
        let l = log2_floor(n);
        if l >= k {
            if l > k {
                vstd::arithmetic::power2::lemma_pow2_strictly_increases(k, l);
            }
            assert(false);
        }
    }
}

/// The UCB score of a visited child in a well-formed, count-bounded tree is
/// strictly below the zero-visit priority.
proof fn lemma_visited_ucb_bounded(c: NodeModel, pv: nat)
    requires
        c.cumulative_score <= 1000 * c.num_visits,
        c.num_visits >= 1,
        pv < VISIT_CAP as nat,
    ensures
        ucb_spec(c.num_visits, c.cumulative_score, pv) < u64::MAX as int,
{
    let v = c.num_visits;
    let cum = c.cumulative_score;
    assert(cum / v <= 1000) by (nonlinear_arith)
        requires
            cum <= 1000 * v,
            v >= 1,
    ;
    vstd::arithmetic::power2::lemma2_to64();
    vstd::arithmetic::power2::lemma2_to64_rest();
    lemma_log2_lt(pv, 54);
    let num = 2 * LN2_MILLI as nat * log2_floor(pv) * 1000;
    let lg = log2_floor(pv);
    assert(2 * 693 * lg * 1000 <= 2 * 693 * 53 * 1000) by (nonlinear_arith)
        requires
            lg <= 53,
    ;
    let arg = num / v;
    assert(arg <= num) by (nonlinear_arith)
        requires
            arg == num / v,
            v >= 1,
    ;
    lemma_sqrt_le(arg);
}

/// UCB1 exploration order: while a node still has an unvisited child, the
/// selection step descends into an unvisited child, never a visited one -
/// so each child is tried once before exploitation begins. One iteration
/// then touches only the selected child ([`iter_node`] updates the chosen
/// index and leaves every sibling as it was).
pub proof fn lemma_ucb_tries_unvisited_first(m: NodeModel)
    requires
        m.num_visits < VISIT_CAP as nat,
        forall|i: int| 0 <= i < m.children.len() ==> (#[trigger] m.children[i]).cumulative_score
            <= 1000 * m.children[i].num_visits,
        m.children.len() >= 1,
        exists|i: int| 0 <= i < m.children.len() && (#[trigger] m.children[i]).num_visits == 0,
    ensures
        m.children[chosen_child(m)].num_visits == 0,
        select_path(m)[0] == chosen_child(m),
{
    let n = m.children.len() as int;
    let z = choose|i: int| 0 <= i < m.children.len() && (#[trigger] m.children[i]).num_visits == 0;
    lemma_best_in_range(m.children, m.num_visits, n);
    lemma_best_in_max(m.children, m.num_visits, n);
    let b = best_in(m.children, m.num_visits, n);
    assert(ucb_spec(m.children[z].num_visits, m.children[z].cumulative_score, m.num_visits)
        == u64::MAX as int);
    if m.children[b].num_visits >= 1 {
        lemma_visited_ucb_bounded(m.children[b], m.num_visits);
        assert(false);
    }
    assert(select_path(m) == seq![chosen_child(m)] + select_path(m.children[chosen_child(m)]));
}

/// One exploration round at the root: while the root still has an unvisited
/// child, an iteration visits an unvisited child, brings its visit count to
/// exactly one, and leaves every sibling untouched: so the first selections
/// from a node visit each of its children exactly once before any child is
/// visited twice.
pub proof fn lemma_exploration_round<R: Ruleset, E: Evaluation>(rs: R, ev: E, m: NodeModel)
    requires
        node_wf(m),
        counts_below(m, VISIT_CAP as nat),
        m.children.len() >= 1,
        exists|i: int| 0 <= i < m.children.len() && (#[trigger] m.children[i]).num_visits == 0,
    ensures
        ({
            let m2 = root_after(rs, ev, m);
            let b = chosen_child(m);
            &&& m2.children.len() == m.children.len()
            &&& m.children[b].num_visits == 0
            &&& m2.children[b].num_visits == 1
            &&& forall|j: int| 0 <= j < m.children.len() && j != b ==> #[trigger] m2.children[j]
                == m.children[j]
        }),
{
    assert forall|i: int|
        0 <= i < m.children.len() implies (#[trigger] m.children[i]).cumulative_score <= 1000
        * m.children[i].num_visits by {
        assert(node_wf(m.children[i]));
    }
    lemma_ucb_tries_unvisited_first(m);
    let b = chosen_child(m);
    lemma_best_in_range(m.children, m.num_visits, m.children.len() as int);
    lemma_iter_delta(rs, ev, m.children[b]);
}

/// The tree after `k` spec-level iterations from `m`, each one
/// [`root_after`] of the last.
pub open spec fn iterate_root<R: Ruleset, E: Evaluation>(rs: R, ev: E, m: NodeModel, k: nat) -> NodeModel
    decreases k,
{
    if k == 0 {
        m
    } else {
        root_after(rs, ev, iterate_root(rs, ev, m, (k - 1) as nat))
    }
}

/// The number of children that have been visited at least once.
pub open spec fn visited_count(cs: Seq<NodeModel>) -> nat
    decreases cs.len(),
{
    if cs.len() == 0 {
        0
    } else {
        visited_count(cs.drop_last()) + (if cs.last().num_visits > 0 {
            1nat
        } else {
            0nat
        })
    }
}

/// Replacing an unvisited child with a visited one raises the visited count
/// by exactly one.
proof fn lemma_visited_count_update(cs: Seq<NodeModel>, b: int, x: NodeModel)
    requires
        0 <= b < cs.len(),
        cs[b].num_visits == 0,
        x.num_visits > 0,
    ensures
        visited_count(cs.update(b, x)) == visited_count(cs) + 1,
    decreases cs.len(),
{
    if b == cs.len() - 1 {
        assert(cs.update(b, x).drop_last() =~= cs.drop_last());
        assert(cs.update(b, x).last() == x);
    } else {
        assert(cs.update(b, x).drop_last() =~= cs.drop_last().update(b, x));
        assert(cs.update(b, x).last() == cs.last());
        lemma_visited_count_update(cs.drop_last(), b, x);
    }
}

/// A sequence of unvisited children counts zero visited.
proof fn lemma_visited_count_zero(cs: Seq<NodeModel>)
    requires
        forall|i: int| 0 <= i < cs.len() ==> (#[trigger] cs[i]).num_visits == 0,
    ensures
        visited_count(cs) == 0,
    decreases cs.len(),
{
    if cs.len() > 0 {
        lemma_visited_count_zero(cs.drop_last());
    }
}

/// While fewer children are visited than exist, some child is unvisited.
proof fn lemma_unvisited_exists(cs: Seq<NodeModel>)
    requires
        visited_count(cs) < cs.len(),
    ensures
        exists|i: int| 0 <= i < cs.len() && (#[trigger] cs[i]).num_visits == 0,
    decreases cs.len(),
{
    if cs.last().num_visits == 0 {
        assert(cs[cs.len() - 1].num_visits == 0);
    } else {
        lemma_unvisited_exists(cs.drop_last());
        let i = choose|i: int|
            0 <= i < cs.drop_last().len() && (#[trigger] cs.drop_last()[i]).num_visits == 0;
        assert(cs[i].num_visits == 0);
    }
}

/// UCB1 exploration order, in full: starting from a node whose children are
/// all fresh (unvisited, childless, scoreless), the first `k` iterations
/// visit `k` distinct children, one each: after them exactly `k` children
/// have been visited, none more than once, and every unvisited child is
/// still untouched. With `k` equal to the number of children, every child
/// has been visited exactly once before any child is visited twice.
pub proof fn lemma_ucb_exploration_order<R: Ruleset, E: Evaluation>(
    rs: R,
    ev: E,
    m: NodeModel,
    k: int,
)
    requires
        m.children.len() >= 1,
        m.num_visits < VISIT_CAP as nat,
        forall|i: int| 0 <= i < m.children.len() ==> (#[trigger] m.children[i]).num_visits == 0,
        forall|i: int| 0 <= i < m.children.len() ==> (#[trigger] m.children[i]).children.len()
            == 0,
        forall|i: int| 0 <= i < m.children.len() ==> (#[trigger] m.children[i]).cumulative_score
            == 0,
        0 <= k <= m.children.len(),
    ensures
        ({
            let mk = iterate_root(rs, ev, m, k as nat);
            &&& mk.children.len() == m.children.len()
            &&& mk.num_visits == m.num_visits
            &&& visited_count(mk.children) == k
            &&& forall|i: int| 0 <= i < mk.children.len() ==> (#[trigger] mk.children[i]).num_visits
                <= 1
            &&& forall|i: int| 0 <= i < mk.children.len() ==> (#[trigger] mk.children[i]).cumulative_score
                <= 1000 * mk.children[i].num_visits
            &&& forall|i: int| 0 <= i < mk.children.len() && (#[trigger] mk.children[i]).num_visits
                == 0 ==> mk.children[i] == m.children[i]
        }),
    decreases k,
{
    if k == 0 {
        lemma_visited_count_zero(m.children);
    } else {
        lemma_ucb_exploration_order(rs, ev, m, k - 1);
        let prev = iterate_root(rs, ev, m, (k - 1) as nat);
        lemma_unvisited_exists(prev.children);
        lemma_ucb_tries_unvisited_first(prev);
        let b = chosen_child(prev);
        lemma_best_in_range(prev.children, prev.num_visits, prev.children.len() as int);
        assert(prev.children[b] == m.children[b]);
        let sub = iter_node(rs, ev, prev.children[b]);
        lemma_iter_delta(rs, ev, prev.children[b]);
        assert(sub.0.num_visits == 1);
        assert(sub.0.cumulative_score <= 1000);
        let mk = iterate_root(rs, ev, m, k as nat);
        assert(mk == root_after(rs, ev, prev));
        assert(mk.children == prev.children.update(b, sub.0));
        lemma_visited_count_update(prev.children, b, sub.0);
        assert forall|i: int|
            0 <= i < mk.children.len() && (#[trigger] mk.children[i]).num_visits == 0 implies mk.children[i]
            == m.children[i] by {
            assert(i != b);
            assert(mk.children[i] == prev.children[i]);
        }
    }
}

/// What one iteration does to the node it reaches: one more visit, the
/// level's reward added to the cumulative score, and the flipped reward
/// handed up.
proof fn lemma_iter_delta<R: Ruleset, E: Evaluation>(rs: R, ev: E, m: NodeModel)
    ensures
        iter_node(rs, ev, m).0.num_visits == m.num_visits + 1,
        iter_node(rs, ev, m).0.cumulative_score - m.cumulative_score == MAX_SCORE as int
            - iter_node(rs, ev, m).1,
        0 <= iter_node(rs, ev, m).1 <= MAX_SCORE as int,
{
    lemma_iter_reward_bounds(rs, ev, m);
    if m.children.len() != 0 {
        lemma_iter_reward_bounds(rs, ev, m.children[chosen_child(m)]);
    }
}

/// Backup perspective flip: after one iteration, for every consecutive pair
/// of nodes on the selected path, the reward recorded at the node above is
/// the flip (`MAX_SCORE` minus) of the reward recorded at the node below,
/// and each records exactly one more visit.
pub proof fn lemma_backup_perspective_flip<R: Ruleset, E: Evaluation>(
    rs: R,
    ev: E,
    m: NodeModel,
    t: int,
)
    requires
        0 <= t < select_path(m).len(),
    ensures
        ({
            let p = select_path(m);
            let m2 = iter_node(rs, ev, m).0;
            let d_up = node_at(m2, p.take(t)).cumulative_score - node_at(
                m,
                p.take(t),
            ).cumulative_score;
            let d_dn = node_at(m2, p.take(t + 1)).cumulative_score - node_at(
                m,
                p.take(t + 1),
            ).cumulative_score;
            &&& node_at(m2, p.take(t)).num_visits == node_at(m, p.take(t)).num_visits + 1
            &&& node_at(m2, p.take(t + 1)).num_visits == node_at(m, p.take(t + 1)).num_visits + 1
            &&& d_up == MAX_SCORE as int - d_dn
        }),
    decreases t,
{
    let p = select_path(m);
    let m2 = iter_node(rs, ev, m).0;
    assert(m.children.len() > 0);
    let b = chosen_child(m);
    lemma_best_in_range(m.children, m.num_visits, m.children.len() as int);
    let q = select_path(m.children[b]);
    assert(p == seq![b] + q);
    let sub = iter_node(rs, ev, m.children[b]);
    lemma_iter_delta(rs, ev, m);
    lemma_iter_delta(rs, ev, m.children[b]);
    if t == 0 {
        assert(p.take(0) =~= Seq::<int>::empty());
        assert(p.take(1) =~= seq![b]);
        assert(node_at(m, p.take(0)) == m);
        assert(node_at(m2, p.take(0)) == m2);
        assert(seq![b].drop_first() =~= Seq::<int>::empty());
        assert(node_at(m.children[b], Seq::<int>::empty()) == m.children[b]);
        assert(node_at(sub.0, Seq::<int>::empty()) == sub.0);
        assert(node_at(m, seq![b]) == m.children[b]);
        assert(m2.children[b] == sub.0);
        assert(node_at(m2, seq![b]) == sub.0);
        assert(m2.cumulative_score - m.cumulative_score == sub.1);
    } else {
        lemma_backup_perspective_flip(rs, ev, m.children[b], t - 1);
        assert(p.take(t)[0] == b);
        assert(p.take(t).drop_first() =~= q.take(t - 1));
        assert(p.take(t + 1)[0] == b);
        assert(p.take(t + 1).drop_first() =~= q.take(t));
        assert(node_at(m, p.take(t)) == node_at(m.children[b], q.take(t - 1)));
        assert(node_at(m, p.take(t + 1)) == node_at(m.children[b], q.take(t)));
        assert(m2.children[b] == sub.0);
        assert(node_at(m2, p.take(t)) == node_at(sub.0, q.take(t - 1)));
        assert(node_at(m2, p.take(t + 1)) == node_at(sub.0, q.take(t)));
    }
}

/// A placeholder node used only to swap a child out of its vector while it
/// is worked on.
fn blank_node() -> (r: Node)
{
    Node {
        state: Game {
            board: Board {
                height: 1,
                width: 1,
                hazards: Vec::new(),
                hazard_damage: 0,
                food: Vec::new(),
                snakes: Vec::new(),
            },
            you_id: 0,
        },
        you_dir: Direction::Up,
        children: Vec::new(),
        num_visits: 0,
        cumulative_score: 0,
        simulated: false,
    }
}

/// The index of the UCB-best child (earlier children win ties).
fn best_child(children: &Vec<Node>, pv: u64) -> (b: usize)
    requires
        children@.len() >= 1,
        forall|i: int| 0 <= i < children@.len() ==> node_wf(
            #[trigger] children_models(children@)[i],
        ),
    ensures
        0 <= b < children@.len(),
        b as int == best_in(children_models(children@), pv as nat, children@.len() as int),
{
    let n = children.len();
    proof {
        lemma_children_models(children@);
    }
    let mut best: usize = 0;
    proof {
        assert(children_models(children@)[0] == node_model(children@[0]));
        assert(node_wf(children_models(children@)[0]));
    }
    let mut best_score: u64 = ucb_milli(
        children[0].num_visits,
        children[0].cumulative_score,
        pv,
    );
    let mut k: usize = 1;
    while k < n
        invariant
            1 <= k <= n,
            n == children@.len(),
            best < k,
            forall|i: int| 0 <= i < children@.len() ==> node_wf(
                #[trigger] children_models(children@)[i],
            ),
            children_models(children@).len() == children@.len(),
            forall|i: int| 0 <= i < children@.len() ==> #[trigger] children_models(children@)[i]
                == node_model(children@[i]),
            best as int == best_in(children_models(children@), pv as nat, k as int),
            best_score as int == ucb_spec(
                children_models(children@)[best as int].num_visits,
                children_models(children@)[best as int].cumulative_score,
                pv as nat,
            ),
        decreases n - k,
    {
        proof {
            assert(children_models(children@)[k as int] == node_model(children@[k as int]));
            assert(node_wf(children_models(children@)[k as int]));
        }
        let s = ucb_milli(children[k].num_visits, children[k].cumulative_score, pv);
        if s > best_score {
            best = k;
            best_score = s;
        }
        k += 1;
    }
    best
}

/// The fresh child nodes of an expansion over one committed direction.
fn kids_for_dir<R: Ruleset>(rs: &mut R, g: &Game, d: Direction) -> (r: Vec<Node>)
    requires
        board_ready(g@.board),
    ensures
        *final(rs) == *old(rs),
        children_models(r@) == kids_from(
            *old(rs),
            g@,
            d,
            opp_combos_from(g@.board.snakes, 0, g@.you_id, d),
        ),
        forall|i: int| 0 <= i < r@.len() ==> node_wf(#[trigger] children_models(r@)[i]),
{
    let ghost cb = opp_combos_from(g@.board.snakes, 0, g@.you_id, d);
    let combos = combos_rec(&g.board.snakes, 0, SnakeMove::new(d, g.you_id));
    let n = combos.len();
    let mut r: Vec<Node> = Vec::new();
    let mut i: usize = 0;
    proof {
        assert(cb.take(0) =~= Seq::<Seq<MoveModel>>::empty());
    }
    while i < n
        invariant
            i <= n,
            *rs == *old(rs),
            board_ready(g@.board),
            n == combos@.len(),
            combos_view(combos@) == cb,
            cb == opp_combos_from(g@.board.snakes, 0, g@.you_id, d),
            children_models(r@) == kids_from(*old(rs), g@, d, cb.take(i as int)),
            r@.len() == i,
            forall|j: int| 0 <= j < r@.len() ==> node_wf(#[trigger] children_models(r@)[j]),
        decreases n - i,
    {
        proof {
            lemma_take_step(cb, i as int);
            lemma_combos_cover(g@.board.snakes, g@.you_id, d);
            assert(combos_view(combos@)[i as int] == moves_view(combos@[i as int]@));
            assert(cb.len() == combos_view(combos@).len());
            assert(covers(cb[i as int], g@.board.snakes));
        }
        let mut child_board = g.board.clone();
        rs.make_move(&mut child_board, combos[i].as_slice());
        let node = Node {
            state: Game { board: child_board, you_id: g.you_id },
            you_dir: d,
            children: Vec::new(),
            num_visits: 0,
            cumulative_score: 0,
            simulated: false,
        };
        proof {
            assert(children_models(node.children@) =~= Seq::<NodeModel>::empty());
            assert(node_model(node) == NodeModel {
                state: GameModel { board: old(rs).apply_spec(g@.board, cb[i as int]), you_id: g@.you_id },
                you_dir: d,
                children: Seq::empty(),
                num_visits: 0,
                cumulative_score: 0,
                simulated: false,
            });
        }
        let ghost nm = node_model(node);
        let ghost prev = r@;
        r.push(node);
        proof {
            assert(r@.drop_last() =~= prev);
            assert(children_models(r@) =~= kids_from(*old(rs), g@, d, cb.take(i as int + 1)));
            lemma_children_models(r@);
            lemma_children_models(prev);
            assert(node_wf(nm));
            assert forall|j: int| 0 <= j < r@.len() implies node_wf(
                #[trigger] children_models(r@)[j],
            ) by {
                if j < prev.len() {
                    assert(r@[j] == prev[j]);
                    assert(children_models(prev)[j] == node_model(prev[j]));
                } else {
                    assert(children_models(r@)[j] == nm);
                }
            }
        }
        i += 1;
    }
    proof {
        assert(cb.take(n as int) =~= cb);
    }
    r
}

/// All fresh children of an expansion of the state `g`.
fn expand_children<R: Ruleset>(rs: &mut R, g: &Game) -> (r: Vec<Node>)
    requires
        board_ready(g@.board),
    ensures
        *final(rs) == *old(rs),
        children_models(r@) == expand_kids(*old(rs), g@),
        forall|i: int| 0 <= i < r@.len() ==> node_wf(#[trigger] children_models(r@)[i]),
{
    let mut r = kids_for_dir(rs, g, Direction::Up);
    let mut r2 = kids_for_dir(rs, g, Direction::Right);
    let mut r3 = kids_for_dir(rs, g, Direction::Left);
    let mut r4 = kids_for_dir(rs, g, Direction::Down);
    let ghost v1 = r@;
    let ghost v2 = r2@;
    let ghost v3 = r3@;
    let ghost v4 = r4@;
    r.append(&mut r2);
    r.append(&mut r3);
    r.append(&mut r4);
    proof {
        assert(r@ =~= v1 + v2 + v3 + v4);
        lemma_children_models_concat(v1 + v2 + v3, v4);
        lemma_children_models_concat(v1 + v2, v3);
        lemma_children_models_concat(v1, v2);
        assert((v1 + v2) + v3 =~= v1 + v2 + v3);
        assert(((v1 + v2) + v3) + v4 =~= v1 + v2 + v3 + v4);
        assert(children_models(r@) =~= expand_kids(*old(rs), g@));
        lemma_children_models(r@);
        lemma_children_models(v1);
        lemma_children_models(v2);
        lemma_children_models(v3);
        lemma_children_models(v4);
        assert forall|i: int| 0 <= i < r@.len() implies node_wf(
            #[trigger] children_models(r@)[i],
        ) by {
            let l1 = v1.len() as int;
            let l2 = v2.len() as int;
            let l3 = v3.len() as int;
            assert(r@[i] == (v1 + v2 + v3 + v4)[i]);
            if i < l1 {
                assert((v1 + v2 + v3 + v4)[i] == v1[i]);
                assert(children_models(r@)[i] == node_model(v1[i]));
                assert(children_models(v1)[i] == node_model(v1[i]));
            } else if i < l1 + l2 {
                assert((v1 + v2 + v3 + v4)[i] == v2[i - l1]);
                assert(children_models(r@)[i] == node_model(v2[i - l1]));
                assert(children_models(v2)[i - l1] == node_model(v2[i - l1]));
            } else if i < l1 + l2 + l3 {
                assert((v1 + v2 + v3 + v4)[i] == v3[i - l1 - l2]);
                assert(children_models(r@)[i] == node_model(v3[i - l1 - l2]));
                assert(children_models(v3)[i - l1 - l2] == node_model(v3[i - l1 - l2]));
            } else {
                assert((v1 + v2 + v3 + v4)[i] == v4[i - l1 - l2 - l3]);
                assert(children_models(r@)[i] == node_model(v4[i - l1 - l2 - l3]));
                assert(children_models(v4)[i - l1 - l2 - l3] == node_model(v4[i - l1 - l2 - l3]));
            }
        }
    }
    r
}

/// One select/expand/evaluate/backup iteration below the root. Returns
/// whether the selected leaf was already terminal (in which case nothing is
/// modified), and otherwise the perspective-flipped reward for the caller.
fn run_node<R: Ruleset, E: Evaluation>(node: &mut Node, rs: &mut R, ev: &E) -> (res: (bool, u64))
    requires
        node_wf(node_model(*old(node))),
        counts_below(node_model(*old(node)), VISIT_CAP as nat),
    ensures
        *final(rs) == *old(rs),
        res.0 == !(old(rs).terminal_spec(
            node_at(node_model(*old(node)), select_path(node_model(*old(node)))).state.board,
        ) is Ongoing),
        res.0 ==> node_model(*final(node)) == node_model(*old(node)),
        !res.0 ==> node_model(*final(node)) == iter_node(*old(rs), *ev, node_model(*old(node))).0
            && res.1 as int == iter_node(*old(rs), *ev, node_model(*old(node))).1,
        res.1 <= MAX_SCORE,
        node_wf(node_model(*final(node))),
    decreases *old(node),
{
    let ghost m = node_model(*node);
    if node.children.len() == 0 {
        proof {
            assert(children_models(node.children@) =~= Seq::<NodeModel>::empty());
            assert(select_path(m) =~= Seq::<int>::empty());
        }
        let over = rs.game_over(&node.state.board);
        match over {
            Terminal::Ongoing => {},
            _ => {
                return (true, 0);
            },
        }
        let kids = expand_children(rs, &node.state);
        let ghost kv = kids@;
        node.children = kids;
        node.simulated = true;
        let reward = ev.calculate(&node.state);
        node.num_visits = node.num_visits + 1;
        node.cumulative_score = node.cumulative_score + reward;
        proof {
            assert(node.children@ == kv);
            lemma_children_models(kv);
            assert(node_model(*node) == iter_node(*old(rs), *ev, m).0);
            assert forall|i: int| 0 <= i < node_model(*node).children.len() implies node_wf(
                #[trigger] node_model(*node).children[i],
            ) by {
                assert(node_model(*node).children[i] == children_models(kv)[i]);
            }
            assert(node_wf(node_model(*node)));
        }
        return (false, MAX_SCORE - reward);
    }
    proof {
        lemma_children_models(node.children@);
        lemma_best_in_range(children_models(node.children@), m.num_visits, m.children.len() as int);
    }
    let b = best_child(&node.children, node.num_visits);
    proof {
        assert(b as int == chosen_child(m));
        assert(m.children[b as int] == node_model(node.children@[b as int]));
    }
    let mut tmp = blank_node();
    node.children.set_and_swap(b, &mut tmp);
    let ghost pre_children = node.children@;
    let res = run_node(&mut tmp, rs, ev);
    node.children.set_and_swap(b, &mut tmp);
    proof {
        lemma_children_models(node.children@);
    }
    if res.0 {
        proof {
            lemma_children_models(node.children@);
            lemma_children_models(old(node).children@);
            assert forall|j: int| 0 <= j < node.children@.len() implies #[trigger] children_models(
                node.children@,
            )[j] == children_models(old(node).children@)[j] by {
                if j != b as int {
                    assert(node.children@[j] == old(node).children@[j]);
                }
            }
            assert(children_models(node.children@) =~= children_models(old(node).children@));
            assert(node_model(*node) == node_model(*old(node)));
            assert(select_path(m) == seq![b as int] + select_path(m.children[b as int]));
            assert((seq![b as int] + select_path(m.children[b as int])).drop_first() =~= select_path(
                m.children[b as int],
            ));
        }
        return (true, 0);
    }
    proof {
        assert(select_path(m) == seq![b as int] + select_path(m.children[b as int]));
        assert((seq![b as int] + select_path(m.children[b as int])).drop_first() =~= select_path(
            m.children[b as int],
        ));
        lemma_iter_reward_bounds(*old(rs), *ev, m.children[b as int]);
    }
    node.num_visits = node.num_visits + 1;
    node.cumulative_score = node.cumulative_score + res.1;
    proof {
        assert(children_models(node.children@) =~= m.children.update(
            b as int,
            iter_node(*old(rs), *ev, m.children[b as int]).0,
        ));
        assert(node_model(*node) == iter_node(*old(rs), *ev, m).0);
        assert(node_wf(node_model(*node)));
    }
    (false, MAX_SCORE - res.1)
}

/// The Monte Carlo tree searcher: the capabilities and the owned tree.
pub struct MonteCarloTreeSearch<R: Ruleset, E: Evaluation> {
    pub ruleset: R,
    pub evaluation: E,
    pub root: Node,
}

impl<R: Ruleset, E: Evaluation> MonteCarloTreeSearch<R, E> {
    /// Make a searcher whose root holds a snapshot of `root` and no
    /// statistics yet.
    pub fn new(root: &Game, ruleset: R, evaluation: E) -> (r: MonteCarloTreeSearch<R, E>)
        ensures
            r.ruleset == ruleset,
            r.evaluation == evaluation,
            node_model(r.root) == (NodeModel {
                state: root@,
                you_dir: Direction::Up,
                children: Seq::empty(),
                num_visits: 0,
                cumulative_score: 0,
                simulated: false,
            }),
    {
        let n = Node {
            state: root.clone(),
            you_dir: Direction::Up,
            children: Vec::new(),
            num_visits: 0,
            cumulative_score: 0,
            simulated: false,
        };
        proof {
            assert(children_models(n.children@) =~= Seq::<NodeModel>::empty());
        }
        MonteCarloTreeSearch { ruleset, evaluation, root: n }
    }

    /// One iteration of select, expand, evaluate and backup. Returns true
    /// when the selected leaf's state is already terminal: a hint to the
    /// driver that further iterations along that path are unnecessary: in
    /// which case the tree is left untouched; otherwise the tree becomes
    /// exactly [`root_after`] of its old model.
    pub fn run(&mut self) -> (r: bool)
        requires
            node_wf(node_model(old(self).root)),
            counts_below(node_model(old(self).root), VISIT_CAP as nat),
        ensures
            final(self).ruleset == old(self).ruleset,
            final(self).evaluation == old(self).evaluation,
            r == !(old(self).ruleset.terminal_spec(
                node_at(
                    node_model(old(self).root),
                    select_path(node_model(old(self).root)),
                ).state.board,
            ) is Ongoing),
            r ==> node_model(final(self).root) == node_model(old(self).root),
            !r ==> node_model(final(self).root) == root_after(
                old(self).ruleset,
                old(self).evaluation,
                node_model(old(self).root),
            ),
            node_wf(node_model(final(self).root)),
    {
        let ghost m = node_model(old(self).root);
        if self.root.children.len() == 0 {
            proof {
                assert(children_models(self.root.children@) =~= Seq::<NodeModel>::empty());
                assert(select_path(m) =~= Seq::<int>::empty());
            }
            let over = self.ruleset.game_over(&self.root.state.board);
            match over {
                Terminal::Ongoing => {},
                _ => {
                    return true;
                },
            }
            let kids = expand_children(&mut self.ruleset, &self.root.state);
            let ghost kv = kids@;
            self.root.children = kids;
            self.root.simulated = true;
            proof {
                assert(self.root.children@ == kv);
                lemma_children_models(kv);
                assert(node_model(self.root) == root_after(old(self).ruleset, old(self).evaluation, m));
                assert forall|i: int| 0 <= i < node_model(self.root).children.len() implies node_wf(
                    #[trigger] node_model(self.root).children[i],
                ) by {
                    assert(node_model(self.root).children[i] == children_models(kv)[i]);
                }
                assert(node_wf(node_model(self.root)));
            }
            return false;
        }
        proof {
            lemma_children_models(self.root.children@);
            lemma_best_in_range(
                children_models(self.root.children@),
                m.num_visits,
                m.children.len() as int,
            );
        }
        let b = best_child(&self.root.children, self.root.num_visits);
        proof {
            assert(b as int == chosen_child(m));
            assert(m.children[b as int] == node_model(self.root.children@[b as int]));
        }
        let mut tmp = blank_node();
        self.root.children.set_and_swap(b, &mut tmp);
        let res = run_node(&mut tmp, &mut self.ruleset, &self.evaluation);
        self.root.children.set_and_swap(b, &mut tmp);
        proof {
            lemma_children_models(self.root.children@);
            assert(select_path(m) == seq![b as int] + select_path(m.children[b as int]));
            assert((seq![b as int] + select_path(m.children[b as int])).drop_first()
                =~= select_path(m.children[b as int]));
        }
        if res.0 {
            proof {
                lemma_children_models(self.root.children@);
                lemma_children_models(old(self).root.children@);
                assert forall|j: int| 0 <= j < self.root.children@.len() implies #[trigger] children_models(
                    self.root.children@,
                )[j] == children_models(old(self).root.children@)[j] by {
                    if j != b as int {
                        assert(self.root.children@[j] == old(self).root.children@[j]);
                    }
                }
                assert(children_models(self.root.children@) =~= children_models(
                    old(self).root.children@,
                ));
                assert(node_model(self.root) == node_model(old(self).root));
            }
            return true;
        }
        proof {
            assert(children_models(self.root.children@) =~= m.children.update(
                b as int,
                iter_node(old(self).ruleset, old(self).evaluation, m.children[b as int]).0,
            ));
            assert(node_model(self.root) == root_after(old(self).ruleset, old(self).evaluation, m));
            assert(node_wf(node_model(self.root)));
        }
        false
    }

    /// The decision derived from the root's children: the direction of the
    /// child with the highest visit count, earlier children winning ties,
    /// with the child's mean score as the decision's score.
    pub fn get_best_decision(&self) -> (d: Decision)
        requires
            node_model(self.root).children.len() >= 1,
            node_wf(node_model(self.root)),
        ensures
            ({
                let kids = node_model(self.root).children;
                let b = most_visited(kids, kids.len() as int);
                &&& d.direction == kids[b].you_dir
                &&& (kids[b].num_visits > 0 ==> d.score as int == kids[b].cumulative_score as int
                    / kids[b].num_visits as int)
                &&& (kids[b].num_visits == 0 ==> d.score == 0)
                &&& forall|j: int| 0 <= j < kids.len() ==> (#[trigger] kids[j]).num_visits
                    <= kids[b].num_visits
            }),
    {
        proof {
            lemma_children_models(self.root.children@);
            lemma_most_visited_range(
                children_models(self.root.children@),
                self.root.children@.len() as int,
            );
            lemma_most_visited_max(
                children_models(self.root.children@),
                self.root.children@.len() as int,
            );
        }
        let n = self.root.children.len();
        let mut best: usize = 0;
        let mut k: usize = 1;
        while k < n
            invariant
                1 <= k <= n || (k == 1 && n >= 1),
                n == self.root.children@.len(),
                best < k,
                children_models(self.root.children@).len() == n,
                forall|i: int| 0 <= i < n ==> #[trigger] children_models(self.root.children@)[i]
                    == node_model(self.root.children@[i]),
                best as int == most_visited(children_models(self.root.children@), k as int),
            decreases n - k,
        {
            if self.root.children[k].num_visits > self.root.children[best].num_visits {
                best = k;
            }
            k += 1;
        }
        let visits = self.root.children[best].num_visits;
        let score = if visits > 0 {
            self.root.children[best].cumulative_score / visits
        } else {
            0
        };
        Decision { direction: self.root.children[best].you_dir, score }
    }
}

/// The index of the child with the highest visit count among the first `k`
/// children (earlier children win ties): the deterministic decision policy.
pub open spec fn most_visited(children: Seq<NodeModel>, k: int) -> int
    decreases k,
{
    if k <= 1 {
        0
    } else {
        let b = most_visited(children, k - 1);
        if children[k - 1].num_visits > children[b].num_visits {
            k - 1
        } else {
            b
        }
    }
}

/// The most-visited index over a nonempty prefix is in range.
pub proof fn lemma_most_visited_range(children: Seq<NodeModel>, k: int)
    requires
        k >= 1,
    ensures
        0 <= most_visited(children, k) < k,
    decreases k,
{
    if k > 1 {
        lemma_most_visited_range(children, k - 1);
    }
}

/// The most-visited index attains the maximum visit count over the prefix.
pub proof fn lemma_most_visited_max(children: Seq<NodeModel>, k: int)
    requires
        k >= 1,
    ensures
        forall|j: int|
            0 <= j < k ==> (#[trigger] children[j]).num_visits <= children[most_visited(
                children,
                k,
            )].num_visits,
    decreases k,
{
    if k > 1 {
        lemma_most_visited_max(children, k - 1);
    }
}

} // verus!
