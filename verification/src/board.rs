//! Geometry primitives and the per-tick board transition and elimination
//! logic.
//!
//! Every executable step is specified against a mathematical model of the
//! board ([`BoardModel`]), reached through the `view` (`@`) of the concrete
//! types. The transition sub-steps (movement, hazard damage, feeding, and the
//! three eliminations) each have an exact model-level counterpart
//! ([`movement_step`], [`hazard_step`], [`feeding_step`], [`oob_step`],
//! [`starvation_step`], [`collision_step`]), and a full tick is their
//! composition, [`apply_moves`].

use vstd::prelude::*;
use vstd::pervasive::VecAdditionalExecFns;

verus! {

/// Base coordinate type, with the bottom left of the board being (0, 0).
/// Negative values are permitted for convenience, especially for detecting
/// out-of-bounds movement in the negative directions.
#[derive(PartialEq, Eq, Structural, Debug, Clone, Copy)]
pub struct Coordinate {
    pub x: i32,
    pub y: i32,
}

/// One of the four directions an agent can move on a tick.
#[derive(PartialEq, Eq, Structural, Debug, Clone, Copy)]
pub enum Direction {
    Up,
    Down,
    Left,
    Right,
}

/// A holder for a move made by a snake.
#[derive(PartialEq, Eq, Structural, Debug, Clone, Copy)]
pub struct SnakeMove {
    /// ID of the snake
    pub id: usize,
    /// Direction the snake is moving.
    pub direction: Direction,
}

/// A snake-like agent: an identifier, a capped integer health, and a body
/// held as an ordered sequence of cells whose first element is the head.
#[derive(Debug)]
pub struct Snake {
    pub id: usize,
    pub health: i64,
    pub body: Vec<Coordinate>,
}

/// The board container.
#[derive(Debug)]
pub struct Board {
    /// Height of the board
    pub height: u32,
    /// Width of the board
    pub width: u32,
    /// The hazards
    pub hazards: Vec<Coordinate>,
    /// The hazard damage that gets applied per hazard piece. It is signed
    /// because health can also be increased by hazards (healing pools).
    pub hazard_damage: i32,
    /// All of the food that is on the board
    pub food: Vec<Coordinate>,
    /// The snakes that are currently alive
    pub snakes: Vec<Snake>,
}

/// Model of a coordinate: a pair of unbounded integers.
pub ghost struct CoordModel {
    pub x: int,
    pub y: int,
}

/// Model of one agent's move on a tick.
pub ghost struct MoveModel {
    pub id: int,
    pub direction: Direction,
}

/// Model of a snake: identifier, health and body as unbounded values.
pub ghost struct SnakeModel {
    pub id: int,
    pub health: int,
    pub body: Seq<CoordModel>,
}

/// Model of a whole board.
pub ghost struct BoardModel {
    pub height: int,
    pub width: int,
    pub hazards: Seq<CoordModel>,
    pub hazard_damage: int,
    pub food: Seq<CoordModel>,
    pub snakes: Seq<SnakeModel>,
}

impl Clone for Snake {
    /// A clone carries the same model.
    fn clone(&self) -> (r: Self)
        ensures
            r@ == self@,
    {
        let body = self.body.clone();
        proof {
            assert(body@ =~= self.body@);
        }
        let r = Snake { id: self.id, health: self.health, body };
        proof {
            assert(r@ == self@);
        }
        r
    }
}

impl Clone for Board {
    /// A clone carries the same model.
    fn clone(&self) -> (r: Self)
        ensures
            r@ == self@,
    {
        let hazards = self.hazards.clone();
        let food = self.food.clone();
        let snakes = self.snakes.clone();
        proof {
            assert(hazards@ =~= self.hazards@);
            assert(food@ =~= self.food@);
            assert forall|i: int| 0 <= i < snakes@.len() implies snakes@[i]@ == self.snakes@[i]@ by {
                assert(cloned::<Snake>(self.snakes@[i], snakes@[i]));
            }
        }
        let r = Board {
            height: self.height,
            width: self.width,
            hazards,
            hazard_damage: self.hazard_damage,
            food,
            snakes,
        };
        proof {
            assert(r@.hazards =~= self@.hazards);
            assert(r@.food =~= self@.food);
            assert(r@.snakes =~= self@.snakes);
            assert(r@ == self@);
        }
        r
    }
}

impl View for Coordinate {
    type V = CoordModel;

    open spec fn view(&self) -> CoordModel {
        CoordModel { x: self.x as int, y: self.y as int }
    }
}

impl View for SnakeMove {
    type V = MoveModel;

    open spec fn view(&self) -> MoveModel {
        MoveModel { id: self.id as int, direction: self.direction }
    }
}

/// The sequence of coordinate models carried by a sequence of coordinates.
pub open spec fn coords_view(coords: Seq<Coordinate>) -> Seq<CoordModel> {
    coords.map_values(|c: Coordinate| c@)
}

/// The sequence of snake models carried by a sequence of snakes.
pub open spec fn snakes_view(snakes: Seq<Snake>) -> Seq<SnakeModel> {
    snakes.map_values(|s: Snake| s@)
}

impl View for Snake {
    type V = SnakeModel;

    open spec fn view(&self) -> SnakeModel {
        SnakeModel {
            id: self.id as int,
            health: self.health as int,
            body: coords_view(self.body@),
        }
    }
}

impl View for Board {
    type V = BoardModel;

    open spec fn view(&self) -> BoardModel {
        BoardModel {
            height: self.height as int,
            width: self.width as int,
            hazards: coords_view(self.hazards@),
            hazard_damage: self.hazard_damage as int,
            food: coords_view(self.food@),
            snakes: snakes_view(self.snakes@),
        }
    }
}

/// The sequence of move models carried by a sequence of concrete moves.
pub open spec fn moves_view(moves: Seq<SnakeMove>) -> Seq<MoveModel> {
    moves.map_values(|m: SnakeMove| m@)
}

/// The unit offset a direction stands for.
pub open spec fn dir_offset(d: Direction) -> CoordModel {
    match d {
        Direction::Up => CoordModel { x: 0, y: 1 },
        Direction::Down => CoordModel { x: 0, y: -1 },
        Direction::Left => CoordModel { x: -1, y: 0 },
        Direction::Right => CoordModel { x: 1, y: 0 },
    }
}

/// A coordinate shifted one cell in a direction.
pub open spec fn coord_step(c: CoordModel, d: Direction) -> CoordModel {
    CoordModel { x: c.x + dir_offset(d).x, y: c.y + dir_offset(d).y }
}

/// Whether some entry of `moves` is for the agent `id`.
pub open spec fn has_move_for(moves: Seq<MoveModel>, id: int) -> bool {
    exists|k: int| 0 <= k < moves.len() && moves[k].id == id
}

/// The direction of the first entry of `moves` for the agent `id`
/// (`Direction::Up` if there is none; callers require one to exist).
pub open spec fn first_move_dir(moves: Seq<MoveModel>, id: int) -> Direction
    decreases moves.len(),
{
    if moves.len() == 0 {
        Direction::Up
    } else if moves[0].id == id {
        moves[0].direction
    } else {
        first_move_dir(moves.drop_first(), id)
    }
}

/// The four unconditional move entries for the agent `id`, in the fixed
/// generation order Up, Right, Left, Down.
pub open spec fn four_moves(id: int) -> Seq<MoveModel> {
    seq![
        MoveModel { id: id, direction: Direction::Up },
        MoveModel { id: id, direction: Direction::Right },
        MoveModel { id: id, direction: Direction::Left },
        MoveModel { id: id, direction: Direction::Down },
    ]
}

/// Whether `moves` holds an entry for every snake of `snakes`.
pub open spec fn covers(moves: Seq<MoveModel>, snakes: Seq<SnakeModel>) -> bool {
    forall|i: int| 0 <= i < snakes.len() ==> has_move_for(moves, snakes[i].id)
}

/// One snake after a move: the tail cell is removed, the new head (old head
/// shifted by the direction) is prepended, and health drops by one.
pub open spec fn snake_moved(s: SnakeModel, d: Direction) -> SnakeModel {
    SnakeModel {
        id: s.id,
        health: s.health - 1,
        body: seq![coord_step(s.body[0], d)] + s.body.drop_last(),
    }
}

/// All snakes after their moves of this tick.
pub open spec fn moved_snakes(snakes: Seq<SnakeModel>, moves: Seq<MoveModel>) -> Seq<SnakeModel>
    decreases snakes.len(),
{
    if snakes.len() == 0 {
        Seq::empty()
    } else {
        moved_snakes(snakes.drop_last(), moves).push(
            snake_moved(snakes.last(), first_move_dir(moves, snakes.last().id)),
        )
    }
}

/// Movement sub-step of a tick.
pub open spec fn movement_step(b: BoardModel, moves: Seq<MoveModel>) -> BoardModel {
    BoardModel { snakes: moved_snakes(b.snakes, moves), ..b }
}

/// Health capped at the maximum of 100.
pub open spec fn cap100(h: int) -> int {
    if h > 100 {
        100
    } else {
        h
    }
}

/// A health value after the hazard cells are applied in order: each hazard
/// cell equal to `head` subtracts `dmg` and re-caps the result at 100.
pub open spec fn health_after_hazards(h: int, head: CoordModel, hazards: Seq<CoordModel>, dmg: int) -> int
    decreases hazards.len(),
{
    if hazards.len() == 0 {
        h
    } else {
        let prev = health_after_hazards(h, head, hazards.drop_last(), dmg);
        if hazards.last() == head {
            cap100(prev - dmg)
        } else {
            prev
        }
    }
}

/// All snakes after hazard damage on their heads.
pub open spec fn hazarded_snakes(snakes: Seq<SnakeModel>, hazards: Seq<CoordModel>, dmg: int) -> Seq<SnakeModel>
    decreases snakes.len(),
{
    if snakes.len() == 0 {
        Seq::empty()
    } else {
        let s = snakes.last();
        hazarded_snakes(snakes.drop_last(), hazards, dmg).push(
            SnakeModel { health: health_after_hazards(s.health, s.body[0], hazards, dmg), ..s },
        )
    }
}

/// Hazard-damage sub-step of a tick.
pub open spec fn hazard_step(b: BoardModel) -> BoardModel {
    BoardModel { snakes: hazarded_snakes(b.snakes, b.hazards, b.hazard_damage), ..b }
}

/// One feeding: the tail cell is duplicated and health is reset to 100.
pub open spec fn fed_once(s: SnakeModel) -> SnakeModel {
    SnakeModel { id: s.id, health: 100, body: s.body.push(s.body.last()) }
}

/// A snake after all food cells are applied in order: each food cell equal to
/// the snake's head feeds it once. The head cell never changes while feeding,
/// so the matches are against the original head.
pub open spec fn snake_fed(s: SnakeModel, food: Seq<CoordModel>) -> SnakeModel
    decreases food.len(),
{
    if food.len() == 0 {
        s
    } else {
        let prev = snake_fed(s, food.drop_last());
        if food.last() == s.body[0] {
            fed_once(prev)
        } else {
            prev
        }
    }
}

/// All snakes after feeding.
pub open spec fn fed_snakes(snakes: Seq<SnakeModel>, food: Seq<CoordModel>) -> Seq<SnakeModel>
    decreases snakes.len(),
{
    if snakes.len() == 0 {
        Seq::empty()
    } else {
        fed_snakes(snakes.drop_last(), food).push(snake_fed(snakes.last(), food))
    }
}

/// Whether any snake's head sits on the cell `f`.
pub open spec fn eaten_by_any(f: CoordModel, snakes: Seq<SnakeModel>) -> bool {
    exists|j: int| 0 <= j < snakes.len() && snakes[j].body[0] == f
}

/// The food cells that no snake's head sits on, in order.
pub open spec fn kept_food(food: Seq<CoordModel>, snakes: Seq<SnakeModel>) -> Seq<CoordModel>
    decreases food.len(),
{
    if food.len() == 0 {
        Seq::empty()
    } else {
        let rest = kept_food(food.drop_last(), snakes);
        if eaten_by_any(food.last(), snakes) {
            rest
        } else {
            rest.push(food.last())
        }
    }
}

/// Feeding sub-step of a tick: snakes on food are fed, eaten food is removed.
pub open spec fn feeding_step(b: BoardModel) -> BoardModel {
    BoardModel {
        snakes: fed_snakes(b.snakes, b.food),
        food: kept_food(b.food, b.snakes),
        ..b
    }
}

/// Whether a snake's head lies outside `[0, w) x [0, h)`.
pub open spec fn snake_oob(s: SnakeModel, w: int, h: int) -> bool {
    s.body[0].x < 0 || s.body[0].x >= w || s.body[0].y < 0 || s.body[0].y >= h
}

/// The snakes whose heads are in bounds, in order.
pub open spec fn kept_in_bounds(snakes: Seq<SnakeModel>, w: int, h: int) -> Seq<SnakeModel>
    decreases snakes.len(),
{
    if snakes.len() == 0 {
        Seq::empty()
    } else {
        let rest = kept_in_bounds(snakes.drop_last(), w, h);
        if snake_oob(snakes.last(), w, h) {
            rest
        } else {
            rest.push(snakes.last())
        }
    }
}

/// Out-of-bounds elimination sub-step of a tick.
pub open spec fn oob_step(b: BoardModel) -> BoardModel {
    BoardModel { snakes: kept_in_bounds(b.snakes, b.width, b.height), ..b }
}

/// The snakes with health above zero, in order.
pub open spec fn kept_healthy(snakes: Seq<SnakeModel>) -> Seq<SnakeModel>
    decreases snakes.len(),
{
    if snakes.len() == 0 {
        Seq::empty()
    } else {
        let rest = kept_healthy(snakes.drop_last());
        if snakes.last().health <= 0 {
            rest
        } else {
            rest.push(snakes.last())
        }
    }
}

/// Starvation elimination sub-step of a tick.
pub open spec fn starvation_step(b: BoardModel) -> BoardModel {
    BoardModel { snakes: kept_healthy(b.snakes), ..b }
}

/// Whether `s1`'s head occupies a non-head body cell of `s2`.
pub open spec fn body_hit(s1: SnakeModel, s2: SnakeModel) -> bool {
    exists|k: int| 1 <= k < s2.body.len() && s2.body[k] == s1.body[0]
}

/// Whether `s1` and `s2` are in a head-to-head collision that `s1` loses:
/// the heads coincide and `s1` is no longer than `s2`.
pub open spec fn lost_head_to(s1: SnakeModel, s2: SnakeModel) -> bool {
    s1.body[0] == s2.body[0] && s1.body.len() <= s2.body.len()
}

/// Whether the snake `s` is eliminated by a collision, judged against the
/// full post-movement snapshot `all`: its head is in its own body, in another
/// snake's body, or in a head-to-head it does not strictly win.
pub open spec fn collision_eliminated(s: SnakeModel, all: Seq<SnakeModel>) -> bool {
    body_hit(s, s) || exists|j: int|
        0 <= j < all.len() && all[j].id != s.id && (body_hit(s, all[j]) || lost_head_to(
            s,
            all[j],
        ))
}

/// The snakes of `snakes` not eliminated by a collision, judged against the
/// unchanging snapshot `all`, in order.
pub open spec fn kept_uncollided(snakes: Seq<SnakeModel>, all: Seq<SnakeModel>) -> Seq<SnakeModel>
    decreases snakes.len(),
{
    if snakes.len() == 0 {
        Seq::empty()
    } else {
        let rest = kept_uncollided(snakes.drop_last(), all);
        if collision_eliminated(snakes.last(), all) {
            rest
        } else {
            rest.push(snakes.last())
        }
    }
}

/// Collision elimination sub-step of a tick. All eliminations are computed
/// against the same snapshot and applied together (simultaneous removal).
pub open spec fn collision_step(b: BoardModel) -> BoardModel {
    BoardModel { snakes: kept_uncollided(b.snakes, b.snakes), ..b }
}

/// The truncating (Rust-style) remainder of `a` by a positive `b`: the
/// result keeps the sign of `a`.
pub open spec fn trunc_rem(a: int, b: int) -> int {
    if a >= 0 {
        a % b
    } else {
        -((-a) % b)
    }
}

/// A snake with its head wrapped by the board's torus convention: each head
/// component is replaced by its truncating remainder modulo the dimension
/// less one.
pub open spec fn wrapped_snake(s: SnakeModel, w: int, h: int) -> SnakeModel {
    SnakeModel {
        body: s.body.update(
            0,
            CoordModel { x: trunc_rem(s.body[0].x, w - 1), y: trunc_rem(s.body[0].y, h - 1) },
        ),
        ..s
    }
}

/// All snakes with their heads wrapped.
pub open spec fn wrapped_snakes(snakes: Seq<SnakeModel>, w: int, h: int) -> Seq<SnakeModel>
    decreases snakes.len(),
{
    if snakes.len() == 0 {
        Seq::empty()
    } else {
        wrapped_snakes(snakes.drop_last(), w, h).push(wrapped_snake(snakes.last(), w, h))
    }
}

/// Head-wrapping step, for rule variants with a wrapped board.
pub open spec fn wrap_step(b: BoardModel) -> BoardModel {
    BoardModel { snakes: wrapped_snakes(b.snakes, b.width, b.height), ..b }
}

/// A full tick: movement, hazard damage, feeding, then the out-of-bounds,
/// starvation and collision eliminations, in this exact order.
pub open spec fn apply_moves(b: BoardModel, moves: Seq<MoveModel>) -> BoardModel {
    collision_step(starvation_step(oob_step(feeding_step(hazard_step(movement_step(b, moves))))))
}

/// Pointwise characterization of [`moved_snakes`]: each snake is moved in
/// the direction of its first move entry.
pub proof fn lemma_moved_snakes(snakes: Seq<SnakeModel>, moves: Seq<MoveModel>)
    ensures
        moved_snakes(snakes, moves).len() == snakes.len(),
        forall|i: int| 0 <= i < snakes.len() ==> #[trigger] moved_snakes(snakes, moves)[i]
            == snake_moved(snakes[i], first_move_dir(moves, snakes[i].id)),
    decreases snakes.len(),
{
    if snakes.len() > 0 {
        lemma_moved_snakes(snakes.drop_last(), moves);
    }
}

/// Pointwise characterization of [`hazarded_snakes`].
pub proof fn lemma_hazarded_snakes(snakes: Seq<SnakeModel>, hazards: Seq<CoordModel>, dmg: int)
    ensures
        hazarded_snakes(snakes, hazards, dmg).len() == snakes.len(),
        forall|i: int| 0 <= i < snakes.len() ==> #[trigger] hazarded_snakes(snakes, hazards, dmg)[i]
            == (SnakeModel {
            health: health_after_hazards(snakes[i].health, snakes[i].body[0], hazards, dmg),
            ..snakes[i]
        }),
    decreases snakes.len(),
{
    if snakes.len() > 0 {
        lemma_hazarded_snakes(snakes.drop_last(), hazards, dmg);
    }
}

/// Pointwise characterization of [`fed_snakes`].
pub proof fn lemma_fed_snakes(snakes: Seq<SnakeModel>, food: Seq<CoordModel>)
    ensures
        fed_snakes(snakes, food).len() == snakes.len(),
        forall|i: int| 0 <= i < snakes.len() ==> #[trigger] fed_snakes(snakes, food)[i]
            == snake_fed(snakes[i], food),
    decreases snakes.len(),
{
    if snakes.len() > 0 {
        lemma_fed_snakes(snakes.drop_last(), food);
    }
}

/// Hazard damage never leaves health above the cap of 100 when it starts
/// there.
pub proof fn lemma_hazard_health_cap(h: int, head: CoordModel, hazards: Seq<CoordModel>, dmg: int)
    requires
        h <= 100,
    ensures
        health_after_hazards(h, head, hazards, dmg) <= 100,
    decreases hazards.len(),
{
    if hazards.len() > 0 {
        lemma_hazard_health_cap(h, head, hazards.drop_last(), dmg);
    }
}

/// What feeding does to one snake: the id and head never change, the body
/// never shrinks, and health is either untouched or reset to exactly 100.
pub proof fn lemma_snake_fed_props(s: SnakeModel, food: Seq<CoordModel>)
    requires
        s.body.len() >= 1,
    ensures
        snake_fed(s, food).id == s.id,
        snake_fed(s, food).body.len() >= s.body.len(),
        snake_fed(s, food).body[0] == s.body[0],
        snake_fed(s, food).health == s.health || snake_fed(s, food).health == 100,
    decreases food.len(),
{
    if food.len() > 0 {
        lemma_snake_fed_props(s, food.drop_last());
    }
}

/// Every survivor of the out-of-bounds elimination is one of the input
/// snakes and has its head in bounds.
pub proof fn lemma_kept_in_bounds_props(snakes: Seq<SnakeModel>, w: int, h: int)
    ensures
        kept_in_bounds(snakes, w, h).len() <= snakes.len(),
        forall|k: int| 0 <= k < kept_in_bounds(snakes, w, h).len() ==> !snake_oob(
            #[trigger] kept_in_bounds(snakes, w, h)[k],
            w,
            h,
        ) && exists|i: int| 0 <= i < snakes.len() && kept_in_bounds(snakes, w, h)[k] == snakes[i],
    decreases snakes.len(),
{
    if snakes.len() > 0 {
        lemma_kept_in_bounds_props(snakes.drop_last(), w, h);
    }
}

/// Every survivor of the starvation elimination is one of the input snakes
/// and has positive health.
pub proof fn lemma_kept_healthy_props(snakes: Seq<SnakeModel>)
    ensures
        kept_healthy(snakes).len() <= snakes.len(),
        forall|k: int| 0 <= k < kept_healthy(snakes).len() ==> (#[trigger] kept_healthy(
            snakes,
        )[k]).health > 0 && exists|i: int| 0 <= i < snakes.len() && kept_healthy(snakes)[k]
            == snakes[i],
    decreases snakes.len(),
{
    if snakes.len() > 0 {
        lemma_kept_healthy_props(snakes.drop_last());
    }
}

/// Every survivor of the collision elimination is one of the input snakes
/// and is not collision-eliminated against the snapshot.
pub proof fn lemma_kept_uncollided_props(snakes: Seq<SnakeModel>, all: Seq<SnakeModel>)
    ensures
        kept_uncollided(snakes, all).len() <= snakes.len(),
        forall|k: int| 0 <= k < kept_uncollided(snakes, all).len() ==> !collision_eliminated(
            #[trigger] kept_uncollided(snakes, all)[k],
            all,
        ) && exists|i: int| 0 <= i < snakes.len() && kept_uncollided(snakes, all)[k] == snakes[i],
    decreases snakes.len(),
{
    if snakes.len() > 0 {
        lemma_kept_uncollided_props(snakes.drop_last(), all);
    }
}

/// A full tick leaves a ready board ready: the surviving snakes are
/// well-formed, their heads are in bounds, their healths are positive, and
/// the board frame (dimensions, hazards, damage) is unchanged.
pub proof fn lemma_apply_moves_ready(b: BoardModel, mv: Seq<MoveModel>)
    requires
        board_ready(b),
    ensures
        board_ready(apply_moves(b, mv)),
        apply_moves(b, mv).width == b.width,
        apply_moves(b, mv).height == b.height,
        apply_moves(b, mv).hazards == b.hazards,
        apply_moves(b, mv).hazard_damage == b.hazard_damage,
{
    let b1 = movement_step(b, mv);
    lemma_moved_snakes(b.snakes, mv);
    assert forall|i: int| 0 <= i < b1.snakes.len() implies (#[trigger] b1.snakes[i]).body.len() >= 1
        && b1.snakes[i].health <= 99 by {
        assert(b1.snakes[i] == snake_moved(b.snakes[i], first_move_dir(mv, b.snakes[i].id)));
        assert(snake_wf(b.snakes[i]));
    }
    let b2 = hazard_step(b1);
    lemma_hazarded_snakes(b1.snakes, b1.hazards, b1.hazard_damage);
    assert forall|i: int| 0 <= i < b2.snakes.len() implies (#[trigger] b2.snakes[i]).body.len() >= 1
        && b2.snakes[i].health <= 100 by {
        lemma_hazard_health_cap(
            b1.snakes[i].health,
            b1.snakes[i].body[0],
            b1.hazards,
            b1.hazard_damage,
        );
    }
    let b3 = feeding_step(b2);
    lemma_fed_snakes(b2.snakes, b2.food);
    assert forall|i: int| 0 <= i < b3.snakes.len() implies (#[trigger] b3.snakes[i]).body.len() >= 1
        && b3.snakes[i].health <= 100 by {
        lemma_snake_fed_props(b2.snakes[i], b2.food);
    }
    let b4 = oob_step(b3);
    lemma_kept_in_bounds_props(b3.snakes, b3.width, b3.height);
    assert forall|k: int| 0 <= k < b4.snakes.len() implies snake_wf(#[trigger] b4.snakes[k])
        && !snake_oob(b4.snakes[k], b.width, b.height) by {
        let i = choose|i: int| 0 <= i < b3.snakes.len() && kept_in_bounds(
            b3.snakes,
            b3.width,
            b3.height,
        )[k] == b3.snakes[i];
        assert(b4.snakes[k] == b3.snakes[i]);
    }
    let b5 = starvation_step(b4);
    lemma_kept_healthy_props(b4.snakes);
    assert forall|k: int| 0 <= k < b5.snakes.len() implies snake_wf(#[trigger] b5.snakes[k])
        && !snake_oob(b5.snakes[k], b.width, b.height) && b5.snakes[k].health >= 1 by {
        let i = choose|i: int| 0 <= i < b4.snakes.len() && kept_healthy(b4.snakes)[k]
            == b4.snakes[i];
        assert(b5.snakes[k] == b4.snakes[i]);
    }
    let b6 = collision_step(b5);
    lemma_kept_uncollided_props(b5.snakes, b5.snakes);
    assert forall|k: int| 0 <= k < b6.snakes.len() implies snake_wf(#[trigger] b6.snakes[k])
        && !snake_oob(b6.snakes[k], b.width, b.height) && b6.snakes[k].health >= 1 by {
        let i = choose|i: int| 0 <= i < b5.snakes.len() && kept_uncollided(b5.snakes, b5.snakes)[k]
            == b5.snakes[i];
        assert(b6.snakes[k] == b5.snakes[i]);
    }
    assert(board_ready(b6));
}

/// Whether the snakes carry pairwise distinct identifiers.
pub open spec fn distinct_ids(snakes: Seq<SnakeModel>) -> bool {
    forall|i: int, j: int| 0 <= i < j < snakes.len() ==> snakes[i].id != snakes[j].id
}

/// The out-of-bounds and starvation eliminations commute on sequences: each
/// reads only the snake it judges, so they act as independent filters.
proof fn lemma_filters_commute_seq(s: Seq<SnakeModel>, w: int, h: int)
    ensures
        kept_healthy(kept_in_bounds(s, w, h)) =~= kept_in_bounds(kept_healthy(s), w, h),
    decreases s.len(),
{
    if s.len() > 0 {
        lemma_filters_commute_seq(s.drop_last(), w, h);
        let d = s.drop_last();
        assert((kept_in_bounds(d, w, h).push(s.last())).drop_last() =~= kept_in_bounds(d, w, h));
        assert((kept_healthy(d).push(s.last())).drop_last() =~= kept_healthy(d));
    }
}

/// Elimination ordering: the out-of-bounds and starvation eliminations are
/// independent, order-insensitive filters over the same post-movement
/// snapshot, not a cascade: applying them in either order leaves the same
/// board, also for an agent that is at once out of bounds and out of health.
pub proof fn lemma_elims_order_insensitive(b: BoardModel)
    ensures
        starvation_step(oob_step(b)) == oob_step(starvation_step(b)),
{
    lemma_filters_commute_seq(b.snakes, b.width, b.height);
    assert(starvation_step(oob_step(b)).snakes =~= oob_step(starvation_step(b)).snakes);
}

/// No snake of `snakes` has an id that `all` lacks: helper: every survivor
/// of the collision step carries the id of the input snake it is.
proof fn lemma_collision_survivor_ids(snakes: Seq<SnakeModel>, all: Seq<SnakeModel>, id: int)
    requires
        forall|m: int| 0 <= m < snakes.len() && (#[trigger] snakes[m]).id == id
            ==> collision_eliminated(snakes[m], all),
    ensures
        forall|k: int| 0 <= k < kept_uncollided(snakes, all).len() ==> (#[trigger] kept_uncollided(
            snakes,
            all,
        )[k]).id != id,
    decreases snakes.len(),
{
    if snakes.len() > 0 {
        assert forall|m: int|
            0 <= m < snakes.drop_last().len() && (#[trigger] snakes.drop_last()[m]).id
                == id implies collision_eliminated(snakes.drop_last()[m], all) by {
            assert(snakes.drop_last()[m] == snakes[m]);
        }
        lemma_collision_survivor_ids(snakes.drop_last(), all, id);
        assert(snakes.last() == snakes[snakes.len() - 1]);
        let out = kept_uncollided(snakes, all);
        let rest = kept_uncollided(snakes.drop_last(), all);
        if !collision_eliminated(snakes.last(), all) {
            assert(out == rest.push(snakes.last()));
            assert(snakes.last().id != id);
        }
        assert forall|k: int| 0 <= k < out.len() implies (#[trigger] out[k]).id != id by {
            if k < rest.len() {
                assert(out[k] == rest[k]);
            }
        }
    }
}

/// Head-to-head tie: two agents of equal length whose heads coincide are
/// both eliminated in the same tick: no snake with either id survives the
/// collision step.
pub proof fn lemma_head_to_head_tie(b: BoardModel, i: int, j: int)
    requires
        distinct_ids(b.snakes),
        0 <= i < b.snakes.len(),
        0 <= j < b.snakes.len(),
        b.snakes[i].id != b.snakes[j].id,
        b.snakes[i].body.len() >= 1,
        b.snakes[j].body.len() >= 1,
        b.snakes[i].body[0] == b.snakes[j].body[0],
        b.snakes[i].body.len() == b.snakes[j].body.len(),
    ensures
        forall|k: int| 0 <= k < collision_step(b).snakes.len() ==> (#[trigger] collision_step(
            b,
        ).snakes[k]).id != b.snakes[i].id && collision_step(b).snakes[k].id != b.snakes[j].id,
{
    assert(lost_head_to(b.snakes[i], b.snakes[j]));
    assert(lost_head_to(b.snakes[j], b.snakes[i]));
    assert(collision_eliminated(b.snakes[i], b.snakes));
    assert(collision_eliminated(b.snakes[j], b.snakes));
    assert forall|k: int| 0 <= k < collision_step(b).snakes.len() implies (
    #[trigger] collision_step(b).snakes[k]).id != b.snakes[i].id && collision_step(b).snakes[k].id
        != b.snakes[j].id by {
        lemma_kept_uncollided_props(b.snakes, b.snakes);
        let m = choose|m: int| 0 <= m < b.snakes.len() && kept_uncollided(b.snakes, b.snakes)[k]
            == b.snakes[m];
        if b.snakes[m].id == b.snakes[i].id {
            if m < i {
                assert(b.snakes[m].id != b.snakes[i].id);
            } else if i < m {
                assert(b.snakes[i].id != b.snakes[m].id);
            }
            assert(m == i);
        }
        if b.snakes[m].id == b.snakes[j].id {
            if m < j {
                assert(b.snakes[m].id != b.snakes[j].id);
            } else if j < m {
                assert(b.snakes[j].id != b.snakes[m].id);
            }
            assert(m == j);
        }
    }
}

/// Head-to-head with a strictly longer agent: on a two-agent board where the
/// heads coincide, the longer agent is not in any body collision, and the
/// shorter is strictly shorter, exactly the longer agent is left alive.
pub proof fn lemma_head_to_head_longer_survives(b: BoardModel)
    requires
        b.snakes.len() == 2,
        b.snakes[0].id != b.snakes[1].id,
        b.snakes[0].body.len() >= 1,
        b.snakes[1].body.len() >= 1,
        b.snakes[0].body[0] == b.snakes[1].body[0],
        b.snakes[0].body.len() > b.snakes[1].body.len(),
        !body_hit(b.snakes[0], b.snakes[0]),
        !body_hit(b.snakes[0], b.snakes[1]),
    ensures
        collision_step(b).snakes =~= seq![b.snakes[0]],
{
    let s0 = b.snakes[0];
    let s1 = b.snakes[1];
    assert(lost_head_to(s1, s0));
    assert(collision_eliminated(s1, b.snakes));
    assert(!lost_head_to(s0, s1));
    assert forall|m: int| 0 <= m < b.snakes.len() && b.snakes[m].id != s0.id implies b.snakes[m]
        == s1 by {}
    assert(!collision_eliminated(s0, b.snakes));
    assert(b.snakes.drop_last() =~= seq![s0]);
    assert(seq![s0].drop_last() =~= Seq::<SnakeModel>::empty());
    assert(seq![s0].last() == s0);
    assert(Seq::<SnakeModel>::empty().push(s0) =~= seq![s0]);
    assert(kept_uncollided(Seq::<SnakeModel>::empty(), b.snakes) =~= Seq::<SnakeModel>::empty());
    assert(seq![s0].drop_last() == Seq::<SnakeModel>::empty());
    assert(kept_uncollided(seq![s0], b.snakes) =~= seq![s0]);
    assert(kept_uncollided(b.snakes, b.snakes) =~= seq![s0]);
}

/// Feeding a snake whose head matches no food cell leaves it unchanged.
proof fn lemma_snake_fed_none(s: SnakeModel, food: Seq<CoordModel>)
    requires
        forall|k: int| 0 <= k < food.len() ==> #[trigger] food[k] != s.body[0],
    ensures
        snake_fed(s, food) == s,
    decreases food.len(),
{
    if food.len() > 0 {
        lemma_snake_fed_none(s, food.drop_last());
    }
}

/// Feeding a snake whose head matches exactly one food cell feeds it exactly
/// once.
proof fn lemma_snake_fed_one(s: SnakeModel, food: Seq<CoordModel>, k: int)
    requires
        0 <= k < food.len(),
        food[k] == s.body[0],
        forall|k2: int| 0 <= k2 < food.len() && k2 != k ==> #[trigger] food[k2] != s.body[0],
    ensures
        snake_fed(s, food) == fed_once(s),
    decreases food.len(),
{
    if k == food.len() - 1 {
        lemma_snake_fed_none(s, food.drop_last());
    } else {
        lemma_snake_fed_one(s, food.drop_last(), k);
    }
}

/// Feeding: an agent whose head lands on exactly one food cell comes out of
/// the feeding step with its body one cell longer and its health exactly
/// 100, regardless of prior health.
pub proof fn lemma_feeding(b: BoardModel, i: int, k: int)
    requires
        0 <= i < b.snakes.len(),
        b.snakes[i].body.len() >= 1,
        0 <= k < b.food.len(),
        b.food[k] == b.snakes[i].body[0],
        forall|k2: int| 0 <= k2 < b.food.len() && k2 != k ==> #[trigger] b.food[k2]
            != b.snakes[i].body[0],
    ensures
        feeding_step(b).snakes[i].health == 100,
        feeding_step(b).snakes[i].body.len() == b.snakes[i].body.len() + 1,
        feeding_step(b).snakes[i].id == b.snakes[i].id,
{
    lemma_fed_snakes(b.snakes, b.food);
    lemma_snake_fed_one(b.snakes[i], b.food, k);
}

/// Taking one more element of a sequence appends exactly its `i`-th element.
pub proof fn lemma_take_step<A>(s: Seq<A>, i: int)
    requires
        0 <= i < s.len(),
    ensures
        s.take(i + 1).drop_last() =~= s.take(i),
        s.take(i + 1).last() == s[i],
        s.take(i + 1).len() == i + 1,
{
}

/// Whether any snake of `snakes` other than `s` has caught `s` in a body
/// collision, as one exists-check.
fn hits_other_body(s: &Snake, snakes: &Vec<Snake>) -> (r: bool)
    requires
        s.body@.len() >= 1,
    ensures
        r == exists|j: int|
            0 <= j < snakes@.len() && snakes_view(snakes@)[j].id != s@.id && body_hit(
                s@,
                snakes_view(snakes@)[j],
            ),
{
    let n = snakes.len();
    let mut j: usize = 0;
    while j < n
        invariant
            j <= n,
            n == snakes@.len(),
            s.body@.len() >= 1,
            forall|j2: int| 0 <= j2 < j ==> !(snakes_view(snakes@)[j2].id != s@.id && body_hit(
                s@,
                #[trigger] snakes_view(snakes@)[j2],
            )),
        decreases n - j,
    {
        if snakes[j].id != s.id && Snake::snake_body_collision(s, &snakes[j]) {
            proof {
                assert(snakes_view(snakes@)[j as int] == snakes@[j as int]@);
            }
            return true;
        }
        proof {
            assert(snakes_view(snakes@)[j as int] == snakes@[j as int]@);
        }
        j += 1;
    }
    false
}

/// Whether any snake of `snakes` other than `s` wins or ties a head-to-head
/// against `s`, as one exists-check.
fn loses_head_to_any(s: &Snake, snakes: &Vec<Snake>) -> (r: bool)
    requires
        s.body@.len() >= 1,
        forall|i: int| 0 <= i < snakes@.len() ==> (#[trigger] snakes@[i]).body@.len() >= 1,
    ensures
        r == exists|j: int|
            0 <= j < snakes@.len() && snakes_view(snakes@)[j].id != s@.id && lost_head_to(
                s@,
                snakes_view(snakes@)[j],
            ),
{
    let n = snakes.len();
    let mut j: usize = 0;
    while j < n
        invariant
            j <= n,
            n == snakes@.len(),
            s.body@.len() >= 1,
            forall|i: int| 0 <= i < snakes@.len() ==> (#[trigger] snakes@[i]).body@.len() >= 1,
            forall|j2: int| 0 <= j2 < j ==> !(snakes_view(snakes@)[j2].id != s@.id && lost_head_to(
                s@,
                #[trigger] snakes_view(snakes@)[j2],
            )),
        decreases n - j,
    {
        if snakes[j].id != s.id && Snake::snake_lost_head_collision(s, &snakes[j]) {
            proof {
                assert(snakes_view(snakes@)[j as int] == snakes@[j as int]@);
            }
            return true;
        }
        proof {
            assert(snakes_view(snakes@)[j as int] == snakes@[j as int]@);
        }
        j += 1;
    }
    false
}

impl Board {
    /// Check all collisions between the snakes against the same
    /// post-movement snapshot and eliminate every collided snake at once.
    /// Collisions checked here:
    /// head to head: the strictly longer snake lives, equal lengths mean
    /// both die; head to body: a snake whose head is in its own or another
    /// snake's body dies.
    pub fn apply_collision_eliminations(&mut self)
        requires
            forall|i: int| 0 <= i < old(self)@.snakes.len() ==> (#[trigger] old(
                self,
            )@.snakes[i]).body.len() >= 1,
        ensures
            final(self)@ == collision_step(old(self)@),
    {
        let mut new_snakes: Vec<Snake> = Vec::new();
        let n = self.snakes.len();
        let mut i: usize = 0;
        proof {
            assert(old(self)@.snakes.take(0) =~= Seq::<SnakeModel>::empty());
        }
        while i < n
            invariant
                i <= n,
                *self == *old(self),
                n == self.snakes@.len(),
                forall|j: int| 0 <= j < old(self)@.snakes.len() ==> (#[trigger] old(
                    self,
                )@.snakes[j]).body.len() >= 1,
                snakes_view(new_snakes@) == kept_uncollided(
                    old(self)@.snakes.take(i as int),
                    old(self)@.snakes,
                ),
            decreases n - i,
        {
            proof {
                lemma_take_step(old(self)@.snakes, i as int);
                assert(old(self)@.snakes[i as int] == self.snakes@[i as int]@);
            }
            proof {
                assert forall|j: int| 0 <= j < self.snakes@.len() implies (#[trigger] self.snakes@[j]).body@.len() >= 1 by {
                    assert(old(self)@.snakes[j] == self.snakes@[j]@);
                }
            }
            let s = &self.snakes[i];
            let mut elim = Snake::snake_body_collision(s, s);
            if !elim {
                elim = hits_other_body(s, &self.snakes);
            }
            if !elim {
                elim = loses_head_to_any(s, &self.snakes);
            }
            proof {
                assert(elim == collision_eliminated(old(self)@.snakes[i as int], old(self)@.snakes));
            }
            if !elim {
                new_snakes.push(self.snakes[i].clone());
            }
            proof {
                assert(snakes_view(new_snakes@) =~= kept_uncollided(
                    old(self)@.snakes.take(i as int + 1),
                    old(self)@.snakes,
                ));
            }
            i += 1;
        }
        proof {
            assert(old(self)@.snakes.take(n as int) =~= old(self)@.snakes);
        }
        self.snakes = new_snakes;
        proof {
            assert(final(self)@ =~= collision_step(old(self)@));
        }
    }

    /// Apply hazard damage: every hazard cell under a snake's head subtracts
    /// the board's hazard damage from that snake's health and re-caps the
    /// result at 100 (negative damage heals).
    pub fn apply_hazard_damage(&mut self)
        requires
            old(self).hazards@.len() <= 0x7fff_ffff,
            forall|i: int| 0 <= i < old(self)@.snakes.len() ==> (#[trigger] old(
                self,
            )@.snakes[i]).body.len() >= 1,
            forall|i: int| 0 <= i < old(self)@.snakes.len() ==> -0x8000_0000 <= (#[trigger] old(
                self,
            )@.snakes[i]).health <= 100,
        ensures
            final(self)@ == hazard_step(old(self)@),
    {
        let mut new_snakes: Vec<Snake> = Vec::new();
        let n = self.snakes.len();
        let nh = self.hazards.len();
        let mut i: usize = 0;
        proof {
            assert(old(self)@.snakes.take(0) =~= Seq::<SnakeModel>::empty());
        }
        while i < n
            invariant
                i <= n,
                *self == *old(self),
                n == self.snakes@.len(),
                nh == self.hazards@.len(),
                nh <= 0x7fff_ffff,
                forall|j: int| 0 <= j < old(self)@.snakes.len() ==> (#[trigger] old(
                    self,
                )@.snakes[j]).body.len() >= 1,
                forall|j: int| 0 <= j < old(self)@.snakes.len() ==> -0x8000_0000 <= (#[trigger] old(
                    self,
                )@.snakes[j]).health <= 100,
                snakes_view(new_snakes@) == hazarded_snakes(
                    old(self)@.snakes.take(i as int),
                    old(self)@.hazards,
                    old(self)@.hazard_damage,
                ),
            decreases n - i,
        {
            proof {
                lemma_take_step(old(self)@.snakes, i as int);
                assert(old(self)@.snakes[i as int] == self.snakes@[i as int]@);
                assert(old(self)@.hazards.take(0) =~= Seq::<CoordModel>::empty());
            }
            let head = self.snakes[i].body[0];
            let mut h: i64 = self.snakes[i].health;
            let mut k: usize = 0;
            while k < nh
                invariant
                    k <= nh,
                    *self == *old(self),
                    i < n,
                    n == self.snakes@.len(),
                    nh == self.hazards@.len(),
                    nh <= 0x7fff_ffff,
                    old(self)@.snakes[i as int].body.len() >= 1,
                    head == self.snakes@[i as int].body@[0],
                    head@ == old(self)@.snakes[i as int].body[0],
                    -0x8000_0000 <= old(self)@.snakes[i as int].health <= 100,
                    h as int == health_after_hazards(
                        old(self)@.snakes[i as int].health,
                        old(self)@.snakes[i as int].body[0],
                        old(self)@.hazards.take(k as int),
                        old(self)@.hazard_damage,
                    ),
                    h <= 100,
                    h as int >= -0x8000_0000 - (k as int) * 0x8000_0000,
                decreases nh - k,
            {
                proof {
                    lemma_take_step(old(self)@.hazards, k as int);
                    assert(old(self)@.hazards[k as int] == self.hazards@[k as int]@);
                }
                if self.hazards[k] == head {
                    h = h - self.hazard_damage as i64;
                    if h > 100 {
                        h = 100;
                    }
                }
                k += 1;
            }
            proof {
                assert(old(self)@.hazards.take(nh as int) =~= old(self)@.hazards);
            }
            let mut s = self.snakes[i].clone();
            s.health = h;
            new_snakes.push(s);
            proof {
                assert(snakes_view(new_snakes@) =~= hazarded_snakes(
                    old(self)@.snakes.take(i as int + 1),
                    old(self)@.hazards,
                    old(self)@.hazard_damage,
                ));
            }
            i += 1;
        }
        proof {
            assert(old(self)@.snakes.take(n as int) =~= old(self)@.snakes);
        }
        self.snakes = new_snakes;
        proof {
            assert(final(self)@ =~= hazard_step(old(self)@));
        }
    }

    /// Feed the snakes that are on top of a food cell and remove the eaten
    /// food. A food cell consumed by more than one snake in the same tick
    /// feeds all of them; heads never move while feeding, so eatenness is
    /// judged against the heads as they are.
    pub fn maybe_feed(&mut self)
        requires
            forall|i: int| 0 <= i < old(self)@.snakes.len() ==> (#[trigger] old(
                self,
            )@.snakes[i]).body.len() >= 1,
        ensures
            final(self)@ == feeding_step(old(self)@),
    {
        let mut new_snakes: Vec<Snake> = Vec::new();
        let n = self.snakes.len();
        let nf = self.food.len();
        let mut i: usize = 0;
        proof {
            assert(old(self)@.snakes.take(0) =~= Seq::<SnakeModel>::empty());
        }
        while i < n
            invariant
                i <= n,
                *self == *old(self),
                n == self.snakes@.len(),
                nf == self.food@.len(),
                forall|j: int| 0 <= j < old(self)@.snakes.len() ==> (#[trigger] old(
                    self,
                )@.snakes[j]).body.len() >= 1,
                snakes_view(new_snakes@) == fed_snakes(
                    old(self)@.snakes.take(i as int),
                    old(self)@.food,
                ),
            decreases n - i,
        {
            proof {
                lemma_take_step(old(self)@.snakes, i as int);
                assert(old(self)@.snakes[i as int] == self.snakes@[i as int]@);
                assert(old(self)@.food.take(0) =~= Seq::<CoordModel>::empty());
            }
            let head = self.snakes[i].body[0];
            let mut s = self.snakes[i].clone();
            let mut k: usize = 0;
            while k < nf
                invariant
                    k <= nf,
                    *self == *old(self),
                    i < n,
                    n == self.snakes@.len(),
                    nf == self.food@.len(),
                    old(self)@.snakes[i as int].body.len() >= 1,
                    head@ == old(self)@.snakes[i as int].body[0],
                    s@ == snake_fed(old(self)@.snakes[i as int], old(self)@.food.take(k as int)),
                    s.body@.len() >= 1,
                    s@.body[0] == old(self)@.snakes[i as int].body[0],
                decreases nf - k,
            {
                proof {
                    lemma_take_step(old(self)@.food, k as int);
                    assert(old(self)@.food[k as int] == self.food@[k as int]@);
                    assert(s.body@.len() == s@.body.len());
                }
                if self.food[k] == head {
                    s.feed();
                    proof {
                        assert(s.body@.len() == s@.body.len());
                    }
                }
                k += 1;
            }
            proof {
                assert(old(self)@.food.take(nf as int) =~= old(self)@.food);
            }
            new_snakes.push(s);
            proof {
                assert(snakes_view(new_snakes@) =~= fed_snakes(
                    old(self)@.snakes.take(i as int + 1),
                    old(self)@.food,
                ));
            }
            i += 1;
        }
        proof {
            assert(old(self)@.snakes.take(n as int) =~= old(self)@.snakes);
        }
        let mut new_food: Vec<Coordinate> = Vec::new();
        let mut k: usize = 0;
        proof {
            assert(old(self)@.food.take(0) =~= Seq::<CoordModel>::empty());
        }
        while k < nf
            invariant
                k <= nf,
                *self == *old(self),
                n == self.snakes@.len(),
                nf == self.food@.len(),
                forall|j: int| 0 <= j < old(self)@.snakes.len() ==> (#[trigger] old(
                    self,
                )@.snakes[j]).body.len() >= 1,
                coords_view(new_food@) == kept_food(
                    old(self)@.food.take(k as int),
                    old(self)@.snakes,
                ),
            decreases nf - k,
        {
            proof {
                lemma_take_step(old(self)@.food, k as int);
                assert(old(self)@.food[k as int] == self.food@[k as int]@);
            }
            let f = self.food[k];
            let mut eaten = false;
            let mut j: usize = 0;
            while j < n
                invariant
                    j <= n,
                    *self == *old(self),
                    n == self.snakes@.len(),
                    forall|j2: int| 0 <= j2 < old(self)@.snakes.len() ==> (#[trigger] old(
                        self,
                    )@.snakes[j2]).body.len() >= 1,
                    f@ == old(self)@.food[k as int],
                    k < nf,
                    nf == self.food@.len(),
                    eaten ==> eaten_by_any(old(self)@.food[k as int], old(self)@.snakes),
                    !eaten ==> forall|j2: int| 0 <= j2 < j ==> (#[trigger] old(
                        self,
                    )@.snakes[j2]).body[0] != old(self)@.food[k as int],
                decreases n - j,
            {
                proof {
                    assert(old(self)@.snakes[j as int] == self.snakes@[j as int]@);
                }
                if self.snakes[j].body[0] == f {
                    eaten = true;
                }
                j += 1;
            }
            if !eaten {
                new_food.push(f);
            }
            proof {
                assert(coords_view(new_food@) =~= kept_food(
                    old(self)@.food.take(k as int + 1),
                    old(self)@.snakes,
                ));
            }
            k += 1;
        }
        proof {
            assert(old(self)@.food.take(nf as int) =~= old(self)@.food);
        }
        self.snakes = new_snakes;
        self.food = new_food;
        proof {
            assert(final(self)@ =~= feeding_step(old(self)@));
        }
    }

    /// Wrap any snake heads by the torus convention; run this before
    /// [`Self::out_of_bounds_elims`] for wrapped behaviour.
    pub fn maybe_wrap_snakes(&mut self)
        requires
            2 <= old(self).width <= i32::MAX,
            2 <= old(self).height <= i32::MAX,
            forall|i: int| 0 <= i < old(self)@.snakes.len() ==> (#[trigger] old(
                self,
            )@.snakes[i]).body.len() >= 1,
        ensures
            final(self)@ == wrap_step(old(self)@),
    {
        let wm1: i32 = self.width as i32 - 1;
        let hm1: i32 = self.height as i32 - 1;
        let mut new_snakes: Vec<Snake> = Vec::new();
        let n = self.snakes.len();
        let mut i: usize = 0;
        proof {
            assert(old(self)@.snakes.take(0) =~= Seq::<SnakeModel>::empty());
        }
        while i < n
            invariant
                i <= n,
                *self == *old(self),
                n == self.snakes@.len(),
                2 <= self.width <= i32::MAX,
                2 <= self.height <= i32::MAX,
                wm1 as int == old(self)@.width - 1,
                hm1 as int == old(self)@.height - 1,
                wm1 >= 1,
                hm1 >= 1,
                forall|j: int| 0 <= j < old(self)@.snakes.len() ==> (#[trigger] old(
                    self,
                )@.snakes[j]).body.len() >= 1,
                snakes_view(new_snakes@) == wrapped_snakes(
                    old(self)@.snakes.take(i as int),
                    old(self)@.width,
                    old(self)@.height,
                ),
            decreases n - i,
        {
            proof {
                lemma_take_step(old(self)@.snakes, i as int);
                assert(old(self)@.snakes[i as int] == self.snakes@[i as int]@);
            }
            let head = self.snakes[i].body[0];
            let wx = match head.x.checked_rem(wm1) {
                Some(v) => v,
                None => {
                    proof {
                        assert(false);
                    }
                    0
                },
            };
            let wy = match head.y.checked_rem(hm1) {
                Some(v) => v,
                None => {
                    proof {
                        assert(false);
                    }
                    0
                },
            };
            let mut s = self.snakes[i].clone();
            s.body.set(0, Coordinate { x: wx, y: wy });
            proof {
                assert(s@.body =~= wrapped_snake(
                    old(self)@.snakes[i as int],
                    old(self)@.width,
                    old(self)@.height,
                ).body);
            }
            new_snakes.push(s);
            proof {
                assert(snakes_view(new_snakes@) =~= wrapped_snakes(
                    old(self)@.snakes.take(i as int + 1),
                    old(self)@.width,
                    old(self)@.height,
                ));
            }
            i += 1;
        }
        proof {
            assert(old(self)@.snakes.take(n as int) =~= old(self)@.snakes);
        }
        self.snakes = new_snakes;
        proof {
            assert(final(self)@ =~= wrap_step(old(self)@));
        }
    }

    /// Eliminates snakes if they are out of health. Health at or below zero
    /// counts as starved, however it was reached (hazards or otherwise).
    pub fn out_of_health_elims(&mut self)
        ensures
            final(self)@ == starvation_step(old(self)@),
    {
        let mut new_snakes: Vec<Snake> = Vec::new();
        let n = self.snakes.len();
        let mut i: usize = 0;
        proof {
            assert(old(self)@.snakes.take(0) =~= Seq::<SnakeModel>::empty());
        }
        while i < n
            invariant
                i <= n,
                *self == *old(self),
                n == self.snakes@.len(),
                snakes_view(new_snakes@) == kept_healthy(old(self)@.snakes.take(i as int)),
            decreases n - i,
        {
            proof {
                lemma_take_step(old(self)@.snakes, i as int);
                assert(old(self)@.snakes[i as int] == self.snakes@[i as int]@);
            }
            if self.snakes[i].health <= 0 {
            } else {
                new_snakes.push(self.snakes[i].clone());
            }
            proof {
                assert(snakes_view(new_snakes@) =~= kept_healthy(
                    old(self)@.snakes.take(i as int + 1),
                ));
            }
            i += 1;
        }
        proof {
            assert(old(self)@.snakes.take(n as int) =~= old(self)@.snakes);
        }
        self.snakes = new_snakes;
        proof {
            assert(final(self)@ =~= starvation_step(old(self)@));
        }
    }

    /// Eliminates snakes if their heads are out of bounds.
    pub fn out_of_bounds_elims(&mut self)
        requires
            old(self).width <= i32::MAX,
            old(self).height <= i32::MAX,
            forall|i: int| 0 <= i < old(self)@.snakes.len() ==> (#[trigger] old(
                self,
            )@.snakes[i]).body.len() >= 1,
        ensures
            final(self)@ == oob_step(old(self)@),
    {
        let mut new_snakes: Vec<Snake> = Vec::new();
        let n = self.snakes.len();
        let mut i: usize = 0;
        proof {
            assert(old(self)@.snakes.take(0) =~= Seq::<SnakeModel>::empty());
        }
        while i < n
            invariant
                i <= n,
                *self == *old(self),
                n == self.snakes@.len(),
                self.width <= i32::MAX,
                self.height <= i32::MAX,
                forall|j: int| 0 <= j < old(self)@.snakes.len() ==> (#[trigger] old(
                    self,
                )@.snakes[j]).body.len() >= 1,
                snakes_view(new_snakes@) == kept_in_bounds(
                    old(self)@.snakes.take(i as int),
                    old(self)@.width,
                    old(self)@.height,
                ),
            decreases n - i,
        {
            proof {
                lemma_take_step(old(self)@.snakes, i as int);
                assert(old(self)@.snakes[i as int] == self.snakes@[i as int]@);
            }
            if self.snakes[i].out_of_bounds(self.width, self.height) {
            } else {
                new_snakes.push(self.snakes[i].clone());
            }
            proof {
                assert(snakes_view(new_snakes@) =~= kept_in_bounds(
                    old(self)@.snakes.take(i as int + 1),
                    old(self)@.width,
                    old(self)@.height,
                ));
            }
            i += 1;
        }
        proof {
            assert(old(self)@.snakes.take(n as int) =~= old(self)@.snakes);
        }
        self.snakes = new_snakes;
        proof {
            assert(final(self)@ =~= oob_step(old(self)@));
        }
    }
}

impl Coordinate {
    /// Make a coordinate from its components.
    pub fn new(x: i32, y: i32) -> (r: Coordinate)
        ensures
            r.x == x,
            r.y == y,
    {
        Coordinate { x, y }
    }

    /// This coordinate shifted one cell in a direction: vector addition of
    /// the direction's unit offset.
    pub fn step(self, direction: Direction) -> (r: Coordinate)
        requires
            i32::MIN < self.x < i32::MAX,
            i32::MIN < self.y < i32::MAX,
        ensures
            r@ == coord_step(self@, direction),
    {
        match direction {
            Direction::Up => Coordinate { x: self.x, y: self.y + 1 },
            Direction::Down => Coordinate { x: self.x, y: self.y - 1 },
            Direction::Left => Coordinate { x: self.x - 1, y: self.y },
            Direction::Right => Coordinate { x: self.x + 1, y: self.y },
        }
    }
}

impl SnakeMove {
    /// Make a move entry from its components.
    pub fn new(dir: Direction, id: usize) -> (r: SnakeMove)
        ensures
            r.direction == dir,
            r.id == id,
    {
        SnakeMove { direction: dir, id }
    }
}

impl Snake {
    /// Feeds this snake: its tail is duplicated and its health is reset to
    /// exactly 100, regardless of prior health.
    pub fn feed(&mut self)
        requires
            old(self).body@.len() >= 1,
        ensures
            final(self)@ == fed_once(old(self)@),
    {
        self.duplicate_tail();
        self.health = 100;
        proof {
            assert(final(self)@ =~= fed_once(old(self)@)) by {
                assert(final(self)@.body =~= fed_once(old(self)@).body);
            }
        }
    }

    /// Duplicates the tail cell on top of itself.
    pub fn duplicate_tail(&mut self)
        requires
            old(self).body@.len() >= 1,
        ensures
            final(self)@.body == old(self)@.body.push(old(self)@.body.last()),
            final(self)@.id == old(self)@.id,
            final(self)@.health == old(self)@.health,
    {
        let last = self.body[self.body.len() - 1];
        self.body.push(last);
        proof {
            assert(final(self)@.body =~= old(self)@.body.push(old(self)@.body.last()));
        }
    }

    /// Applies a given move direction to this snake: the tail cell is
    /// removed, the new head is prepended, and health drops by one.
    pub fn apply_move(&mut self, direction: Direction)
        requires
            old(self).body@.len() >= 1,
            old(self).health > i64::MIN,
            i32::MIN < old(self).body@[0].x < i32::MAX,
            i32::MIN < old(self).body@[0].y < i32::MAX,
        ensures
            final(self)@ == snake_moved(old(self)@, direction),
    {
        let head = self.body[0];
        let new_head = head.step(direction);
        self.body.pop();
        self.body.insert(0, new_head);
        self.health = self.health - 1;
        proof {
            assert(final(self)@.body =~= snake_moved(old(self)@, direction).body);
            assert(final(self)@ == snake_moved(old(self)@, direction));
        }
    }

    /// Whether this snake's head is out of bounds of a `width` by `height`
    /// board.
    pub fn out_of_bounds(&self, width: u32, height: u32) -> (r: bool)
        requires
            self.body@.len() >= 1,
            width <= i32::MAX,
            height <= i32::MAX,
        ensures
            r == snake_oob(self@, width as int, height as int),
    {
        self.body[0].x < 0 || self.body[0].x >= width as i32 || self.body[0].y < 0
            || self.body[0].y >= height as i32
    }

    /// Is `snake1`'s head in `snake2`'s body? ("body" here means the body
    /// sequence ignoring the head.)
    pub fn snake_body_collision(snake1: &Snake, snake2: &Snake) -> (r: bool)
        requires
            snake1.body@.len() >= 1,
        ensures
            r == body_hit(snake1@, snake2@),
    {
        let head = snake1.body[0];
        let mut k: usize = 1;
        while k < snake2.body.len()
            invariant
                1 <= k,
                k <= snake2.body@.len() || k == 1,
                snake1.body@.len() >= 1,
                head == snake1.body@[0],
                forall|j: int| 1 <= j < k && j < snake2.body@.len() ==> snake2@.body[j]
                    != snake1@.body[0],
            decreases snake2.body@.len() - k,
        {
            if snake2.body[k] == head {
                proof {
                    assert(snake2@.body[k as int] == snake1@.body[0]);
                }
                return true;
            }
            k += 1;
        }
        proof {
            assert(!body_hit(snake1@, snake2@));
        }
        false
    }

    /// Whether `snake1` and `snake2` are in a head-to-head collision that
    /// `snake1` lost (its length is less than or equal to `snake2`'s).
    pub fn snake_lost_head_collision(snake1: &Snake, snake2: &Snake) -> (r: bool)
        requires
            snake1.body@.len() >= 1,
            snake2.body@.len() >= 1,
        ensures
            r == lost_head_to(snake1@, snake2@),
    {
        snake1.body[0] == snake2.body[0] && snake1.body.len() <= snake2.body.len()
    }

    /// All candidate moves for this snake: the four directions,
    /// unconditionally, in the order Up, Right, Left, Down.
    pub fn get_moves(&self) -> (r: Vec<SnakeMove>)
        ensures
            moves_view(r@) == four_moves(self@.id),
            r@.len() == 4,
    {
        let r = vec![
            SnakeMove::new(Direction::Up, self.id),
            SnakeMove::new(Direction::Right, self.id),
            SnakeMove::new(Direction::Left, self.id),
            SnakeMove::new(Direction::Down, self.id),
        ];
        proof {
            assert(moves_view(r@) =~= four_moves(self@.id));
        }
        r
    }

    /// The head of the snake: the first body cell.
    pub fn head(&self) -> (r: Coordinate)
        requires
            self.body@.len() >= 1,
        ensures
            r@ == self@.body[0],
    {
        self.body[0]
    }
}

/// Well-formedness of one snake: the body is never empty and health never
/// exceeds the cap of 100.
pub open spec fn snake_wf(s: SnakeModel) -> bool {
    s.body.len() >= 1 && s.health <= 100
}

/// Well-formedness of a board: positive dimensions that fit in an `i32`, a
/// hazard list whose length fits in a `u32`, and well-formed snakes.
pub open spec fn board_wf(b: BoardModel) -> bool {
    &&& 1 <= b.width <= 0x7fff_ffff
    &&& 1 <= b.height <= 0x7fff_ffff
    &&& b.hazards.len() <= 0x7fff_ffff
    &&& forall|i: int| 0 <= i < b.snakes.len() ==> snake_wf(#[trigger] b.snakes[i])
}

/// A board as the searches hand it to the transition engine: well-formed,
/// with every living snake's head in bounds and its health positive.
pub open spec fn board_ready(b: BoardModel) -> bool {
    &&& board_wf(b)
    &&& forall|i: int| 0 <= i < b.snakes.len() ==> !snake_oob(#[trigger] b.snakes[i], b.width, b.height)
    &&& forall|i: int| 0 <= i < b.snakes.len() ==> (#[trigger] b.snakes[i]).health >= 1
}

} // verus!
