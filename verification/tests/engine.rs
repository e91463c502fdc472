use snake_engine::board::{Board, Coordinate, Direction, Snake, SnakeMove};
use snake_engine::rulesets::{Ruleset, Terminal};
use snake_engine::standard::Standard;

fn snake(id: usize, health: i64, cells: &[(i32, i32)]) -> Snake {
    Snake {
        id,
        health,
        body: cells.iter().map(|&(x, y)| Coordinate::new(x, y)).collect(),
    }
}

fn board(width: u32, height: u32, snakes: Vec<Snake>) -> Board {
    Board { height, width, hazards: vec![], hazard_damage: 0, food: vec![], snakes }
}

#[test]
fn moving_right_advances_head_and_costs_health() {
    // A 5x5 board, one agent at (2,2) moving Right into (3,2), no food or
    // hazards: the head is (3,2) and health dropped by one.
    let mut b = board(5, 5, vec![snake(0, 100, &[(2, 2)])]);
    let mut rules = Standard;
    rules.make_move(&mut b, &[SnakeMove::new(Direction::Right, 0)]);
    assert_eq!(b.snakes.len(), 1);
    assert_eq!(b.snakes[0].body[0], Coordinate::new(3, 2));
    assert_eq!(b.snakes[0].health, 99);
}

#[test]
fn starving_after_a_hundred_ticks_ends_in_a_draw() {
    // The same lone agent oscillating in bounds without feeding starves on
    // the hundredth tick and the board transitions to a draw.
    let mut b = board(5, 5, vec![snake(0, 100, &[(2, 2)])]);
    let mut rules = Standard;
    for tick in 0..100 {
        let dir = if tick % 2 == 0 { Direction::Right } else { Direction::Left };
        rules.make_move(&mut b, &[SnakeMove::new(dir, 0)]);
    }
    assert_eq!(b.snakes.len(), 0);
    assert_eq!(rules.game_over(&b), Terminal::Draw);
}

#[test]
fn terminal_classification() {
    let rules = Standard;
    let none = board(5, 5, vec![]);
    assert_eq!(rules.game_over(&none), Terminal::Draw);
    let one = board(5, 5, vec![snake(7, 50, &[(1, 1)])]);
    assert_eq!(rules.game_over(&one), Terminal::Won(7));
    let two = board(5, 5, vec![snake(0, 50, &[(1, 1)]), snake(1, 50, &[(3, 3)])]);
    assert_eq!(rules.game_over(&two), Terminal::Ongoing);
}

#[test]
fn out_of_bounds_and_starvation_eliminate_independently() {
    // One agent walks out of bounds with its health also hitting zero on the
    // same tick; the two eliminations judge the same snapshot and the agent
    // is removed exactly once, leaving the other agent the winner.
    let mut b = board(3, 3, vec![snake(0, 1, &[(2, 1)]), snake(1, 50, &[(0, 0)])]);
    let mut rules = Standard;
    rules.make_move(
        &mut b,
        &[SnakeMove::new(Direction::Right, 0), SnakeMove::new(Direction::Up, 1)],
    );
    assert_eq!(b.snakes.len(), 1);
    assert_eq!(b.snakes[0].id, 1);
    assert_eq!(rules.game_over(&b), Terminal::Won(1));
}

#[test]
fn head_to_head_tie_eliminates_both() {
    // Two equal-length agents whose new heads coincide both die in the same
    // tick, leaving a draw.
    let mut b = board(5, 5, vec![snake(0, 50, &[(1, 2)]), snake(1, 50, &[(3, 2)])]);
    let mut rules = Standard;
    rules.make_move(
        &mut b,
        &[SnakeMove::new(Direction::Right, 0), SnakeMove::new(Direction::Left, 1)],
    );
    assert_eq!(b.snakes.len(), 0);
    assert_eq!(rules.game_over(&b), Terminal::Draw);
}

#[test]
fn head_to_head_longer_agent_survives() {
    // A strictly longer agent wins the head-to-head; exactly it stays alive.
    let mut b = board(
        5,
        5,
        vec![snake(0, 50, &[(1, 2), (0, 2)]), snake(1, 50, &[(3, 2)])],
    );
    let mut rules = Standard;
    rules.make_move(
        &mut b,
        &[SnakeMove::new(Direction::Right, 0), SnakeMove::new(Direction::Left, 1)],
    );
    assert_eq!(b.snakes.len(), 1);
    assert_eq!(b.snakes[0].id, 0);
}

#[test]
fn body_collision_eliminates_the_colliding_head() {
    // An agent whose head lands on another agent's body cell is eliminated.
    let mut b = board(
        5,
        5,
        vec![
            snake(0, 50, &[(2, 3), (2, 2), (2, 1)]),
            snake(1, 50, &[(1, 2), (0, 2)]),
        ],
    );
    let mut rules = Standard;
    rules.make_move(
        &mut b,
        &[SnakeMove::new(Direction::Up, 0), SnakeMove::new(Direction::Right, 1)],
    );
    assert_eq!(b.snakes.len(), 1);
    assert_eq!(b.snakes[0].id, 0);
}

#[test]
fn feeding_grows_the_body_and_resets_health() {
    // An agent whose head lands on a food cell has body length +1 and health
    // exactly 100, regardless of prior health; the food cell is consumed.
    let mut b = board(5, 5, vec![snake(0, 37, &[(2, 2), (1, 2)])]);
    b.food = vec![Coordinate::new(3, 2)];
    let mut rules = Standard;
    rules.make_move(&mut b, &[SnakeMove::new(Direction::Right, 0)]);
    assert_eq!(b.snakes.len(), 1);
    assert_eq!(b.snakes[0].health, 100);
    assert_eq!(b.snakes[0].body.len(), 3);
    assert_eq!(b.snakes[0].body[0], Coordinate::new(3, 2));
    assert!(b.food.is_empty());
}

#[test]
fn one_food_cell_feeds_every_agent_on_it() {
    // A food cell consumed by more than one agent in the same tick feeds all
    // of them (they then resolve as a head-to-head).
    let mut b = board(5, 5, vec![snake(0, 10, &[(1, 2)]), snake(1, 20, &[(3, 2)])]);
    b.food = vec![Coordinate::new(2, 2)];
    let mut bd = b;
    bd.snakes[0].apply_move(Direction::Right);
    bd.snakes[1].apply_move(Direction::Left);
    bd.maybe_feed();
    assert_eq!(bd.snakes[0].health, 100);
    assert_eq!(bd.snakes[1].health, 100);
    assert_eq!(bd.snakes[0].body.len(), 2);
    assert_eq!(bd.snakes[1].body.len(), 2);
    assert!(bd.food.is_empty());
}

#[test]
fn hazard_damage_is_applied_and_capped() {
    let mut b = board(5, 5, vec![snake(0, 50, &[(2, 2)]), snake(1, 90, &[(4, 4)])]);
    b.hazards = vec![Coordinate::new(2, 2), Coordinate::new(4, 4)];
    // Positive damage hurts the agent standing on a hazard.
    b.hazard_damage = 15;
    let mut hurt = b.clone();
    hurt.apply_hazard_damage();
    assert_eq!(hurt.snakes[0].health, 35);
    assert_eq!(hurt.snakes[1].health, 75);
    // Negative damage heals, re-capped at 100.
    b.hazard_damage = -20;
    b.apply_hazard_damage();
    assert_eq!(b.snakes[0].health, 70);
    assert_eq!(b.snakes[1].health, 100);
}

#[test]
fn wrap_keeps_heads_within_the_torus() {
    let mut b = board(5, 5, vec![snake(0, 50, &[(4, 2)])]);
    b.maybe_wrap_snakes();
    // 4 % (5 - 1) == 0: the head wraps to the left edge.
    assert_eq!(b.snakes[0].body[0], Coordinate::new(0, 2));
}

#[test]
fn get_moves_generates_all_four_directions() {
    let s = snake(3, 50, &[(2, 2)]);
    let moves = s.get_moves();
    assert_eq!(moves.len(), 4);
    assert_eq!(moves[0], SnakeMove::new(Direction::Up, 3));
    assert_eq!(moves[1], SnakeMove::new(Direction::Right, 3));
    assert_eq!(moves[2], SnakeMove::new(Direction::Left, 3));
    assert_eq!(moves[3], SnakeMove::new(Direction::Down, 3));
}

#[test]
fn bounds_and_health_eliminations_commute() {
    // The two eliminations are independent filters over the same snapshot:
    // running them in either order leaves the same survivors, also for an
    // agent that is at once out of bounds and out of health.
    let mk = || {
        let mut b = board(
            3,
            3,
            vec![
                snake(0, 0, &[(3, 1)]),
                snake(1, 0, &[(1, 1)]),
                snake(2, 5, &[(-1, 0)]),
                snake(3, 5, &[(2, 2)]),
            ],
        );
        b.hazard_damage = 0;
        b
    };
    let mut one_way = mk();
    one_way.out_of_bounds_elims();
    one_way.out_of_health_elims();
    let mut other_way = mk();
    other_way.out_of_health_elims();
    other_way.out_of_bounds_elims();
    assert_eq!(one_way.snakes.len(), 1);
    assert_eq!(other_way.snakes.len(), 1);
    assert_eq!(one_way.snakes[0].id, 3);
    assert_eq!(other_way.snakes[0].id, 3);
}

#[test]
fn empty_board_stays_empty() {
    let mut b = board(5, 5, vec![]);
    let mut rules = Standard;
    rules.make_move(&mut b, &[]);
    assert_eq!(b.snakes.len(), 0);
    assert_eq!(rules.game_over(&b), Terminal::Draw);
}

#[test]
fn collision_helpers_match_their_definitions() {
    let long = snake(0, 50, &[(2, 2), (2, 1), (2, 0)]);
    let short = snake(1, 50, &[(2, 2)]);
    // Head-to-head: the shorter (or equal) agent loses.
    assert!(Snake::snake_lost_head_collision(&short, &long));
    assert!(!Snake::snake_lost_head_collision(&long, &short));
    // Body collision ignores the head cell itself.
    let on_body = snake(2, 50, &[(2, 1)]);
    assert!(Snake::snake_body_collision(&on_body, &long));
    assert!(!Snake::snake_body_collision(&short, &long));
    // Bounds check.
    assert!(snake(3, 50, &[(-1, 0)]).out_of_bounds(5, 5));
    assert!(snake(3, 50, &[(5, 0)]).out_of_bounds(5, 5));
    assert!(!snake(3, 50, &[(4, 4)]).out_of_bounds(5, 5));
}
