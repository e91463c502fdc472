use snake_engine::board::{Board, Coordinate, Direction, Snake};
use snake_engine::eval::{Evaluation, HealthEvaluation, MAX_SCORE};
use snake_engine::game::Game;
use snake_engine::mcts::MonteCarloTreeSearch;
use snake_engine::minimax::MinimaxTreeSearch;
use snake_engine::standard::Standard;

fn snake(id: usize, health: i64, cells: &[(i32, i32)]) -> Snake {
    Snake {
        id,
        health,
        body: cells.iter().map(|&(x, y)| Coordinate::new(x, y)).collect(),
    }
}

fn game(width: u32, height: u32, snakes: Vec<Snake>, you_id: usize) -> Game {
    Game {
        board: Board { height, width, hazards: vec![], hazard_damage: 0, food: vec![], snakes },
        you_id,
    }
}

#[test]
fn health_evaluation_scales_health() {
    let g = game(5, 5, vec![snake(0, 73, &[(2, 2)]), snake(1, 10, &[(0, 0)])], 0);
    assert_eq!(HealthEvaluation.calculate(&g), 730);
    let dead = game(5, 5, vec![snake(1, 10, &[(0, 0)])], 0);
    assert_eq!(HealthEvaluation.calculate(&dead), 0);
}

#[test]
fn minimax_sees_a_forced_win() {
    // The opponent starves on the very next tick whatever it plays, so every
    // controlled-agent move wins: the pruned search returns the certain-win
    // score (the unpruned minimax value), with the first direction in
    // generation order achieving it.
    let g = game(5, 5, vec![snake(0, 100, &[(2, 2)]), snake(1, 1, &[(0, 0)])], 0);
    let mut search = MinimaxTreeSearch::new(Standard, HealthEvaluation, g);
    let d = search.get_best();
    assert_eq!(d.score, MAX_SCORE);
    assert_eq!(d.direction, Direction::Up);
}

#[test]
fn minimax_sees_a_forced_loss() {
    // The controlled agent starves on the very next tick whatever it plays:
    // the search still returns a decision, scored as a certain loss.
    let g = game(5, 5, vec![snake(0, 1, &[(2, 2)]), snake(1, 100, &[(0, 0)])], 0);
    let mut search = MinimaxTreeSearch::new(Standard, HealthEvaluation, g);
    let d = search.get_best();
    assert_eq!(d.score, 0);
}

#[test]
fn minimax_prefers_the_safe_direction() {
    // The controlled agent sits at the left edge: moving Left is immediate
    // elimination, so the decision must be a move that survives the full
    // horizon. The opponent is far away and healthy.
    let g = game(
        9,
        9,
        vec![snake(0, 100, &[(0, 4), (1, 4)]), snake(1, 100, &[(8, 4)])],
        0,
    );
    let mut search = MinimaxTreeSearch::new(Standard, HealthEvaluation, g);
    let d = search.get_best();
    assert_ne!(d.direction, Direction::Left);
    assert!(d.score > 0);
}

#[test]
fn mcts_first_iteration_expands_the_root() {
    // Two far-apart agents: sixteen joint outcomes, one child per outcome.
    let g = game(10, 10, vec![snake(0, 100, &[(2, 2)]), snake(1, 100, &[(7, 7)])], 0);
    let mut search = MonteCarloTreeSearch::new(&g, Standard, HealthEvaluation);
    let t = search.run();
    assert!(!t);
    assert_eq!(search.root.children.len(), 16);
    assert!(search.root.simulated);
    assert!(search.root.children.iter().all(|c| c.num_visits == 0 && !c.simulated));
}

#[test]
fn mcts_tries_every_child_once_before_any_twice() {
    // After the root is expanded, the next sixteen iterations visit each of
    // the sixteen children exactly once: a zero-visit child always outranks
    // every visited sibling.
    let g = game(10, 10, vec![snake(0, 100, &[(2, 2)]), snake(1, 100, &[(7, 7)])], 0);
    let mut search = MonteCarloTreeSearch::new(&g, Standard, HealthEvaluation);
    assert!(!search.run());
    for k in 0..16 {
        let visited = search.root.children.iter().filter(|c| c.num_visits > 0).count();
        assert_eq!(visited, k);
        assert!(search.root.children.iter().all(|c| c.num_visits <= 1));
        assert!(!search.run());
    }
    assert!(search.root.children.iter().all(|c| c.num_visits == 1));
}

#[test]
fn mcts_backup_flips_the_reward_per_level() {
    // Seventeen iterations expand the root and visit each child once; the
    // eighteenth descends two levels. The leaf records its evaluation (the
    // controlled agent at health 98 scores 980); the node above records the
    // flipped reward 1000 - 980 = 20 on top of its own first evaluation 990.
    let g = game(10, 10, vec![snake(0, 100, &[(2, 2)]), snake(1, 100, &[(7, 7)])], 0);
    let mut search = MonteCarloTreeSearch::new(&g, Standard, HealthEvaluation);
    for _ in 0..17 {
        assert!(!search.run());
    }
    assert!(!search.run());
    let twice: Vec<&snake_engine::mcts::Node> =
        search.root.children.iter().filter(|c| c.num_visits == 2).collect();
    assert_eq!(twice.len(), 1);
    let c = twice[0];
    assert_eq!(c.cumulative_score, 990 + (1000 - 980));
    let grand: Vec<&snake_engine::mcts::Node> =
        c.children.iter().filter(|n| n.num_visits == 1).collect();
    assert_eq!(grand.len(), 1);
    assert_eq!(grand[0].cumulative_score, 980);
}

#[test]
fn mcts_terminal_leaf_reports_true_and_changes_nothing() {
    // A root whose state is already terminal is reported immediately.
    let g = game(5, 5, vec![snake(0, 50, &[(2, 2)])], 0);
    let mut search = MonteCarloTreeSearch::new(&g, Standard, HealthEvaluation);
    assert!(search.run());
    assert_eq!(search.root.children.len(), 0);
    assert_eq!(search.root.num_visits, 0);
    assert!(!search.root.simulated);
}

#[test]
fn mcts_best_decision_follows_visit_counts() {
    let g = game(10, 10, vec![snake(0, 100, &[(2, 2)]), snake(1, 100, &[(7, 7)])], 0);
    let mut search = MonteCarloTreeSearch::new(&g, Standard, HealthEvaluation);
    for _ in 0..18 {
        assert!(!search.run());
    }
    let d = search.get_best_decision();
    // The one twice-visited child is the decision; its mean score is its
    // cumulative score over two visits.
    let c = search.root.children.iter().find(|c| c.num_visits == 2).unwrap();
    assert_eq!(d.direction, c.you_dir);
    assert_eq!(d.score, c.cumulative_score / 2);
}
