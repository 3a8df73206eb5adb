use mcts_engine::env::{Action, Env, BLACK, MAX_VALUE, WHITE};
use mcts_engine::evaluate::{default_node_value, minimax_value, Evaluator};
use mcts_engine::mcts::{ilog2, isqrt, millis_u64, uct_score, MCTS};

/// Take-away game: players alternately remove one to three stones; whoever
/// takes the last stone wins.
#[derive(Clone, Debug, PartialEq)]
struct Pile {
    stones: u32,
    to_move: usize,
}

impl Env for Pile {
    fn new() -> Self {
        Pile { stones: 10, to_move: WHITE }
    }

    fn duplicate(&self) -> Self {
        self.clone()
    }

    fn legal_actions(&self) -> Vec<Action> {
        (1..=self.stones.min(3)).map(|k| (k, 0)).collect()
    }

    fn step(&mut self, action: &Action) {
        self.stones -= action.0;
        self.to_move = 1 - self.to_move;
    }

    fn is_over(&self) -> bool {
        self.stones == 0
    }

    fn reward(&self, player: usize) -> i64 {
        if player == self.to_move {
            -MAX_VALUE
        } else {
            MAX_VALUE
        }
    }

    fn turn(&self) -> usize {
        self.to_move
    }
}

fn check_shape(e: &MCTS<Pile>) {
    assert!(e.nodes.len() <= e.capacity);
    assert_eq!(e.nodes[0].parent, 0);
    for i in 0..e.nodes.len() {
        let n = &e.nodes[i];
        if i > 0 {
            assert!(n.parent < i);
            assert!(n.num_visits >= 1);
        }
        assert!(n.reward.abs() <= MAX_VALUE * n.num_visits as i64);
        for &c in &e.children[i] {
            assert_eq!(e.nodes[c].parent, i);
        }
    }
}

#[test]
fn explore_fifty_on_small_arena() {
    let mut e = MCTS::<Pile>::with_capacity(WHITE, 100, Evaluator::Rollout, 0);
    let (n, _ms) = e.explore_n(50);
    assert_eq!(n, 50);
    assert_eq!(e.nodes[0].num_visits, 51);
    assert!(e.len() <= 100);
    assert_eq!(e.capacity(), 100);
    check_shape(&e);
}

#[test]
fn root_visits_grow_by_count() {
    let mut e = MCTS::<Pile>::with_capacity(WHITE, 1000, Evaluator::Rollout, 3);
    e.explore_n(7);
    let before = e.nodes[0].num_visits;
    e.explore_n(13);
    assert_eq!(e.nodes[0].num_visits, before + 13);
    e.explore_n(0);
    assert_eq!(e.nodes[0].num_visits, before + 13);
}

#[test]
fn full_arena_still_counts_visits() {
    let mut e = MCTS::<Pile>::with_capacity(WHITE, 4, Evaluator::Minimax, 1);
    e.explore_n(30);
    assert_eq!(e.len(), 4);
    assert_eq!(e.nodes[0].num_visits, 31);
    check_shape(&e);
}

fn check_conservation(e: &MCTS<Pile>) {
    for i in 0..e.nodes.len() {
        let sum: u64 = e.children[i].iter().map(|&c| e.nodes[c].num_visits).sum();
        let own = if i == 0 { e.root_own } else { 1 };
        assert_eq!(e.nodes[i].num_visits, own + e.nodes[i].spilled + sum);
    }
}

#[test]
fn conservation_while_room_remains() {
    let mut e = MCTS::<Pile>::with_capacity(WHITE, 10_000, Evaluator::Rollout, 5);
    e.explore_n(200);
    check_conservation(&e);
    assert!(!e.saturated);
    for i in 0..e.nodes.len() {
        if !e.children[i].is_empty() {
            let sum: u64 = e.children[i].iter().map(|&c| e.nodes[c].num_visits).sum();
            assert_eq!(e.nodes[i].spilled, 0);
            assert_eq!(e.nodes[i].num_visits, 1 + sum);
        }
    }
}

#[test]
fn conservation_across_reroots_and_full_arena() {
    let mut e = MCTS::<Pile>::with_capacity(WHITE, 6, Evaluator::Rollout, 12);
    e.explore_n(40);
    check_conservation(&e);
    assert!(e.nodes.iter().any(|n| n.spilled > 0));
    assert!(e.saturated);
    let a = e.best_action();
    e.advance_root(a);
    assert_eq!(e.root_own, 1);
    check_conservation(&e);
    e.explore_n(15);
    check_conservation(&e);
    e.advance_root((3, 0));
    e.explore_n(5);
    check_conservation(&e);
}

#[test]
fn values_stay_in_range() {
    let mut e = MCTS::<Pile>::with_capacity(WHITE, 500, Evaluator::Rollout, 9);
    e.explore_n(400);
    for n in &e.nodes {
        if n.num_visits > 0 {
            let mean = n.reward / n.num_visits as i64;
            assert!(-MAX_VALUE <= mean && mean <= MAX_VALUE);
        }
    }
}

#[test]
fn reroot_keeps_child_statistics() {
    let mut e = MCTS::<Pile>::with_capacity(WHITE, 1000, Evaluator::Rollout, 2);
    e.explore_n(100);
    let c = e.children[0][1];
    let (v, w, a) = (e.nodes[c].num_visits, e.nodes[c].reward, e.nodes[c].action);
    e.advance_root(a);
    assert_eq!(e.nodes[0].num_visits, v);
    assert_eq!(e.nodes[0].reward, w);
    assert_eq!(e.env.stones, 10 - a.0);
    check_shape(&e);
    let total: u64 = e.children[0].iter().map(|&k| e.nodes[k].num_visits).sum();
    assert!(total < v);
}

#[test]
fn reroot_on_unseen_action_makes_fresh_root() {
    let mut e = MCTS::<Pile>::with_capacity(WHITE, 1000, Evaluator::Rollout, 0);
    e.advance_root((2, 0));
    assert_eq!(e.len(), 1);
    assert_eq!(e.nodes[0].num_visits, 0);
    assert_eq!(e.nodes[0].reward, 0);
    assert!(e.children[0].is_empty());
    assert_eq!(e.env.stones, 8);
    assert_eq!(e.untried[0].len(), 3);
    assert_eq!(e.root_own, 0);
    assert!(!e.saturated);
    e.explore_n(20);
    assert_eq!(e.nodes[0].num_visits, 20);
    check_conservation(&e);
}

#[test]
fn best_action_is_stable() {
    let mut e = MCTS::<Pile>::with_capacity(WHITE, 1000, Evaluator::Rollout, 4);
    e.explore_n(60);
    let a = e.best_action();
    let b = e.best_action();
    assert_eq!(a, b);
    let most = e.children[0].iter().map(|&c| e.nodes[c].num_visits).max().unwrap();
    let first = e.children[0].iter().find(|&&c| e.nodes[c].num_visits == most).unwrap();
    assert_eq!(a, e.nodes[*first].action);
}

#[test]
fn best_action_after_reroot_is_legal() {
    let mut e = MCTS::<Pile>::with_capacity(WHITE, 1000, Evaluator::Rollout, 6);
    e.explore_n(10);
    let a = e.best_action();
    e.advance_root(a);
    let b = e.best_action();
    assert!(e.env.legal_actions().contains(&b));
}

#[test]
fn two_engines_mirror_the_same_game() {
    let mut white = MCTS::<Pile>::with_capacity(WHITE, 1000, Evaluator::Rollout, 7);
    let mut black = MCTS::<Pile>::with_capacity(BLACK, 1000, Evaluator::Minimax, 7);
    let mut game = Pile::new();
    while !game.is_over() {
        let a = if game.turn() == WHITE {
            white.explore_n(200);
            white.best_action()
        } else {
            black.explore_n(200);
            black.best_action()
        };
        game.step(&a);
        white.advance_root(a);
        black.advance_root(a);
        assert_eq!(white.env, black.env);
        assert_eq!(white.env, game);
    }
    assert_eq!(white.env.reward(WHITE), black.env.reward(WHITE));
}

#[test]
fn search_finds_winning_take() {
    // From ten stones the side to move wins by taking two.
    let mut e = MCTS::<Pile>::with_capacity(WHITE, 100_000, Evaluator::Minimax, 11);
    e.explore_n(3000);
    assert_eq!(e.best_action(), (2, 0));
}

#[test]
fn explore_for_respects_small_budget() {
    let mut e = MCTS::<Pile>::with_capacity(WHITE, 100_000, Evaluator::Rollout, 8);
    let before = e.nodes[0].num_visits;
    let (n, ms) = e.explore_for(20);
    assert!(ms >= 20 || n == 0 || ms < 1000);
    assert!(ms < 1000);
    assert!(n > 0);
    assert_eq!(e.nodes[0].num_visits, before + n);
}

#[test]
fn memory_usage_counts_nodes() {
    let mut e = MCTS::<Pile>::with_capacity(WHITE, 100, Evaluator::Rollout, 0);
    e.explore_n(5);
    assert_eq!(e.memory_usage(), e.len() * std::mem::size_of::<mcts_engine::mcts::Node>());
}

#[test]
fn evaluators_score_finished_games() {
    let done = Pile { stones: 0, to_move: BLACK };
    let mut rng = <rand::rngs::StdRng as rand::SeedableRng>::seed_from_u64(1);
    assert_eq!(default_node_value(&done, &mut rng), -MAX_VALUE);
    assert_eq!(minimax_value(&done, 2), -MAX_VALUE);
    let one = Pile { stones: 1, to_move: WHITE };
    assert_eq!(minimax_value(&one, 1), MAX_VALUE);
    assert_eq!(minimax_value(&one, 0), 0);
    let four = Pile { stones: 4, to_move: WHITE };
    assert_eq!(minimax_value(&four, 2), -MAX_VALUE);
}

#[test]
fn integer_helpers() {
    assert_eq!(isqrt(0), 0);
    assert_eq!(isqrt(15), 3);
    assert_eq!(isqrt(16), 4);
    assert_eq!(isqrt(1_000_000), 1000);
    assert_eq!(ilog2(0), 0);
    assert_eq!(ilog2(1), 0);
    assert_eq!(ilog2(8), 3);
    assert_eq!(ilog2(u64::MAX), 63);
    assert_eq!(millis_u64(5), 5);
    assert_eq!(millis_u64(u128::MAX), u64::MAX);
    // mean 2000 (a sure win shifted), bonus sqrt(1_400_000 * 3 / 1) = 2049
    assert_eq!(uct_score(8, 1, 1000), 2000 + 2049);
    assert_eq!(uct_score(1, 4, -4000), 0);
}

#[test]
fn explore_step_follows_the_budget() {
    let mut e = MCTS::<Pile>::with_capacity(WHITE, 1000, Evaluator::Rollout, 1);
    assert!(!e.explore_step(5, 5));
    assert_eq!(e.nodes[0].num_visits, 1);
    assert!(e.explore_step(4, 5));
    assert_eq!(e.nodes[0].num_visits, 2);
    let (n, _) = e.explore_for(0);
    assert_eq!(n, 0);
    assert_eq!(e.nodes[0].num_visits, 2);
}

#[test]
fn default_engine_and_subtree_copy() {
    let mut e = MCTS::<Pile>::new(WHITE, Evaluator::Rollout);
    assert_eq!(e.capacity(), mcts_engine::mcts::DEFAULT_CAPACITY);
    e.explore_n(300);
    let a = e.best_action();
    let c = e.children[0].iter().copied().find(|&k| e.nodes[k].action == a).unwrap();
    let grand: Vec<(Action, u64)> =
        e.children[c].iter().map(|&k| (e.nodes[k].action, e.nodes[k].num_visits)).collect();
    let untried = e.untried[c].clone();
    e.advance_root(a);
    let now: Vec<(Action, u64)> =
        e.children[0].iter().map(|&k| (e.nodes[k].action, e.nodes[k].num_visits)).collect();
    assert_eq!(now, grand);
    assert_eq!(e.untried[0], untried);
}
