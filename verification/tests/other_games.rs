use mcts_lib::board::{Board, Bound, GameOutcome, Player};
use mcts_lib::mcts::{MctsAction, MonteCarloTreeSearch};
use mcts_lib::mcts_node::MctsNode;
use mcts_lib::playout::{next_state, playout_step};
use mcts_lib::random::CustomNumberGenerator;
use mcts_lib::search_tree::SearchTree;
use mcts_lib::selection::UcbScorer;
use std::collections::HashSet;

#[derive(Default)]
struct Ucb1;

impl UcbScorer for Ucb1 {
    fn ucb_value(&self, total_visits: i32, node_wins: i32, node_visit: i32) -> u64 {
        let value = ((node_wins as f64) / (node_visit as f64))
            + std::f64::consts::SQRT_2
                * f64::sqrt(f64::ln(total_visits as f64) / (node_visit as f64));
        value.to_bits()
    }
}

/// A walk on a ring of five places that never ends: a step goes one place
/// on or one place back.
#[derive(Clone, Default)]
struct Ring {
    place: u8,
}

impl Board for Ring {
    type Move = bool;

    fn get_current_player(&self) -> Player {
        Player::Me
    }

    fn get_outcome(&self) -> GameOutcome {
        GameOutcome::InProgress
    }

    fn get_available_moves(&self) -> Vec<bool> {
        vec![true, false]
    }

    fn perform_move(&mut self, b_move: &bool) {
        self.place = if *b_move {
            (self.place + 1) % 5
        } else {
            (self.place + 4) % 5
        };
    }

    fn get_hash(&self) -> u128 {
        self.place as u128
    }

    fn current_player(&self) -> Player {
        unreachable!()
    }

    fn outcome(&self) -> GameOutcome {
        unreachable!()
    }

    fn available_moves(&self) -> vstd::seq::Seq<bool> {
        unreachable!()
    }

    fn after_move(&self, _: bool) -> Self {
        unreachable!()
    }

    fn hash(&self) -> u128 {
        unreachable!()
    }

    fn lemma_clone_is_same(&self, _: &Self) {}
}

/// A pile of stones from which the players take one or two in turn; who
/// takes the last stone wins.
#[derive(Clone)]
struct Pile {
    stones: u8,
    mine: bool,
}

impl Default for Pile {
    fn default() -> Self {
        Pile { stones: 4, mine: true }
    }
}

impl Board for Pile {
    type Move = u8;

    fn get_current_player(&self) -> Player {
        if self.mine {
            Player::Me
        } else {
            Player::Other
        }
    }

    fn get_outcome(&self) -> GameOutcome {
        if self.stones > 0 {
            GameOutcome::InProgress
        } else if self.mine {
            GameOutcome::Lose
        } else {
            GameOutcome::Win
        }
    }

    fn get_available_moves(&self) -> Vec<u8> {
        (1..=2).filter(|take| *take <= self.stones).collect()
    }

    fn perform_move(&mut self, b_move: &u8) {
        self.stones -= *b_move;
        self.mine = !self.mine;
    }

    fn get_hash(&self) -> u128 {
        self.stones as u128 * 2 + self.mine as u128
    }

    fn current_player(&self) -> Player {
        unreachable!()
    }

    fn outcome(&self) -> GameOutcome {
        unreachable!()
    }

    fn available_moves(&self) -> vstd::seq::Seq<u8> {
        unreachable!()
    }

    fn after_move(&self, _: u8) -> Self {
        unreachable!()
    }

    fn hash(&self) -> u128 {
        unreachable!()
    }

    fn lemma_clone_is_same(&self, _: &Self) {}
}

#[test]
fn playout_that_runs_in_a_circle_is_a_draw() {
    let tree = SearchTree::new(MctsNode::new(0, Box::new(Ring::default())));
    let mut random = CustomNumberGenerator::default();
    for _ in 0..50 {
        assert_eq!(tree.simulate(0, &mut random), GameOutcome::Draw);
    }
}

#[test]
fn step_refuses_a_state_seen_before() {
    let board = Ring { place: 2 };
    let mut visited: HashSet<u128> = HashSet::new();
    visited.insert(2);
    visited.insert(3);
    let mut moves = vec![true, false];
    assert!(playout_step(&board, &mut visited, &mut moves, 0).is_none());
    assert_eq!(moves, vec![false]);
    assert_eq!(visited.len(), 2);
    let next = playout_step(&board, &mut visited, &mut moves, 0).unwrap();
    assert_eq!(next.place, 1);
    assert_eq!(moves, vec![false]);
    assert!(visited.contains(&1));
    assert_eq!(visited.len(), 3);
}

#[test]
fn next_state_finds_the_way_that_is_left() {
    let board = Ring { place: 0 };
    let mut random = CustomNumberGenerator::default();
    for _ in 0..20 {
        let mut visited: HashSet<u128> = HashSet::new();
        visited.insert(0);
        visited.insert(4);
        let next = next_state(&board, &mut visited, &mut random).unwrap();
        assert_eq!(next.place, 1);
        assert!(visited.contains(&1));
        visited.insert(1);
        let before = visited.clone();
        assert!(next_state(&board, &mut visited, &mut random).is_none());
        assert_eq!(visited, before);
    }
}

#[test]
fn endless_game_is_searched_without_end() {
    let mut mcts: MonteCarloTreeSearch<Ring, CustomNumberGenerator, Ucb1> =
        MonteCarloTreeSearch::builder(Ring::default())
            .with_random_generator(CustomNumberGenerator::default())
            .build();
    mcts.iterate_n_times(500);
    let root = mcts.get_root();
    assert_eq!(root.value().visits, 500);
    assert_eq!(root.value().draws, 500);
    assert_eq!(root.value().wins, 0);
    assert!(!root.value().is_fully_calculated);
    assert_eq!(mcts.get_next_mcts_action().get_name(), "Selection");
}

#[test]
fn small_game_is_solved() {
    // With four stones the player to move wins by taking one.
    let mut mcts: MonteCarloTreeSearch<Pile, CustomNumberGenerator, Ucb1> =
        MonteCarloTreeSearch::builder(Pile::default())
            .with_random_generator(CustomNumberGenerator::default())
            .build();
    mcts.iterate_n_times(1000);
    assert_eq!(
        *mcts.get_next_mcts_action(),
        MctsAction::EverythingIsCalculated
    );
    let root = mcts.get_root();
    assert!(root.value().visits < 1000);
    assert_eq!(root.value().bound, Bound::DefoWin);
    assert!(root.value().is_fully_calculated);
    let best = root.get_best_child().unwrap();
    assert_eq!(best.value().prev_move, Some(1));
    assert_eq!(best.value().bound, Bound::DefoWin);
    let other = &root.children()[1];
    assert_eq!(other.value().prev_move, Some(2));
    assert_eq!(other.value().bound, Bound::DefoLose);
}

#[test]
fn without_pruning_the_small_game_is_exhausted() {
    let mut mcts: MonteCarloTreeSearch<Pile, CustomNumberGenerator, Ucb1> =
        MonteCarloTreeSearch::builder(Pile::default())
            .with_alpha_beta_pruning(false)
            .with_random_generator(CustomNumberGenerator::default())
            .build();
    mcts.iterate_n_times(1000);
    assert_eq!(
        *mcts.get_next_mcts_action(),
        MctsAction::EverythingIsCalculated
    );
    let tree = mcts.get_tree();
    // 1 root, then every way of taking 1 or 2 stones from 4.
    assert_eq!(tree.len(), 12);
    for i in 0..tree.len() {
        assert_eq!(tree.get(i).bound, Bound::Unknown);
        assert!(tree.get(i).is_fully_calculated);
    }
    let best = mcts.get_root().get_best_child().unwrap();
    assert_eq!(best.value().prev_move, Some(1));
}
