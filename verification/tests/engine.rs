use mcts_lib::board::{Board, Bound, GameOutcome};
use mcts_lib::boards::tic_tac_toe::TicTacToeBoard;
use mcts_lib::mcts::{MctsAction, MctsTreeNode, MonteCarloTreeSearch, MonteCarloTreeSearchBuilder};
use mcts_lib::random::{CustomNumberGenerator, StandardRandomGenerator};
use mcts_lib::search_tree::SearchTree;
use mcts_lib::selection::UcbScorer;

#[derive(Default)]
struct Ucb1;

impl UcbScorer for Ucb1 {
    fn ucb_value(&self, total_visits: i32, node_wins: i32, node_visit: i32) -> u64 {
        let value = ((node_wins as f64) / (node_visit as f64))
            + std::f64::consts::SQRT_2
                * f64::sqrt(f64::ln(total_visits as f64) / (node_visit as f64));
        value.to_bits()
    }
}

type Search = MonteCarloTreeSearch<TicTacToeBoard, CustomNumberGenerator, Ucb1>;

fn search(pruning: bool) -> Search {
    MonteCarloTreeSearch::builder(TicTacToeBoard::default())
        .with_alpha_beta_pruning(pruning)
        .with_random_generator(CustomNumberGenerator::default())
        .build()
}

fn snapshot(tree: &SearchTree<TicTacToeBoard>) -> Vec<(i32, i32, i32, Bound, bool)> {
    let mut all = Vec::new();
    for i in 0..tree.len() {
        let node = tree.get(i);
        all.push((node.visits, node.wins, node.draws, node.bound, node.is_fully_calculated));
    }
    all
}

#[test]
fn new_search_has_only_an_unvisited_root() {
    let mcts = search(true);
    let tree = mcts.get_tree();
    assert_eq!(tree.len(), 1);
    assert!(tree.children(0).is_empty());
    assert_eq!(tree.parent(0), None);
    let root = mcts.get_root();
    assert_eq!(root.id(), 0);
    assert_eq!(root.value().id, 0);
    assert_eq!(root.value().height, 0);
    assert_eq!(root.value().visits, 0);
    assert_eq!(root.value().wins, 0);
    assert_eq!(root.value().draws, 0);
    assert_eq!(root.value().bound, Bound::Unknown);
    assert!(!root.value().is_fully_calculated);
    assert!(root.value().prev_move.is_none());
    assert!(root.get_best_child().is_none());
    assert_eq!(
        *mcts.get_next_mcts_action(),
        MctsAction::Selection { R: 0, RP: vec![] }
    );
}

#[test]
fn constructors_agree() {
    let by_new: Search =
        MonteCarloTreeSearch::new(TicTacToeBoard::default(), CustomNumberGenerator::default(), true);
    let by_scorer: Search = MonteCarloTreeSearch::with_scorer(
        TicTacToeBoard::default(),
        CustomNumberGenerator::default(),
        Ucb1,
        true,
    );
    let by_builder: Search = MonteCarloTreeSearchBuilder::new(TicTacToeBoard::default())
        .with_random_generator(CustomNumberGenerator::default())
        .with_scorer(Ucb1)
        .build();
    let mut all = [by_new, by_scorer, by_builder];
    for mcts in all.iter_mut() {
        mcts.iterate_n_times(300);
    }
    let first = all[0].tree_fingerprint();
    assert_eq!(all[1].tree_fingerprint(), first);
    assert_eq!(all[2].tree_fingerprint(), first);
}

#[test]
fn from_board_uses_pruning_and_runs() {
    let mut mcts: MonteCarloTreeSearch<TicTacToeBoard, StandardRandomGenerator, Ucb1> =
        MonteCarloTreeSearch::from_board(TicTacToeBoard::default());
    mcts.iterate_n_times(5000);
    assert_eq!(mcts.get_root().value().visits, 5000);
    let tree = mcts.get_tree();
    let mut proven = false;
    for i in 0..tree.len() {
        if tree.get(i).bound != Bound::Unknown {
            proven = true;
        }
    }
    assert!(proven);
}

#[test]
fn phases_follow_each_other() {
    let mut mcts = search(true);
    assert_eq!(mcts.get_next_mcts_action().get_name(), "Selection");
    mcts.execute_action();
    assert_eq!(*mcts.get_next_mcts_action(), MctsAction::Expansion { L: 0 });
    assert_eq!(mcts.get_next_mcts_action().get_name(), "Expansion");
    mcts.execute_action();
    assert_eq!(mcts.get_next_mcts_action().get_name(), "Simulation");
    let picked = match mcts.get_next_mcts_action() {
        MctsAction::Simulation { C, AC } => {
            assert_eq!(*AC, vec![1, 2, 3, 4, 5, 6, 7, 8, 9]);
            assert!(AC.contains(C));
            *C
        }
        _ => unreachable!(),
    };
    assert_eq!(mcts.get_tree().len(), 10);
    assert_eq!(mcts.get_root().value().visits, 0);
    mcts.execute_action();
    assert_eq!(mcts.get_next_mcts_action().get_name(), "Backpropagation");
    let outcome = match mcts.get_next_mcts_action() {
        MctsAction::Backpropagation { C, result } => {
            assert_eq!(*C, picked);
            assert_ne!(*result, GameOutcome::InProgress);
            *result
        }
        _ => unreachable!(),
    };
    mcts.execute_action();
    assert_eq!(
        *mcts.get_next_mcts_action(),
        MctsAction::Selection { R: 0, RP: vec![picked, 0] }
    );
    let root = mcts.get_root();
    assert_eq!(root.value().visits, 1);
    assert_eq!(root.value().wins, if outcome == GameOutcome::Win { 1 } else { 0 });
    assert_eq!(root.value().draws, if outcome == GameOutcome::Draw { 1 } else { 0 });
    let child = mcts.get_tree().get(picked);
    assert_eq!(child.visits, 1);
    assert_eq!(child.height, 1);
    assert_eq!(child.prev_move, Some((picked - 1) as u8));
}

#[test]
fn finished_search_has_its_name() {
    assert_eq!(
        MctsAction::EverythingIsCalculated.get_name(),
        "EverythingIsCalculated"
    );
}

#[test]
fn expansion_gives_each_move_a_child() {
    let mut mcts = search(false);
    mcts.do_iteration();
    let tree = mcts.get_tree();
    let kids = tree.children(0);
    assert_eq!(kids, vec![1, 2, 3, 4, 5, 6, 7, 8, 9]);
    for (k, kid) in kids.iter().enumerate() {
        let node = tree.get(*kid);
        assert_eq!(node.prev_move, Some(k as u8));
        assert_eq!(node.height, 1);
        assert_eq!(tree.parent(*kid), Some(0));
        assert!(tree.children(*kid).is_empty());
        let mut expected = TicTacToeBoard::default();
        expected.perform_move(&(k as u8));
        assert_eq!(node.board.get_hash(), expected.get_hash());
        assert_eq!(node.current_player, expected.get_current_player());
        assert_eq!(node.outcome, GameOutcome::InProgress);
    }
}

#[test]
fn iteration_returns_the_way_up() {
    let mut mcts = search(true);
    for _ in 0..200 {
        let way = mcts.do_iteration();
        assert!(!way.is_empty());
        assert_eq!(*way.last().unwrap(), 0);
        let tree = mcts.get_tree();
        for pair in way.windows(2) {
            assert_eq!(tree.parent(pair[0]), Some(pair[1]));
        }
        assert_eq!(tree.path_to_root(way[0]), way);
    }
}

#[test]
fn counts_stay_consistent() {
    for pruning in [false, true] {
        let mut mcts = search(pruning);
        mcts.iterate_n_times(3000);
        let tree = mcts.get_tree();
        for i in 0..tree.len() {
            let node = tree.get(i);
            assert!(node.wins >= 0 && node.draws >= 0);
            assert!(node.wins + node.draws <= node.visits);
            if let Some(up) = tree.parent(i) {
                assert!(node.visits <= tree.get(up).visits);
                assert_eq!(node.height, tree.get(up).height + 1);
                assert!(up < i);
            }
            if !pruning {
                assert_eq!(node.bound, Bound::Unknown);
            }
        }
    }
}

#[test]
fn root_visits_count_the_iterations() {
    let mut mcts = search(true);
    for done in 1..=500 {
        mcts.do_iteration();
        assert_eq!(mcts.get_root().value().visits, done);
    }
    mcts.iterate_n_times(250);
    assert_eq!(mcts.get_root().value().visits, 750);
    mcts.iterate_n_times(0);
    assert_eq!(mcts.get_root().value().visits, 750);
}

#[test]
fn nothing_changes_once_everything_is_calculated() {
    let mut mcts = search(true);
    mcts.iterate_n_times(40000);
    assert_eq!(
        *mcts.get_next_mcts_action(),
        MctsAction::EverythingIsCalculated
    );
    assert_eq!(mcts.get_root().value().visits, 37432);
    let before = snapshot(mcts.get_tree());
    let print = mcts.tree_fingerprint();
    assert!(mcts.do_iteration().is_empty());
    mcts.execute_action();
    mcts.iterate_n_times(100);
    assert_eq!(
        *mcts.get_next_mcts_action(),
        MctsAction::EverythingIsCalculated
    );
    assert_eq!(snapshot(mcts.get_tree()), before);
    assert_eq!(mcts.tree_fingerprint(), print);
}

#[test]
fn reading_changes_nothing() {
    let mut mcts = search(true);
    mcts.iterate_n_times(1000);
    let before = snapshot(mcts.get_tree());
    let print = mcts.tree_fingerprint();
    let best = mcts.get_root().get_best_child().unwrap().id();
    for _ in 0..3 {
        let root = mcts.get_root();
        assert_eq!(root.get_best_child().unwrap().id(), best);
        let kids: Vec<MctsTreeNode<'_, TicTacToeBoard>> = root.children();
        assert_eq!(kids.len(), 9);
        let _ = mcts.get_tree().get(best).visits;
        let _ = mcts.get_next_mcts_action().get_name();
    }
    assert_eq!(snapshot(mcts.get_tree()), before);
    assert_eq!(mcts.tree_fingerprint(), print);
}

#[test]
fn same_seed_gives_the_same_tree() {
    for pruning in [false, true] {
        let mut first = search(pruning);
        let mut second = search(pruning);
        first.iterate_n_times(2000);
        second.iterate_n_times(2000);
        assert_eq!(first.tree_fingerprint(), second.tree_fingerprint());
        assert_eq!(first.get_tree().to_text(), second.get_tree().to_text());
        let mut third = search(pruning);
        third.iterate_n_times(2001);
        assert_ne!(first.tree_fingerprint(), third.tree_fingerprint());
    }
}

#[test]
fn proofs_are_never_taken_back() {
    let mut mcts = search(true);
    let mut known: Vec<(i32, i32, i32, Bound, bool)> = Vec::new();
    for _ in 0..400 {
        mcts.iterate_n_times(25);
        let now = snapshot(mcts.get_tree());
        assert!(now.len() >= known.len());
        for (old, new) in known.iter().zip(now.iter()) {
            assert!(new.0 >= old.0);
            if old.3 != Bound::Unknown {
                assert_eq!(new.3, old.3);
            }
            if old.4 {
                assert!(new.4);
            }
        }
        known = now;
    }
}

#[test]
fn best_child_prefers_a_proven_win() {
    let mut mcts = search(true);
    mcts.iterate_n_times(37432);
    let root = mcts.get_root();
    let best = root.get_best_child().unwrap();
    let any_won = root
        .children()
        .iter()
        .any(|kid| kid.value().bound == Bound::DefoWin);
    if any_won {
        assert_eq!(best.value().bound, Bound::DefoWin);
    }
    for kid in root.children() {
        if !any_won || kid.value().bound == Bound::DefoWin {
            let kid_rate = kid.value().wins as i64 * best.value().visits as i64;
            let best_rate = best.value().wins as i64 * kid.value().visits as i64;
            assert!(kid_rate <= best_rate);
        }
    }
}
