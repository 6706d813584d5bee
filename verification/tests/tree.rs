use mcts_lib::board::Bound::{DefoLose, DefoWin, Unknown};
use mcts_lib::board::{Board, Bound, GameOutcome, Player};
use mcts_lib::boards::tic_tac_toe::TicTacToeBoard;
use mcts_lib::bounds::minimax;
use mcts_lib::links::TreeLinks;
use mcts_lib::mcts_node::MctsNode;
use mcts_lib::random::{CustomNumberGenerator, RandomGenerator};
use mcts_lib::search_tree::SearchTree;
use mcts_lib::selection::{first_best, Priority, UcbScorer};
use std::collections::HashSet;

#[derive(Default)]
struct Highest;

impl UcbScorer for Highest {
    fn ucb_value(&self, _total_visits: i32, _node_wins: i32, _node_visit: i32) -> u64 {
        u64::MAX
    }
}

#[derive(Default)]
struct ByWins;

impl UcbScorer for ByWins {
    fn ucb_value(&self, _total_visits: i32, node_wins: i32, _node_visit: i32) -> u64 {
        node_wins as u64
    }
}

fn board_after(moves: &[u8]) -> TicTacToeBoard {
    let mut board = TicTacToeBoard::default();
    for cell in moves {
        board.perform_move(cell);
    }
    board
}

fn child(id: i32, moves: &[u8]) -> MctsNode<TicTacToeBoard> {
    let mut node = MctsNode::new(id, Box::new(board_after(moves)));
    node.height = moves.len() as i32;
    node.prev_move = moves.last().copied();
    node
}

fn small_tree() -> SearchTree<TicTacToeBoard> {
    let mut tree = SearchTree::new(MctsNode::new(0, Box::new(TicTacToeBoard::default())));
    assert_eq!(tree.append(0, child(11, &[0])), 1);
    assert_eq!(tree.append(0, child(12, &[1])), 2);
    assert_eq!(tree.append(1, child(13, &[0, 4])), 3);
    tree
}

#[test]
fn links_keep_the_order_of_creation() {
    let mut links = TreeLinks::new();
    assert_eq!(links.len(), 1);
    assert_eq!(links.parent(0), None);
    assert!(links.children(0).is_empty());
    assert_eq!(links.append(0), 1);
    assert_eq!(links.append(0), 2);
    assert_eq!(links.append(1), 3);
    assert_eq!(links.append(0), 4);
    assert_eq!(links.append(3), 5);
    assert_eq!(links.len(), 6);
    assert_eq!(links.children(0), vec![1, 2, 4]);
    assert_eq!(links.children(1), vec![3]);
    assert!(links.children(2).is_empty());
    assert_eq!(links.children(3), vec![5]);
    assert_eq!(links.parent(1), Some(0));
    assert_eq!(links.parent(3), Some(1));
    assert_eq!(links.parent(4), Some(0));
    assert_eq!(links.parent(5), Some(3));
}

#[test]
fn tree_holds_nodes_by_position() {
    let tree = small_tree();
    assert_eq!(tree.root_id(), 0);
    assert_eq!(tree.len(), 4);
    assert_eq!(tree.get(0).id, 0);
    assert_eq!(tree.get(3).id, 13);
    assert_eq!(tree.children(0), vec![1, 2]);
    assert_eq!(tree.children(1), vec![3]);
    assert_eq!(tree.parent(3), Some(1));
    assert_eq!(tree.path_to_root(3), vec![3, 1, 0]);
    assert_eq!(tree.path_to_root(2), vec![2, 0]);
    assert_eq!(tree.path_to_root(0), vec![0]);
}

#[test]
fn new_node_reads_its_board() {
    let node = MctsNode::new(7, Box::new(board_after(&[0, 3, 1, 4, 2])));
    assert_eq!(node.id, 7);
    assert_eq!(node.height, 0);
    assert_eq!(node.outcome, GameOutcome::Win);
    assert_eq!(node.current_player, Player::Other);
    assert_eq!((node.visits, node.wins, node.draws), (0, 0, 0));
    assert_eq!(node.bound, Bound::Unknown);
    assert!(!node.is_fully_calculated);
    assert!(node.prev_move.is_none());
    let plain: MctsNode<TicTacToeBoard> = MctsNode::default();
    assert_eq!(plain.id, 0);
    assert_eq!(plain.outcome, GameOutcome::InProgress);
    assert_eq!(plain.current_player, Player::Me);
}

#[test]
fn record_counts_and_keeps_proofs() {
    let mut node = MctsNode::new(1, Box::new(TicTacToeBoard::default()));
    node.record(GameOutcome::Win, Bound::Unknown, false);
    assert_eq!((node.visits, node.wins, node.draws), (1, 1, 0));
    node.record(GameOutcome::Draw, Bound::DefoLose, true);
    assert_eq!((node.visits, node.wins, node.draws), (2, 1, 1));
    assert_eq!(node.bound, Bound::DefoLose);
    assert!(node.is_fully_calculated);
    node.record(GameOutcome::Lose, Bound::Unknown, false);
    assert_eq!((node.visits, node.wins, node.draws), (3, 1, 1));
    assert_eq!(node.bound, Bound::DefoLose);
    assert!(node.is_fully_calculated);
}

#[test]
fn shares_of_wins_are_compared_exactly() {
    let mut a = MctsNode::new(1, Box::new(TicTacToeBoard::default()));
    let mut b = MctsNode::new(2, Box::new(TicTacToeBoard::default()));
    assert!(!a.wins_rate_exceeds(&b));
    a.visits = 3;
    a.wins = 1;
    assert!(a.wins_rate_exceeds(&b));
    assert!(!b.wins_rate_exceeds(&a));
    b.visits = 6;
    b.wins = 2;
    assert!(!a.wins_rate_exceeds(&b));
    assert!(!b.wins_rate_exceeds(&a));
    b.visits = 2147483647;
    b.wins = 715827883;
    assert!(b.wins_rate_exceeds(&a));
    b.wins = 715827882;
    assert!(a.wins_rate_exceeds(&b));
}

#[test]
fn first_best_takes_the_first_of_the_highest() {
    assert_eq!(first_best(&vec![]), None);
    assert_eq!(first_best(&vec![Priority::Skipped, Priority::Skipped]), None);
    assert_eq!(
        first_best(&vec![Priority::Scored(3), Priority::Scored(9), Priority::Scored(9)]),
        Some(1)
    );
    assert_eq!(
        first_best(&vec![Priority::Skipped, Priority::Scored(0), Priority::Skipped]),
        Some(1)
    );
    assert_eq!(
        first_best(&vec![
            Priority::Scored(u64::MAX),
            Priority::Unvisited,
            Priority::Unvisited
        ]),
        Some(1)
    );
    assert_eq!(
        first_best(&vec![Priority::Unvisited, Priority::Scored(u64::MAX)]),
        Some(0)
    );
}

#[test]
fn minimax_follows_the_player_to_move() {
    assert_eq!(minimax(Player::Me, &vec![DefoLose, DefoWin, Unknown]), DefoWin);
    assert_eq!(minimax(Player::Me, &vec![DefoLose, DefoLose]), DefoLose);
    assert_eq!(minimax(Player::Me, &vec![DefoLose, Unknown]), Unknown);
    assert_eq!(minimax(Player::Other, &vec![DefoWin, DefoWin]), DefoWin);
    assert_eq!(minimax(Player::Other, &vec![DefoWin, DefoLose, Unknown]), DefoLose);
    assert_eq!(minimax(Player::Other, &vec![DefoWin, Unknown]), Unknown);
    assert_eq!(minimax(Player::Me, &vec![Unknown]), Unknown);
}

#[test]
fn bound_comes_from_outcome_and_children() {
    let mut tree = SearchTree::new(MctsNode::new(0, Box::new(board_after(&[0, 3, 1, 4]))));
    let won = tree.append(0, child(1, &[0, 3, 1, 4, 2]));
    let open = tree.append(0, child(2, &[0, 3, 1, 4, 8]));
    assert_eq!(tree.get(won).outcome, GameOutcome::Win);
    assert_eq!(tree.get_bound(won, true), Bound::DefoWin);
    assert_eq!(tree.get_bound(won, false), Bound::Unknown);
    assert_eq!(tree.get_bound(open, true), Bound::Unknown);
    assert_eq!(tree.get_bound(0, true), Bound::Unknown);
    assert!(tree.is_fully_calculated(won, Bound::Unknown));
    assert!(!tree.is_fully_calculated(open, Bound::Unknown));
    assert!(tree.is_fully_calculated(open, Bound::DefoLose));
    assert!(!tree.is_fully_calculated(0, Bound::Unknown));

    let way = tree.backpropagate(won, GameOutcome::Win, true);
    assert_eq!(way, vec![won, 0]);
    assert_eq!(tree.get(won).bound, Bound::DefoWin);
    assert!(tree.get(won).is_fully_calculated);
    assert_eq!((tree.get(won).visits, tree.get(won).wins), (1, 1));
    // The favoured player is to move at the root and has a winning move.
    assert_eq!(tree.get(0).bound, Bound::DefoWin);
    assert!(tree.get(0).is_fully_calculated);
    assert_eq!((tree.get(0).visits, tree.get(0).wins, tree.get(0).draws), (1, 1, 0));
    assert_eq!(tree.get(open).visits, 0);
    assert_eq!(tree.get(open).bound, Bound::Unknown);
    assert_eq!(tree.best_child(0), Some(won));
}

#[test]
fn backpropagation_without_pruning_proves_nothing() {
    let mut tree = small_tree();
    let way = tree.backpropagate(3, GameOutcome::Draw, false);
    assert_eq!(way, vec![3, 1, 0]);
    for i in [0usize, 1, 3] {
        assert_eq!((tree.get(i).visits, tree.get(i).wins, tree.get(i).draws), (1, 0, 1));
        assert_eq!(tree.get(i).bound, Bound::Unknown);
        assert!(!tree.get(i).is_fully_calculated);
    }
    assert_eq!(tree.get(2).visits, 0);
    tree.backpropagate(2, GameOutcome::Lose, false);
    assert_eq!((tree.get(0).visits, tree.get(0).wins, tree.get(0).draws), (2, 0, 1));
    assert_eq!((tree.get(2).visits, tree.get(2).wins, tree.get(2).draws), (1, 0, 0));
}

#[test]
fn unvisited_child_goes_first() {
    let mut tree = small_tree();
    tree.backpropagate(1, GameOutcome::Win, false);
    // Child 1 has been visited and gets the highest rank there is; child 2
    // has not been visited.
    assert_eq!(tree.select_child(0, &Highest), Some(2));
    tree.backpropagate(2, GameOutcome::Lose, false);
    assert_eq!(tree.select_child(0, &Highest), Some(1));
    assert_eq!(tree.select_child(0, &ByWins), Some(1));
    assert_eq!(tree.select_child(2, &ByWins), None);
    assert_eq!(tree.select_next_node(0, &ByWins), Some(3));
}

#[test]
fn selection_skips_what_is_calculated() {
    let mut tree = SearchTree::new(MctsNode::new(0, Box::new(board_after(&[0, 3, 1, 4]))));
    let won = tree.append(0, child(1, &[0, 3, 1, 4, 2]));
    let open = tree.append(0, child(2, &[0, 3, 1, 4, 8]));
    tree.backpropagate(won, GameOutcome::Win, false);
    assert!(tree.get(won).is_fully_calculated);
    assert!(!tree.get(0).is_fully_calculated);
    assert_eq!(tree.select_child(0, &Highest), Some(open));
    assert_eq!(tree.select_next_node(0, &Highest), Some(open));
    let mut done = SearchTree::new(MctsNode::new(0, Box::new(board_after(&[0, 3, 1, 4]))));
    let only = done.append(0, child(1, &[0, 3, 1, 4, 2]));
    done.backpropagate(only, GameOutcome::Win, false);
    assert!(done.get(0).is_fully_calculated);
    assert_eq!(done.select_next_node(0, &Highest), None);
    let alone = SearchTree::new(MctsNode::new(0, Box::new(TicTacToeBoard::default())));
    assert_eq!(alone.select_next_node(0, &Highest), Some(0));
}

#[test]
fn expansion_of_a_finished_game_adds_nothing() {
    let mut tree = SearchTree::new(MctsNode::new(0, Box::new(board_after(&[0, 3, 1, 4, 2]))));
    let mut random = CustomNumberGenerator::default();
    let (made, picked) = tree.expand_node(0, &mut random);
    assert!(made.is_empty());
    assert_eq!(picked, 0);
    assert_eq!(tree.len(), 1);
    assert_eq!(tree.simulate(0, &mut random), GameOutcome::Win);
}

#[test]
fn expansion_picks_one_of_the_new_children() {
    let mut tree = SearchTree::new(MctsNode::new(0, Box::new(board_after(&[0, 3, 1, 4]))));
    let mut random = CustomNumberGenerator::new(42);
    let (made, picked) = tree.expand_node(0, &mut random);
    assert_eq!(made, vec![1, 2, 3, 4, 5]);
    assert!(made.contains(&picked));
    let moves: Vec<Option<u8>> = made.iter().map(|kid| tree.get(*kid).prev_move).collect();
    assert_eq!(moves, vec![Some(2), Some(5), Some(6), Some(7), Some(8)]);
    let mut ids = CustomNumberGenerator::new(42);
    for kid in &made {
        assert_eq!(tree.get(*kid).id, ids.next());
        assert_eq!(tree.get(*kid).height, 1);
    }
}

#[test]
fn playout_ends_with_a_final_outcome() {
    let tree = SearchTree::new(MctsNode::new(0, Box::new(TicTacToeBoard::default())));
    let mut random = CustomNumberGenerator::default();
    for _ in 0..200 {
        let outcome = tree.simulate(0, &mut random);
        assert_ne!(outcome, GameOutcome::InProgress);
    }
    assert_eq!(tree.get(0).visits, 0);
}

#[test]
fn best_child_is_the_first_with_the_greatest_share() {
    let mut tree = small_tree();
    assert_eq!(tree.best_child(3), None);
    // No child has been visited: all shares are 0 and the first child leads.
    assert_eq!(tree.best_child(0), Some(1));
    tree.backpropagate(2, GameOutcome::Win, false);
    assert_eq!(tree.best_child(0), Some(2));
    tree.backpropagate(1, GameOutcome::Win, false);
    // Both children have won their only playout: the first one leads.
    assert_eq!(tree.best_child(0), Some(1));
    tree.backpropagate(1, GameOutcome::Lose, false);
    assert_eq!(tree.best_child(0), Some(2));
}

#[test]
fn nodes_are_equal_by_id() {
    let first = MctsNode::new(5, Box::new(TicTacToeBoard::default()));
    let mut second = MctsNode::new(5, Box::new(board_after(&[4])));
    second.visits = 3;
    let third = MctsNode::new(6, Box::new(TicTacToeBoard::default()));
    assert!(first == second);
    assert!(first != third);
}

#[test]
fn add_children_uses_the_ids_and_the_index_given() {
    let mut tree = SearchTree::new(MctsNode::new(0, Box::new(board_after(&[0, 3, 1, 4]))));
    let moves = tree.get(0).board.get_available_moves();
    assert_eq!(moves, vec![2, 5, 6, 7, 8]);
    let ids = vec![50, -7, 50, 0, 9];
    let (made, picked) = tree.add_children(0, moves, &ids, 3);
    assert_eq!(made, vec![1, 2, 3, 4, 5]);
    assert_eq!(picked, 4);
    assert_eq!(tree.children(0), made);
    for (k, kid) in made.iter().enumerate() {
        let node = tree.get(*kid);
        assert_eq!(node.id, ids[k]);
        assert_eq!(node.height, 1);
        assert_eq!(node.visits, 0);
        assert_eq!(tree.parent(*kid), Some(0));
    }
    assert_eq!(tree.get(1).prev_move, Some(2));
    assert_eq!(tree.get(1).outcome, GameOutcome::Win);
    assert_eq!(tree.get(5).prev_move, Some(8));
    assert_eq!(tree.get(0).board.get_available_moves(), vec![2, 5, 6, 7, 8]);
}

#[test]
fn expansion_draws_the_ids_and_then_the_index() {
    let mut tree = SearchTree::new(MctsNode::new(0, Box::new(board_after(&[0, 3, 1, 4]))));
    let mut random = CustomNumberGenerator::new(42);
    let (made, picked) = tree.expand_node(0, &mut random);
    let mut same = CustomNumberGenerator::new(42);
    for kid in &made {
        assert_eq!(tree.get(*kid).id, same.next());
    }
    let index = same.next_range(0, 5) as usize;
    assert_eq!(picked, made[index]);
    assert_eq!(random.next(), same.next());
}

#[test]
fn finished_game_draws_no_number() {
    let mut tree = SearchTree::new(MctsNode::new(0, Box::new(board_after(&[0, 3, 1, 4, 2]))));
    let mut random = CustomNumberGenerator::new(42);
    let mut untouched = CustomNumberGenerator::new(42);
    let (made, picked) = tree.expand_node(0, &mut random);
    assert!(made.is_empty());
    assert_eq!(picked, 0);
    assert_eq!(tree.simulate(0, &mut random), GameOutcome::Win);
    assert_eq!(tree.len(), 1);
    assert_eq!(random.next(), untouched.next());
}

#[test]
fn playout_with_one_free_cell_is_won() {
    let tree = SearchTree::new(MctsNode::new(
        0,
        Box::new(board_after(&[0, 3, 1, 4, 5, 7, 6, 8])),
    ));
    let mut random = CustomNumberGenerator::new(42);
    assert_eq!(tree.simulate(0, &mut random), GameOutcome::Win);
    assert_eq!(tree.get(0).visits, 0);
    assert_eq!(tree.get(0).wins, 0);
    assert_eq!(tree.get(0).draws, 0);
    assert!(tree.children(0).is_empty());
}

#[test]
fn nodes_with_the_same_id_hash_alike() {
    let first = MctsNode::new(5, Box::new(TicTacToeBoard::default()));
    let second = MctsNode::new(5, Box::new(board_after(&[4])));
    let third = MctsNode::new(6, Box::new(TicTacToeBoard::default()));
    let mut seen = HashSet::new();
    seen.insert(first);
    assert!(seen.contains(&second));
    assert!(!seen.contains(&third));
}
