use mcts_lib::board::{Board, Bound, GameOutcome, Player};
use mcts_lib::boards::tic_tac_toe::{TTTPlayer, TicTacToeBoard};
use mcts_lib::mcts::MonteCarloTreeSearch;
use mcts_lib::random::CustomNumberGenerator;
use mcts_lib::selection::UcbScorer;

#[derive(Default)]
struct Ucb1;

impl UcbScorer for Ucb1 {
    fn ucb_value(&self, total_visits: i32, node_wins: i32, node_visit: i32) -> u64 {
        let value = ((node_wins as f64) / (node_visit as f64))
            + std::f64::consts::SQRT_2
                * f64::sqrt(f64::ln(total_visits as f64) / (node_visit as f64));
        value.to_bits()
    }
}

#[test]
fn test1_usual() {
    // arrange
    let board = TicTacToeBoard::default();
    let mut mcts: MonteCarloTreeSearch<_, _, Ucb1> = MonteCarloTreeSearch::builder(board)
        .with_alpha_beta_pruning(false)
        .with_random_generator(CustomNumberGenerator::default())
        .build();

    // act
    mcts.iterate_n_times(20000);

    // assert
    let best_node = mcts.get_root().get_best_child().unwrap();
    assert_eq!(best_node.value().prev_move.unwrap(), 4);
    let root = mcts.get_root();
    assert_eq!(root.value().wins, 13867);
    assert_eq!(root.value().draws, 2104);
    assert_eq!(root.value().visits, 20000);
    assert!(!root.value().is_fully_calculated);
}

#[test]
fn test2_abp() {
    // arrange
    let board = TicTacToeBoard::default();
    let mut mcts: MonteCarloTreeSearch<_, _, Ucb1> = MonteCarloTreeSearch::builder(board)
        .with_random_generator(CustomNumberGenerator::default())
        .build();

    // act
    mcts.iterate_n_times(20000);

    // assert
    let best_node = mcts.get_root().get_best_child().unwrap();
    assert_eq!(best_node.value().prev_move.unwrap(), 4);
    let root = mcts.get_root();
    assert_eq!(root.value().wins, 10758);
    assert_eq!(root.value().draws, 3808);
    assert_eq!(root.value().visits, 20000);
    assert!(!root.value().is_fully_calculated);
}

#[test]
fn test3_abp_fully_calculated() {
    // arrange
    let board = TicTacToeBoard::default();
    let mut mcts: MonteCarloTreeSearch<_, _, Ucb1> = MonteCarloTreeSearch::builder(board)
        .with_random_generator(CustomNumberGenerator::default())
        .build();

    // act
    mcts.iterate_n_times(50000);

    // assert
    let best_node = mcts.get_root().get_best_child().unwrap();
    assert_eq!(best_node.value().prev_move.unwrap(), 4);
    let root = mcts.get_root();
    assert_eq!(root.value().wins, 18225);
    assert_eq!(root.value().draws, 10342);
    assert_eq!(root.value().visits, 37432);
    assert!(root.value().is_fully_calculated);
}

#[test]
fn empty_board_lists_all_cells() {
    let board = TicTacToeBoard::default();
    assert_eq!(board.get_available_moves(), vec![0, 1, 2, 3, 4, 5, 6, 7, 8]);
    assert_eq!(board.get_outcome(), GameOutcome::InProgress);
    assert_eq!(board.get_current_player(), Player::Me);
    assert_eq!(board.get_hash(), 0);
}

#[test]
fn moves_alternate_and_fill_cells() {
    let mut board = TicTacToeBoard::default();
    board.perform_move(&4);
    assert_eq!(board.get_current_player(), Player::Other);
    assert_eq!(board.get_available_moves(), vec![0, 1, 2, 3, 5, 6, 7, 8]);
    // X in cell 4: 1 * 3^4
    assert_eq!(board.get_hash(), 81);
    board.perform_move(&0);
    assert_eq!(board.get_current_player(), Player::Me);
    // O in cell 0: 2 * 3^0
    assert_eq!(board.get_hash(), 83);
}

#[test]
fn row_of_the_first_player_wins() {
    let mut board = TicTacToeBoard::default();
    for cell in [0u8, 3, 1, 4, 2] {
        board.perform_move(&cell);
    }
    assert_eq!(board.get_outcome(), GameOutcome::Win);
    assert!(board.get_available_moves().is_empty());
}

#[test]
fn column_of_the_second_player_loses() {
    let mut board = TicTacToeBoard::default();
    for cell in [0u8, 2, 1, 5, 6, 8] {
        board.perform_move(&cell);
    }
    assert_eq!(board.get_outcome(), GameOutcome::Lose);
    assert!(board.get_available_moves().is_empty());
}

#[test]
fn diagonal_wins() {
    let mut board = TicTacToeBoard::default();
    for cell in [2u8, 0, 4, 1, 6] {
        board.perform_move(&cell);
    }
    assert_eq!(board.get_outcome(), GameOutcome::Win);
}

#[test]
fn full_board_without_line_is_a_draw() {
    let mut board = TicTacToeBoard::default();
    for cell in [0u8, 1, 2, 4, 3, 5, 7, 6, 8] {
        board.perform_move(&cell);
    }
    assert_eq!(board.get_outcome(), GameOutcome::Draw);
    assert!(board.get_available_moves().is_empty());
    // X: 0 2 3 7 8, O: 1 4 5 6
    let expected: u128 = 1 + 2 * 3 + 9 + 27 + 2 * 81 + 2 * 243 + 2 * 729 + 2187 + 6561;
    assert_eq!(board.get_hash(), expected);
}

#[test]
fn root_side_o_sees_the_mirror() {
    let mut board = TicTacToeBoard::new(TTTPlayer::O);
    assert_eq!(board.get_current_player(), Player::Other);
    for cell in [0u8, 3, 1, 4, 2] {
        board.perform_move(&cell);
    }
    assert_eq!(board.get_outcome(), GameOutcome::Lose);
}

#[test]
fn clone_is_independent() {
    let mut board = TicTacToeBoard::default();
    board.perform_move(&4);
    let copy = board.clone();
    board.perform_move(&0);
    assert_eq!(copy.get_hash(), 81);
    assert_eq!(board.get_hash(), 83);
}

#[test]
fn ninth_move_completes_the_top_row() {
    let mut board = TicTacToeBoard::default();
    let mut left = 9;
    for cell in [0u8, 3, 1, 4, 5, 7, 6, 8] {
        assert_eq!(board.get_available_moves().len(), left);
        board.perform_move(&cell);
        left -= 1;
    }
    assert_eq!(board.get_available_moves(), vec![2]);
    assert_eq!(board.get_outcome(), GameOutcome::InProgress);
    assert_eq!(board.get_current_player(), Player::Me);
    board.perform_move(&2);
    assert_eq!(board.get_outcome(), GameOutcome::Win);
    assert!(board.get_available_moves().is_empty());
}

#[test]
fn middle_row_of_the_second_player_loses() {
    let mut board = TicTacToeBoard::default();
    for cell in [0u8, 3, 1, 4, 8, 5] {
        board.perform_move(&cell);
    }
    assert_eq!(board.get_outcome(), GameOutcome::Lose);
    assert_eq!(board.get_current_player(), Player::Me);
    assert!(board.get_available_moves().is_empty());
}

#[test]
fn one_iteration_solves_the_board_with_one_free_cell() {
    let mut board = TicTacToeBoard::default();
    for cell in [0u8, 3, 1, 4, 5, 7, 6, 8] {
        board.perform_move(&cell);
    }
    let mut mcts: MonteCarloTreeSearch<_, _, Ucb1> =
        MonteCarloTreeSearch::new(board, CustomNumberGenerator::default(), true);
    let way = mcts.do_iteration();
    assert_eq!(way, vec![1, 0]);
    let root = mcts.get_root();
    let kids = root.children();
    assert_eq!(kids.len(), 1);
    let child = kids[0].value();
    assert_eq!(child.prev_move, Some(2));
    assert_eq!((child.visits, child.wins), (1, 1));
    assert_eq!(child.bound, Bound::DefoWin);
    assert_eq!((root.value().visits, root.value().wins, root.value().draws), (1, 1, 0));
    assert_eq!(root.value().bound, Bound::DefoWin);
    assert!(root.value().is_fully_calculated);
}
