use mcts_lib::board::{Board, GameOutcome};
use mcts_lib::boards::tic_tac_toe::TicTacToeBoard;
use mcts_lib::fingerprint::{write_decimal, write_node, write_signed};
use mcts_lib::hash::MurMurHasher;
use mcts_lib::mcts_node::MctsNode;
use mcts_lib::search_tree::SearchTree;

#[test]
fn hex_text_writes_the_lowest_byte_first() {
    assert_eq!(
        MurMurHasher::hex_text(0x0102030405060708090a0b0c0d0e0ff0),
        "f00f0e0d0c0b0a090807060504030201"
    );
    assert_eq!(MurMurHasher::hex_text(0), "00000000000000000000000000000000");
    assert_eq!(
        MurMurHasher::hex_text(u128::MAX),
        "ffffffffffffffffffffffffffffffff"
    );
    assert_eq!(
        MurMurHasher::hex_text(0xAB),
        "ab000000000000000000000000000000"
    );
}

#[test]
fn hash_of_known_texts() {
    assert_eq!(MurMurHasher::hash(""), "00000000000000000000000000000000");
    assert_eq!(
        MurMurHasher::hash("The quick brown fox jumps over the lazy dog"),
        "6c1b07bc7bbc4be347939ac4a93c437a"
    );
    assert_eq!(
        MurMurHasher::hash("hello"),
        "029bbd41b3a7d8cb191dae486a901e5b"
    );
}

#[test]
fn numbers_are_written_in_decimal() {
    let mut text = String::from("x");
    write_decimal(0, &mut text);
    write_decimal(7, &mut text);
    write_decimal(10, &mut text);
    write_decimal(18446744073709551615, &mut text);
    assert_eq!(text, "x071018446744073709551615");
    let mut signed = String::new();
    write_signed(-2147483648, &mut signed);
    write_signed(0, &mut signed);
    write_signed(2147483647, &mut signed);
    write_signed(-5, &mut signed);
    assert_eq!(signed, "-214748364802147483647-5");
}

#[test]
fn node_text_lists_the_fields() {
    let mut node = MctsNode::new(-12, Box::new(TicTacToeBoard::default()));
    node.height = 3;
    node.visits = 20;
    node.wins = 7;
    node.draws = 5;
    node.is_fully_calculated = true;
    let mut text = String::new();
    write_node(&node, &mut text);
    assert_eq!(text, "(-12,3,7,5,20,0,1)");
}

#[test]
fn tree_text_goes_through_the_children_in_order() {
    let mut tree = SearchTree::new(MctsNode::new(0, Box::new(TicTacToeBoard::default())));
    assert_eq!(tree.to_text(), "(0,0,0,0,0,0,0)");
    assert_eq!(tree.tree_fingerprint(), "e409295d208f4246599150f870b89419");
    let mut numbered = Vec::new();
    for (id, cell) in [(5, 0u8), (6, 1), (7, 2)] {
        let mut board = TicTacToeBoard::default();
        board.perform_move(&cell);
        let mut node = MctsNode::new(id, Box::new(board));
        node.height = 1;
        node.prev_move = Some(cell);
        numbered.push(tree.append(0, node));
    }
    let mut board = TicTacToeBoard::default();
    board.perform_move(&0);
    board.perform_move(&4);
    let mut deep = MctsNode::new(8, Box::new(board));
    deep.height = 2;
    tree.append(numbered[0], deep);
    tree.backpropagate(4, GameOutcome::Win, false);
    tree.backpropagate(3, GameOutcome::Draw, false);
    assert_eq!(
        tree.to_text(),
        "(0,0,1,1,2,0,0)(5,1,1,0,1,0,0)(8,2,1,0,1,0,0)(6,1,0,0,0,0,0)(7,1,0,1,1,0,0)"
    );
    assert_eq!(tree.tree_fingerprint(), MurMurHasher::hash(&tree.to_text()));
}
