use crate::board::{Board, GameOutcome, Player};
use vstd::prelude::*;

verus! {

/// One of the two sides of tic-tac-toe.
#[derive(Debug, PartialEq, Eq, Structural, Copy, Clone)]
pub enum TTTPlayer {
    /// The side that moves first.
    X,
    /// The side that moves second.
    O,
}

/// The side that is not `player`.
pub open spec fn opponent(player: TTTPlayer) -> TTTPlayer {
    match player {
        TTTPlayer::X => TTTPlayer::O,
        TTTPlayer::O => TTTPlayer::X,
    }
}

/// Whether the cells `a`, `b` and `c` all hold the mark of one side.
pub open spec fn line_taken(cells: Seq<Option<TTTPlayer>>, a: int, b: int, c: int) -> bool {
    cells[a] is Some && cells[a] == cells[b] && cells[a] == cells[c]
}

/// The side that owns a full line, if any. The lines through the corner 0
/// are looked at first, then those through the corner 8, then those through
/// the centre.
pub open spec fn line_owner(cells: Seq<Option<TTTPlayer>>) -> Option<TTTPlayer> {
    if line_taken(cells, 0, 1, 2) || line_taken(cells, 0, 3, 6) {
        cells[0]
    } else if line_taken(cells, 8, 2, 5) || line_taken(cells, 8, 6, 7) {
        cells[8]
    } else if line_taken(cells, 4, 1, 7) || line_taken(cells, 4, 3, 5) || line_taken(cells, 4, 0, 8)
        || line_taken(cells, 4, 2, 6) {
        cells[4]
    } else {
        None
    }
}

/// Whether some cell is still empty.
pub open spec fn has_empty_cell(cells: Seq<Option<TTTPlayer>>) -> bool {
    exists|i: int| 0 <= i < cells.len() && cells[i] is None
}

/// The outcome of a position for the side `root`.
pub open spec fn outcome_of(cells: Seq<Option<TTTPlayer>>, root: TTTPlayer) -> GameOutcome {
    match line_owner(cells) {
        Some(owner) => if owner == root {
            GameOutcome::Win
        } else {
            GameOutcome::Lose
        },
        None => if has_empty_cell(cells) {
            GameOutcome::InProgress
        } else {
            GameOutcome::Draw
        },
    }
}

/// The empty cells among the first `n`, in rising order.
pub open spec fn empty_cells(cells: Seq<Option<TTTPlayer>>, n: nat) -> Seq<u8>
    decreases n,
{
    if n == 0 {
        Seq::empty()
    } else if cells[n - 1] is None {
        empty_cells(cells, (n - 1) as nat).push((n - 1) as u8)
    } else {
        empty_cells(cells, (n - 1) as nat)
    }
}

/// The digit that stands for a cell in the position's number.
pub open spec fn cell_digit(cell: Option<TTTPlayer>) -> nat {
    match cell {
        None => 0,
        Some(TTTPlayer::X) => 1,
        Some(TTTPlayer::O) => 2,
    }
}

/// Three to the power of `n`.
pub open spec fn pow3(n: nat) -> nat
    decreases n,
{
    if n == 0 {
        1
    } else {
        3 * pow3((n - 1) as nat)
    }
}

/// The number written in base three by the digits of the first `n` cells,
/// cell 0 being the lowest digit.
pub open spec fn cells_number(cells: Seq<Option<TTTPlayer>>, n: nat) -> nat
    decreases n,
{
    if n == 0 {
        0
    } else {
        cells_number(cells, (n - 1) as nat) + cell_digit(cells[n - 1]) * pow3((n - 1) as nat)
    }
}

/// The first ten powers of three stay small.
pub proof fn lemma_pow3_bound(n: nat)
    requires
        n <= 9,
    ensures
        1 <= pow3(n) <= 19683,
        n < 9 ==> pow3(n) <= 6561,
    decreases 9 - n,
{
    if n == 9 {
        reveal_with_fuel(pow3, 11);
    } else {
        lemma_pow3_bound(n + 1);
    }
}

/// On an empty board every cell is listed as empty.
pub proof fn lemma_empty_board(cells: Seq<Option<TTTPlayer>>)
    requires
        cells == Seq::new(9, |i: int| None::<TTTPlayer>),
    ensures
        empty_cells(cells, 9) == seq![0u8, 1u8, 2u8, 3u8, 4u8, 5u8, 6u8, 7u8, 8u8],
        line_owner(cells) is None,
        has_empty_cell(cells),
{
    reveal_with_fuel(empty_cells, 10);
    assert(cells[0] is None);
    assert(empty_cells(cells, 9) =~= seq![0u8, 1u8, 2u8, 3u8, 4u8, 5u8, 6u8, 7u8, 8u8]);
}

/// A mark on an empty cell takes that cell, and no other, off the list of
/// the empty cells among the first `n`.
pub proof fn lemma_empty_cells_after_move(
    cells: Seq<Option<TTTPlayer>>,
    n: nat,
    m: int,
    side: TTTPlayer,
)
    requires
        n <= cells.len(),
        0 <= m < cells.len(),
        cells[m] is None,
    ensures
        empty_cells(cells.update(m, Some(side)), n).len() == empty_cells(cells, n).len() - if m
            < n {
            1int
        } else {
            0int
        },
    decreases n,
{
    if n > 0 {
        lemma_empty_cells_after_move(cells, (n - 1) as nat, m, side);
    }
}

/// A cell is listed among the empty cells exactly if it is one of the first
/// `n` and empty.
pub proof fn lemma_empty_cells_contains(cells: Seq<Option<TTTPlayer>>, n: nat, m: u8)
    requires
        n <= 256,
    ensures
        empty_cells(cells, n).contains(m) <==> (m < n && cells[m as int] is None),
    decreases n,
{
    if n > 0 {
        lemma_empty_cells_contains(cells, (n - 1) as nat, m);
        let prev = empty_cells(cells, (n - 1) as nat);
        if cells[n - 1] is None {
            let last = (n - 1) as u8;
            let all = prev.push(last);
            assert(all[prev.len() as int] == last);
            if prev.contains(m) {
                let j = choose|j: int| 0 <= j < prev.len() && prev[j] == m;
                assert(all[j] == m);
            }
        }
    }
}

/// A position of tic-tac-toe. The cells are numbered 0 to 8, row by row, and
/// a move is the number of the cell that is marked.
pub struct TicTacToeBoard {
    root_player: TTTPlayer,
    current_player: TTTPlayer,
    field: [Option<TTTPlayer>; 9],
    outcome: GameOutcome,
}

/// Tells whether two cells hold the same: both nothing, or the mark of the
/// same side.
fn same_mark(a: Option<TTTPlayer>, b: Option<TTTPlayer>) -> (same: bool)
    ensures
        same == (a == b),
{
    match (a, b) {
        (None, None) => true,
        (Some(TTTPlayer::X), Some(TTTPlayer::X)) => true,
        (Some(TTTPlayer::O), Some(TTTPlayer::O)) => true,
        _ => false,
    }
}

/// Returns the outcome for the side `root` when `owner` owns a full line.
fn side_outcome(owner: Option<TTTPlayer>, root: TTTPlayer) -> (outcome: GameOutcome)
    requires
        owner is Some,
    ensures
        outcome == if owner->Some_0 == root {
            GameOutcome::Win
        } else {
            GameOutcome::Lose
        },
{
    if same_mark(owner, Some(root)) {
        GameOutcome::Win
    } else {
        GameOutcome::Lose
    }
}

/// Returns the outcome of the position in `field` for the side `root`.
fn field_outcome(field: &[Option<TTTPlayer>; 9], root: TTTPlayer) -> (outcome: GameOutcome)
    ensures
        outcome == outcome_of(field@, root),
{
    if field[0].is_some() && (same_mark(field[0], field[1]) && same_mark(field[0], field[2])
        || same_mark(field[0], field[3]) && same_mark(field[0], field[6])) {
        return side_outcome(field[0], root);
    }
    if field[8].is_some() && (same_mark(field[8], field[2]) && same_mark(field[8], field[5])
        || same_mark(field[8], field[6]) && same_mark(field[8], field[7])) {
        return side_outcome(field[8], root);
    }
    if field[4].is_some() && (same_mark(field[4], field[1]) && same_mark(field[4], field[7])
        || same_mark(field[4], field[3]) && same_mark(field[4], field[5]) || same_mark(
        field[4],
        field[0],
    ) && same_mark(field[4], field[8]) || same_mark(field[4], field[2]) && same_mark(
        field[4],
        field[6],
    )) {
        return side_outcome(field[4], root);
    }
    let mut i: usize = 0;
    while i < 9
        invariant
            0 <= i <= 9,
            line_owner(field@) is None,
            forall|j: int| 0 <= j < i ==> field@[j] is Some,
        decreases 9 - i,
    {
        if field[i].is_none() {
            assert(has_empty_cell(field@)) by {
                assert(field@[i as int] is None);
            }
            return GameOutcome::InProgress;
        }
        i += 1;
    }
    GameOutcome::Draw
}

impl TicTacToeBoard {
    /// The outcome kept beside the cells is always that of the cells.
    #[verifier::type_invariant]
    spec fn outcome_is_current(&self) -> bool {
        self.outcome == outcome_of(self.field@, self.root_player)
    }

    /// The marks in the nine cells.
    pub closed spec fn cells(&self) -> Seq<Option<TTTPlayer>> {
        self.field@
    }

    /// The side whose turn it is.
    pub closed spec fn side_to_move(&self) -> TTTPlayer {
        self.current_player
    }

    /// The side from which outcomes are judged.
    pub closed spec fn root_side(&self) -> TTTPlayer {
        self.root_player
    }

    /// The outcome that the board keeps beside its cells.
    pub closed spec fn kept_outcome(&self) -> GameOutcome {
        self.outcome
    }

    /// Whether this board is what `from` becomes when its side to move marks
    /// the cell `b_move`.
    pub open spec fn follows(&self, from: Self, b_move: u8) -> bool {
        &&& self.cells() == from.cells().update(b_move as int, Some(from.side_to_move()))
        &&& self.side_to_move() == opponent(from.side_to_move())
        &&& self.root_side() == from.root_side()
        &&& self.kept_outcome() == outcome_of(self.cells(), self.root_side())
    }

    /// The board that this one becomes when its side to move marks the cell
    /// `b_move`.
    pub closed spec fn marked(&self, b_move: u8) -> Self {
        let side = Some(self.current_player);
        let f = self.field;
        let m = b_move as int;
        let field = [
            if m == 0 { side } else { f[0] },
            if m == 1 { side } else { f[1] },
            if m == 2 { side } else { f[2] },
            if m == 3 { side } else { f[3] },
            if m == 4 { side } else { f[4] },
            if m == 5 { side } else { f[5] },
            if m == 6 { side } else { f[6] },
            if m == 7 { side } else { f[7] },
            if m == 8 { side } else { f[8] },
        ];
        TicTacToeBoard {
            root_player: self.root_player,
            current_player: opponent(self.current_player),
            field,
            outcome: outcome_of(field@, self.root_player),
        }
    }

    /// The board that a move on one of the nine cells leads to follows from
    /// this board by that move: the cell holds the mark of the side that
    /// moved, the other cells are as they were, and the other side is to
    /// move.
    pub proof fn lemma_after_move(&self, b_move: u8)
        requires
            b_move < 9,
        ensures
            self.after_move(b_move).follows(*self, b_move),
    {
        let next = self.marked(b_move);
        assert(next.field@ =~= self.field@.update(b_move as int, Some(self.current_player)));
    }

    /// A move on an empty cell is legal while no side owns a line.
    pub proof fn lemma_legal_move(&self, b_move: u8)
        requires
            b_move < 9,
            self.cells()[b_move as int] is None,
            line_owner(self.cells()) is None,
        ensures
            self.outcome() == GameOutcome::InProgress,
            self.available_moves().contains(b_move),
    {
        assert(has_empty_cell(self.cells()));
        lemma_empty_cells_contains(self.cells(), 9, b_move);
    }

    /// Two boards that follow from the same board by the same move are equal.
    pub proof fn lemma_follows_once(self, other: Self, from: Self, b_move: u8)
        requires
            self.follows(from, b_move),
            other.follows(from, b_move),
        ensures
            self == other,
    {
        assert(self.field =~= other.field);
    }

    /// While the game is in progress there is a legal move, and once it is
    /// over there is none.
    pub proof fn lemma_moves_while_in_progress(&self)
        ensures
            self.outcome() == GameOutcome::InProgress <==> self.available_moves().len() > 0,
    {
        if self.outcome() == GameOutcome::InProgress {
            let i = choose|i: int| 0 <= i < self.cells().len() && self.cells()[i] is None;
            lemma_empty_cells_contains(self.cells(), 9, i as u8);
            assert(empty_cells(self.cells(), 9).contains(i as u8));
        }
    }

    /// Creates an empty board, on which X moves first and outcomes are
    /// judged from the side of `root_player`.
    pub fn new(root_player: TTTPlayer) -> (board: Self)
        ensures
            board.cells() == Seq::new(9, |i: int| None::<TTTPlayer>),
            board.side_to_move() == TTTPlayer::X,
            board.root_side() == root_player,
            board.outcome() == GameOutcome::InProgress,
            board.available_moves() == seq![0u8, 1u8, 2u8, 3u8, 4u8, 5u8, 6u8, 7u8, 8u8],
    {
        let field: [Option<TTTPlayer>; 9] = [None; 9];
        assert(field@ =~= Seq::new(9, |i: int| None::<TTTPlayer>));
        assert(field@[0] is None);
        proof {
            lemma_empty_board(field@);
        }
        Self { root_player, current_player: TTTPlayer::X, field, outcome: GameOutcome::InProgress }
    }
}

impl Default for TicTacToeBoard {
    /// Creates an empty board with X to move, judged from the side of X.
    fn default() -> (board: Self)
        ensures
            board.cells() == Seq::new(9, |i: int| None::<TTTPlayer>),
            board.side_to_move() == TTTPlayer::X,
            board.root_side() == TTTPlayer::X,
            board.outcome() == GameOutcome::InProgress,
            board.available_moves() == seq![0u8, 1u8, 2u8, 3u8, 4u8, 5u8, 6u8, 7u8, 8u8],
    {
        TicTacToeBoard::new(TTTPlayer::X)
    }
}

impl Clone for TicTacToeBoard {
    /// Copies the board.
    fn clone(&self) -> (copy: Self)
        ensures
            copy == *self,
    {
        proof {
            use_type_invariant(self);
        }
        Self {
            root_player: self.root_player,
            current_player: self.current_player,
            field: self.field,
            outcome: self.outcome,
        }
    }
}

impl Board for TicTacToeBoard {
    type Move = u8;

    open spec fn current_player(&self) -> Player {
        if self.side_to_move() == self.root_side() {
            Player::Me
        } else {
            Player::Other
        }
    }

    open spec fn outcome(&self) -> GameOutcome {
        outcome_of(self.cells(), self.root_side())
    }

    open spec fn available_moves(&self) -> Seq<u8> {
        if self.outcome() != GameOutcome::InProgress {
            Seq::empty()
        } else {
            empty_cells(self.cells(), 9)
        }
    }

    open spec fn after_move(&self, b_move: u8) -> Self {
        self.marked(b_move)
    }

    open spec fn hash(&self) -> u128 {
        cells_number(self.cells(), 9) as u128
    }

    fn get_current_player(&self) -> (player: Player) {
        match (self.current_player, self.root_player) {
            (TTTPlayer::X, TTTPlayer::X) => Player::Me,
            (TTTPlayer::O, TTTPlayer::O) => Player::Me,
            _ => Player::Other,
        }
    }

    fn get_outcome(&self) -> (outcome: GameOutcome) {
        field_outcome(&self.field, self.root_player)
    }

    fn get_available_moves(&self) -> (moves: Vec<u8>) {
        proof {
            use_type_invariant(self);
        }
        let mut moves: Vec<u8> = Vec::new();
        match self.outcome {
            GameOutcome::InProgress => {},
            _ => {
                return moves;
            },
        }
        let mut i: usize = 0;
        while i < 9
            invariant
                0 <= i <= 9,
                moves@ == empty_cells(self.field@, i as nat),
            decreases 9 - i,
        {
            if self.field[i].is_none() {
                moves.push(i as u8);
            }
            i += 1;
        }
        moves
    }

    fn perform_move(&mut self, b_move: &u8)
        ensures
            final(self).follows(*old(self), *b_move),
            empty_cells(final(self).cells(), 9).len() == empty_cells(old(self).cells(), 9).len()
                - 1,
    {
        proof {
            lemma_empty_cells_contains(self.cells(), 9, *b_move);
            lemma_empty_cells_after_move(
                self.cells(),
                9,
                *b_move as int,
                self.side_to_move(),
            );
        }
        let mut field = self.field;
        field[*b_move as usize] = Some(self.current_player);
        let next_player = match self.current_player {
            TTTPlayer::X => TTTPlayer::O,
            TTTPlayer::O => TTTPlayer::X,
        };
        let outcome = field_outcome(&field, self.root_player);
        let next = TicTacToeBoard {
            root_player: self.root_player,
            current_player: next_player,
            field,
            outcome,
        };
        proof {
            assert(next.follows(*self, *b_move));
            self.lemma_after_move(*b_move);
            next.lemma_follows_once(self.after_move(*b_move), *self, *b_move);
        }
        *self = next;
    }

    fn get_hash(&self) -> (hash: u128) {
        let mut hash: u128 = 0;
        let mut weight: u128 = 1;
        let mut i: usize = 0;
        while i < 9
            invariant
                0 <= i <= 9,
                weight == pow3(i as nat),
                hash == cells_number(self.field@, i as nat),
                hash < weight <= 19683,
                i < 9 ==> weight <= 6561,
            decreases 9 - i,
        {
            let cell_value: u128 = match self.field[i] {
                None => 0,
                Some(TTTPlayer::X) => 1,
                Some(TTTPlayer::O) => 2,
            };
            proof {
                lemma_pow3_bound((i + 1) as nat);
                assert(cell_value * weight <= 2 * weight) by (nonlinear_arith)
                    requires
                        cell_value <= 2,
                ;
            }
            hash += cell_value * weight;
            weight = weight * 3;
            i += 1;
        }
        proof {
            lemma_pow3_bound(9);
        }
        hash
    }

    proof fn lemma_clone_is_same(&self, copy: &Self) {
    }
}

} // verus!
