use crate::board::{Board, GameOutcome};
use crate::expansion::{limit_of, pick_limit};
use crate::random::RandomGenerator;
use crate::search_tree::SearchTree;
use std::collections::HashSet;
use vstd::prelude::*;
use vstd::set_lib::{lemma_int_range, lemma_len_subset, lemma_map_size, set_int_range};

verus! {

broadcast use vstd::std_specs::hash::group_hash_axioms;

/// Whether `next` is the state that one of the legal moves of `state`,
/// where the game is still in progress, leads to.
pub open spec fn is_step<T: Board>(state: T, next: T) -> bool {
    &&& state.outcome() == GameOutcome::InProgress
    &&& exists|m: T::Move|
        state.available_moves().contains(m) && next == #[trigger] state.after_move(m)
}

/// Whether the state number `k + 1` of `trace` follows from the state
/// number `k` by a step.
pub open spec fn step_at<T: Board>(trace: Seq<T>, k: int) -> bool {
    is_step(trace[k], trace[k + 1])
}

/// Whether `trace` is a line of play: each state but the last is followed
/// by a state that it steps to, and no two states of the line have the
/// same hash.
pub open spec fn is_line_of_play<T: Board>(trace: Seq<T>) -> bool {
    &&& trace.len() >= 1
    &&& forall|k: int| 0 <= k < trace.len() - 1 ==> #[trigger] step_at(trace, k)
    &&& forall|a: int, b: int|
        0 <= a < b < trace.len() ==> (#[trigger] trace[a]).hash() != (#[trigger] trace[b]).hash()
}

/// Whether `hash` is the hash of some state of `trace`.
pub open spec fn was_seen<T: Board>(trace: Seq<T>, hash: u128) -> bool {
    exists|a: int| 0 <= a < trace.len() && (#[trigger] trace[a]).hash() == hash
}

/// Whether every legal move of `state` leads to a state whose hash is in
/// `seen`.
pub open spec fn all_moves_seen<T: Board>(state: T, seen: Set<u128>) -> bool {
    forall|m: T::Move|
        state.available_moves().contains(m) ==> seen.contains(#[trigger] state.after_move(m).hash())
}

/// The hashes of the states of `trace`.
pub open spec fn hashes_of<T: Board>(trace: Seq<T>) -> Set<u128> {
    Set::new(|h: u128| was_seen(trace, h))
}

/// Whether `trace` is a playout from `start` that ends with `outcome`: a
/// line of play from `start` that either reaches a state where the game is
/// over, whose outcome is `outcome`, or counts as a draw because every
/// legal move of its last state leads to a state whose hash the line has
/// seen already.
pub open spec fn plays_out<T: Board>(start: T, trace: Seq<T>, outcome: GameOutcome) -> bool {
    &&& is_line_of_play(trace)
    &&& trace[0] == start
    &&& if trace.last().outcome() != GameOutcome::InProgress {
        outcome == trace.last().outcome()
    } else {
        outcome == GameOutcome::Draw && all_moves_seen(trace.last(), hashes_of(trace))
    }
}

/// A playout from a state where the game is over has no move and ends
/// with the outcome of that state.
pub proof fn lemma_playout_of_finished_game<T: Board>(
    start: T,
    trace: Seq<T>,
    outcome: GameOutcome,
)
    requires
        plays_out(start, trace, outcome),
        start.outcome() != GameOutcome::InProgress,
    ensures
        trace.len() == 1,
        outcome == start.outcome(),
{
    if trace.len() > 1 {
        assert(step_at(trace, 0));
    }
}

/// A line of play that is continued by a step to a state with a new hash
/// is a line of play, and its hashes are the old ones and the new one.
pub proof fn lemma_line_goes_on<T: Board>(trace: Seq<T>, next: T)
    requires
        is_line_of_play(trace),
        is_step(trace.last(), next),
        !hashes_of(trace).contains(next.hash()),
    ensures
        is_line_of_play(trace.push(next)),
        hashes_of(trace.push(next)) == hashes_of(trace).insert(next.hash()),
{
    let longer = trace.push(next);
    assert forall|k: int| 0 <= k < longer.len() - 1 implies #[trigger] step_at(longer, k) by {
        if k < trace.len() - 1 {
            assert(step_at(trace, k));
        }
    }
    assert forall|a: int, b: int| 0 <= a < b < longer.len() implies (#[trigger] longer[a]).hash()
        != (#[trigger] longer[b]).hash() by {
        assert(longer[a] == trace[a]);
        if b == trace.len() {
            if trace[a].hash() == next.hash() {
                assert(was_seen(trace, next.hash()));
            }
        } else {
            assert(longer[b] == trace[b]);
        }
    }
    assert forall|h: u128| hashes_of(longer).contains(h) <==> hashes_of(trace).insert(
        next.hash(),
    ).contains(h) by {
        if was_seen(longer, h) {
            let a = choose|a: int| 0 <= a < longer.len() && (#[trigger] longer[a]).hash() == h;
            if a < trace.len() {
                assert(trace[a].hash() == h);
            }
        }
        if was_seen(trace, h) {
            let a = choose|a: int| 0 <= a < trace.len() && (#[trigger] trace[a]).hash() == h;
            assert(longer[a].hash() == h);
        }
        if h == next.hash() {
            assert(longer[trace.len() as int].hash() == h);
        }
    }
    assert(hashes_of(longer) =~= hashes_of(trace).insert(next.hash()));
}

/// What `next_state` gives with a reproducible generator, when `moves` are
/// the moves still to try: the state found, if any, and the generator
/// afterwards. A move is picked among those left; if it leads to a state
/// whose hash is in `visited`, it is taken off the list and the next is
/// picked, and otherwise it leads to the state found.
pub open spec fn tried<T: Board, K: RandomGenerator>(
    board: T,
    visited: Set<u128>,
    moves: Seq<T::Move>,
    random: K,
) -> (Option<T>, K)
    decreases moves.len(),
{
    if moves.len() == 0 {
        (None, random)
    } else {
        let pick = random.number_in_range(0, limit_of(moves.len())) as int;
        let after = random.after_next_range(0, limit_of(moves.len()));
        if !(0 <= pick < moves.len()) {
            (None, after)
        } else if visited.contains(board.after_move(moves[pick]).hash()) {
            tried(board, visited, moves.remove(pick), after)
        } else {
            (Some(board.after_move(moves[pick])), after)
        }
    }
}

/// What a playout from `board` gives with a reproducible generator, when
/// `visited` holds the hashes seen so far: the outcome, and the generator
/// afterwards.
pub open spec fn played<T: Board, K: RandomGenerator>(board: T, visited: Set<u128>, random: K) -> (
    GameOutcome,
    K,
)
    decreases u128::MAX + 1 - visited.len(),
{
    if board.outcome() != GameOutcome::InProgress {
        (board.outcome(), random)
    } else {
        let found = tried(board, visited, board.available_moves(), random);
        match found.0 {
            None => (GameOutcome::Draw, found.1),
            Some(state) => if visited.finite() && visited.len() <= u128::MAX && !visited.contains(
                state.hash(),
            ) {
                played(state, visited.insert(state.hash()), found.1)
            } else {
                (GameOutcome::Draw, found.1)
            },
        }
    }
}

/// A finite set of hashes has no more elements than there are hashes.
pub proof fn lemma_hashes_bounded(seen: Set<u128>)
    requires
        seen.finite(),
    ensures
        seen.len() <= u128::MAX + 1,
{
    let f = |h: u128| h as int;
    let image = seen.map(f);
    lemma_map_size(seen, image, f);
    lemma_int_range(0, u128::MAX + 1);
    assert(image.subset_of(set_int_range(0, u128::MAX + 1)));
    lemma_len_subset(image, set_int_range(0, u128::MAX + 1));
}

/// Tries the move number `pick` of `moves`, which are legal in `board`. If
/// the state it leads to has a hash that was seen before, the move is taken
/// off the list and nothing else changes. Otherwise that state is returned
/// and its hash is added to the hashes seen.
pub fn playout_step<T: Board>(
    board: &T,
    visited: &mut HashSet<u128>,
    moves: &mut Vec<T::Move>,
    pick: usize,
) -> (next: Option<T>)
    requires
        pick < old(moves)@.len(),
        board.available_moves().contains(old(moves)@[pick as int]),
    ensures
        ({
            let candidate = board.after_move(old(moves)@[pick as int]);
            if old(visited)@.contains(candidate.hash()) {
                &&& next is None
                &&& final(visited)@ == old(visited)@
                &&& final(moves)@ == old(moves)@.remove(pick as int)
            } else {
                &&& next == Some(candidate)
                &&& final(visited)@ == old(visited)@.insert(candidate.hash())
                &&& final(moves)@ == old(moves)@
            }
        }),
{
    let mut new_board = board.clone();
    proof {
        board.lemma_clone_is_same(&new_board);
    }
    new_board.perform_move(&moves[pick]);
    let new_board_hash = new_board.get_hash();
    if visited.contains(&new_board_hash) {
        moves.remove(pick);
        None
    } else {
        visited.insert(new_board_hash);
        Some(new_board)
    }
}

/// Looks for a way on from `board`: tries randomly picked legal moves, each
/// at most once, until one leads to a state whose hash has not been seen,
/// and returns that state after adding its hash to the hashes seen. Returns
/// `None`, with the hashes unchanged, if every legal move leads to a state
/// whose hash was seen.
pub fn next_state<T: Board, K: RandomGenerator>(
    board: &T,
    visited: &mut HashSet<u128>,
    random: &mut K,
) -> (next: Option<T>)
    ensures
        match next {
            Some(state) => {
                &&& exists|m: T::Move|
                    board.available_moves().contains(m) && state == #[trigger] board.after_move(m)
                &&& !old(visited)@.contains(state.hash())
                &&& final(visited)@ == old(visited)@.insert(state.hash())
            },
            None => final(visited)@ == old(visited)@ && all_moves_seen(*board, old(visited)@),
        },
        old(random).is_reproducible() ==> {
            &&& final(random).is_reproducible()
            &&& (next, *final(random)) == tried(
                *board,
                old(visited)@,
                board.available_moves(),
                *old(random),
            )
        },
{
    let mut all_possible_moves = board.get_available_moves();
    let ghost seen = visited@;
    let ghost entry = *random;
    let ghost all = all_possible_moves@;
    let mut found: Option<T> = None;
    while !all_possible_moves.is_empty()
        invariant_except_break
            found is None,
            visited@ == seen,
        invariant
            forall|k: int|
                0 <= k < all_possible_moves@.len() ==> board.available_moves().contains(
                    #[trigger] all_possible_moves@[k],
                ),
            forall|m: T::Move|
                board.available_moves().contains(m) ==> all_possible_moves@.contains(m)
                    || seen.contains(#[trigger] board.after_move(m).hash()),
            entry.is_reproducible() ==> random.is_reproducible(),
            entry.is_reproducible() && found is None ==> tried(
                *board,
                seen,
                all_possible_moves@,
                *random,
            ) == tried(*board, seen, all, entry),
            entry.is_reproducible() && found is Some ==> (found, *random) == tried(
                *board,
                seen,
                all,
                entry,
            ),
        ensures
            match found {
                Some(state) => {
                    &&& exists|m: T::Move|
                        board.available_moves().contains(m) && state == #[trigger] board.after_move(
                            m,
                        )
                    &&& !seen.contains(state.hash())
                    &&& visited@ == seen.insert(state.hash())
                },
                None => visited@ == seen && all_possible_moves@.len() == 0,
            },
        decreases all_possible_moves@.len(),
    {
        let limit = pick_limit(all_possible_moves.len());
        let random_move_index = random.next_range(0, limit) as usize;
        let ghost tried = all_possible_moves@[random_move_index as int];
        let ghost left_before = all_possible_moves@;
        let step = playout_step(board, visited, &mut all_possible_moves, random_move_index);
        match step {
            None => {
                proof {
                    assert forall|k: int|
                        0 <= k < all_possible_moves@.len() implies board.available_moves().contains(
                        #[trigger] all_possible_moves@[k],
                    ) by {
                        if k < random_move_index {
                            assert(all_possible_moves@[k] == left_before[k]);
                        } else {
                            assert(all_possible_moves@[k] == left_before[k + 1]);
                        }
                    }
                    assert forall|m: T::Move|
                        board.available_moves().contains(m) implies all_possible_moves@.contains(m)
                        || seen.contains(#[trigger] board.after_move(m).hash()) by {
                        if left_before.contains(m) && m != tried {
                            let k = choose|k: int|
                                0 <= k < left_before.len() && left_before[k] == m;
                            if k < random_move_index {
                                assert(all_possible_moves@[k] == m);
                            } else {
                                assert(all_possible_moves@[k - 1] == m);
                            }
                        }
                    }
                }
            },
            Some(state) => {
                proof {
                    assert(state == board.after_move(tried));
                }
                found = Some(state);
                break ;
            },
        }
    }
    proof {
        if found is None {
            assert forall|m: T::Move| board.available_moves().contains(m) implies seen.contains(
                #[trigger] board.after_move(m).hash(),
            ) by {
                assert(!all_possible_moves@.contains(m));
            }
        }
    }
    found
}

impl<T: Board> SearchTree<T> {
    /// Plays random moves from the state of node `node_id` until the game
    /// is over, and returns the outcome. A move that leads to a state whose
    /// hash was seen earlier in the playout is not played; if no other move
    /// is left, the playout ends as a draw. Where the game is over at the
    /// node already, no random number is drawn.
    pub fn simulate<K: RandomGenerator>(&self, node_id: usize, random: &mut K) -> (outcome:
        GameOutcome)
        requires
            node_id < self.size(),
        ensures
            outcome != GameOutcome::InProgress,
            exists|trace: Seq<T>| #[trigger]
                plays_out(*self.node(node_id as int).board, trace, outcome),
            self.node(node_id as int).board.outcome() != GameOutcome::InProgress ==> *final(random)
                == *old(random),
            old(random).is_reproducible() ==> {
                &&& final(random).is_reproducible()
                &&& (outcome, *final(random)) == played(
                    *self.node(node_id as int).board,
                    Set::<u128>::empty().insert(self.node(node_id as int).board.hash()),
                    *old(random),
                )
            },
    {
        let ghost entry = *random;
        let node = self.get(node_id);
        let mut board: T = (*node.board).clone();
        proof {
            (*node.board).lemma_clone_is_same(&board);
        }
        let mut outcome = board.get_outcome();
        let mut visited_states: HashSet<u128> = HashSet::new();
        visited_states.insert(board.get_hash());
        let ghost start = board;
        let ghost mut trace: Seq<T> = seq![board];
        proof {
            assert(was_seen(trace, trace[0].hash()));
            assert(visited_states@ =~= hashes_of(trace));
        }
        while outcome == GameOutcome::InProgress
            invariant
                outcome == board.outcome(),
                start == *self.node(node_id as int).board,
                is_line_of_play(trace),
                trace[0] == start,
                trace.last() == board,
                visited_states@.finite(),
                visited_states@ == hashes_of(trace),
                start.outcome() == GameOutcome::InProgress || (*random == entry && board == start),
                entry == *old(random),
                entry.is_reproducible() ==> random.is_reproducible(),
                entry.is_reproducible() ==> played(board, visited_states@, *random) == played(
                    start,
                    Set::<u128>::empty().insert(start.hash()),
                    entry,
                ),
            decreases u128::MAX + 1 - visited_states@.len(),
        {
            let ghost drawing = *random;
            let ghost seen = visited_states@;
            match next_state(&board, &mut visited_states, random) {
                None => {
                    proof {
                        assert(plays_out(start, trace, GameOutcome::Draw));
                        if entry.is_reproducible() {
                            assert(played(board, seen, drawing) == (GameOutcome::Draw, *random));
                        }
                    }
                    return GameOutcome::Draw;
                },
                Some(state) => {
                    proof {
                        lemma_line_goes_on(trace, state);
                        trace = trace.push(state);
                        lemma_hashes_bounded(visited_states@);
                        if entry.is_reproducible() {
                            assert(played(board, seen, drawing) == played(
                                state,
                                seen.insert(state.hash()),
                                *random,
                            ));
                        }
                    }
                    board = state;
                },
            }
            outcome = board.get_outcome();
        }
        proof {
            assert(plays_out(start, trace, outcome));
        }
        outcome
    }
}

} // verus!
