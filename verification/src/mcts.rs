use crate::board::{Board, Bound, GameOutcome};
use crate::mcts_node::MctsNode;
use crate::expansion::limit_of;
use crate::playout::{played, plays_out};
use crate::random::{after_numbers, numbers, RandomGenerator, StandardRandomGenerator};
use crate::search_tree::{same_ids, SearchTree};
use crate::selection::{gives_one_rank, UcbScorer};
use vstd::prelude::*;

verus! {

broadcast use vstd::string::group_string_axioms;

/// The phases of the search, each with what it works on. The search is in
/// one of them at any time, and one call of `execute_action` carries it to
/// the next.
#[allow(non_snake_case)]
#[derive(Debug, PartialEq, Clone)]
pub enum MctsAction {
    /// Descend from `R` to the node that is to be expanded.
    Selection {
        /// The node at which the descent starts.
        R: usize,
        /// The nodes that the last backpropagation has updated.
        RP: Vec<usize>,
    },
    /// Give the node `L` its children.
    Expansion {
        /// The node to expand.
        L: usize,
    },
    /// Play the game out at random from the node `C`.
    Simulation {
        /// The node from which the playout starts.
        C: usize,
        /// The children that the expansion has made.
        AC: Vec<usize>,
    },
    /// Carry the outcome of the playout from `C` up to the root.
    Backpropagation {
        /// The node from which the playout started.
        C: usize,
        /// The outcome of the playout.
        result: GameOutcome,
    },
    /// Nothing is left to search.
    EverythingIsCalculated,
}

impl MctsAction {
    /// The name of the phase.
    pub open spec fn name(&self) -> Seq<char> {
        match self {
            MctsAction::Selection { .. } => "Selection"@,
            MctsAction::Expansion { .. } => "Expansion"@,
            MctsAction::Simulation { .. } => "Simulation"@,
            MctsAction::Backpropagation { .. } => "Backpropagation"@,
            MctsAction::EverythingIsCalculated => "EverythingIsCalculated"@,
        }
    }

    /// Whether two phases are the same phase with the same nodes.
    pub open spec fn same_as(&self, other: &Self) -> bool {
        match (*self, *other) {
            (
                MctsAction::Selection { R, RP },
                MctsAction::Selection { R: other_r, RP: other_rp },
            ) => R == other_r && RP@ == other_rp@,
            (MctsAction::Expansion { L }, MctsAction::Expansion { L: other_l }) => L == other_l,
            (
                MctsAction::Simulation { C, AC },
                MctsAction::Simulation { C: other_c, AC: other_ac },
            ) => C == other_c && AC@ == other_ac@,
            (
                MctsAction::Backpropagation { C, result },
                MctsAction::Backpropagation { C: other_c, result: other_result },
            ) => C == other_c && result == other_result,
            (MctsAction::EverythingIsCalculated, MctsAction::EverythingIsCalculated) => true,
            _ => false,
        }
    }

    /// How many calls of `execute_action` the phase is away from the end of
    /// its iteration.
    pub open spec fn steps_left(&self) -> nat {
        match self {
            MctsAction::Expansion { .. } => 3,
            MctsAction::Simulation { .. } => 2,
            MctsAction::Backpropagation { .. } => 1,
            _ => 0,
        }
    }

    /// Returns the name of the phase.
    pub fn get_name(&self) -> (name: String)
        ensures
            name@ == self.name(),
    {
        match self {
            MctsAction::Selection { .. } => "Selection".to_string(),
            MctsAction::Expansion { .. } => "Expansion".to_string(),
            MctsAction::Simulation { .. } => "Simulation".to_string(),
            MctsAction::Backpropagation { .. } => "Backpropagation".to_string(),
            MctsAction::EverythingIsCalculated => "EverythingIsCalculated".to_string(),
        }
    }
}

/// A node of a search tree together with the tree, for reading.
pub struct MctsTreeNode<'a, T: Board> {
    tree: &'a SearchTree<T>,
    id: usize,
}

impl<'a, T: Board> MctsTreeNode<'a, T> {
    /// The tree is well formed and the node is one of its nodes.
    #[verifier::type_invariant]
    spec fn in_tree(&self) -> bool {
        self.tree.wf() && self.id < self.tree.size()
    }

    /// The tree that the node belongs to.
    pub closed spec fn tree(&self) -> SearchTree<T> {
        *self.tree
    }

    /// The position of the node in its tree.
    pub closed spec fn position(&self) -> int {
        self.id as int
    }

    /// Creates the view of node `id` of `tree`.
    pub fn new(tree: &'a SearchTree<T>, id: usize) -> (node: Self)
        requires
            tree.wf(),
            id < tree.size(),
        ensures
            node.tree() == *tree,
            node.position() == id,
    {
        MctsTreeNode { tree, id }
    }

    /// Returns the position of the node in its tree.
    pub fn id(&self) -> (id: usize)
        ensures
            id == self.position(),
            id < self.tree().size(),
            self.tree().wf(),
    {
        proof {
            use_type_invariant(self);
        }
        self.id
    }

    /// Returns what the node holds.
    pub fn value(&self) -> (node: &'a MctsNode<T>)
        ensures
            *node == self.tree().node(self.position()),
    {
        proof {
            use_type_invariant(self);
        }
        self.tree.get(self.id)
    }

    /// Returns the children of the node, oldest first.
    pub fn children(&self) -> (kids: Vec<MctsTreeNode<'a, T>>)
        ensures
            kids@.len() == self.tree().children_of(self.position()).len(),
            forall|j: int|
                0 <= j < kids@.len() ==> (#[trigger] kids@[j]).position() == self.tree().children_of(
                    self.position(),
                )[j] && kids@[j].tree() == self.tree(),
    {
        proof {
            use_type_invariant(self);
        }
        let ids = self.tree.children(self.id);
        let mut kids: Vec<MctsTreeNode<'a, T>> = Vec::new();
        let mut k: usize = 0;
        while k < ids.len()
            invariant
                self.tree.wf(),
                self.id < self.tree.size(),
                same_ids(ids@, self.tree.children_of(self.id as int)),
                0 <= k <= ids@.len(),
                kids@.len() == k,
                forall|j: int|
                    0 <= j < k ==> (#[trigger] kids@[j]).position() == ids@[j] && kids@[j].tree()
                        == *self.tree,
            decreases ids@.len() - k,
        {
            proof {
                assert(self.id < self.tree.children_of(self.id as int)[k as int]
                    < self.tree.size());
            }
            kids.push(MctsTreeNode::new(self.tree, ids[k]));
            k += 1;
        }
        kids
    }

    /// Returns the best child of the node: the first of those with the
    /// greatest share of wins, among the children proven to be won if there
    /// are any, and among all children otherwise. Returns `None` if the
    /// node has no children.
    pub fn get_best_child(&self) -> (best: Option<MctsTreeNode<'a, T>>)
        ensures
            match best {
                Some(child) => child.tree() == self.tree() && exists|k: int| #[trigger]
                    self.tree().is_best_child(self.position(), k) && self.tree().children_of(
                        self.position(),
                    )[k] == child.position(),
                None => self.tree().children_of(self.position()).len() == 0,
            },
    {
        proof {
            use_type_invariant(self);
        }
        match self.tree.best_child(self.id) {
            Some(c) => {
                proof {
                    let k = choose|k: int| #[trigger]
                        self.tree.is_best_child(self.id as int, k) && self.tree.children_of(
                            self.id as int,
                        )[k] == c;
                    assert(self.id < self.tree.children_of(self.id as int)[k] < self.tree.size());
                }
                let child = MctsTreeNode::new(self.tree, c);
                proof {
                    let k = choose|k: int| #[trigger]
                        self.tree.is_best_child(self.id as int, k) && self.tree.children_of(
                            self.id as int,
                        )[k] == c;
                    assert(self.tree().is_best_child(self.position(), k)
                        && self.tree().children_of(self.position())[k] == child.position());
                }
                Some(child)
            },
            None => None,
        }
    }
}

/// The search: a tree that grows from the initial state of a game, and the
/// phase that the search is in. One iteration descends to a node, expands
/// it, plays the game out from one of the new children, and carries the
/// outcome back up to the root.
pub struct MonteCarloTreeSearch<T: Board, K: RandomGenerator, S: UcbScorer> {
    tree: SearchTree<T>,
    root_id: usize,
    random: K,
    scorer: S,
    use_alpha_beta_pruning: bool,
    next_action: MctsAction,
}

/// Collects the settings of a search before it is built.
pub struct MonteCarloTreeSearchBuilder<T: Board, K: RandomGenerator, S: UcbScorer> {
    board: T,
    random_generator: K,
    scorer: S,
    use_alpha_beta_pruning: bool,
}

impl<T: Board, K: RandomGenerator, S: UcbScorer> MonteCarloTreeSearchBuilder<T, K, S> {
    /// The initial state of the game.
    pub closed spec fn board(&self) -> T {
        self.board
    }

    /// The random generator that the search will use.
    pub closed spec fn random_generator(&self) -> K {
        self.random_generator
    }

    /// The scorer that the search will use.
    pub closed spec fn scorer(&self) -> S {
        self.scorer
    }

    /// Whether the search will prune what is proven.
    pub closed spec fn pruning(&self) -> bool {
        self.use_alpha_beta_pruning
    }

    /// Creates a builder for a search from `board`, with pruning switched
    /// on and with the random generator and the scorer that `default` gives.
    pub fn new(board: T) -> (builder: Self)
        ensures
            builder.board() == board,
            builder.pruning(),
    {
        Self {
            board,
            random_generator: K::default(),
            scorer: S::default(),
            use_alpha_beta_pruning: true,
        }
    }

    /// Sets the random generator.
    pub fn with_random_generator(self, rg: K) -> (builder: Self)
        ensures
            builder.random_generator() == rg,
            builder.board() == self.board(),
            builder.scorer() == self.scorer(),
            builder.pruning() == self.pruning(),
    {
        Self {
            board: self.board,
            random_generator: rg,
            scorer: self.scorer,
            use_alpha_beta_pruning: self.use_alpha_beta_pruning,
        }
    }

    /// Sets the scorer.
    pub fn with_scorer(self, scorer: S) -> (builder: Self)
        ensures
            builder.scorer() == scorer,
            builder.board() == self.board(),
            builder.random_generator() == self.random_generator(),
            builder.pruning() == self.pruning(),
    {
        Self {
            board: self.board,
            random_generator: self.random_generator,
            scorer,
            use_alpha_beta_pruning: self.use_alpha_beta_pruning,
        }
    }

    /// Switches pruning on or off.
    pub fn with_alpha_beta_pruning(self, use_abp: bool) -> (builder: Self)
        ensures
            builder.pruning() == use_abp,
            builder.board() == self.board(),
            builder.random_generator() == self.random_generator(),
            builder.scorer() == self.scorer(),
    {
        Self {
            board: self.board,
            random_generator: self.random_generator,
            scorer: self.scorer,
            use_alpha_beta_pruning: use_abp,
        }
    }

    /// Builds the search.
    pub fn build(self) -> (search: MonteCarloTreeSearch<T, K, S>)
        ensures
            search.wf(),
            search.is_initial(self.board(), self.pruning()),
            search.random() == self.random_generator(),
            search.scorer() == self.scorer(),
    {
        MonteCarloTreeSearch::with_scorer(
            self.board,
            self.random_generator,
            self.scorer,
            self.use_alpha_beta_pruning,
        )
    }
}

impl<T: Board, K: RandomGenerator, S: UcbScorer> MonteCarloTreeSearch<T, K, S> {
    /// The search tree.
    pub closed spec fn tree(&self) -> SearchTree<T> {
        self.tree
    }

    /// The phase that the search is in.
    pub closed spec fn action(&self) -> MctsAction {
        self.next_action
    }

    /// Whether the search prunes what is proven.
    pub closed spec fn pruning(&self) -> bool {
        self.use_alpha_beta_pruning
    }

    /// The random generator of the search, as it is now.
    pub closed spec fn random(&self) -> K {
        self.random
    }

    /// The scorer of the search.
    pub closed spec fn scorer(&self) -> S {
        self.scorer
    }

    /// The position of the root as the search keeps it.
    pub closed spec fn root(&self) -> int {
        self.root_id as int
    }

    /// The number of playouts that have been carried up to the root.
    pub open spec fn playouts(&self) -> int {
        self.tree().node(0).visits as int
    }

    /// No node is deeper in the tree than the number of playouts plus `slack`.
    pub open spec fn heights_within(&self, slack: int) -> bool {
        forall|i: int|
            0 <= i < self.tree().size() ==> (#[trigger] self.tree().node(i)).height
                <= self.playouts() + slack
    }

    /// Without pruning nothing is proven of any node.
    pub open spec fn unproven_without_pruning(&self) -> bool {
        !self.pruning() ==> forall|i: int|
            0 <= i < self.tree().size() ==> (#[trigger] self.tree().node(i)).bound
                == Bound::Unknown
    }

    /// The phase speaks of nodes of the tree: an expansion of a node that
    /// has no children yet, a backpropagation of the outcome of a game that
    /// is over. A search has ended only if the root has children and all of
    /// them are fully calculated.
    pub open spec fn action_fits(&self) -> bool {
        match self.action() {
            MctsAction::Selection { R, RP } => R == 0 && self.heights_within(0),
            MctsAction::Expansion { L } => {
                &&& L < self.tree().size()
                &&& self.tree().children_of(L as int).len() == 0
                &&& self.heights_within(0)
            },
            MctsAction::Simulation { C, AC } => C < self.tree().size() && self.heights_within(1),
            MctsAction::Backpropagation { C, result } => {
                &&& C < self.tree().size()
                &&& result != GameOutcome::InProgress
                &&& self.heights_within(1)
            },
            MctsAction::EverythingIsCalculated => {
                &&& self.tree().children_of(0).len() > 0
                &&& self.tree().is_closed(0)
            },
        }
    }

    /// The invariant of the search.
    pub open spec fn wf(&self) -> bool {
        &&& self.tree().wf()
        &&& self.root() == 0
        &&& self.action_fits()
        &&& self.unproven_without_pruning()
        &&& self.tree().all_children_match_moves()
        &&& self.tree().bounds_sound()
    }

    /// Whether the search is as it is built: the tree holds only the root,
    /// an unvisited node for `board`, and the next phase is a selection from
    /// the root.
    pub open spec fn is_initial(&self, board: T, pruning: bool) -> bool {
        &&& self.pruning() == pruning
        &&& self.tree().size() == 1
        &&& self.tree().children_of(0) == Seq::<int>::empty()
        &&& self.tree().node(0).id == 0
        &&& *self.tree().node(0).board == board
        &&& self.tree().node(0).is_fresh()
        &&& match self.action() {
            MctsAction::Selection { R, RP } => R == 0 && RP@.len() == 0,
            _ => false,
        }
    }

    /// Returns a builder for a search from `board`.
    pub fn builder(board: T) -> (builder: MonteCarloTreeSearchBuilder<T, K, S>)
        ensures
            builder.board() == board,
            builder.pruning(),
    {
        MonteCarloTreeSearchBuilder::new(board)
    }

    /// Creates a search from `board` with the scorer that `default` gives.
    pub fn new(board: T, rg: K, use_alpha_beta_pruning: bool) -> (search: Self)
        ensures
            search.wf(),
            search.is_initial(board, use_alpha_beta_pruning),
            search.random() == rg,
    {
        Self::with_scorer(board, rg, S::default(), use_alpha_beta_pruning)
    }

    /// Creates a search from `board`.
    pub fn with_scorer(board: T, rg: K, scorer: S, use_alpha_beta_pruning: bool) -> (search: Self)
        ensures
            search.wf(),
            search.is_initial(board, use_alpha_beta_pruning),
            search.random() == rg,
            search.scorer() == scorer,
    {
        let root_mcts_node = MctsNode::new(0, Box::new(board));
        let tree = SearchTree::new(root_mcts_node);
        let root_id = tree.root_id();
        Self {
            tree,
            root_id,
            random: rg,
            scorer,
            use_alpha_beta_pruning,
            next_action: MctsAction::Selection { R: root_id, RP: Vec::new() },
        }
    }

    /// Returns the search tree.
    pub fn get_tree(&self) -> (tree: &SearchTree<T>)
        ensures
            *tree == self.tree(),
    {
        &self.tree
    }

    /// Returns the phase that the search is in.
    pub fn get_next_mcts_action(&self) -> (action: &MctsAction)
        ensures
            *action == self.action(),
    {
        &self.next_action
    }

    /// Returns the root of the search tree.
    pub fn get_root(&self) -> (root: MctsTreeNode<'_, T>)
        requires
            self.wf(),
        ensures
            root.tree() == self.tree(),
            root.position() == 0,
    {
        MctsTreeNode::new(&self.tree, self.root_id)
    }

    /// Whether `self` is what one call of `execute_action` makes of
    /// `before`. A selection leaves the tree as it is and leads to the
    /// expansion of the childless node that the descent arrives at, or to
    /// the end of the search if no step can be taken from the root although
    /// it has children. An expansion gives the node its children, unless the
    /// game is over there or no move is legal, and leads to the playout from
    /// one of them, or from the node itself if it got none. A playout leaves
    /// the tree as it is and leads to the backpropagation of its outcome. A
    /// backpropagation updates the nodes on the way up to the root and leads
    /// to the next selection. Once the search has ended, nothing changes.
    /// Only an expansion and a playout draw random numbers. The invariant of
    /// the search holds after every step.
    pub open spec fn stepped_from(&self, before: &Self) -> bool {
        &&& self.wf()
        &&& self.pruning() == before.pruning()
        &&& self.scorer() == before.scorer()
        &&& self.drew_from(before)
        &&& self.tree().advanced_from(&before.tree())
        &&& match before.action() {
            MctsAction::Selection { R, RP } => {
                &&& self.tree() == before.tree()
                &&& self.random() == before.random()
                &&& match self.action() {
                    MctsAction::Expansion { L } => {
                        &&& L < before.tree().size()
                        &&& before.tree().children_of(L as int).len() == 0
                        &&& before.tree().descends(before.scorer(), R as int, L as int)
                    },
                    MctsAction::EverythingIsCalculated => {
                        &&& before.tree().is_closed(R as int)
                        &&& before.tree().children_of(0).len() > 0
                    },
                    _ => false,
                }
            },
            MctsAction::Expansion { L } => match self.action() {
                MctsAction::Simulation { C, AC } => if before.tree().node(L as int).outcome
                    != GameOutcome::InProgress || before.tree().node(
                    L as int,
                ).board.available_moves().len() == 0 {
                    &&& self.tree() == before.tree()
                    &&& self.random() == before.random()
                    &&& C == L
                    &&& AC@.len() == 0
                } else {
                    &&& self.tree().expanded_from(&before.tree(), L as int)
                    &&& same_ids(AC@, self.tree().children_of(L as int))
                    &&& before.tree().size() <= C < self.tree().size()
                },
                _ => false,
            },
            MctsAction::Simulation { C, AC } => {
                &&& self.tree() == before.tree()
                &&& match self.action() {
                    MctsAction::Backpropagation { C: from, result } => {
                        &&& from == C
                        &&& result != GameOutcome::InProgress
                        &&& exists|trace: Seq<T>| #[trigger]
                            plays_out(*before.tree().node(C as int).board, trace, result)
                        &&& before.tree().node(C as int).board.outcome()
                            != GameOutcome::InProgress ==> self.random() == before.random()
                    },
                    _ => false,
                }
            },
            MctsAction::Backpropagation { C, result } => match self.action() {
                MctsAction::Selection { R, RP } => {
                    &&& R == 0
                    &&& self.random() == before.random()
                    &&& self.tree().backpropagated_from(
                        &before.tree(),
                        C as int,
                        result,
                        before.pruning(),
                    )
                    &&& same_ids(RP@, before.tree().path_up(C as int))
                    &&& RP@[0] == C
                    &&& self.tree().is_way_up(RP@)
                    &&& self.playouts() == before.playouts() + 1
                },
                _ => false,
            },
            MctsAction::EverythingIsCalculated => *self == *before,
        }
    }

    /// What a step with a reproducible generator draws: the generator
    /// stays reproducible; an expansion that makes children draws their
    /// ids and the number of the child to play out from, as
    /// `expanded_with` says; a playout gives the outcome and leaves the
    /// generator as `played` says. It is kept folded until
    /// `lemma_drew_from` unfolds it.
    #[verifier::opaque]
    pub open spec fn drew_from(&self, before: &Self) -> bool {
        before.random().is_reproducible() ==> {
            &&& self.random().is_reproducible()
            &&& match (before.action(), self.action()) {
                (MctsAction::Expansion { L }, MctsAction::Simulation { C, AC }) => {
                    before.tree().node(L as int).outcome == GameOutcome::InProgress
                        && before.tree().node(L as int).board.available_moves().len() > 0
                        ==> self.expanded_with(before, L, C)
                },
                (
                    MctsAction::Simulation { C, AC },
                    MctsAction::Backpropagation { C: from, result },
                ) => (result, self.random()) == played(
                    *before.tree().node(C as int).board,
                    Set::<u128>::empty().insert(before.tree().node(C as int).board.hash()),
                    before.random(),
                ),
                _ => true,
            }
        }
    }

    /// Unfolds `drew_from`.
    pub proof fn lemma_drew_from(&self, before: &Self)
        ensures
            self.drew_from(before) == (before.random().is_reproducible() ==> {
                &&& self.random().is_reproducible()
                &&& match (before.action(), self.action()) {
                    (MctsAction::Expansion { L }, MctsAction::Simulation { C, AC }) => {
                        before.tree().node(L as int).outcome == GameOutcome::InProgress
                            && before.tree().node(L as int).board.available_moves().len() > 0
                            ==> self.expanded_with(before, L, C)
                    },
                    (
                        MctsAction::Simulation { C, AC },
                        MctsAction::Backpropagation { C: from, result },
                    ) => (result, self.random()) == played(
                        *before.tree().node(C as int).board,
                        Set::<u128>::empty().insert(before.tree().node(C as int).board.hash()),
                        before.random(),
                    ),
                    _ => true,
                }
            }),
    {
        reveal(MonteCarloTreeSearch::drew_from);
    }

    /// Whether `self` is `before` after an expansion of node `leaf` with
    /// the numbers that the reproducible generator of `before` gives: one
    /// id for each legal move, in their order, and then the number of the
    /// move whose child `picked` is.
    pub open spec fn expanded_with(&self, before: &Self, leaf: usize, picked: usize) -> bool {
        let count = before.tree().node(leaf as int).board.available_moves().len();
        let drawn = after_numbers(before.random(), count);
        &&& forall|k: int|
            0 <= k < count ==> (#[trigger] self.tree().node(before.tree().size() + k)).id
                == numbers(before.random(), count)[k]
        &&& picked == before.tree().size() + drawn.number_in_range(0, limit_of(count))
        &&& self.random() == drawn.after_next_range(0, limit_of(count))
    }

    /// Carries the search through one phase. An expansion and a
    /// backpropagation need room for one more playout in the counts.
    pub fn execute_action(&mut self)
        requires
            old(self).wf(),
            old(self).action() is Expansion || old(self).action() is Backpropagation ==> old(
                self,
            ).playouts() < i32::MAX,
        ensures
            final(self).wf(),
            final(self).stepped_from(old(self)),
    {
        let ghost before = *self;
        proof {
            self.tree.lemma_advanced_from_self();
        }
        match &self.next_action {
            MctsAction::Selection { R, .. } => {
                let at = *R;
                let maybe_selected_node = self.tree.select_next_node(at, &self.scorer);
                self.next_action = match maybe_selected_node {
                    None => MctsAction::EverythingIsCalculated,
                    Some(selected_node) => MctsAction::Expansion { L: selected_node },
                };
            },
            MctsAction::Expansion { L } => {
                let leaf = *L;
                proof {
                    assert(self.tree.node(leaf as int).height <= self.playouts());
                }
                let (children, selected_child) = self.tree.expand_node(leaf, &mut self.random);
                proof {
                    self.lemma_expanded(&before, leaf as int);
                }
                self.next_action = MctsAction::Simulation { C: selected_child, AC: children };
            },
            MctsAction::Simulation { C, .. } => {
                let child = *C;
                let outcome = self.tree.simulate(child, &mut self.random);
                self.next_action = MctsAction::Backpropagation { C: child, result: outcome };
            },
            MctsAction::Backpropagation { C, result } => {
                let child = *C;
                let outcome = *result;
                let affected_nodes = self.tree.backpropagate(
                    child,
                    outcome,
                    self.use_alpha_beta_pruning,
                );
                proof {
                    self.lemma_backpropagated(&before, child as int, outcome);
                    before.tree().lemma_path_up(child as int);
                    assert(self.tree().is_way_up(affected_nodes@)) by {
                        let way = before.tree().path_up(child as int);
                        assert forall|a: int| 0 <= a < affected_nodes@.len() - 1 implies self.tree().parent_of(
                            #[trigger] affected_nodes@[a] as int,
                        ) == Some(affected_nodes@[a + 1] as int) by {
                            assert(before.tree().parent_of(way[a]) == Some(way[a + 1]));
                        }
                    }
                }
                self.next_action = MctsAction::Selection { R: self.root_id, RP: affected_nodes };
            },
            MctsAction::EverythingIsCalculated => {},
        }
        proof {
            self.lemma_drew_from(&before);
        }
    }

    /// Whether two searches are in the same state: the same tree, the same
    /// phase, and the same generator, scorer and setting.
    pub open spec fn same_as(&self, other: &Self) -> bool {
        &&& self.tree().same_as(&other.tree())
        &&& self.action().same_as(&other.action())
        &&& self.random() == other.random()
        &&& self.scorer() == other.scorer()
        &&& self.pruning() == other.pruning()
    }

    /// Whether a selection in this search can lead to the phase `next`.
    pub open spec fn leads_to(&self, next: MctsAction) -> bool {
        match next {
            MctsAction::Expansion { L } => {
                &&& L < self.tree().size()
                &&& self.tree().children_of(L as int).len() == 0
                &&& self.tree().descends(self.scorer(), self.action()->R as int, L as int)
            },
            MctsAction::EverythingIsCalculated => {
                &&& self.tree().is_closed(self.action()->R as int)
                &&& self.tree().children_of(0).len() > 0
            },
            _ => false,
        }
    }

    /// What a selection leaves as it was, and where it can lead.
    pub proof fn lemma_selection_facts(&self, before: &Self)
        requires
            self.came_from(before),
            before.action() is Selection,
        ensures
            self.tree() == before.tree(),
            self.random() == before.random(),
            self.scorer() == before.scorer(),
            self.pruning() == before.pruning(),
            before.leads_to(self.action()),
    {
        self.lemma_came_from(before);
    }

    /// What an expansion with a reproducible generator does.
    pub proof fn lemma_expansion_facts(&self, before: &Self, leaf: usize)
        requires
            self.came_from(before),
            before.action() == (MctsAction::Expansion { L: leaf }),
            before.random().is_reproducible(),
        ensures
            self.scorer() == before.scorer(),
            self.pruning() == before.pruning(),
            self.action() is Simulation,
            before.tree().node(leaf as int).outcome != GameOutcome::InProgress
                || before.tree().node(leaf as int).board.available_moves().len() == 0 ==> {
                &&& self.tree() == before.tree()
                &&& self.random() == before.random()
                &&& self.action()->Simulation_C == leaf
                &&& self.action()->AC@.len() == 0
            },
            before.tree().node(leaf as int).outcome == GameOutcome::InProgress
                && before.tree().node(leaf as int).board.available_moves().len() > 0 ==> {
                &&& self.tree().expanded_from(&before.tree(), leaf as int)
                &&& same_ids(self.action()->AC@, self.tree().children_of(leaf as int))
                &&& self.expanded_with(before, leaf, self.action()->Simulation_C)
            },
    {
        self.lemma_came_from(before);
        self.lemma_drew_from(before);
    }

    /// What a playout with a reproducible generator does.
    pub proof fn lemma_playout_facts(&self, before: &Self, child: usize)
        requires
            self.came_from(before),
            before.action() is Simulation,
            before.action()->Simulation_C == child,
            before.random().is_reproducible(),
        ensures
            self.tree() == before.tree(),
            self.scorer() == before.scorer(),
            self.pruning() == before.pruning(),
            self.action() is Backpropagation,
            self.action()->Backpropagation_C == child,
            (self.action()->result, self.random()) == played(
                *before.tree().node(child as int).board,
                Set::<u128>::empty().insert(before.tree().node(child as int).board.hash()),
                before.random(),
            ),
    {
        self.lemma_came_from(before);
        self.lemma_drew_from(before);
    }

    /// What a backpropagation does.
    pub proof fn lemma_update_facts(&self, before: &Self, child: usize, outcome: GameOutcome)
        requires
            self.came_from(before),
            before.action() == (MctsAction::Backpropagation { C: child, result: outcome }),
        ensures
            self.random() == before.random(),
            self.scorer() == before.scorer(),
            self.pruning() == before.pruning(),
            self.action() is Selection,
            self.action()->R == 0,
            same_ids(self.action()->RP@, before.tree().path_up(child as int)),
            self.tree().backpropagated_from(
                &before.tree(),
                child as int,
                outcome,
                before.pruning(),
            ),
    {
        self.lemma_came_from(before);
    }

    /// A selection leads to one phase.
    pub proof fn lemma_selection_is_determined(&self, first: MctsAction, second: MctsAction)
        requires
            self.wf(),
            gives_one_rank(self.scorer()),
            self.action() is Selection,
            self.leads_to(first),
            self.leads_to(second),
        ensures
            first.same_as(&second),
    {
        let tree = self.tree();
        let scorer = self.scorer();
        let at = self.action()->R as int;
        if first is Expansion && second is Expansion {
            tree.lemma_descent_is_determined(scorer, at, first->L as int, second->L as int);
        } else if first is Expansion {
            self.lemma_open_or_ended(first->L as int);
        } else if second is Expansion {
            self.lemma_open_or_ended(second->L as int);
        }
    }

    /// Where a descent from the root arrives at a node without children,
    /// the root has no children or a child that is not fully calculated.
    pub proof fn lemma_open_or_ended(&self, leaf: int)
        requires
            self.wf(),
            self.action() is Selection,
            self.tree().descends(self.scorer(), self.action()->R as int, leaf),
            self.tree().children_of(leaf).len() == 0,
        ensures
            self.tree().children_of(0).len() == 0 || !self.tree().is_closed(
                self.action()->R as int,
            ),
    {
        let at = self.action()->R as int;
        assert(at == 0);
        if leaf != at {
            let c = self.tree().lemma_descent_begins(self.scorer(), at, leaf);
            self.tree().lemma_step_is_open(self.scorer(), at, c);
        }
    }

    /// Whether the search is between two iterations or has ended.
    pub open spec fn at_rest(&self) -> bool {
        self.action() is Selection || self.action() is EverythingIsCalculated
    }

    /// The same as `stepped_from`, but kept folded until
    /// `lemma_came_from` unfolds it: chains of steps are stated with it.
    #[verifier::opaque]
    pub open spec fn came_from(&self, before: &Self) -> bool {
        self.stepped_from(before)
    }

    /// A step that `came_from` speaks of is as `stepped_from` describes.
    pub proof fn lemma_came_from(&self, before: &Self)
        ensures
            self.came_from(before) == self.stepped_from(before),
    {
        reveal(MonteCarloTreeSearch::came_from);
    }

    /// A step as `stepped_from` describes is one that `came_from` speaks of.
    pub proof fn lemma_step_came(&self, before: &Self)
        requires
            self.stepped_from(before),
        ensures
            self.came_from(before),
    {
        reveal(MonteCarloTreeSearch::came_from);
    }

    /// The phases follow each other in their order: a selection leads to
    /// an expansion or to the end, an expansion to a playout, a playout to
    /// a backpropagation, a backpropagation to a selection, and the end to
    /// itself.
    pub proof fn lemma_next_phase(&self, before: &Self)
        requires
            self.came_from(before),
        ensures
            match before.action() {
                MctsAction::Selection { .. } => self.action() is Expansion
                    || self.action() is EverythingIsCalculated,
                MctsAction::Expansion { .. } => self.action() is Simulation,
                MctsAction::Simulation { .. } => self.action() is Backpropagation,
                MctsAction::Backpropagation { .. } => self.action() is Selection,
                MctsAction::EverythingIsCalculated => self.action() is EverythingIsCalculated,
            },
    {
        reveal(MonteCarloTreeSearch::came_from);
    }

    /// Whether `self` comes from `before` by `n` calls of `execute_action`,
    /// at least one, between which the search was not at rest.
    pub open spec fn ran_from(&self, before: &Self, n: nat) -> bool
        decreases n,
    {
        if n <= 1 {
            n == 1 && self.came_from(before)
        } else {
            exists|mid: Self|
                mid.ran_from(before, (n - 1) as nat) && !mid.at_rest()
                    && #[trigger] self.came_from(&mid)
        }
    }

    /// Whether `self` is what one call of `do_iteration` makes of `before`:
    /// the search is carried on phase by phase until it is at rest. A
    /// search that has ended stays as it is. Otherwise the iteration that
    /// `before` is in is carried to its end: either one more playout has
    /// been carried up to the root and the next phase is a selection, or
    /// the selection has found nothing left to search, the tree is as it
    /// was and the search has ended.
    pub open spec fn iterated_from(&self, before: &Self) -> bool {
        &&& self.wf()
        &&& self.pruning() == before.pruning()
        &&& self.scorer() == before.scorer()
        &&& before.random().is_reproducible() ==> self.random().is_reproducible()
        &&& self.tree().advanced_from(&before.tree())
        &&& self.at_rest()
        &&& exists|n: nat| 1 <= n <= 4 && #[trigger] self.ran_from(before, n)
        &&& if before.action() is EverythingIsCalculated {
            *self == *before
        } else {
            match self.action() {
                MctsAction::Selection { R, RP } => {
                    &&& R == 0
                    &&& self.playouts() == before.playouts() + 1
                    &&& self.tree().is_way_up(RP@)
                },
                MctsAction::EverythingIsCalculated => {
                    &&& before.action() is Selection
                    &&& self.tree() == before.tree()
                    &&& self.random() == before.random()
                    &&& before.tree().children_of(0).len() > 0
                    &&& before.tree().is_closed(0)
                },
                _ => false,
            }
        }
    }

    /// Carries the search to the end of the iteration that it is in, and
    /// returns the nodes that the backpropagation has updated, from the
    /// node of the playout up to the root. The list is empty if the search
    /// has ended.
    pub fn do_iteration(&mut self) -> (path: Vec<usize>)
        requires
            old(self).wf(),
            !(old(self).action() is EverythingIsCalculated) ==> old(self).playouts() < i32::MAX,
        ensures
            final(self).wf(),
            final(self).iterated_from(old(self)),
            match final(self).action() {
                MctsAction::Selection { R, RP } => path@ == RP@,
                _ => path@.len() == 0,
            },
    {
        let ghost before = *self;
        self.execute_action();
        let ghost mut steps: nat = 1;
        proof {
            self.lemma_step_came(&before);
            self.lemma_drew_from(&before);
        }
        let mut is_selection = matches!(self.next_action, MctsAction::Selection { .. });
        let mut is_fully_calculated = matches!(
            self.next_action,
            MctsAction::EverythingIsCalculated
        );
        while !is_selection && !is_fully_calculated
            invariant
                before.wf(),
                !(before.action() is EverythingIsCalculated) ==> before.playouts() < i32::MAX,
                self.wf(),
                self.pruning() == before.pruning(),
                self.tree().advanced_from(&before.tree()),
                is_selection == (self.action() is Selection),
                is_fully_calculated == (self.action() is EverythingIsCalculated),
                1 <= steps,
                steps + self.action().steps_left() <= 4,
                self.ran_from(&before, steps),
                before.action() is EverythingIsCalculated ==> *self == before,
                self.scorer() == before.scorer(),
                before.random().is_reproducible() ==> self.random().is_reproducible(),
                !(before.action() is EverythingIsCalculated) ==> match self.action() {
                    MctsAction::Selection { R, RP } => {
                        &&& R == 0
                        &&& self.playouts() == before.playouts() + 1
                        &&& self.tree().is_way_up(RP@)
                    },
                    MctsAction::EverythingIsCalculated => {
                        &&& before.action() is Selection
                        &&& self.tree() == before.tree()
                        &&& self.random() == before.random()
                        &&& before.tree().children_of(0).len() > 0
                        &&& before.tree().is_closed(0)
                    },
                    _ => self.playouts() == before.playouts(),
                },
            decreases self.action().steps_left(),
        {
            let ghost earlier = *self;
            self.execute_action();
            proof {
                self.tree().lemma_advanced_further(&earlier.tree(), &before.tree());
                let more = steps + 1;
                self.lemma_step_came(&earlier);
                self.lemma_drew_from(&earlier);
                assert(earlier.ran_from(&before, (more - 1) as nat) && !earlier.at_rest()
                    && self.came_from(&earlier));
                assert(self.ran_from(&before, more));
                steps = more;
            }
            is_selection = matches!(self.next_action, MctsAction::Selection { .. });
            is_fully_calculated = matches!(self.next_action, MctsAction::EverythingIsCalculated);
        }
        match &self.next_action {
            MctsAction::Selection { RP, .. } => RP.clone(),
            _ => Vec::new(),
        }
    }

    /// Whether `self` comes from `before` by `n` calls of `do_iteration`.
    pub open spec fn iterations_from(&self, before: &Self, n: nat) -> bool
        decreases n,
    {
        if n == 0 {
            *self == *before
        } else {
            exists|mid: Self|
                mid.iterations_from(before, (n - 1) as nat) && #[trigger] self.iterated_from(&mid)
        }
    }

    /// Whether `self` is what `iterate_n_times(n)` makes of `before`: the
    /// search has gone through `n` iterations, and unless it has ended, `n`
    /// more playouts have been carried up to the root; if it has ended,
    /// then no more than `n`.
    pub open spec fn iterated_times_from(&self, before: &Self, n: int) -> bool {
        &&& self.iterations_from(before, n as nat)
        &&& before.action() is EverythingIsCalculated ==> *self == *before
        &&& self.pruning() == before.pruning()
        &&& self.scorer() == before.scorer()
        &&& before.random().is_reproducible() ==> self.random().is_reproducible()
        &&& self.tree().advanced_from(&before.tree())
        &&& n == 0 ==> *self == *before
        &&& n > 0 ==> self.action() is Selection || self.action() is EverythingIsCalculated
        &&& if self.action() is EverythingIsCalculated {
            before.playouts() <= self.playouts() <= before.playouts() + n
        } else {
            self.playouts() == before.playouts() + n
        }
    }

    /// Runs `n` iterations of the search, or as many as there are until
    /// nothing is left to search.
    pub fn iterate_n_times(&mut self, n: u32)
        requires
            old(self).wf(),
            !(old(self).action() is EverythingIsCalculated) ==> old(self).playouts() + n
                <= i32::MAX,
        ensures
            final(self).wf(),
            final(self).iterated_times_from(old(self), n as int),
    {
        let ghost before = *self;
        proof {
            self.tree.lemma_advanced_from_self();
        }
        let mut iteration: u32 = 0;
        while iteration < n
            invariant
                before.wf(),
                !(before.action() is EverythingIsCalculated) ==> before.playouts() + n <= i32::MAX,
                0 <= iteration <= n,
                self.wf(),
                self.iterated_times_from(&before, iteration as int),
            decreases n - iteration,
        {
            let ghost earlier = *self;
            self.do_iteration();
            proof {
                self.tree().lemma_advanced_further(&earlier.tree(), &before.tree());
                let more = (iteration + 1) as nat;
                assert(earlier.iterations_from(&before, (more - 1) as nat) && self.iterated_from(
                    &earlier,
                ));
                assert(self.iterations_from(&before, more));
            }
            iteration += 1;
        }
    }

    /// What an expansion leaves true of the search: the tree has advanced,
    /// no node is deeper than one more than the number of playouts, and
    /// without pruning nothing is proven.
    proof fn lemma_expanded(&self, before: &Self, leaf: int)
        requires
            before.wf(),
            before.heights_within(0),
            0 <= leaf < before.tree().size(),
            before.tree().children_of(leaf).len() == 0,
            self.pruning() == before.pruning(),
            self.tree() == before.tree() || (before.tree().node(leaf).outcome
                == GameOutcome::InProgress && self.tree().expanded_from(&before.tree(), leaf)),
        ensures
            self.tree().advanced_from(&before.tree()),
            self.heights_within(1),
            self.unproven_without_pruning(),
            self.tree().all_children_match_moves(),
            self.tree().bounds_sound(),
            self.playouts() == before.playouts(),
    {
        let base = before.tree().size() as int;
        if self.tree() == before.tree() {
            before.tree().lemma_advanced_from_self();
            assert forall|i: int| 0 <= i < self.tree().size() implies (#[trigger] self.tree().node(
                i,
            )).height <= self.playouts() + 1 by {
                assert(before.tree().node(i).height <= before.playouts());
            }
        } else {
            self.tree().lemma_expansion_advances(&before.tree(), leaf);
            self.tree().lemma_expansion_matches_moves(&before.tree(), leaf);
            self.tree().lemma_expansion_is_sound(&before.tree(), leaf);
            assert(self.tree().node(0) == before.tree().node(0));
            let moves = before.tree().node(leaf).board.available_moves();
            assert forall|i: int| 0 <= i < self.tree().size() implies (#[trigger] self.tree().node(
                i,
            )).height <= self.playouts() + 1 && (!self.pruning() ==> self.tree().node(i).bound
                == Bound::Unknown) by {
                if i < base {
                    assert(self.tree().node(i) == before.tree().node(i));
                    assert(before.tree().node(i).height <= before.playouts());
                } else {
                    assert(self.tree().is_child_by(&before.tree(), leaf, base + (i - base), moves[i - base]));
                    assert(before.tree().node(leaf).height <= before.playouts());
                }
            }
        }
    }

    /// What a backpropagation leaves true of the search: the tree has
    /// advanced, one more playout is counted at the root, no node is deeper
    /// than the number of playouts, and without pruning nothing is proven.
    proof fn lemma_backpropagated(&self, before: &Self, child: int, outcome: GameOutcome)
        requires
            before.wf(),
            before.heights_within(1),
            before.playouts() < i32::MAX,
            0 <= child < before.tree().size(),
            self.pruning() == before.pruning(),
            self.tree().backpropagated_from(&before.tree(), child, outcome, before.pruning()),
        ensures
            self.tree().advanced_from(&before.tree()),
            self.heights_within(0),
            self.unproven_without_pruning(),
            self.tree().all_children_match_moves(),
            self.tree().bounds_sound(),
            self.playouts() == before.playouts() + 1,
    {
        let pruning = before.pruning();
        self.tree().lemma_backpropagation_advances(&before.tree(), child, outcome, pruning);
        self.tree().lemma_backpropagation_keeps_nodes(&before.tree(), child, outcome, pruning);
        self.tree().lemma_kept_nodes_match_moves(&before.tree());
        self.tree().lemma_backpropagation_is_sound(&before.tree(), child, outcome, pruning);
        before.tree().lemma_path_up(child);
        before.tree().lemma_way_closed(child, child);
        self.tree().lemma_counted_node_ok(&before.tree(), child, outcome, pruning, 0);
        assert forall|i: int| 0 <= i < self.tree().size() implies (#[trigger] self.tree().node(
            i,
        )).height <= self.playouts() by {
            self.tree().lemma_counted_node_ok(&before.tree(), child, outcome, pruning, i);
            assert(before.tree().node(i).height <= before.playouts() + 1);
        }
        if !pruning {
            assert forall|i: int| 0 <= i < self.tree().size() implies (#[trigger] self.tree().node(
                i,
            )).bound == Bound::Unknown by {
                assert(before.tree().node(i).bound == Bound::Unknown);
                if before.tree().path_up(child).contains(i) {
                    assert(self.tree().node(i) == self.tree().counted_node(
                        &before.tree(),
                        i,
                        outcome,
                        pruning,
                    ));
                } else {
                    assert(self.tree().node(i) == before.tree().node(i));
                }
            }
        }
    }

    /// Returns the fingerprint of the search tree: the hash of its text, in
    /// 32 lower-case hexadecimal digits.
    pub fn tree_fingerprint(&self) -> (print: String)
        requires
            self.wf(),
        ensures
            exists|hash: u128|
                print@ == crate::hash::hex_of(#[trigger] vstd::bytes::spec_u128_to_le_bytes(hash)),
    {
        self.tree.tree_fingerprint()
    }

    /// The visits of the root count the iterations: after `n` iterations of
    /// a search that was new, the root has `n` visits, unless the search has
    /// ended, and then it has no more than `n`.
    pub proof fn lemma_playouts_count_iterations(&self, fresh: &Self, board: T, pruning: bool, n: int)
        requires
            fresh.is_initial(board, pruning),
            self.iterated_times_from(fresh, n),
        ensures
            !(self.action() is EverythingIsCalculated) ==> self.playouts() == n,
            self.action() is EverythingIsCalculated ==> 0 <= self.playouts() <= n,
    {
    }

    /// Whether `self` comes from `before` by the four phases of one
    /// iteration, through the states `expanding`, `simulating` and
    /// `updating`. What each step did is unfolded by `lemma_came_from`.
    pub open spec fn went_through(
        &self,
        before: &Self,
        expanding: &Self,
        simulating: &Self,
        updating: &Self,
    ) -> bool {
        &&& before.action() is Selection
        &&& expanding.action() is Expansion
        &&& simulating.action() is Simulation
        &&& updating.action() is Backpropagation
        &&& self.action() is Selection
        &&& expanding.came_from(before)
        &&& simulating.came_from(expanding)
        &&& updating.came_from(simulating)
        &&& self.came_from(updating)
    }

    /// An iteration that starts at a selection and ends at a selection has
    /// gone through the four phases, one after the other.
    pub proof fn lemma_iteration_has_four_phases(&self, before: &Self)
        requires
            self.iterated_from(before),
            before.action() is Selection,
            self.action() is Selection,
        ensures
            exists|expanding: Self, simulating: Self, updating: Self| #[trigger]
                self.went_through(before, &expanding, &simulating, &updating),
    {
        let n = choose|n: nat| 1 <= n <= 4 && #[trigger] self.ran_from(before, n);
        if n == 1 {
            self.lemma_next_phase(before);
        } else {
            let third = choose|mid: Self|
                mid.ran_from(before, (n - 1) as nat) && !mid.at_rest() && #[trigger] self.came_from(
                    &mid,
                );
            self.lemma_next_phase(&third);
            if n == 2 {
                third.lemma_next_phase(before);
            } else {
                let second = choose|mid: Self|
                    mid.ran_from(before, (n - 2) as nat) && !mid.at_rest()
                        && #[trigger] third.came_from(&mid);
                third.lemma_next_phase(&second);
                if n == 3 {
                    second.lemma_next_phase(before);
                } else {
                    let first = choose|mid: Self|
                        mid.ran_from(before, (n - 3) as nat) && !mid.at_rest()
                            && #[trigger] second.came_from(&mid);
                    second.lemma_next_phase(&first);
                    first.lemma_next_phase(before);
                    assert(self.went_through(before, &first, &second, &third));
                }
            }
        }
    }

    /// An iteration from a selection counts one more playout unless nothing
    /// is left to search: if the root has no children, or a child that is
    /// not fully calculated, the search is at a selection again afterwards,
    /// the root has one more visit, and the list of updated nodes is a way
    /// up to the root.
    pub proof fn lemma_iteration_counts_a_playout(&self, before: &Self)
        requires
            self.iterated_from(before),
            before.action() is Selection,
            before.tree().children_of(0).len() == 0 || !before.tree().is_closed(0),
        ensures
            self.playouts() == before.playouts() + 1,
            match self.action() {
                MctsAction::Selection { R, RP } => R == 0 && self.tree().is_way_up(RP@),
                _ => false,
            },
    {
    }

    /// Once a search has ended, further iterations change nothing.
    pub proof fn lemma_ended_search_stays(&self, ended: &Self, n: int)
        requires
            ended.action() is EverythingIsCalculated,
            self.iterated_times_from(ended, n) || self.iterated_from(ended) || self.stepped_from(
                ended,
            ),
        ensures
            *self == *ended,
    {
    }

    /// The children of a node of a search stand for the legal moves of its
    /// state: a node has either no children, or one for each move, in the
    /// order of the moves, each holding its move and the state it leads to.
    pub proof fn lemma_children_stand_for_moves(&self, i: int, k: int)
        requires
            self.wf(),
            0 <= i < self.tree().size(),
            0 <= k < self.tree().children_of(i).len(),
        ensures
            self.tree().children_of(i).len() == self.tree().node(i).board.available_moves().len(),
            self.tree().node(self.tree().children_of(i)[k]).prev_move == Some(
                self.tree().node(i).board.available_moves()[k],
            ),
            *self.tree().node(self.tree().children_of(i)[k]).board == self.tree().node(
                i,
            ).board.after_move(self.tree().node(i).board.available_moves()[k]),
    {
        assert(self.tree().children_match_moves(i));
    }

    /// The bounds of a search are right: from the state of a node whose
    /// bound says that the game is won, the favoured player wins whatever
    /// the opponent does, and from the state of a node whose bound says
    /// that the game is lost, the favoured player loses whatever they do.
    pub proof fn lemma_bounds_are_right(&self, i: int)
        requires
            self.wf(),
            0 <= i < self.tree().size(),
        ensures
            self.tree().node(i).bound == Bound::DefoWin ==> crate::proven::is_won(
                *self.tree().node(i).board,
            ),
            self.tree().node(i).bound == Bound::DefoLose ==> crate::proven::is_lost(
                *self.tree().node(i).board,
            ),
    {
        assert(self.tree().bound_is_sound(i));
    }

    /// When a search has ended, its root is fully calculated.
    pub proof fn lemma_ended_search_is_calculated(&self)
        requires
            self.wf(),
            self.action() is EverythingIsCalculated,
        ensures
            self.tree().node(0).is_fully_calculated,
    {
        assert(self.tree().flag_settled(0));
        assert forall|j: int| 0 <= j < self.tree().children_of(0).len() implies (
        #[trigger] self.tree().node(self.tree().children_of(0)[j])).is_fully_calculated by {
            assert(!self.tree().is_open(self.tree().children_of(0)[j]));
        }
    }

    /// In every node of a search, wins and draws together are no more than
    /// the visits, and none of the three is negative.
    pub proof fn lemma_counts_consistent(&self, i: int)
        requires
            self.wf(),
            0 <= i < self.tree().size(),
        ensures
            0 <= self.tree().node(i).wins,
            0 <= self.tree().node(i).draws,
            self.tree().node(i).wins + self.tree().node(i).draws <= self.tree().node(i).visits,
    {
        assert(self.tree().node(i).counts_ok());
    }
}

impl<T: Board, S: UcbScorer> MonteCarloTreeSearch<T, StandardRandomGenerator, S> {
    /// Creates a search from `board` with pruning switched on and with a
    /// random generator that differs from run to run.
    pub fn from_board(board: T) -> (search: Self)
        ensures
            search.wf(),
            search.is_initial(board, true),
    {
        MonteCarloTreeSearchBuilder::new(board).build()
    }
}

} // verus!
