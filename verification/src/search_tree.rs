use crate::board::{Board, Bound, GameOutcome};
use crate::links::TreeLinks;
use crate::mcts_node::MctsNode;
use vstd::prelude::*;

verus! {

/// Whether the numbers in `ids` are those of `positions`, one for one.
pub open spec fn same_ids(ids: Seq<usize>, positions: Seq<int>) -> bool {
    &&& ids.len() == positions.len()
    &&& forall|k: int| 0 <= k < ids.len() ==> ids[k] == positions[k]
}

/// The search tree: its nodes in the order of their creation, and the links
/// between them. A node is known by its position; the root is node 0. Nodes
/// are only ever added.
pub struct SearchTree<T: Board> {
    links: TreeLinks,
    nodes: Vec<MctsNode<T>>,
}

impl<T: Board> SearchTree<T> {
    /// The links between the nodes.
    pub closed spec fn links(&self) -> TreeLinks {
        self.links
    }

    /// The nodes, in the order of their creation.
    pub closed spec fn nodes(&self) -> Seq<MctsNode<T>> {
        self.nodes@
    }

    /// The number of nodes.
    pub open spec fn size(&self) -> nat {
        self.nodes().len()
    }

    /// The node at position `i`.
    pub open spec fn node(&self, i: int) -> MctsNode<T> {
        self.nodes()[i]
    }

    /// The parent of node `i`, if it has one.
    pub open spec fn parent_of(&self, i: int) -> Option<int> {
        self.links().parent_of(i)
    }

    /// The children of node `i`, oldest first.
    pub open spec fn children_of(&self, i: int) -> Seq<int> {
        self.links().children_of(i)
    }

    /// Node `i` is one level below its parent and has not been visited more
    /// often than its parent.
    pub open spec fn child_fits(&self, i: int) -> bool {
        let p = self.parent_of(i)->Some_0;
        &&& self.node(i).height == self.node(p).height + 1
        &&& self.node(i).visits <= self.node(p).visits
    }

    /// Every child of node `i` is fully calculated.
    pub open spec fn all_children_calculated(&self, i: int) -> bool {
        forall|j: int|
            0 <= j < self.children_of(i).len() ==> (#[trigger] self.node(
                self.children_of(i)[j],
            )).is_fully_calculated
    }

    /// If node `i` has children and all of them are fully calculated, then
    /// it is fully calculated itself.
    pub open spec fn flag_settled(&self, i: int) -> bool {
        self.children_of(i).len() > 0 && self.all_children_calculated(i) ==> self.node(
            i,
        ).is_fully_calculated
    }

    /// The links form a tree, and there is one node for each position in it.
    pub open spec fn shaped(&self) -> bool {
        &&& self.links().wf()
        &&& self.nodes().len() == self.links().size()
    }

    /// The invariant of the tree.
    pub open spec fn wf(&self) -> bool {
        &&& self.shaped()
        &&& self.node(0).height == 0
        &&& self.node(0).prev_move is None
        &&& forall|i: int|
            0 <= i < self.size() ==> (#[trigger] self.node(i)).counts_ok() && self.node(
                i,
            ).matches_board()
        &&& forall|i: int| 0 < i < self.size() ==> #[trigger] self.child_fits(i)
        &&& forall|i: int| 0 <= i < self.size() ==> #[trigger] self.flag_settled(i)
    }

    /// The nodes from node `i` up to the root: `i` first, then its parent,
    /// and so on.
    pub open spec fn path_up(&self, i: int) -> Seq<int>
        decreases i,
    {
        if i <= 0 {
            seq![0int]
        } else {
            match self.parent_of(i) {
                Some(p) => if 0 <= p < i {
                    seq![i] + self.path_up(p)
                } else {
                    seq![i]
                },
                None => seq![i],
            }
        }
    }

    /// Whether two trees hold the same nodes with the same links between
    /// them.
    pub open spec fn same_as(&self, other: &Self) -> bool {
        &&& self.nodes() == other.nodes()
        &&& forall|i: int|
            0 <= i < self.size() ==> #[trigger] self.parent_of(i) == other.parent_of(i)
        &&& forall|i: int|
            0 <= i < self.size() ==> #[trigger] self.children_of(i) == other.children_of(i)
    }

    /// Whether `path` is a way up the tree: it ends at the root, and each
    /// node on it but the last is followed by its parent.
    pub open spec fn is_way_up(&self, path: Seq<usize>) -> bool {
        &&& path.len() >= 1
        &&& path.last() == 0
        &&& forall|a: int|
            0 <= a < path.len() - 1 ==> self.parent_of(#[trigger] path[a] as int) == Some(
                path[a + 1] as int,
            )
    }

    /// No node has been visited more often than the root.
    pub proof fn lemma_visits_below_root(&self, i: int)
        requires
            self.wf(),
            0 <= i < self.size(),
        ensures
            self.node(i).visits <= self.node(0).visits,
        decreases i,
    {
        if i > 0 {
            assert(self.child_fits(i));
            self.lemma_visits_below_root(self.parent_of(i)->Some_0);
        }
    }

    /// A tree with more than one node has a root with children.
    pub proof fn lemma_root_has_children(&self)
        requires
            self.wf(),
            self.size() > 1,
        ensures
            self.children_of(0).len() > 0,
    {
        assert(self.parent_of(1) is Some);
    }

    /// Creates a tree that holds only `root`.
    pub fn new(root: MctsNode<T>) -> (tree: Self)
        requires
            root.counts_ok(),
            root.matches_board(),
            root.height == 0,
            root.prev_move is None,
        ensures
            tree.wf(),
            tree.nodes() == seq![root],
            tree.children_of(0) == Seq::<int>::empty(),
    {
        let links = TreeLinks::new();
        let mut nodes: Vec<MctsNode<T>> = Vec::new();
        nodes.push(root);
        let tree = SearchTree { links, nodes };
        assert(tree.flag_settled(0));
        tree
    }

    /// Returns the position of the root.
    pub fn root_id(&self) -> (id: usize)
        ensures
            id == 0,
    {
        0
    }

    /// Returns the number of nodes.
    pub fn len(&self) -> (n: usize)
        ensures
            n == self.size(),
    {
        self.nodes.len()
    }

    /// Returns the node at position `i`.
    pub fn get(&self, i: usize) -> (node: &MctsNode<T>)
        requires
            i < self.size(),
        ensures
            *node == self.node(i as int),
    {
        &self.nodes[i]
    }

    /// Returns the positions of the children of node `i`, oldest first.
    pub fn children(&self, i: usize) -> (kids: Vec<usize>)
        requires
            self.shaped(),
            i < self.size(),
        ensures
            same_ids(kids@, self.children_of(i as int)),
    {
        self.links.children(i)
    }

    /// Returns the position of the parent of node `i`, or `None` for the root.
    pub fn parent(&self, i: usize) -> (up: Option<usize>)
        requires
            self.shaped(),
            i < self.size(),
        ensures
            match self.parent_of(i as int) {
                Some(p) => up == Some(p as usize) && 0 <= p < i,
                None => up is None && i == 0,
            },
    {
        self.links.parent(i)
    }

    /// Whether `self` is `before` with `node` added as the last child of
    /// node `parent`, and nothing else changed.
    pub open spec fn grown_from(&self, before: &Self, parent: int, node: MctsNode<T>) -> bool {
        let kid = before.size() as int;
        &&& self.nodes() == before.nodes().push(node)
        &&& self.parent_of(kid) == Some(parent)
        &&& self.children_of(kid) == Seq::<int>::empty()
        &&& self.children_of(parent) == before.children_of(parent).push(kid)
        &&& forall|i: int| 0 <= i < before.size() ==> self.parent_of(i) == before.parent_of(i)
        &&& forall|i: int|
            0 <= i < before.size() && i != parent ==> self.children_of(i) == before.children_of(
                i,
            )
    }

    /// Adds an unvisited node as the last child of node `parent` and returns
    /// its position.
    pub fn append(&mut self, parent: usize, node: MctsNode<T>) -> (kid: usize)
        requires
            old(self).wf(),
            parent < old(self).size(),
            node.is_fresh(),
            node.matches_board(),
            node.height == old(self).node(parent as int).height + 1,
        ensures
            final(self).wf(),
            kid == old(self).size(),
            final(self).grown_from(old(self), parent as int, node),
    {
        let ghost before = *self;
        proof {
            assert(before.node(parent as int).counts_ok());
        }
        let kid = self.links.append(parent);
        self.nodes.push(node);
        proof {
            assert forall|i: int| 0 <= i < self.size() implies (#[trigger] self.node(
                i,
            )).counts_ok() && self.node(i).matches_board() by {
                if i < before.size() {
                    assert(self.node(i) == before.node(i));
                }
            }
            assert forall|i: int| 0 < i < self.size() implies #[trigger] self.child_fits(i) by {
                if i < before.size() {
                    assert(before.child_fits(i));
                }
            }
            assert forall|i: int| 0 <= i < self.size() implies #[trigger] self.flag_settled(
                i,
            ) by {
                if i == parent {
                    let kids = self.children_of(i);
                    assert(kids[kids.len() - 1] == kid);
                    assert(!self.node(kids[kids.len() - 1]).is_fully_calculated);
                } else if i < before.size() {
                    assert(before.flag_settled(i));
                    if self.children_of(i).len() > 0 && self.all_children_calculated(i) {
                        assert forall|j: int|
                            0 <= j < before.children_of(i).len() implies (#[trigger] before.node(
                            before.children_of(i)[j],
                        )).is_fully_calculated by {
                            assert(self.node(self.children_of(i)[j]).is_fully_calculated);
                        }
                    }
                }
            }
        }
        kid
    }

    /// Counts one more playout with the given outcome at node `i` alone,
    /// stores `bound` there if it is resolved, and sets the node's flag if
    /// `calculated` holds. The links and the other nodes stay as they are.
    pub(crate) fn record_visit(
        &mut self,
        i: usize,
        outcome: GameOutcome,
        bound: Bound,
        calculated: bool,
    )
        requires
            i < old(self).size(),
            old(self).node(i as int).counts_ok(),
            old(self).node(i as int).visits < i32::MAX,
        ensures
            final(self).links() == old(self).links(),
            final(self).nodes() == old(self).nodes().update(
                i as int,
                old(self).node(i as int).visited(outcome, bound, calculated),
            ),
    {
        let node = &mut self.nodes[i];
        node.record(outcome, bound, calculated);
    }

    /// Returns the nodes from node `i` up to the root, `i` first.
    pub fn path_to_root(&self, i: usize) -> (path: Vec<usize>)
        requires
            self.shaped(),
            i < self.size(),
        ensures
            same_ids(path@, self.path_up(i as int)),
    {
        let mut path: Vec<usize> = Vec::new();
        path.push(i);
        let mut at = i;
        let ghost mut walked: Seq<int> = seq![i as int];
        loop
            invariant
                self.shaped(),
                at < self.size(),
                same_ids(path@, walked),
                walked.len() >= 1,
                walked.drop_last() + self.path_up(at as int) == self.path_up(i as int),
                walked.last() == at,
            ensures
                same_ids(path@, walked),
                walked == self.path_up(i as int),
            decreases at,
        {
            match self.parent(at) {
                None => {
                    proof {
                        assert(self.path_up(0) == seq![0int]);
                        assert(walked.drop_last() + seq![0int] =~= walked);
                    }
                    break ;
                },
                Some(up) => {
                    proof {
                        assert(self.path_up(at as int) == seq![at as int] + self.path_up(
                            up as int,
                        ));
                        assert(walked.push(up as int).drop_last() =~= walked);
                        assert(walked =~= walked.drop_last() + seq![at as int]);
                        assert((walked.drop_last() + seq![at as int]) + self.path_up(up as int)
                            =~= walked.drop_last() + (seq![at as int] + self.path_up(up as int)));
                        walked = walked.push(up as int);
                    }
                    path.push(up);
                    at = up;
                },
            }
        }
        path
    }
}

} // verus!
