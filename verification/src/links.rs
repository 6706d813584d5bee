use ego_tree::NodeId;
use ego_tree::Tree;
use vstd::prelude::*;

verus! {

/// `ego_tree::Tree`, a tree whose nodes are kept in the order of their
/// creation. Nothing inside it is visible to the proofs.
#[verifier::external_type_specification]
#[verifier::external_body]
#[verifier::reject_recursive_types(T)]
pub struct ExTree<T>(ego_tree::Tree<T>);

/// `ego_tree::NodeId`, the handle of a node of such a tree. Nothing inside
/// it is visible to the proofs.
#[verifier::external_type_specification]
#[verifier::external_body]
pub struct ExNodeId(ego_tree::NodeId);

/// What an `ego_tree::Tree` holds: one entry per node, in the order in which
/// the nodes were added. An entry gives the position of the node's parent (if
/// it has one), the positions of its children in their order, and its value.
pub uninterp spec fn tree_entries(tree: Tree<usize>) -> Seq<(Option<int>, Seq<int>, usize)>;

/// The position, among the nodes of its tree, of the node that an
/// `ego_tree::NodeId` refers to.
pub uninterp spec fn node_position(id: NodeId) -> int;

/// The values held by the nodes at the given positions, in the same order.
pub open spec fn values_at(tree: Tree<usize>, positions: Seq<int>) -> Seq<usize> {
    positions.map_values(|p: int| tree_entries(tree)[p].2)
}

/// `ego_tree::Tree::new`: a tree of one node, the root, which holds `value`
/// and has neither parent nor children.
#[verifier::external_body]
fn tree_new(value: usize) -> (tree: Tree<usize>)
    ensures
        tree_entries(tree) == seq![(None::<int>, Seq::<int>::empty(), value)],
{
    Tree::new(value)
}

/// `ego_tree::Tree::root` and `NodeRef::id`: the root is the node at position 0.
#[verifier::external_body]
fn tree_root(tree: &Tree<usize>) -> (id: NodeId)
    ensures
        node_position(id) == 0,
{
    tree.root().id()
}

/// `ego_tree::NodeRef::children`: the values of the children of the node at
/// `id`, first child first.
#[verifier::external_body]
fn tree_children(tree: &Tree<usize>, id: NodeId) -> (kids: Vec<usize>)
    requires
        0 <= node_position(id) < tree_entries(*tree).len(),
    ensures
        kids@ == values_at(*tree, tree_entries(*tree)[node_position(id)].1),
{
    tree.get(id).unwrap().children().map(|kid| *kid.value()).collect()
}

/// `ego_tree::NodeRef::parent`: the value of the parent of the node at `id`,
/// or `None` for a node without a parent.
#[verifier::external_body]
fn tree_parent(tree: &Tree<usize>, id: NodeId) -> (up: Option<usize>)
    requires
        0 <= node_position(id) < tree_entries(*tree).len(),
    ensures
        up == match tree_entries(*tree)[node_position(id)].0 {
            Some(p) => Some(tree_entries(*tree)[p].2),
            None => None,
        },
{
    tree.get(id).unwrap().parent().map(|up| *up.value())
}

/// `ego_tree::NodeMut::append`: adds a node that holds `value` at the end of
/// the tree's nodes and makes it the last child of the node at `id`; every
/// other entry stays as it was. Returns the new node's id.
#[verifier::external_body]
fn tree_append(tree: &mut Tree<usize>, id: NodeId, value: usize) -> (kid: NodeId)
    requires
        0 <= node_position(id) < tree_entries(*old(tree)).len(),
    ensures
        node_position(kid) == tree_entries(*old(tree)).len(),
        tree_entries(*final(tree)) == tree_entries(*old(tree)).update(
            node_position(id),
            (
                tree_entries(*old(tree))[node_position(id)].0,
                tree_entries(*old(tree))[node_position(id)].1.push(
                    tree_entries(*old(tree)).len() as int,
                ),
                tree_entries(*old(tree))[node_position(id)].2,
            ),
        ).push((Some(node_position(id)), Seq::<int>::empty(), value)),
{
    tree.get_mut(id).unwrap().append(value).id()
}

/// The shape of a rooted tree that only grows: every node but the root has
/// one parent, every node has an ordered list of children, and a node is
/// known by its position in the order of creation. The root is node 0.
pub struct TreeLinks {
    tree: Tree<usize>,
    handles: Vec<NodeId>,
}

impl TreeLinks {
    /// The number of nodes.
    pub closed spec fn size(&self) -> nat {
        tree_entries(self.tree).len()
    }

    /// The parent of node `i`, if it has one.
    pub closed spec fn parent_of(&self, i: int) -> Option<int> {
        tree_entries(self.tree)[i].0
    }

    /// The children of node `i`, oldest first.
    pub closed spec fn children_of(&self, i: int) -> Seq<int> {
        tree_entries(self.tree)[i].1
    }

    /// Every node of the underlying tree holds its own position as its value,
    /// and the table of handles leads to the node at each position.
    pub closed spec fn handles_agree(&self) -> bool {
        &&& self.handles@.len() == tree_entries(self.tree).len()
        &&& forall|i: int|
            0 <= i < self.handles@.len() ==> node_position(#[trigger] self.handles@[i]) == i
        &&& forall|i: int|
            0 <= i < tree_entries(self.tree).len() ==> (#[trigger] tree_entries(self.tree)[i]).2
                == i
    }

    /// The links form a tree rooted at node 0 in which every child was
    /// created after its parent, and the lists of children are in order of
    /// creation.
    pub open spec fn well_linked(&self) -> bool {
        &&& self.size() >= 1
        &&& self.parent_of(0) is None
        &&& forall|i: int|
            0 < i < self.size() ==> match #[trigger] self.parent_of(i) {
                Some(p) => 0 <= p < i && self.children_of(p).contains(i),
                None => false,
            }
        &&& forall|i: int, j: int|
            0 <= i < self.size() && 0 <= j < self.children_of(i).len() ==> {
                &&& i < #[trigger] self.children_of(i)[j] < self.size()
                &&& self.parent_of(self.children_of(i)[j]) == Some(i)
            }
        &&& forall|i: int, j: int, k: int|
            0 <= i < self.size() && 0 <= j < k < self.children_of(i).len()
                ==> #[trigger] self.children_of(i)[j] < #[trigger] self.children_of(i)[k]
    }

    /// The invariant of the type.
    pub open spec fn wf(&self) -> bool {
        self.handles_agree() && self.well_linked()
    }

    /// Creates the links of a tree that has only its root.
    pub fn new() -> (links: Self)
        ensures
            links.wf(),
            links.size() == 1,
            links.children_of(0) == Seq::<int>::empty(),
    {
        let tree = tree_new(0);
        let root = tree_root(&tree);
        let mut handles: Vec<NodeId> = Vec::new();
        handles.push(root);
        TreeLinks { tree, handles }
    }

    /// Returns the number of nodes.
    pub fn len(&self) -> (n: usize)
        requires
            self.wf(),
        ensures
            n == self.size(),
    {
        self.handles.len()
    }

    /// Returns the children of node `i`, oldest first.
    pub fn children(&self, i: usize) -> (kids: Vec<usize>)
        requires
            self.wf(),
            i < self.size(),
        ensures
            kids@.len() == self.children_of(i as int).len(),
            forall|j: int| 0 <= j < kids@.len() ==> kids@[j] == self.children_of(i as int)[j],
    {
        let kids = tree_children(&self.tree, self.handles[i]);
        proof {
            assert forall|j: int| 0 <= j < kids@.len() implies kids@[j] == self.children_of(
                i as int,
            )[j] by {
                let c = self.children_of(i as int)[j];
                assert(i < c < self.size());
                assert(tree_entries(self.tree)[c].2 == c);
            }
        }
        kids
    }

    /// Returns the parent of node `i`, or `None` for the root.
    pub fn parent(&self, i: usize) -> (up: Option<usize>)
        requires
            self.wf(),
            i < self.size(),
        ensures
            match self.parent_of(i as int) {
                Some(p) => up == Some(p as usize) && 0 <= p < i,
                None => up is None && i == 0,
            },
    {
        let up = tree_parent(&self.tree, self.handles[i]);
        proof {
            if i > 0 {
                let p = self.parent_of(i as int)->Some_0;
                assert(tree_entries(self.tree)[p].2 == p);
            }
        }
        up
    }

    /// Adds a node as the last child of node `parent` and returns its position.
    pub fn append(&mut self, parent: usize) -> (kid: usize)
        requires
            old(self).wf(),
            parent < old(self).size(),
        ensures
            final(self).wf(),
            kid == old(self).size(),
            final(self).size() == old(self).size() + 1,
            final(self).parent_of(kid as int) == Some(parent as int),
            final(self).children_of(kid as int) == Seq::<int>::empty(),
            final(self).children_of(parent as int) == old(self).children_of(parent as int).push(
                kid as int,
            ),
            forall|i: int|
                0 <= i < old(self).size() ==> final(self).parent_of(i) == old(self).parent_of(i),
            forall|i: int|
                0 <= i < old(self).size() && i != parent ==> final(self).children_of(i) == old(
                    self,
                ).children_of(i),
    {
        let kid = self.handles.len();
        let handle = tree_append(&mut self.tree, self.handles[parent], kid);
        self.handles.push(handle);
        proof {
            let before = tree_entries(old(self).tree);
            let after = tree_entries(self.tree);
            assert(after.len() == before.len() + 1);
            assert forall|i: int| 0 <= i < after.len() implies (#[trigger] after[i]).2 == i by {
                if i < before.len() {
                    assert(before[i].2 == i);
                }
            }
            assert forall|i: int| 0 < i < self.size() implies match #[trigger] self.parent_of(i) {
                Some(p) => 0 <= p < i && self.children_of(p).contains(i),
                None => false,
            } by {
                if i < before.len() {
                    let p = old(self).parent_of(i)->Some_0;
                    let j = choose|j: int|
                        0 <= j < old(self).children_of(p).len() && old(self).children_of(p)[j]
                            == i;
                    assert(self.children_of(p)[j] == i);
                } else {
                    let kids = self.children_of(parent as int);
                    assert(kids[kids.len() - 1] == i);
                }
            }
            assert forall|i: int, j: int|
                0 <= i < self.size() && 0 <= j < self.children_of(i).len() implies {
                &&& i < #[trigger] self.children_of(i)[j] < self.size()
                &&& self.parent_of(self.children_of(i)[j]) == Some(i)
            } by {
                if i == parent && j == old(self).children_of(i).len() {
                } else {
                    assert(self.children_of(i)[j] == old(self).children_of(i)[j]);
                }
            }
            assert forall|i: int, j: int, k: int|
                0 <= i < self.size() && 0 <= j < k < self.children_of(i).len()
                    implies #[trigger] self.children_of(i)[j] < #[trigger] self.children_of(
                    i,
                )[k] by {
                if i == parent && k == old(self).children_of(i).len() {
                    assert(self.children_of(i)[j] == old(self).children_of(i)[j]);
                } else {
                    assert(self.children_of(i)[j] == old(self).children_of(i)[j]);
                    assert(self.children_of(i)[k] == old(self).children_of(i)[k]);
                }
            }
        }
        kid
    }
}

} // verus!
