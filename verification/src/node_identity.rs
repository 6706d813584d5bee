use crate::board::Board;
use crate::mcts_node::MctsNode;
use vstd::prelude::*;

verus! {

impl<T: Board> PartialEq for MctsNode<T> {
    /// Two nodes count as equal if they have the same id.
    fn eq(&self, other: &Self) -> (same: bool) {
        self.id == other.id
    }
}

impl<T: Board> vstd::std_specs::cmp::PartialEqSpecImpl for MctsNode<T> {
    open spec fn obeys_eq_spec() -> bool {
        true
    }

    open spec fn eq_spec(&self, other: &Self) -> bool {
        self.id == other.id
    }
}

impl<T: Board> Eq for MctsNode<T> {

}

/// `Hash::hash` of an `i32`: feeds the number to the hasher. Nothing is
/// stated of the hasher afterwards.
#[verifier::external_body]
fn hash_number<H: std::hash::Hasher>(number: i32, state: &mut H) {
    std::hash::Hash::hash(&number, state);
}

impl<T: Board> std::hash::Hash for MctsNode<T> {
    /// Hashes the id of the node, by which nodes are equal.
    fn hash<H: std::hash::Hasher>(&self, state: &mut H) {
        hash_number(self.id, state);
    }
}

} // verus!
