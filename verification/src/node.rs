//! Node identity and the edges from a node to its parents.
use std::sync::Arc;
use vstd::prelude::*;

verus! {

/// Identifier of one node of the computation graph, assigned once per forward
/// operation.
#[derive(Clone, Copy, Debug, PartialEq, Eq, Structural, PartialOrd, Ord, Hash)]
pub struct NodeID {
    pub value: u64,
}

/// A node of the computation graph: its identity and its direct parents, in
/// the order in which the operation took them.
#[derive(Debug)]
pub struct Node {
    pub id: NodeID,
    pub parents: Vec<NodeID>,
}

/// Shared handle to a [`Node`].
pub type NodeRef = Arc<Node>;

impl NodeID {
    /// The identifier with the given number.
    pub fn new(value: u64) -> (id: NodeID)
        ensures
            id.value == value,
    {
        NodeID { value }
    }
}

impl Node {
    /// A node with the given identity and parents.
    pub fn new(id: NodeID, parents: Vec<NodeID>) -> (node: Node)
        ensures
            node.id == id,
            node.parents@ == parents@,
    {
        Node { id, parents }
    }
}

/// A map keyed by node numbers, read as a map keyed by node identifiers.
pub open spec fn by_node<T>(m: Map<u64, T>) -> Map<NodeID, T> {
    Map::new(|id: NodeID| m.contains_key(id.value), |id: NodeID| m[id.value])
}

/// Inserting under a node's number inserts under the node.
pub proof fn lemma_by_node_insert<T>(m: Map<u64, T>, id: NodeID, t: T)
    ensures
        by_node(m.insert(id.value, t)) == by_node(m).insert(id, t),
{
    assert(by_node(m.insert(id.value, t)) =~= by_node(m).insert(id, t));
}

/// Removing a node's number removes the node.
pub proof fn lemma_by_node_remove<T>(m: Map<u64, T>, id: NodeID)
    ensures
        by_node(m.remove(id.value)) == by_node(m).remove(id),
{
    assert(by_node(m.remove(id.value)) =~= by_node(m).remove(id));
}

/// The empty map stays empty.
pub proof fn lemma_by_node_empty<T>()
    ensures
        by_node(Map::<u64, T>::empty()) == Map::<NodeID, T>::empty(),
{
    assert(by_node(Map::<u64, T>::empty()) =~= Map::<NodeID, T>::empty());
}

} // verus!
