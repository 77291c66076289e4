//! Short lists of nodes, kept in a `smallvec::SmallVec` with room for 32
//! nodes before it spills to the heap.

use vstd::prelude::*;
use smallvec::SmallVec;
use crate::node::Node;

verus! {

/// A list of nodes kept in a `SmallVec<[Node; 32]>`.
#[verifier::external_body]
#[derive(Debug)]
pub struct NodeVec {
    items: SmallVec<[Node; 32]>,
}

/// The nodes that the small vector of a list holds, in order.
pub uninterp spec fn node_vec_items(v: NodeVec) -> Seq<Node>;

impl View for NodeVec {
    type V = Seq<Node>;

    open spec fn view(&self) -> Seq<Node> {
        node_vec_items(*self)
    }
}

/// `SmallVec::new`: the new vector is empty.
#[verifier::external_body]
pub(crate) fn node_vec_new() -> (v: NodeVec)
    ensures
        node_vec_items(v) == Seq::<Node>::empty(),
{
    NodeVec { items: SmallVec::new() }
}

/// `SmallVec::push`: the node is added at the end. Past 32 nodes the vector
/// moves to the heap; it never refuses a node.
#[verifier::external_body]
pub(crate) fn node_vec_push(v: &mut NodeVec, nd: Node)
    ensures
        node_vec_items(*final(v)) == node_vec_items(*old(v)).push(nd),
{
    v.items.push(nd)
}

/// `SmallVec::as_slice`: the slice shows the contents of the vector.
#[verifier::external_body]
pub(crate) fn node_vec_as_slice(v: &NodeVec) -> (s: &[Node])
    ensures
        s@ == node_vec_items(*v),
{
    v.items.as_slice()
}

impl NodeVec {
    /// An empty list.
    pub fn new() -> (v: NodeVec)
        ensures
            v@ == Seq::<Node>::empty(),
    {
        node_vec_new()
    }

    /// Adds a node at the end.
    pub fn push(&mut self, nd: Node)
        ensures
            final(self)@ == old(self)@.push(nd),
    {
        node_vec_push(self, nd)
    }

    /// The nodes of the list.
    pub fn as_slice(&self) -> (s: &[Node])
        ensures
            s@ == self@,
    {
        node_vec_as_slice(self)
    }

    /// The number of nodes in the list.
    pub fn len(&self) -> (n: usize)
        ensures
            n == self@.len(),
    {
        node_vec_as_slice(self).len()
    }

    /// The node at position `i`.
    pub fn get(&self, i: usize) -> (nd: Node)
        requires
            i < self@.len(),
        ensures
            nd == self@[i as int],
    {
        node_vec_as_slice(self)[i]
    }
}

} // verus!
