//! What a node knows of a peer.
use vstd::prelude::*;
use std::cmp::Ordering;
use crate::key::Key;
use crate::key::distance;

verus! {

/// A peer: the address it is reached at and its identifier.
#[derive(Debug, Hash, Eq)]
pub struct NodeData {
    pub addr: String,
    pub id: Key,
}

/// The mathematical value of a `NodeData`.
pub ghost struct NodeDataView {
    pub addr: Seq<char>,
    pub id: Seq<u8>,
}

impl View for NodeData {
    type V = NodeDataView;

    open spec fn view(&self) -> NodeDataView {
        NodeDataView { addr: self.addr@, id: self.id@ }
    }
}

impl DeepView for NodeData {
    type V = NodeDataView;

    open spec fn deep_view(&self) -> NodeDataView {
        self@
    }
}

impl NodeDataView {
    /// The XOR distance from this peer to `target`.
    pub open spec fn distance_to(self, target: Seq<u8>) -> nat {
        distance(self.id, target)
    }
}

impl Clone for NodeData {
    fn clone(&self) -> (copy: NodeData)
        ensures
            copy == *self,
    {
        NodeData { addr: self.addr.clone(), id: self.id }
    }
}

impl PartialEq for NodeData {
    fn eq(&self, other: &NodeData) -> (r: bool) {
        self.addr == other.addr && self.id == other.id
    }
}

impl vstd::std_specs::cmp::PartialEqSpecImpl for NodeData {
    open spec fn obeys_eq_spec() -> bool {
        true
    }

    open spec fn eq_spec(&self, other: &NodeData) -> bool {
        self@ == other@
    }
}

/// A peer waiting to be asked, with its XOR distance to the target of a
/// lookup. A pair is equal to another when the peers are; it is greater than
/// another when its distance is smaller, so that the closest pair is the
/// greatest.
#[derive(Debug, Eq)]
pub struct NodeDataDistancePair(pub NodeData, pub Key);

impl Clone for NodeDataDistancePair {
    fn clone(&self) -> (copy: NodeDataDistancePair)
        ensures
            copy == *self,
    {
        NodeDataDistancePair(self.0.clone(), self.1)
    }
}

impl PartialEq for NodeDataDistancePair {
    fn eq(&self, other: &NodeDataDistancePair) -> (r: bool) {
        self.0 == other.0
    }
}

impl vstd::std_specs::cmp::PartialEqSpecImpl for NodeDataDistancePair {
    open spec fn obeys_eq_spec() -> bool {
        true
    }

    open spec fn eq_spec(&self, other: &NodeDataDistancePair) -> bool {
        self.0@ == other.0@
    }
}

impl PartialOrd for NodeDataDistancePair {
    fn partial_cmp(&self, other: &NodeDataDistancePair) -> (r: Option<Ordering>) {
        other.1.partial_cmp(&self.1)
    }
}

impl vstd::std_specs::cmp::PartialOrdSpecImpl for NodeDataDistancePair {
    open spec fn obeys_partial_cmp_spec() -> bool {
        true
    }

    open spec fn partial_cmp_spec(&self, other: &NodeDataDistancePair) -> Option<Ordering> {
        if other.1.value() < self.1.value() {
            Some(Ordering::Less)
        } else if other.1.value() > self.1.value() {
            Some(Ordering::Greater)
        } else {
            Some(Ordering::Equal)
        }
    }
}

/// The first place in `nodes` where `node` stands, for a `node` that is there.
pub open spec fn first_position(nodes: Seq<NodeDataView>, node: NodeDataView) -> int {
    choose|i: int| 0 <= i < nodes.len() && nodes[i] == node && !nodes.take(i).contains(node)
}

/// `nodes` without the first `node` in it.
#[verifier::opaque]
pub open spec fn without(nodes: Seq<NodeDataView>, node: NodeDataView) -> Seq<NodeDataView> {
    if nodes.contains(node) {
        nodes.remove(first_position(nodes, node))
    } else {
        nodes
    }
}

/// There is one first place of a peer in a sequence that holds it.
pub proof fn lemma_first_position(nodes: Seq<NodeDataView>, node: NodeDataView, index: int)
    requires
        0 <= index < nodes.len(),
        nodes[index] == node,
        !nodes.take(index).contains(node),
    ensures
        nodes.contains(node),
        first_position(nodes, node) == index,
        without(nodes, node) == nodes.remove(index),
{
    reveal(without);
    let other = first_position(nodes, node);
    if other < index {
        assert(nodes.take(index)[other] == node);
    } else if index < other {
        assert(nodes.take(other)[index] == node);
    }
}

/// The first place in `nodes` where a peer equal to `node` stands.
pub fn position(nodes: &Vec<NodeData>, node: &NodeData) -> (found: Option<usize>)
    ensures
        match found {
            Some(index) => index < nodes.len() && nodes.deep_view()[index as int] == node@
                && nodes.deep_view().contains(node@) && without(nodes.deep_view(), node@)
                == nodes.deep_view().remove(index as int),
            None => !nodes.deep_view().contains(node@) && without(nodes.deep_view(), node@)
                == nodes.deep_view(),
        },
{
    let mut i: usize = 0;
    while i < nodes.len()
        invariant
            i <= nodes.len(),
            forall|j: int| 0 <= j < i ==> nodes.deep_view()[j] != node@,
        decreases nodes.len() - i,
    {
        if nodes[i] == *node {
            proof {
                lemma_first_position(nodes.deep_view(), node@, i as int);
            }
            return Some(i);
        }
        i += 1;
    }
    proof {
        reveal(without);
    }
    None
}

/// A copy of a list of peers.
pub fn clone_nodes(nodes: &Vec<NodeData>) -> (copy: Vec<NodeData>)
    ensures
        copy.deep_view() == nodes.deep_view(),
{
    let mut copy: Vec<NodeData> = Vec::new();
    let mut i: usize = 0;
    while i < nodes.len()
        invariant
            i <= nodes.len(),
            copy.len() == i,
            forall|j: int| 0 <= j < i ==> copy.deep_view()[j] == nodes.deep_view()[j],
        decreases nodes.len() - i,
    {
        copy.push(nodes[i].clone());
        i += 1;
    }
    assert(copy.deep_view() =~= nodes.deep_view());
    copy
}

} // verus!
