//! Arrows and nodes: the records a graph is made of.

use crate::model::{ends_in, pruned};
use std::collections::HashSet;
use std::rc::Rc;
use vstd::prelude::*;

verus! {

broadcast use vstd::std_specs::hash::group_hash_axioms;

/// Identifier of a node, unique within one graph.
pub type NodeId = u64;

/// A directed edge, recorded by the identifiers of its two endpoints.
#[derive(Debug, Clone, Copy, PartialEq, Eq, Structural)]
pub struct Arrow {
    pub from: NodeId,
    pub to: NodeId,
}

/// What a node holds, as mathematical values.
pub struct NodeView<T> {
    pub id: NodeId,
    pub value: T,
    pub outgoing: Seq<Arrow>,
    pub incoming: Seq<Arrow>,
}

/// A vertex: a shared value, and the arrows that leave and reach it.
#[derive(Debug)]
pub struct Node<T> {
    incoming: Vec<Arrow>,
    outgoing: Vec<Arrow>,
    value: Rc<T>,
    id: NodeId,
}

impl<T> View for Node<T> {
    type V = NodeView<T>;

    closed spec fn view(&self) -> NodeView<T> {
        NodeView {
            id: self.id,
            value: *self.value,
            outgoing: self.outgoing@,
            incoming: self.incoming@,
        }
    }
}

/// `Rc::clone`: the new pointer shares the allocation, so it holds the same value.
#[verifier::external_body]
fn share<T>(value: &Rc<T>) -> (shared: Rc<T>)
    ensures
        *shared == **value,
{
    Rc::clone(value)
}

/// The arrows of `arrows` whose destination is in `keep`, in their order.
fn kept(arrows: &Vec<Arrow>, keep: &HashSet<NodeId>) -> (rest: Vec<Arrow>)
    ensures
        rest@ == arrows@.filter(ends_in(keep@)),
{
    let mut rest: Vec<Arrow> = Vec::new();
    let mut i: usize = 0;
    proof {
        reveal(Seq::filter);
    }
    while i < arrows.len()
        invariant
            i <= arrows.len(),
            rest@ == arrows@.take(i as int).filter(ends_in(keep@)),
        decreases arrows.len() - i,
    {
        proof {
            arrows@.take(i as int).lemma_filter_push(arrows@[i as int], ends_in(keep@));
            assert(arrows@.take(i + 1) == arrows@.take(i as int).push(arrows@[i as int]));
        }
        if keep.contains(&arrows[i].to) {
            rest.push(arrows[i]);
        }
        i += 1;
    }
    assert(arrows@.take(i as int) == arrows@);
    rest
}

impl<T> Clone for Node<T> {
    /// The copy shares the value and has adjacency lists of its own.
    fn clone(&self) -> (copy: Self)
        ensures
            copy@ == self@,
    {
        let incoming = self.incoming.clone();
        let outgoing = self.outgoing.clone();
        assert(incoming@ =~= self.incoming@);
        assert(outgoing@ =~= self.outgoing@);
        Node { incoming, outgoing, value: share(&self.value), id: self.id }
    }
}

impl<T> Node<T> {
    /// A node with the given value and identifier, and no arrows.
    pub fn new(value: T, id: NodeId) -> (node: Self)
        ensures
            node@ == (NodeView { id, value, outgoing: Seq::<Arrow>::empty(), incoming: Seq::<Arrow>::empty() }),
    {
        Node { value: Rc::new(value), id, incoming: Vec::new(), outgoing: Vec::new() }
    }

    /// Records the arrow from `self` to `other` on both of its endpoints.
    pub fn link<'a>(&'a mut self, other: &mut Self) -> (linked: &'a mut Self)
        ensures
            linked@ == (NodeView {
                outgoing: old(self)@.outgoing.push(Arrow { from: old(self)@.id, to: old(other)@.id }),
                ..old(self)@
            }),
            *final(self) == *final(linked),
            final(other)@ == (NodeView {
                incoming: old(other)@.incoming.push(Arrow { from: old(self)@.id, to: old(other)@.id }),
                ..old(other)@
            }),
    {
        self.outgoing.push(Arrow { from: self.id, to: other.id });
        other.incoming.push(Arrow { from: self.id, to: other.id });
        self
    }

    /// The node as it stands in the subgraph on `keep`: it shares the value,
    /// and both of its lists keep the arrows whose destination is in `keep`.
    pub(crate) fn pruned(&self, keep: &HashSet<NodeId>) -> (node: Self)
        ensures
            node@ == pruned(self@, keep@),
    {
        Node {
            incoming: kept(&self.incoming, keep),
            outgoing: kept(&self.outgoing, keep),
            value: share(&self.value),
            id: self.id,
        }
    }

    /// Appends an arrow to the outgoing list.
    pub(crate) fn push_outgoing(&mut self, arrow: Arrow)
        ensures
            final(self)@ == (NodeView { outgoing: old(self)@.outgoing.push(arrow), ..old(self)@ }),
    {
        self.outgoing.push(arrow);
    }

    /// Appends an arrow to the incoming list.
    pub(crate) fn push_incoming(&mut self, arrow: Arrow)
        ensures
            final(self)@ == (NodeView { incoming: old(self)@.incoming.push(arrow), ..old(self)@ }),
    {
        self.incoming.push(arrow);
    }

    /// The identifier of the node.
    pub fn id(&self) -> (id: NodeId)
        ensures
            id == self@.id,
    {
        self.id
    }

    /// The arrows that leave the node, in the order in which they were added.
    pub fn outgoing(&self) -> (arrows: &[Arrow])
        ensures
            arrows@ == self@.outgoing,
    {
        self.outgoing.as_slice()
    }

    /// The arrows that reach the node, in the order in which they were added.
    pub fn incoming(&self) -> (arrows: &[Arrow])
        ensures
            arrows@ == self@.incoming,
    {
        self.incoming.as_slice()
    }

    /// The value that the node holds.
    pub fn value(&self) -> (value: &T)
        ensures
            *value == self@.value,
    {
        &self.value
    }
}

} // verus!
