//! The graph container: an arena of nodes keyed by identifier.

use crate::model::{
    fresh_node, lemma_fresh_node_well_formed, lemma_linked_well_formed, lemma_listing, linked, listing, lists,
    well_formed,
};
use crate::node::{Arrow, Node, NodeId, NodeView};
use crate::sorted::{lemma_same_items, sorted_by_id};
use std::collections::HashMap;
use vstd::std_specs::iter::IteratorSpec;
use vstd::prelude::*;

verus! {

broadcast use vstd::std_specs::hash::group_hash_axioms;

/// A directed graph: nodes under their identifiers, and the next identifier
/// to hand out.
#[derive(Debug)]
pub struct Graph<T> {
    nodes: HashMap<NodeId, Node<T>>,
    current_id: NodeId,
}

impl<T> View for Graph<T> {
    type V = Map<NodeId, NodeView<T>>;

    closed spec fn view(&self) -> Map<NodeId, NodeView<T>> {
        Map::new(|id: NodeId| self.nodes@.contains_key(id), |id: NodeId| self.nodes@[id]@)
    }
}

impl<T> Graph<T> {
    /// Every node is stored under its own identifier.
    #[verifier::type_invariant]
    spec fn keyed_by_id(self) -> bool {
        forall|id: NodeId| self.nodes@.contains_key(id) ==> (#[trigger] self.nodes@[id])@.id == id
    }

    /// The identifier that the next new node gets.
    pub closed spec fn next_id(&self) -> NodeId {
        self.current_id
    }

    /// The graph is well formed, and no identifier in use is one that is
    /// still to be handed out: what building a graph node by node and link
    /// by link keeps.
    pub open spec fn wf(&self) -> bool {
        &&& well_formed(self@)
        &&& self.ids_below_next()
    }

    /// No identifier in use is one that is still to be handed out, so that
    /// a new node takes the place of none.
    pub open spec fn ids_below_next(&self) -> bool {
        forall|id: NodeId| self@.contains_key(id) ==> id < self.next_id()
    }

    /// The empty graph.
    pub fn new() -> (graph: Self)
        ensures
            graph@ == Map::<NodeId, NodeView<T>>::empty(),
            graph.next_id() == 0,
            graph.wf(),
    {
        let graph = Graph { nodes: HashMap::new(), current_id: 0 };
        assert(graph@ =~= Map::<NodeId, NodeView<T>>::empty());
        graph
    }

    /// The graph without nodes whose identifiers start at `next`.
    pub(crate) fn empty_from(next: NodeId) -> (graph: Self)
        ensures
            graph@ == Map::<NodeId, NodeView<T>>::empty(),
            graph.next_id() == next,
    {
        let graph = Graph { nodes: HashMap::new(), current_id: next };
        assert(graph@ =~= Map::<NodeId, NodeView<T>>::empty());
        graph
    }

    /// Adds a node without arrows under the next identifier, and returns it.
    pub fn new_node(&mut self, value: T) -> (id: NodeId)
        requires
            old(self).next_id() < u64::MAX,
        ensures
            id == old(self).next_id(),
            final(self).next_id() == id + 1,
            final(self)@ == old(self)@.insert(id, fresh_node(id, value)),
            old(self).ids_below_next() ==> !old(self)@.contains_key(id) && final(self).ids_below_next(),
            old(self).wf() ==> final(self).wf(),
    {
        let id = self.current_id;
        self.insert(Node::new(value, id));
        proof {
            use_type_invariant(&*self);
        }
        self.current_id = id + 1;
        proof {
            if old(self).wf() {
                lemma_fresh_node_well_formed(old(self)@, id, value);
            }
        }
        id
    }

    /// Stores `node` under its identifier, in place of any node that was there.
    pub(crate) fn insert(&mut self, node: Node<T>)
        ensures
            final(self)@ == old(self)@.insert(node@.id, node@),
            final(self).next_id() == old(self).next_id(),
    {
        proof {
            use_type_invariant(&*self);
        }
        let mut nodes: HashMap<NodeId, Node<T>> = HashMap::new();
        std::mem::swap(&mut nodes, &mut self.nodes);
        nodes.insert(node.id(), node);
        self.nodes = nodes;
        assert(self@ =~= old(self)@.insert(node@.id, node@));
    }

    /// Adds an arrow from `from` to `to`: to the outgoing list of `from` and
    /// to the incoming list of `to`.
    pub fn link(&mut self, from: NodeId, to: NodeId)
        requires
            old(self)@.contains_key(from),
            old(self)@.contains_key(to),
        ensures
            final(self)@ == linked(old(self)@, from, to),
            final(self).next_id() == old(self).next_id(),
            old(self).ids_below_next() ==> final(self).ids_below_next(),
            old(self).wf() ==> final(self).wf(),
    {
        proof {
            use_type_invariant(&*self);
        }
        let arrow = Arrow { from, to };
        let mut nodes: HashMap<NodeId, Node<T>> = HashMap::new();
        std::mem::swap(&mut nodes, &mut self.nodes);
        let mut source = nodes.remove(&from).unwrap();
        source.push_outgoing(arrow);
        nodes.insert(from, source);
        let mut target = nodes.remove(&to).unwrap();
        target.push_incoming(arrow);
        nodes.insert(to, target);
        self.nodes = nodes;
        assert(self@ =~= linked(old(self)@, from, to));
        proof {
            if old(self).wf() {
                lemma_linked_well_formed(old(self)@, from, to);
            }
        }
    }

    /// The identifier that the next new node gets.
    pub fn next(&self) -> (id: NodeId)
        ensures
            id == self.next_id(),
    {
        self.current_id
    }

    /// Whether a node is stored under `id`.
    pub fn contains(&self, id: NodeId) -> (found: bool)
        ensures
            found == self@.contains_key(id),
    {
        self.nodes.contains_key(&id)
    }

    /// The node stored under `id`.
    pub fn node(&self, id: NodeId) -> (node: &Node<T>)
        requires
            self@.contains_key(id),
        ensures
            node@ == self@[id],
            node@.id == id,
    {
        proof {
            use_type_invariant(self);
        }
        let found = self.nodes.get(&id);
        found.unwrap()
    }

    /// The nodes in ascending order of identifier.
    pub fn iter(&self) -> (nodes: Vec<&Node<T>>)
        ensures
            nodes@.len() == listing(self@.dom()).len(),
            forall|i: int|
                0 <= i < nodes@.len() ==> (#[trigger] nodes@[i])@ == self@[listing(self@.dom())[i]]
                    && nodes@[i]@.id == listing(self@.dom())[i],
            forall|i: int| 0 <= i < nodes@.len() ==> self@.contains_key(#[trigger] nodes@[i]@.id)
                && self@[nodes@[i]@.id] == nodes@[i]@,
            forall|i: int, j: int| 0 <= i < j < nodes@.len() ==> nodes@[i]@.id < nodes@[j]@.id,
            forall|id: NodeId| self@.contains_key(id) ==> exists|i: int| 0 <= i < nodes@.len() && nodes@[i]@.id == id,
            self@.dom().finite(),
            nodes@.len() == self@.dom().len(),
    {
        proof {
            use_type_invariant(self);
        }
        let mut found: Vec<&Node<T>> = Vec::new();
        let ghost keys = self.nodes.keys().remaining().unref();
        for key in it: self.nodes.keys()
            invariant
                it.seq().unref() == keys,
                keys.to_set() == self.nodes@.dom(),
                keys.no_duplicates(),
                found@.len() == it.index(),
                forall|i: int| 0 <= i < found@.len() ==> *(#[trigger] found@[i]) == self.nodes@[keys[i]],
        {
            assert(keys.contains(*key));
            let node = self.nodes.get(key);
            found.push(node.unwrap());
        }
        let sorted = sorted_by_id(found);
        proof {
            assert(self@.dom() =~= self.nodes@.dom());
            found@.to_multiset_ensures();
            sorted@.to_multiset_ensures();
            assert(found@.no_duplicates()) by {
                assert forall|i: int, j: int| 0 <= i < found@.len() && 0 <= j < found@.len() && i != j implies found@[i] != found@[j] by {
                    assert(keys.contains(keys[i]));
                    assert(keys.contains(keys[j]));
                    assert(found@[i]@.id == keys[i]);
                    assert(found@[j]@.id == keys[j]);
                }
            }
            lemma_same_items(found@, sorted@);
            assert forall|i: int| 0 <= i < sorted@.len() implies self@.contains_key(#[trigger] sorted@[i]@.id)
                && self@[sorted@[i]@.id] == sorted@[i]@ by {
                assert(sorted@.contains(sorted@[i]));
                assert(found@.contains(sorted@[i]));
                let p = choose|p: int| 0 <= p < found@.len() && found@[p] == sorted@[i];
                assert(keys.contains(keys[p]));
            }
            assert forall|i: int, j: int| 0 <= i < j < sorted@.len() implies sorted@[i]@.id < sorted@[j]@.id by {
                assert(sorted@.contains(sorted@[i]));
                assert(sorted@.contains(sorted@[j]));
                assert(found@.contains(sorted@[i]));
                assert(found@.contains(sorted@[j]));
                let p = choose|p: int| 0 <= p < found@.len() && found@[p] == sorted@[i];
                let q = choose|q: int| 0 <= q < found@.len() && found@[q] == sorted@[j];
                assert(keys.contains(keys[p]));
                assert(keys.contains(keys[q]));
                if sorted@[i]@.id == sorted@[j]@.id {
                    assert(keys[p] == keys[q]);
                    assert(p == q);
                    assert(sorted@[i] == sorted@[j]);
                }
            }
            assert forall|id: NodeId| self@.contains_key(id) implies exists|i: int| 0 <= i < sorted@.len() && sorted@[i]@.id == id by {
                assert(keys.contains(id));
                let p = choose|p: int| 0 <= p < keys.len() && keys[p] == id;
                assert(found@.contains(found@[p]));
                assert(sorted@.contains(found@[p]));
                let i = choose|i: int| 0 <= i < sorted@.len() && sorted@[i] == found@[p];
                assert(sorted@[i]@.id == id);
            }
            let ids = Seq::new(sorted@.len(), |i: int| sorted@[i]@.id);
            assert(ids.to_set() =~= self@.dom()) by {
                assert forall|id: NodeId| ids.to_set().contains(id) <==> self@.dom().contains(id) by {
                    if ids.contains(id) {
                        let i = choose|i: int| 0 <= i < ids.len() && ids[i] == id;
                        assert(self@.contains_key(sorted@[i]@.id));
                    }
                    if self@.contains_key(id) {
                        let i = choose|i: int| 0 <= i < sorted@.len() && sorted@[i]@.id == id;
                        assert(ids[i] == id);
                    }
                }
            }
            assert(lists(ids, self@.dom()));
            lemma_listing(ids, self@.dom());
            assert forall|i: int| 0 <= i < sorted@.len() implies (#[trigger] sorted@[i])@ == self@[listing(
                self@.dom(),
            )[i]] && sorted@[i]@.id == listing(self@.dom())[i] by {
                assert(ids[i] == sorted@[i]@.id);
                assert(self@.contains_key(sorted@[i]@.id));
            }
        }
        sorted
    }
}

} // verus!
