//! Telling at run time whether a graph is well formed.

use crate::graph::Graph;
use crate::model::{followed, incoming_mirrored, mirrored, outgoing_mirrored, well_formed};
use crate::node::{Arrow, NodeId};
use crate::render::arrows_joined;
use vstd::prelude::*;

verus! {

/// Whether `arrow` is among `arrows`.
fn records(arrows: &[Arrow], arrow: Arrow) -> (found: bool)
    ensures
        found == arrows@.contains(arrow),
{
    let mut i: usize = 0;
    while i < arrows.len()
        invariant
            i <= arrows.len(),
            forall|j: int| 0 <= j < i ==> arrows@[j] != arrow,
        decreases arrows.len() - i,
    {
        if arrows[i].from == arrow.from && arrows[i].to == arrow.to {
            assert(arrows@[i as int] == arrow);
            return true;
        }
        i += 1;
    }
    false
}

impl<T> Graph<T> {
    /// Whether every arrow of one list of the node `id` is in order: of the
    /// outgoing list forward, of the incoming list backward.
    fn list_in_order(&self, id: NodeId, forward: bool) -> (ok: bool)
        requires
            self@.contains_key(id),
        ensures
            ok <==> forall|i: int|
                0 <= i < followed(self@[id], forward).len() ==> mirrored(
                    self@,
                    id,
                    #[trigger] followed(self@[id], forward)[i],
                    forward,
                ),
    {
        let node = self.node(id);
        let arrows = if forward {
            node.outgoing()
        } else {
            node.incoming()
        };
        let mut i: usize = 0;
        while i < arrows.len()
            invariant
                i <= arrows.len(),
                self@.contains_key(id),
                arrows@ == followed(self@[id], forward),
                forall|j: int| 0 <= j < i ==> mirrored(self@, id, #[trigger] arrows@[j], forward),
            decreases arrows.len() - i,
        {
            let arrow = arrows[i];
            let (near, far) = if forward {
                (arrow.from, arrow.to)
            } else {
                (arrow.to, arrow.from)
            };
            if near != id || !self.contains(far) {
                assert(!mirrored(self@, id, arrows@[i as int], forward));
                return false;
            }
            let other = self.node(far);
            let back = if forward {
                other.incoming()
            } else {
                other.outgoing()
            };
            if !records(back, arrow) {
                assert(!mirrored(self@, id, arrows@[i as int], forward));
                return false;
            }
            i += 1;
        }
        true
    }

    /// Whether the graph is well formed: every arrow joins two of its
    /// nodes and is recorded on both.
    pub fn is_well_formed(&self) -> (ok: bool)
        ensures
            ok == well_formed(self@),
    {
        let nodes = self.iter();
        let mut n: usize = 0;
        while n < nodes.len()
            invariant
                n <= nodes.len(),
                self@.dom().finite(),
                forall|j: int| 0 <= j < nodes@.len() ==> self@.contains_key(#[trigger] nodes@[j]@.id)
                    && self@[nodes@[j]@.id] == nodes@[j]@,
                forall|id: NodeId|
                    self@.contains_key(id) ==> exists|j: int| 0 <= j < nodes@.len() && nodes@[j]@.id == id,
                forall|j: int, i: int, forward: bool|
                    0 <= j < n && 0 <= i < followed(nodes@[j]@, forward).len() ==> mirrored(
                        self@,
                        nodes@[j]@.id,
                        #[trigger] followed(nodes@[j]@, forward)[i],
                        forward,
                    ),
            decreases nodes.len() - n,
        {
            let id = nodes[n].id();
            assert(self@.contains_key(nodes@[n as int]@.id));
            if !self.list_in_order(id, true) {
                proof {
                    let i = choose|i: int|
                        0 <= i < self@[id].outgoing.len() && !mirrored(
                            self@,
                            id,
                            #[trigger] followed(self@[id], true)[i],
                            true,
                        );
                    assert(self@[id].outgoing[i] == followed(self@[id], true)[i]);
                }
                return false;
            }
            if !self.list_in_order(id, false) {
                proof {
                    let i = choose|i: int|
                        0 <= i < self@[id].incoming.len() && !mirrored(
                            self@,
                            id,
                            #[trigger] followed(self@[id], false)[i],
                            false,
                        );
                    assert(self@[id].incoming[i] == followed(self@[id], false)[i]);
                }
                return false;
            }
            n += 1;
        }
        proof {
            assert forall|id: NodeId| self@.contains_key(id) implies (#[trigger] self@[id]).id == id by {
                let j = choose|j: int| 0 <= j < nodes@.len() && nodes@[j]@.id == id;
                assert(self@[nodes@[j]@.id] == nodes@[j]@);
            }
            assert(outgoing_mirrored(self@)) by {
                assert forall|id: NodeId, i: int|
                    self@.contains_key(id) && 0 <= i < self@[id].outgoing.len() implies ({
                    let arrow = #[trigger] self@[id].outgoing[i];
                    &&& arrow.from == id
                    &&& self@.contains_key(arrow.to)
                    &&& self@[arrow.to].incoming.contains(arrow)
                }) by {
                    let j = choose|j: int| 0 <= j < nodes@.len() && nodes@[j]@.id == id;
                    assert(self@[nodes@[j]@.id] == nodes@[j]@);
                    assert(mirrored(self@, id, followed(nodes@[j]@, true)[i], true));
                }
            }
            assert(incoming_mirrored(self@)) by {
                assert forall|id: NodeId, i: int|
                    self@.contains_key(id) && 0 <= i < self@[id].incoming.len() implies ({
                    let arrow = #[trigger] self@[id].incoming[i];
                    &&& arrow.to == id
                    &&& self@.contains_key(arrow.from)
                    &&& self@[arrow.from].outgoing.contains(arrow)
                }) by {
                    let j = choose|j: int| 0 <= j < nodes@.len() && nodes@[j]@.id == id;
                    assert(self@[nodes@[j]@.id] == nodes@[j]@);
                    assert(mirrored(self@, id, followed(nodes@[j]@, false)[i], false));
                }
            }
        }
        true
    }

    /// Whether every outgoing arrow of every node joins two nodes of the graph.
    pub fn has_joined_arrows(&self) -> (ok: bool)
        ensures
            ok == arrows_joined(self@),
    {
        let nodes = self.iter();
        let mut n: usize = 0;
        while n < nodes.len()
            invariant
                n <= nodes.len(),
                forall|j: int| 0 <= j < nodes@.len() ==> self@.contains_key(#[trigger] nodes@[j]@.id)
                    && self@[nodes@[j]@.id] == nodes@[j]@,
                forall|id: NodeId|
                    self@.contains_key(id) ==> exists|j: int| 0 <= j < nodes@.len() && nodes@[j]@.id == id,
                forall|j: int, i: int|
                    0 <= j < n && 0 <= i < nodes@[j]@.outgoing.len() ==> self@.contains_key(
                        (#[trigger] nodes@[j]@.outgoing[i]).from,
                    ) && self@.contains_key(nodes@[j]@.outgoing[i].to),
            decreases nodes.len() - n,
        {
            let arrows = nodes[n].outgoing();
            let mut i: usize = 0;
            while i < arrows.len()
                invariant
                    i <= arrows.len(),
                    n < nodes.len(),
                    arrows@ == nodes@[n as int]@.outgoing,
                    forall|j: int| 0 <= j < nodes@.len() ==> self@.contains_key(#[trigger] nodes@[j]@.id)
                        && self@[nodes@[j]@.id] == nodes@[j]@,
                    forall|k: int|
                        0 <= k < i ==> self@.contains_key((#[trigger] arrows@[k]).from) && self@.contains_key(
                            arrows@[k].to,
                        ),
                decreases arrows.len() - i,
            {
                if !self.contains(arrows[i].from) || !self.contains(arrows[i].to) {
                    proof {
                        let id = nodes@[n as int]@.id;
                        assert(self@.contains_key(id));
                        assert(self@[id].outgoing[i as int] == arrows@[i as int]);
                    }
                    return false;
                }
                i += 1;
            }
            n += 1;
        }
        proof {
            assert forall|id: NodeId, i: int|
                self@.contains_key(id) && 0 <= i < self@[id].outgoing.len() implies self@.contains_key(
                (#[trigger] self@[id].outgoing[i]).from,
            ) && self@.contains_key(self@[id].outgoing[i].to) by {
                let j = choose|j: int| 0 <= j < nodes@.len() && nodes@[j]@.id == id;
                assert(self@[nodes@[j]@.id] == nodes@[j]@);
                assert(self@.contains_key(nodes@[j]@.outgoing[i].from));
            }
        }
        true
    }
}

} // verus!
