//! One step along the arrows, and the closures that repeated steps build.

use crate::graph::Graph;
use crate::model::{far_end, followed, leads, lemma_leads, neighbors, predecessors, successors, well_formed};
use crate::node::NodeId;
use crate::reach::{
    ancestors, closure_of, descendants, lemma_closed_holds_closure, lemma_reached_step, lemma_reaches_itself,
    reached,
};
use crate::sets::{add_all, difference, NodeSet};
use vstd::prelude::*;
use vstd::set_lib::lemma_len_subset;
use vstd::std_specs::iter::IteratorSpec;

verus! {

broadcast use vstd::std_specs::hash::group_hash_axioms;

impl<T> Graph<T> {
    /// The nodes that one step reaches from some node of `nodeset`: forward
    /// along the outgoing arrows, or backward along the incoming arrows.
    fn step(&self, nodeset: &NodeSet, forward: bool) -> (reached: NodeSet)
        requires
            nodeset@.subset_of(self@.dom()),
        ensures
            reached@ == neighbors(self@, nodeset@, forward),
    {
        let mut reached = NodeSet::new();
        let ghost items = nodeset.iter().remaining().unref();
        for id in it: nodeset.iter()
            invariant
                it.seq().unref() == items,
                items.to_set() == nodeset@,
                nodeset@.subset_of(self@.dom()),
                forall|x: NodeId|
                    #![trigger reached@.contains(x)]
                    reached@.contains(x) <==> exists|j: int|
                        0 <= j < it.index() && leads(self@, #[trigger] items[j], x, forward),
        {
            assert(items.contains(*id));
            let node = self.node(*id);
            let arrows = if forward {
                node.outgoing()
            } else {
                node.incoming()
            };
            let ghost before = reached@;
            let mut k: usize = 0;
            while k < arrows.len()
                invariant
                    k <= arrows.len(),
                    arrows@ == followed(self@[*id], forward),
                    forall|x: NodeId|
                        #![trigger reached@.contains(x)]
                        reached@.contains(x) <==> before.contains(x) || exists|n: int|
                            0 <= n < k && far_end(#[trigger] arrows@[n], forward) == x,
                decreases arrows.len() - k,
            {
                let ghost earlier = reached@;
                let end = if forward {
                    arrows[k].to
                } else {
                    arrows[k].from
                };
                reached.insert(end);
                proof {
                    assert forall|x: NodeId|
                        #![trigger reached@.contains(x)]
                        reached@.contains(x) <==> before.contains(x) || exists|n: int|
                            0 <= n < k + 1 && far_end(#[trigger] arrows@[n], forward) == x by {
                        if earlier.contains(x) && !before.contains(x) {
                            let n = choose|n: int| 0 <= n < k && far_end(#[trigger] arrows@[n], forward) == x;
                            assert(far_end(arrows@[n], forward) == x);
                        }
                        if x == end {
                            assert(far_end(arrows@[k as int], forward) == x);
                        }
                        if exists|n: int| 0 <= n < k + 1 && far_end(#[trigger] arrows@[n], forward) == x {
                            let n = choose|n: int| 0 <= n < k + 1 && far_end(#[trigger] arrows@[n], forward) == x;
                            if n < k {
                                assert(earlier.contains(x));
                            }
                        }
                    }
                }
                k += 1;
            }
            proof {
                let idx = it.index();
                assert(items[idx] == *id);
                assert forall|x: NodeId|
                    #![trigger reached@.contains(x)]
                    reached@.contains(x) <==> exists|j: int|
                        0 <= j < idx + 1 && leads(self@, #[trigger] items[j], x, forward) by {
                    lemma_leads(self@, *id, x, forward);
                    if before.contains(x) {
                        let j = choose|j: int| 0 <= j < idx && leads(self@, #[trigger] items[j], x, forward);
                        assert(leads(self@, items[j], x, forward));
                    }
                    if exists|n: int| 0 <= n < arrows@.len() && far_end(#[trigger] arrows@[n], forward) == x {
                        assert(leads(self@, items[idx], x, forward));
                    }
                    if exists|j: int| 0 <= j < idx + 1 && leads(self@, #[trigger] items[j], x, forward) {
                        let j = choose|j: int| 0 <= j < idx + 1 && leads(self@, #[trigger] items[j], x, forward);
                        if j == idx {
                            let n = choose|n: int|
                                0 <= n < arrows@.len() && far_end(#[trigger] arrows@[n], forward) == x;
                            assert(far_end(arrows@[n], forward) == x);
                        } else {
                            assert(before.contains(x));
                        }
                    }
                }
            }
        }
        proof {
            assert forall|x: NodeId| reached@.contains(x) <==> neighbors(self@, nodeset@, forward).contains(x) by {
                if reached@.contains(x) {
                    let j = choose|j: int| 0 <= j < items.len() && leads(self@, #[trigger] items[j], x, forward);
                    assert(items.contains(items[j]));
                    assert(nodeset@.contains(items[j]) && leads(self@, items[j], x, forward));
                }
                if neighbors(self@, nodeset@, forward).contains(x) {
                    let at = choose|at: NodeId| nodeset@.contains(at) && leads(self@, at, x, forward);
                    assert(items.contains(at));
                    let j = choose|j: int| 0 <= j < items.len() && items[j] == at;
                    assert(leads(self@, items[j], x, forward));
                }
            }
            assert(reached@ =~= neighbors(self@, nodeset@, forward));
        }
        reached
    }

    /// The nodes that one outgoing arrow reaches from some node of `nodeset`.
    pub fn nplus(&self, nodeset: &NodeSet) -> (reached: NodeSet)
        requires
            nodeset@.subset_of(self@.dom()),
        ensures
            reached@ == successors(self@, nodeset@),
    {
        self.step(nodeset, true)
    }

    /// The nodes that the incoming arrows of the nodes of `nodeset` come from.
    pub fn nminus(&self, nodeset: &NodeSet) -> (reached: NodeSet)
        requires
            nodeset@.subset_of(self@.dom()),
        ensures
            reached@ == predecessors(self@, nodeset@),
    {
        self.step(nodeset, false)
    }

    /// Everything that is reached from `seed` in a direction: one step after
    /// another, until a step reaches nothing new.
    fn closure(&self, seed: NodeId, forward: bool) -> (closure: NodeSet)
        requires
            well_formed(self@),
            self@.contains_key(seed),
        ensures
            closure@ == closure_of(self@, seed, forward),
            closure@.subset_of(self@.dom()),
    {
        let mut closure = NodeSet::new();
        closure.insert(seed);
        proof {
            lemma_reaches_itself(self@, seed);
        }
        loop
            invariant
                well_formed(self@),
                closure@.contains(seed),
                closure@.subset_of(self@.dom()),
                closure@.subset_of(closure_of(self@, seed, forward)),
            ensures
                neighbors(self@, closure@, forward).subset_of(closure@),
            decreases self@.dom().len() - closure@.len(),
        {
            let found = if forward {
                self.nplus(&closure)
            } else {
                self.nminus(&closure)
            };
            let fresh = difference(&found, &closure);
            if fresh.is_empty() {
                assert forall|id: NodeId| neighbors(self@, closure@, forward).contains(id) implies closure@.contains(
                    id,
                ) by {
                    if !closure@.contains(id) {
                        assert(fresh@.contains(id));
                    }
                }
                break;
            }
            let ghost before = closure@;
            add_all(&mut closure, &fresh);
            proof {
                assert forall|id: NodeId| fresh@.contains(id) implies self@.contains_key(id) && reached(
                    self@,
                    seed,
                    id,
                    forward,
                ) by {
                    assert(neighbors(self@, before, forward).contains(id));
                    let from = choose|from: NodeId| before.contains(from) && leads(self@, from, id, forward);
                    assert(closure_of(self@, seed, forward).contains(from));
                    lemma_reached_step(self@, seed, from, id, forward);
                }
                let witness = choose|id: NodeId| fresh@.contains(id);
                assert(fresh@.contains(witness)) by {
                    if forall|id: NodeId| !fresh@.contains(id) {
                        assert(fresh@ =~= Set::empty());
                    }
                }
                lemma_len_subset(before, self@.dom());
                lemma_len_subset(closure@, self@.dom());
                lemma_len_subset(before.insert(witness), closure@);
            }
        }
        proof {
            lemma_closed_holds_closure(self@, closure@, seed, forward);
            assert(closure@ =~= closure_of(self@, seed, forward));
        }
        closure
    }

    /// Everything that `seed` reaches: `nplus` applied until nothing new comes.
    pub fn forward_closure(&self, seed: NodeId) -> (closure: NodeSet)
        requires
            well_formed(self@),
            self@.contains_key(seed),
        ensures
            closure@ == descendants(self@, seed),
            closure@.subset_of(self@.dom()),
    {
        self.closure(seed, true)
    }

    /// Everything that reaches `seed`: `nminus` applied until nothing new comes.
    pub fn backward_closure(&self, seed: NodeId) -> (closure: NodeSet)
        requires
            well_formed(self@),
            self@.contains_key(seed),
        ensures
            closure@ == ancestors(self@, seed),
            closure@.subset_of(self@.dom()),
    {
        self.closure(seed, false)
    }
}

} // verus!
