//! Depth-first traversal along the outgoing arrows.

use crate::graph::Graph;
use crate::model::{arrows_inside, has_arrow, is_least, least, lemma_least, successors, GraphView};
use crate::node::{Arrow, Node, NodeId};
use crate::reach::{descendants, lemma_closed_holds_descendants, lemma_reaches_itself, lemma_reaches_then_arrow, reaches};
use crate::sets::NodeSet;
use vstd::prelude::*;
use vstd::seq_lib::seq_to_set_is_finite;
use vstd::set_lib::lemma_subset_equality;

verus! {

broadcast use vstd::std_specs::hash::group_hash_axioms;

/// The destinations of `arrows`, that of the last arrow first.
pub open spec fn targets_reversed(arrows: Seq<Arrow>) -> Seq<NodeId> {
    Seq::new(arrows.len(), |j: int| arrows[arrows.len() - 1 - j].to)
}

/// The order in which a depth-first traversal visits nodes, given the
/// nodes it still has to look at (`stack`, the next one last) and those it
/// has visited (`order`). The next node is dropped if it has been visited;
/// else it is visited, and the destinations of its outgoing arrows are to
/// be looked at before the rest, in the order of the arrows. The traversal
/// ends when nothing is left to look at or every node has been visited.
pub open spec fn dfs<T>(m: GraphView<T>, stack: Seq<NodeId>, order: Seq<NodeId>) -> Seq<NodeId>
    decreases m.dom().len() - order.len(), stack.len(),
{
    if stack.len() == 0 || order.len() >= m.dom().len() {
        order
    } else {
        let top = stack.last();
        let rest = stack.drop_last();
        if order.contains(top) || !m.contains_key(top) {
            dfs(m, rest, order)
        } else {
            dfs(m, rest + targets_reversed(m[top].outgoing), order.push(top))
        }
    }
}

/// The nodes in the order in which the depth-first traversal from the node
/// of smallest identifier visits them: each node before those that its
/// outgoing arrows lead to, and each node once.
pub open spec fn walk_of<T>(m: GraphView<T>) -> Seq<NodeId> {
    dfs(m, seq![least(m.dom())], Seq::empty())
}

impl<T> Graph<T> {
    /// The identifiers of the nodes that `walk` visits, in the order of the visits.
    pub fn walk_order(&self) -> (order: Vec<NodeId>)
        ensures
            order@ == walk_of(self@),
            order@.no_duplicates(),
            forall|i: int| 0 <= i < order@.len() ==> self@.contains_key(#[trigger] order@[i]),
            arrows_inside(self@) && self@.dom().len() > 0 ==> order@.to_set() == descendants(
                self@,
                least(self@.dom()),
            ),
    {
        let nodes = self.iter();
        let total = nodes.len();
        let mut order: Vec<NodeId> = Vec::new();
        if total == 0 {
            return order;
        }
        let start = nodes[0].id();
        let ghost m = self@;
        proof {
            assert(is_least(m.dom(), start)) by {
                assert(m.contains_key(nodes@[0]@.id));
                assert forall|other: NodeId| m.dom().contains(other) implies start <= other by {
                    let j = choose|j: int| 0 <= j < nodes@.len() && nodes@[j]@.id == other;
                    if j > 0 {
                        assert(nodes@[0]@.id < nodes@[j]@.id);
                    }
                }
            }
            lemma_least(m.dom(), start);
            lemma_reaches_itself(m, start);
        }
        let mut stack: Vec<NodeId> = Vec::new();
        stack.push(start);
        let mut visited = NodeSet::new();
        assert(stack@ == seq![start]);
        assert(visited@ =~= order@.to_set());
        while stack.len() > 0 && order.len() < total
            invariant
                m == self@,
                m.dom().finite(),
                total == m.dom().len(),
                m.contains_key(start),
                dfs(m, stack@, order@) == walk_of(m),
                visited@ == order@.to_set(),
                order@.no_duplicates(),
                order@.len() <= total,
                forall|i: int| 0 <= i < order@.len() ==> m.contains_key(#[trigger] order@[i]),
                forall|i: int| 0 <= i < order@.len() ==> reaches(m, start, #[trigger] order@[i]),
                forall|i: int| 0 <= i < stack@.len() ==> reaches(m, start, #[trigger] stack@[i]),
                order@.contains(start) || stack@.contains(start),
                arrows_inside(m) ==> forall|i: int, to: NodeId|
                    #![trigger has_arrow(m, order@[i], to)]
                    0 <= i < order@.len() && has_arrow(m, order@[i], to) ==> order@.contains(to)
                        || stack@.contains(to),
            decreases total - order.len(), stack.len(),
        {
            let ghost old_stack = stack@;
            let ghost old_order = order@;
            let top = stack.pop().unwrap();
            assert(stack@ == old_stack.drop_last());
            assert(top == old_stack.last());
            if visited.contains(&top) || !self.contains(top) {
                proof {
                    assert(old_order.contains(top) || !m.contains_key(top));
                    if arrows_inside(m) {
                        assert forall|i: int, to: NodeId|
                            #![trigger has_arrow(m, order@[i], to)]
                            0 <= i < order@.len() && has_arrow(m, order@[i], to) implies order@.contains(to)
                            || stack@.contains(to) by {
                            if !order@.contains(to) {
                                assert(old_stack.contains(to));
                                let p = choose|p: int| 0 <= p < old_stack.len() && old_stack[p] == to;
                                if p == old_stack.len() - 1 {
                                    let n = choose|n: int|
                                        0 <= n < m[order@[i]].outgoing.len() && (#[trigger] m[order@[i]].outgoing[n]).to
                                            == to;
                                    assert(m.contains_key(m[order@[i]].outgoing[n].to));
                                } else {
                                    assert(stack@[p] == to);
                                }
                            }
                        }
                    }
                    if !order@.contains(start) {
                        let p = choose|p: int| 0 <= p < old_stack.len() && old_stack[p] == start;
                        assert(p < old_stack.len() - 1);
                        assert(stack@[p] == start);
                    }
                }
            } else {
                visited.insert(top);
                order.push(top);
                let arrows = self.node(top).outgoing();
                let ghost rest = stack@;
                let mut k: usize = arrows.len();
                assert(stack@ == rest + Seq::new(0nat, |j: int| arrows@[arrows@.len() - 1 - j].to));
                while k > 0
                    invariant
                        k <= arrows.len(),
                        stack@ == rest + Seq::new(
                            (arrows@.len() - k) as nat,
                            |j: int| arrows@[arrows@.len() - 1 - j].to,
                        ),
                    decreases k,
                {
                    k -= 1;
                    stack.push(arrows[k].to);
                    assert(stack@ == rest + Seq::new(
                        (arrows@.len() - k) as nat,
                        |j: int| arrows@[arrows@.len() - 1 - j].to,
                    ));
                }
                proof {
                    let next = targets_reversed(m[top].outgoing);
                    assert(stack@ == rest + next);
                    assert(!old_order.contains(top));
                    assert(order@ == old_order.push(top));
                    assert forall|x: NodeId| order@.contains(x) <==> old_order.contains(x) || x == top by {
                        if old_order.contains(x) {
                            let p = choose|p: int| 0 <= p < old_order.len() && old_order[p] == x;
                            assert(order@[p] == x);
                        }
                        if x == top {
                            assert(order@[old_order.len() as int] == x);
                        }
                    }
                    assert(visited@ =~= order@.to_set());
                    assert forall|i: int| 0 <= i < stack@.len() implies reaches(m, start, #[trigger] stack@[i]) by {
                        if i < rest.len() {
                            assert(stack@[i] == old_stack[i]);
                        } else {
                            let n = arrows@.len() - 1 - (i - rest.len());
                            assert(stack@[i] == m[top].outgoing[n].to);
                            assert(has_arrow(m, top, stack@[i]));
                            lemma_reaches_then_arrow(m, start, top, stack@[i]);
                        }
                    }
                    if arrows_inside(m) {
                        assert forall|i: int, to: NodeId|
                            #![trigger has_arrow(m, order@[i], to)]
                            0 <= i < order@.len() && has_arrow(m, order@[i], to) implies order@.contains(to)
                            || stack@.contains(to) by {
                            if i < old_order.len() {
                                assert(order@[i] == old_order[i]);
                                assert(has_arrow(m, old_order[i], to));
                                if !old_order.contains(to) {
                                    let p = choose|p: int| 0 <= p < old_stack.len() && old_stack[p] == to;
                                    if p < rest.len() {
                                        assert(stack@[p] == to);
                                    }
                                }
                            } else {
                                let n = choose|n: int|
                                    0 <= n < m[top].outgoing.len() && (#[trigger] m[top].outgoing[n]).to == to;
                                let p = rest.len() + (arrows@.len() - 1 - n);
                                assert(stack@[p] == to);
                            }
                        }
                    }
                    if !order@.contains(start) {
                        let p = choose|p: int| 0 <= p < old_stack.len() && old_stack[p] == start;
                        assert(stack@[p] == start);
                    }
                }
            }
        }
        proof {
            assert(dfs(m, stack@, order@) == order@);
            if arrows_inside(m) {
                let seen = order@.to_set();
                seq_to_set_is_finite(order@);
                assert(seen.subset_of(m.dom())) by {
                    assert forall|x: NodeId| seen.contains(x) implies m.dom().contains(x) by {
                        let p = choose|p: int| 0 <= p < order@.len() && order@[p] == x;
                        assert(m.contains_key(order@[p]));
                    }
                }
                assert(seen.subset_of(descendants(m, start))) by {
                    assert forall|x: NodeId| seen.contains(x) implies descendants(m, start).contains(x) by {
                        let p = choose|p: int| 0 <= p < order@.len() && order@[p] == x;
                        assert(reaches(m, start, order@[p]));
                    }
                }
                assert(successors(m, m.dom()).subset_of(m.dom())) by {
                    assert forall|to: NodeId| successors(m, m.dom()).contains(to) implies m.dom().contains(to) by {
                        let from = choose|from: NodeId| m.dom().contains(from) && has_arrow(m, from, to);
                        let n = choose|n: int|
                            0 <= n < m[from].outgoing.len() && (#[trigger] m[from].outgoing[n]).to == to;
                        assert(m.contains_key(m[from].outgoing[n].to));
                    }
                }
                lemma_closed_holds_descendants(m, m.dom(), start);
                if stack@.len() == 0 {
                    assert(successors(m, seen).subset_of(seen)) by {
                        assert forall|to: NodeId| successors(m, seen).contains(to) implies seen.contains(to) by {
                            let from = choose|from: NodeId| seen.contains(from) && has_arrow(m, from, to);
                            let p = choose|p: int| 0 <= p < order@.len() && order@[p] == from;
                            assert(has_arrow(m, order@[p], to));
                        }
                    }
                    lemma_closed_holds_descendants(m, seen, start);
                } else {
                    order@.unique_seq_to_set();
                    lemma_subset_equality(seen, m.dom());
                }
                assert(seen =~= descendants(m, start));
            }
        }
        order
    }

    /// Visits the nodes that the node of smallest identifier reaches, each
    /// once and before the nodes that its outgoing arrows lead to, and
    /// hands each to `visitor`. An empty graph has nothing to visit.
    pub fn walk<F: FnMut(&Node<T>)>(&self, mut visitor: F)
        requires
            forall|node: &Node<T>| call_requires(visitor, (node,)),
    {
        let order = self.walk_order();
        let mut i: usize = 0;
        while i < order.len()
            invariant
                forall|j: int| 0 <= j < order@.len() ==> self@.contains_key(#[trigger] order@[j]),
                forall|node: &Node<T>| call_requires(visitor, (node,)),
            decreases order.len() - i,
        {
            visitor(self.node(order[i]));
            i += 1;
        }
    }
}

} // verus!
