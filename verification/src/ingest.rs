//! Building a graph from values: several nodes at once, and pairs of labels.

use crate::graph::Graph;
use crate::model::{fresh_node, linked, GraphView};
use crate::node::NodeId;
use crate::search::{holds, is_first_holder};
use vstd::array::array_fill_for_copy_types;
use vstd::prelude::*;
use vstd::std_specs::cmp::PartialEqSpec;

verus! {

/// `m` with one new node for each of `values`, in their order, under the
/// identifiers from `next` on.
pub open spec fn with_nodes<T>(m: GraphView<T>, next: NodeId, values: Seq<T>) -> GraphView<T>
    decreases values.len(),
{
    if values.len() == 0 {
        m
    } else {
        let id = (next + values.len() - 1) as NodeId;
        with_nodes(m, next, values.drop_last()).insert(id, fresh_node(id, values.last()))
    }
}

/// A graph during its construction: its nodes, and the next identifier.
pub struct Built<T> {
    pub nodes: GraphView<T>,
    pub next: NodeId,
}

/// The smallest identifier of a node that holds a value equal to `value`,
/// where there is one.
pub open spec fn first_holder<T: PartialEq>(m: GraphView<T>, value: T) -> Option<NodeId> {
    if exists|id: NodeId| holds(m, id, value) {
        Some(choose|id: NodeId| is_first_holder(m, id, value))
    } else {
        None
    }
}

/// The node that stands for `value` once it has been found or added.
pub open spec fn resolved<T: PartialEq>(built: Built<T>, value: T) -> NodeId {
    match first_holder(built.nodes, value) {
        Some(id) => id,
        None => built.next,
    }
}

/// The graph once `value` has been found or added.
pub open spec fn with_value<T: PartialEq>(built: Built<T>, value: T) -> Built<T> {
    match first_holder(built.nodes, value) {
        Some(id) => built,
        None => Built {
            nodes: built.nodes.insert(built.next, fresh_node(built.next, value)),
            next: (built.next + 1) as NodeId,
        },
    }
}

/// The graph once the two labels of a pair have been found or added, the
/// first label first, and an arrow leads from the node of the first to
/// that of the second.
pub open spec fn with_pair<T: PartialEq>(built: Built<T>, from: T, to: T) -> Built<T> {
    let first = with_value(built, from);
    let second = with_value(first, to);
    Built { nodes: linked(second.nodes, resolved(built, from), resolved(first, to)), next: second.next }
}

/// The graph that the pairs build, taken in their order from the empty graph.
pub open spec fn ingested<T: PartialEq>(pairs: Seq<(T, T)>) -> Built<T>
    decreases pairs.len(),
{
    if pairs.len() == 0 {
        Built { nodes: Map::empty(), next: 0 }
    } else {
        with_pair(ingested(pairs.drop_last()), pairs.last().0, pairs.last().1)
    }
}

/// The first holder of a value is the identifier that `is_first_holder` holds of.
pub proof fn lemma_first_holder<T: PartialEq>(m: GraphView<T>, value: T, id: NodeId)
    requires
        is_first_holder(m, id, value),
    ensures
        first_holder(m, value) == Some(id),
{
    let chosen = choose|id: NodeId| is_first_holder(m, id, value);
    assert(is_first_holder(m, chosen, value));
}

/// `Vec::from` on an array: the items of the array, in their order.
#[verifier::external_body]
fn into_vec<T, const N: usize>(values: [T; N]) -> (items: Vec<T>)
    ensures
        items@ == values@,
{
    Vec::from(values)
}

impl<T> Graph<T> {
    /// Adds one node for each of `values`, in their order, and returns the
    /// identifiers in that order.
    pub fn new_nodes<const N: usize>(&mut self, values: [T; N]) -> (ids: [NodeId; N])
        requires
            old(self).next_id() + N <= u64::MAX,
        ensures
            final(self)@ == with_nodes(old(self)@, old(self).next_id(), values@),
            final(self).next_id() == old(self).next_id() + N,
            forall|i: int| 0 <= i < N ==> ids@[i] == old(self).next_id() + i,
            old(self).wf() ==> final(self).wf(),
    {
        let mut ids: [NodeId; N] = array_fill_for_copy_types(0);
        let items = into_vec(values);
        let ghost first = self.next_id();
        let ghost all = items@;
        let mut count: usize = 0;
        for value in it: items
            invariant
                it.seq() == all,
                all.len() == N,
                count == it.index(),
                first + N <= u64::MAX,
                first == old(self).next_id(),
                self.next_id() == first + count,
                self@ == with_nodes(old(self)@, first, all.take(count as int)),
                forall|i: int| 0 <= i < count ==> ids@[i] == first + i,
                old(self).wf() ==> self.wf(),
        {
            proof {
                assert(all.take(count + 1).drop_last() == all.take(count as int));
                assert(all.take(count + 1).last() == value);
            }
            let id = self.new_node(value);
            ids[count] = id;
            count += 1;
        }
        proof {
            assert(all.take(count as int) == all);
        }
        ids
    }
}

/// The graph that pairs of labels describe: each label stands for one
/// node, found or added as the labels come, and each pair for one arrow
/// from the node of its first label to the node of its second.
pub fn read_graph<T: Eq>(pairs: Vec<(T, T)>) -> (graph: Graph<T>)
    requires
        2 * pairs@.len() <= u64::MAX,
    ensures
        graph.wf(),
        T::obeys_eq_spec() ==> ingested(pairs@) == (Built { nodes: graph@, next: graph.next_id() }),
{
    let mut graph = Graph::new();
    let ghost all = pairs@;
    for pair in it: pairs
        invariant
            it.seq() == all,
            2 * all.len() <= u64::MAX,
            graph.wf(),
            graph.next_id() <= 2 * it.index(),
            T::obeys_eq_spec() ==> ingested(all.take(it.index())) == (Built {
                nodes: graph@,
                next: graph.next_id(),
            }),
    {
        let ghost done = it.index();
        let ghost before = Built { nodes: graph@, next: graph.next_id() };
        let (from_label, to_label) = pair;
        let from = graph.new_node_or_get(from_label);
        let ghost first = Built { nodes: graph@, next: graph.next_id() };
        let to = graph.new_node_or_get(to_label);
        graph.link(from, to);
        proof {
            assert(all.take(done + 1).drop_last() == all.take(done));
            assert(all.take(done + 1).last() == (from_label, to_label));
            if T::obeys_eq_spec() {
                if exists|id: NodeId| holds(before.nodes, id, from_label) {
                    lemma_first_holder(before.nodes, from_label, from);
                }
                assert(first == with_value(before, from_label));
                assert(from == resolved(before, from_label));
                if exists|id: NodeId| holds(first.nodes, id, to_label) {
                    lemma_first_holder(first.nodes, to_label, to);
                }
                assert(to == resolved(first, to_label));
            }
        }
    }
    proof {
        assert(all.take(all.len() as int) == all);
    }
    graph
}

} // verus!
