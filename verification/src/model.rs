//! The mathematical model of a graph, and what it means for one to be well formed.

use crate::node::{Arrow, NodeId, NodeView};
use vstd::prelude::*;

verus! {

/// A graph as a map from identifiers to what the nodes hold.
pub type GraphView<T> = Map<NodeId, NodeView<T>>;

/// A node that has a value and no arrows yet.
pub open spec fn fresh_node<T>(id: NodeId, value: T) -> NodeView<T> {
    NodeView { id, value, outgoing: Seq::empty(), incoming: Seq::empty() }
}

/// `m` holds an arrow that leaves `from` for `to`: one is in `from`'s outgoing list.
pub open spec fn has_arrow<T>(m: GraphView<T>, from: NodeId, to: NodeId) -> bool {
    m.contains_key(from) && exists|i: int|
        0 <= i < m[from].outgoing.len() && (#[trigger] m[from].outgoing[i]).to == to
}

/// `to` records that an arrow reaches it from `from`: one is in `to`'s incoming list.
pub open spec fn has_incoming<T>(m: GraphView<T>, to: NodeId, from: NodeId) -> bool {
    m.contains_key(to) && exists|i: int|
        0 <= i < m[to].incoming.len() && (#[trigger] m[to].incoming[i]).from == from
}

/// Every outgoing arrow of every node leaves that node for a node of `m`,
/// and is recorded in the incoming list of that node as well.
pub open spec fn outgoing_mirrored<T>(m: GraphView<T>) -> bool {
    forall|id: NodeId, i: int|
        m.contains_key(id) && 0 <= i < m[id].outgoing.len() ==> {
            let arrow = #[trigger] m[id].outgoing[i];
            &&& arrow.from == id
            &&& m.contains_key(arrow.to)
            &&& m[arrow.to].incoming.contains(arrow)
        }
}

/// Every incoming arrow of every node reaches that node from a node of `m`,
/// and is recorded in the outgoing list of that node as well.
pub open spec fn incoming_mirrored<T>(m: GraphView<T>) -> bool {
    forall|id: NodeId, i: int|
        m.contains_key(id) && 0 <= i < m[id].incoming.len() ==> {
            let arrow = #[trigger] m[id].incoming[i];
            &&& arrow.to == id
            &&& m.contains_key(arrow.from)
            &&& m[arrow.from].outgoing.contains(arrow)
        }
}

/// The invariant of a graph that was built node by node and link by link:
/// nodes sit under their own identifiers, every arrow joins two nodes of the
/// graph, and the outgoing and incoming lists record the same arrows.
pub open spec fn well_formed<T>(m: GraphView<T>) -> bool {
    &&& m.dom().finite()
    &&& forall|id: NodeId| m.contains_key(id) ==> (#[trigger] m[id]).id == id
    &&& outgoing_mirrored(m)
    &&& incoming_mirrored(m)
}

/// `m` with one more arrow from `from` to `to`, recorded on both endpoints.
pub open spec fn linked<T>(m: GraphView<T>, from: NodeId, to: NodeId) -> GraphView<T> {
    let arrow = Arrow { from, to };
    let left = m.insert(from, NodeView { outgoing: m[from].outgoing.push(arrow), ..m[from] });
    left.insert(to, NodeView { incoming: left[to].incoming.push(arrow), ..left[to] })
}

/// Every outgoing arrow of every node leads to a node of `m`.
pub open spec fn arrows_inside<T>(m: GraphView<T>) -> bool {
    forall|id: NodeId, i: int|
        m.contains_key(id) && 0 <= i < m[id].outgoing.len() ==> m.contains_key(
            (#[trigger] m[id].outgoing[i]).to,
        )
}

/// The nodes that one outgoing arrow reaches from some node of `set`.
pub open spec fn successors<T>(m: GraphView<T>, set: Set<NodeId>) -> Set<NodeId> {
    Set::new(|to: NodeId| exists|from: NodeId| set.contains(from) && has_arrow(m, from, to))
}

/// The nodes that the incoming arrows of the nodes of `set` come from.
pub open spec fn predecessors<T>(m: GraphView<T>, set: Set<NodeId>) -> Set<NodeId> {
    Set::new(|from: NodeId| exists|to: NodeId| set.contains(to) && has_incoming(m, to, from))
}

/// The list of a node that a direction follows: the outgoing arrows
/// forward, the incoming arrows backward.
pub open spec fn followed<T>(node: NodeView<T>, forward: bool) -> Seq<Arrow> {
    if forward {
        node.outgoing
    } else {
        node.incoming
    }
}

/// The end of an arrow that a direction leads to: its destination forward,
/// its source backward.
pub open spec fn far_end(arrow: Arrow, forward: bool) -> NodeId {
    if forward {
        arrow.to
    } else {
        arrow.from
    }
}

/// The end of an arrow that a direction starts from.
pub open spec fn near_end(arrow: Arrow, forward: bool) -> NodeId {
    far_end(arrow, !forward)
}

/// One arrow in the list that the direction follows leads from `at` to `other`.
pub open spec fn leads<T>(m: GraphView<T>, at: NodeId, other: NodeId, forward: bool) -> bool {
    if forward {
        has_arrow(m, at, other)
    } else {
        has_incoming(m, at, other)
    }
}

/// The nodes that one step in a direction reaches from some node of `set`.
pub open spec fn neighbors<T>(m: GraphView<T>, set: Set<NodeId>, forward: bool) -> Set<NodeId> {
    if forward {
        successors(m, set)
    } else {
        predecessors(m, set)
    }
}

/// An arrow of the list that the direction follows at `id` is in order: it
/// starts at `id`, leads to a node of `m`, and is in the other list of that node.
pub open spec fn mirrored<T>(m: GraphView<T>, id: NodeId, arrow: Arrow, forward: bool) -> bool {
    &&& near_end(arrow, forward) == id
    &&& m.contains_key(far_end(arrow, forward))
    &&& followed(m[far_end(arrow, forward)], !forward).contains(arrow)
}

/// An arrow leads from `at` to `other` where the list that the direction
/// follows at `at` holds an arrow with `other` at its far end.
pub proof fn lemma_leads<T>(m: GraphView<T>, at: NodeId, other: NodeId, forward: bool)
    ensures
        leads(m, at, other, forward) <==> m.contains_key(at) && exists|n: int|
            0 <= n < followed(m[at], forward).len() && far_end(#[trigger] followed(m[at], forward)[n], forward)
                == other,
{
    if leads(m, at, other, forward) {
        if forward {
            let n = choose|n: int| 0 <= n < m[at].outgoing.len() && (#[trigger] m[at].outgoing[n]).to == other;
            assert(far_end(followed(m[at], forward)[n], forward) == other);
        } else {
            let n = choose|n: int| 0 <= n < m[at].incoming.len() && (#[trigger] m[at].incoming[n]).from == other;
            assert(far_end(followed(m[at], forward)[n], forward) == other);
        }
    }
    if m.contains_key(at) && exists|n: int|
        0 <= n < followed(m[at], forward).len() && far_end(#[trigger] followed(m[at], forward)[n], forward)
            == other {
        let n = choose|n: int|
            0 <= n < followed(m[at], forward).len() && far_end(#[trigger] followed(m[at], forward)[n], forward)
                == other;
        if forward {
            assert(m[at].outgoing[n].to == other);
        } else {
            assert(m[at].incoming[n].from == other);
        }
    }
}

/// The test that keeps an arrow in a subgraph: its destination is in `set`.
pub open spec fn ends_in(set: Set<NodeId>) -> spec_fn(Arrow) -> bool {
    |arrow: Arrow| set.contains(arrow.to)
}

/// A node as it stands in the subgraph on `set`: both of its lists keep the
/// arrows whose destination is in `set`.
pub open spec fn pruned<T>(node: NodeView<T>, set: Set<NodeId>) -> NodeView<T> {
    NodeView {
        outgoing: node.outgoing.filter(ends_in(set)),
        incoming: node.incoming.filter(ends_in(set)),
        ..node
    }
}

/// The subgraph of `m` on `set`: the nodes of `set`, each pruned.
pub open spec fn induced<T>(m: GraphView<T>, set: Set<NodeId>) -> GraphView<T> {
    Map::new(|id: NodeId| set.contains(id), |id: NodeId| pruned(m[id], set))
}

/// `id` is the smallest identifier of `set`.
pub open spec fn is_least(set: Set<NodeId>, id: NodeId) -> bool {
    set.contains(id) && forall|other: NodeId| set.contains(other) ==> id <= other
}

/// The smallest identifier of a set that has one.
pub open spec fn least(set: Set<NodeId>) -> NodeId {
    choose|id: NodeId| is_least(set, id)
}

/// The smallest identifier of a set is the one that `is_least` holds of.
pub proof fn lemma_least(set: Set<NodeId>, id: NodeId)
    requires
        is_least(set, id),
    ensures
        least(set) == id,
{
    assert(is_least(set, least(set)));
}

/// The identifiers of `ids` grow from each to the next.
pub open spec fn ascending(ids: Seq<NodeId>) -> bool {
    forall|i: int, j: int| 0 <= i < j < ids.len() ==> ids[i] < ids[j]
}

/// `ids` holds the identifiers of `set`, each once, in ascending order.
pub open spec fn lists(ids: Seq<NodeId>, set: Set<NodeId>) -> bool {
    ascending(ids) && ids.to_set() == set
}

/// The identifiers of a finite set in ascending order.
pub open spec fn listing(set: Set<NodeId>) -> Seq<NodeId> {
    choose|ids: Seq<NodeId>| lists(ids, set)
}

/// Two ascending sequences that hold the same identifiers are the same.
pub proof fn lemma_ascending_unique(a: Seq<NodeId>, b: Seq<NodeId>)
    requires
        ascending(a),
        ascending(b),
        a.to_set() == b.to_set(),
    ensures
        a == b,
    decreases a.len(),
{
    if a.len() == 0 {
        if b.len() > 0 {
            assert(b.contains(b[0]));
            assert(b.to_set().contains(b[0]));
            assert(a.contains(b[0]));
        }
        assert(a =~= b);
    } else {
        assert(a.contains(a.last()));
        assert(a.to_set().contains(a.last()));
        assert(b.contains(a.last()));
        let j = choose|j: int| 0 <= j < b.len() && b[j] == a.last();
        assert(b.contains(b.last()));
        assert(b.to_set().contains(b.last()));
        assert(a.contains(b.last()));
        let i = choose|i: int| 0 <= i < a.len() && a[i] == b.last();
        assert(a[i] <= a.last());
        assert(b[j] <= b.last());
        assert(a.last() == b.last());
        let left = a.drop_last();
        let right = b.drop_last();
        assert forall|x: NodeId| left.to_set().contains(x) <==> right.to_set().contains(x) by {
            if left.contains(x) {
                let p = choose|p: int| 0 <= p < left.len() && left[p] == x;
                assert(a[p] < a.last());
                assert(a.contains(a[p]));
                assert(b.to_set().contains(x));
                let q = choose|q: int| 0 <= q < b.len() && b[q] == x;
                assert(right[q] == x);
            }
            if right.contains(x) {
                let q = choose|q: int| 0 <= q < right.len() && right[q] == x;
                assert(b[q] < b.last());
                assert(b.contains(b[q]));
                assert(a.to_set().contains(x));
                let p = choose|p: int| 0 <= p < a.len() && a[p] == x;
                assert(left[p] == x);
            }
        }
        assert(left.to_set() =~= right.to_set());
        lemma_ascending_unique(left, right);
        assert(a =~= left.push(a.last()));
        assert(b =~= right.push(b.last()));
    }
}

/// The listing of a set is the ascending sequence that holds its identifiers.
pub proof fn lemma_listing(ids: Seq<NodeId>, set: Set<NodeId>)
    requires
        lists(ids, set),
    ensures
        listing(set) == ids,
{
    lemma_ascending_unique(listing(set), ids);
}

/// Linking two nodes of a well-formed graph leaves it well formed: the new
/// arrow stands in the outgoing list of its source and in the incoming list
/// of its destination, and every older arrow keeps its mirror.
pub proof fn lemma_linked_well_formed<T>(m: GraphView<T>, from: NodeId, to: NodeId)
    requires
        well_formed(m),
        m.contains_key(from),
        m.contains_key(to),
    ensures
        well_formed(linked(m, from, to)),
        linked(m, from, to).dom() == m.dom(),
{
    let after = linked(m, from, to);
    let arrow = Arrow { from, to };
    assert(after.dom() =~= m.dom());
    assert forall|id: NodeId, i: int|
        after.contains_key(id) && 0 <= i < after[id].outgoing.len() implies ({
        let a = #[trigger] after[id].outgoing[i];
        &&& a.from == id
        &&& after.contains_key(a.to)
        &&& after[a.to].incoming.contains(a)
    }) by {
        let a = after[id].outgoing[i];
        if id == from && i == m[from].outgoing.len() {
            assert(a == arrow);
            assert(after[to].incoming[m[to].incoming.len() as int] == arrow);
        } else {
            assert(a == m[id].outgoing[i]);
            let j = choose|j: int| 0 <= j < m[a.to].incoming.len() && m[a.to].incoming[j] == a;
            assert(after[a.to].incoming[j] == a);
        }
    }
    assert forall|id: NodeId, i: int|
        after.contains_key(id) && 0 <= i < after[id].incoming.len() implies ({
        let a = #[trigger] after[id].incoming[i];
        &&& a.to == id
        &&& after.contains_key(a.from)
        &&& after[a.from].outgoing.contains(a)
    }) by {
        let a = after[id].incoming[i];
        if id == to && i == m[to].incoming.len() {
            assert(a == arrow);
            assert(after[from].outgoing[m[from].outgoing.len() as int] == arrow);
        } else {
            assert(a == m[id].incoming[i]);
            let j = choose|j: int| 0 <= j < m[a.from].outgoing.len() && m[a.from].outgoing[j] == a;
            assert(after[a.from].outgoing[j] == a);
        }
    }
}

/// A new node without arrows, under an identifier that is not in use,
/// leaves a well-formed graph well formed.
pub proof fn lemma_fresh_node_well_formed<T>(m: GraphView<T>, id: NodeId, value: T)
    requires
        well_formed(m),
        !m.contains_key(id),
    ensures
        well_formed(m.insert(id, fresh_node(id, value))),
{
    let after = m.insert(id, fresh_node(id, value));
    assert forall|k: NodeId, i: int|
        after.contains_key(k) && 0 <= i < after[k].outgoing.len() implies ({
        let a = #[trigger] after[k].outgoing[i];
        &&& a.from == k
        &&& after.contains_key(a.to)
        &&& after[a.to].incoming.contains(a)
    }) by {
        let a = m[k].outgoing[i];
        assert(m[a.to].incoming.contains(a));
    }
    assert forall|k: NodeId, i: int|
        after.contains_key(k) && 0 <= i < after[k].incoming.len() implies ({
        let a = #[trigger] after[k].incoming[i];
        &&& a.to == k
        &&& after.contains_key(a.from)
        &&& after[a.from].outgoing.contains(a)
    }) by {
        let a = m[k].incoming[i];
        assert(m[a.from].outgoing.contains(a));
    }
}

} // verus!
