//! Paths along arrows, and what they reach.

use crate::model::{
    has_arrow, has_incoming, leads, neighbors, predecessors, successors, well_formed, GraphView,
};
use crate::node::NodeId;
use vstd::prelude::*;

verus! {

/// `path` is a walk along arrows of `m`: it has a first node, and each of
/// its nodes has an arrow to the next.
pub open spec fn is_path<T>(m: GraphView<T>, path: Seq<NodeId>) -> bool {
    &&& path.len() > 0
    &&& forall|i: int| 0 <= i < path.len() - 1 ==> has_arrow(m, #[trigger] path[i], path[i + 1])
}

/// `path` is a walk along arrows of `m` that starts at `from` and ends at `to`.
pub open spec fn joins<T>(m: GraphView<T>, path: Seq<NodeId>, from: NodeId, to: NodeId) -> bool {
    is_path(m, path) && path[0] == from && path[path.len() - 1] == to
}

/// A directed path leads from `from` to `to`; the path of no arrows leads
/// from a node to itself.
pub open spec fn reaches<T>(m: GraphView<T>, from: NodeId, to: NodeId) -> bool {
    exists|path: Seq<NodeId>| #[trigger] joins(m, path, from, to)
}

/// Each of the two nodes is reached from the other.
pub open spec fn mutually_reachable<T>(m: GraphView<T>, a: NodeId, b: NodeId) -> bool {
    reaches(m, a, b) && reaches(m, b, a)
}

/// Everything that `seed` reaches.
pub open spec fn descendants<T>(m: GraphView<T>, seed: NodeId) -> Set<NodeId> {
    Set::new(|id: NodeId| reaches(m, seed, id))
}

/// Everything that reaches `seed`.
pub open spec fn ancestors<T>(m: GraphView<T>, seed: NodeId) -> Set<NodeId> {
    Set::new(|id: NodeId| reaches(m, id, seed))
}

/// The connex factor of `seed`: the nodes that `seed` reaches and that reach it.
pub open spec fn component<T>(m: GraphView<T>, seed: NodeId) -> Set<NodeId> {
    Set::new(|id: NodeId| mutually_reachable(m, seed, id))
}

pub proof fn lemma_reaches_itself<T>(m: GraphView<T>, id: NodeId)
    ensures
        reaches(m, id, id),
{
    assert(joins(m, seq![id], id, id));
}

/// A path can be continued by one arrow.
pub proof fn lemma_reaches_then_arrow<T>(m: GraphView<T>, from: NodeId, mid: NodeId, to: NodeId)
    requires
        reaches(m, from, mid),
        has_arrow(m, mid, to),
    ensures
        reaches(m, from, to),
{
    let path = choose|path: Seq<NodeId>| joins(m, path, from, mid);
    let longer = path.push(to);
    assert forall|i: int| 0 <= i < longer.len() - 1 implies has_arrow(
        m,
        #[trigger] longer[i],
        longer[i + 1],
    ) by {
        if i < path.len() - 1 {
            assert(has_arrow(m, path[i], path[i + 1]));
        }
    }
    assert(joins(m, longer, from, to));
}

/// A path can be started one arrow earlier.
pub proof fn lemma_arrow_then_reaches<T>(m: GraphView<T>, from: NodeId, mid: NodeId, to: NodeId)
    requires
        has_arrow(m, from, mid),
        reaches(m, mid, to),
    ensures
        reaches(m, from, to),
{
    let path = choose|path: Seq<NodeId>| joins(m, path, mid, to);
    let longer = seq![from] + path;
    assert forall|i: int| 0 <= i < longer.len() - 1 implies has_arrow(
        m,
        #[trigger] longer[i],
        longer[i + 1],
    ) by {
        if i > 0 {
            assert(has_arrow(m, path[i - 1], path[i - 1 + 1]));
        }
    }
    assert(joins(m, longer, from, to));
}

/// Two paths that meet make one path.
pub proof fn lemma_reaches_transitive<T>(m: GraphView<T>, a: NodeId, b: NodeId, c: NodeId)
    requires
        reaches(m, a, b),
        reaches(m, b, c),
    ensures
        reaches(m, a, c),
{
    let first = choose|path: Seq<NodeId>| joins(m, path, a, b);
    let second = choose|path: Seq<NodeId>| joins(m, path, b, c);
    let whole = first + second.subrange(1, second.len() as int);
    assert forall|i: int| 0 <= i < whole.len() - 1 implies has_arrow(
        m,
        #[trigger] whole[i],
        whole[i + 1],
    ) by {
        if i < first.len() - 1 {
            assert(has_arrow(m, first[i], first[i + 1]));
        } else {
            let j = i - first.len() + 1;
            assert(has_arrow(m, second[j], second[j + 1]));
        }
    }
    assert(joins(m, whole, a, c));
}

/// Being mutually reachable is an equivalence: it holds of a node and
/// itself, in both directions or in none, and through a common node.
pub proof fn lemma_mutually_reachable_equivalence<T>(m: GraphView<T>, a: NodeId, b: NodeId, c: NodeId)
    ensures
        mutually_reachable(m, a, a),
        mutually_reachable(m, a, b) ==> mutually_reachable(m, b, a),
        mutually_reachable(m, a, b) && mutually_reachable(m, b, c) ==> mutually_reachable(m, a, c),
{
    lemma_reaches_itself(m, a);
    if mutually_reachable(m, a, b) && mutually_reachable(m, b, c) {
        lemma_reaches_transitive(m, a, b, c);
        lemma_reaches_transitive(m, c, b, a);
    }
}

/// In a well-formed graph the incoming lists record the arrows of the
/// outgoing lists, and no others.
pub proof fn lemma_incoming_is_arrow<T>(m: GraphView<T>, from: NodeId, to: NodeId)
    requires
        well_formed(m),
    ensures
        has_incoming(m, to, from) <==> has_arrow(m, from, to),
{
    if has_incoming(m, to, from) {
        let i = choose|i: int| 0 <= i < m[to].incoming.len() && (#[trigger] m[to].incoming[i]).from == from;
        let arrow = m[to].incoming[i];
        let j = choose|j: int| 0 <= j < m[from].outgoing.len() && m[from].outgoing[j] == arrow;
        assert(m[from].outgoing[j].to == to);
    }
    if has_arrow(m, from, to) {
        let i = choose|i: int| 0 <= i < m[from].outgoing.len() && (#[trigger] m[from].outgoing[i]).to == to;
        let arrow = m[from].outgoing[i];
        let j = choose|j: int| 0 <= j < m[to].incoming.len() && m[to].incoming[j] == arrow;
        assert(m[to].incoming[j].from == from);
    }
}

/// Arrows of a well-formed graph join nodes of the graph.
pub proof fn lemma_arrow_ends<T>(m: GraphView<T>, from: NodeId, to: NodeId)
    requires
        well_formed(m),
        has_arrow(m, from, to),
    ensures
        m.contains_key(from),
        m.contains_key(to),
{
    let i = choose|i: int| 0 <= i < m[from].outgoing.len() && (#[trigger] m[from].outgoing[i]).to == to;
    assert(m.contains_key(m[from].outgoing[i].to));
}

/// A path that starts in a set which holds the successors of its members
/// never leaves it.
proof fn lemma_path_stays<T>(m: GraphView<T>, set: Set<NodeId>, path: Seq<NodeId>, i: int)
    requires
        is_path(m, path),
        set.contains(path[0]),
        successors(m, set).subset_of(set),
        0 <= i < path.len(),
    ensures
        set.contains(path[i]),
    decreases i,
{
    if i > 0 {
        lemma_path_stays(m, set, path, i - 1);
        assert(has_arrow(m, path[i - 1], path[i - 1 + 1]));
        assert(successors(m, set).contains(path[i]));
    }
}

/// A path that ends in a set which holds the predecessors of its members
/// lies in it.
proof fn lemma_path_comes_from<T>(m: GraphView<T>, set: Set<NodeId>, path: Seq<NodeId>, i: int)
    requires
        well_formed(m),
        is_path(m, path),
        set.contains(path[path.len() - 1]),
        predecessors(m, set).subset_of(set),
        0 <= i < path.len(),
    ensures
        set.contains(path[i]),
    decreases path.len() - i,
{
    if i < path.len() - 1 {
        lemma_path_comes_from(m, set, path, i + 1);
        assert(has_arrow(m, path[i], path[i + 1]));
        lemma_incoming_is_arrow(m, path[i], path[i + 1]);
        assert(predecessors(m, set).contains(path[i]));
    }
}

/// `id` is reached from `seed` along the arrows forward, or reaches `seed`:
/// it is reached from `seed` against the arrows.
pub open spec fn reached<T>(m: GraphView<T>, seed: NodeId, id: NodeId, forward: bool) -> bool {
    if forward {
        reaches(m, seed, id)
    } else {
        reaches(m, id, seed)
    }
}

/// Everything that is reached from `seed` in a direction.
pub open spec fn closure_of<T>(m: GraphView<T>, seed: NodeId, forward: bool) -> Set<NodeId> {
    if forward {
        descendants(m, seed)
    } else {
        ancestors(m, seed)
    }
}

/// One more step in a direction reaches a node of the graph.
pub proof fn lemma_reached_step<T>(m: GraphView<T>, seed: NodeId, from: NodeId, id: NodeId, forward: bool)
    requires
        well_formed(m),
        reached(m, seed, from, forward),
        leads(m, from, id, forward),
    ensures
        m.contains_key(id),
        reached(m, seed, id, forward),
{
    if forward {
        lemma_arrow_ends(m, from, id);
        lemma_reaches_then_arrow(m, seed, from, id);
    } else {
        lemma_incoming_is_arrow(m, id, from);
        lemma_arrow_ends(m, id, from);
        lemma_arrow_then_reaches(m, id, from, seed);
    }
}

/// A set that holds `seed` and what one step in a direction reaches from
/// its members holds everything that is reached from `seed` in that direction.
pub proof fn lemma_closed_holds_closure<T>(m: GraphView<T>, set: Set<NodeId>, seed: NodeId, forward: bool)
    requires
        well_formed(m),
        set.contains(seed),
        neighbors(m, set, forward).subset_of(set),
    ensures
        closure_of(m, seed, forward).subset_of(set),
{
    if forward {
        lemma_closed_holds_descendants(m, set, seed);
    } else {
        lemma_closed_holds_ancestors(m, set, seed);
    }
}

/// A set that holds `seed` and the successors of its members holds
/// everything that `seed` reaches.
pub proof fn lemma_closed_holds_descendants<T>(m: GraphView<T>, set: Set<NodeId>, seed: NodeId)
    requires
        set.contains(seed),
        successors(m, set).subset_of(set),
    ensures
        descendants(m, seed).subset_of(set),
{
    assert forall|id: NodeId| descendants(m, seed).contains(id) implies set.contains(id) by {
        let path = choose|path: Seq<NodeId>| joins(m, path, seed, id);
        lemma_path_stays(m, set, path, path.len() - 1);
    }
}

/// A set that holds `seed` and the predecessors of its members holds
/// everything that reaches `seed`.
pub proof fn lemma_closed_holds_ancestors<T>(m: GraphView<T>, set: Set<NodeId>, seed: NodeId)
    requires
        well_formed(m),
        set.contains(seed),
        predecessors(m, set).subset_of(set),
    ensures
        ancestors(m, seed).subset_of(set),
{
    assert forall|id: NodeId| ancestors(m, seed).contains(id) implies set.contains(id) by {
        let path = choose|path: Seq<NodeId>| joins(m, path, id, seed);
        lemma_path_comes_from(m, set, path, 0);
    }
}

} // verus!
