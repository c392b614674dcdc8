//! What holds of every decomposition into connex factors.

use crate::model::{ends_in, well_formed, GraphView};
use crate::node::NodeId;
use crate::partition::{factors, is_factor};
use crate::render::arrows_joined;
use crate::reach::{component, lemma_mutually_reachable_equivalence, mutually_reachable, reaches};
use vstd::prelude::*;

verus! {

/// Every node of the graph is in exactly one factor, and the factors hold
/// nodes of the graph only.
pub proof fn lemma_factors_partition<T>(m: GraphView<T>, parts: Seq<GraphView<T>>, id: NodeId)
    requires
        factors(m, parts),
    ensures
        m.contains_key(id) <==> exists|k: int| 0 <= k < parts.len() && (#[trigger] parts[k]).contains_key(id),
        forall|a: int, b: int|
            0 <= a < parts.len() && 0 <= b < parts.len() && (#[trigger] parts[a]).contains_key(id) && (
            #[trigger] parts[b]).contains_key(id) ==> a == b,
{
    if exists|k: int| 0 <= k < parts.len() && (#[trigger] parts[k]).contains_key(id) {
        let k = choose|k: int| 0 <= k < parts.len() && (#[trigger] parts[k]).contains_key(id);
        assert(is_factor(m, parts[k]));
    }
    assert forall|a: int, b: int|
        0 <= a < parts.len() && 0 <= b < parts.len() && (#[trigger] parts[a]).contains_key(id) && (
        #[trigger] parts[b]).contains_key(id) implies a == b by {
        if a != b {
            assert(parts[a].contains_key(id) ==> !parts[b].contains_key(id));
        }
    }
}

/// Two nodes of one factor are the same node, or each is reached from the
/// other along arrows of the graph.
pub proof fn lemma_factor_mutually_reachable<T>(
    m: GraphView<T>,
    parts: Seq<GraphView<T>>,
    k: int,
    u: NodeId,
    v: NodeId,
)
    requires
        factors(m, parts),
        0 <= k < parts.len(),
        parts[k].contains_key(u),
        parts[k].contains_key(v),
    ensures
        u == v || (reaches(m, u, v) && reaches(m, v, u)),
{
    assert(is_factor(m, parts[k]));
    let seed = crate::model::least(parts[k].dom());
    assert(component(m, seed).contains(u));
    assert(component(m, seed).contains(v));
    lemma_mutually_reachable_equivalence(m, seed, u, v);
    lemma_mutually_reachable_equivalence(m, u, seed, v);
}

/// No directed cycle holds nodes of two factors: of two nodes in different
/// factors, one is not reached from the other.
pub proof fn lemma_factors_maximal<T>(
    m: GraphView<T>,
    parts: Seq<GraphView<T>>,
    a: int,
    b: int,
    u: NodeId,
    v: NodeId,
)
    requires
        factors(m, parts),
        0 <= a < parts.len(),
        0 <= b < parts.len(),
        a != b,
        parts[a].contains_key(u),
        parts[b].contains_key(v),
    ensures
        !(reaches(m, u, v) && reaches(m, v, u)),
{
    assert(is_factor(m, parts[a]));
    let seed = crate::model::least(parts[a].dom());
    assert(component(m, seed).contains(u));
    if mutually_reachable(m, u, v) {
        lemma_mutually_reachable_equivalence(m, seed, u, v);
        assert(component(m, seed).contains(v));
        assert(parts[a].contains_key(v));
        assert(parts[a].contains_key(v) ==> !parts[b].contains_key(v));
    }
}

/// An arrow of the graph whose two ends are in one factor is in that
/// factor, as it was.
pub proof fn lemma_factor_keeps_arrow<T>(
    m: GraphView<T>,
    parts: Seq<GraphView<T>>,
    k: int,
    id: NodeId,
    i: int,
)
    requires
        factors(m, parts),
        0 <= k < parts.len(),
        parts[k].contains_key(id),
        0 <= i < m[id].outgoing.len(),
        parts[k].contains_key(m[id].outgoing[i].to),
    ensures
        parts[k][id].outgoing.contains(m[id].outgoing[i]),
{
    assert(is_factor(m, parts[k]));
    m[id].outgoing.lemma_filter_contains(ends_in(parts[k].dom()), i);
}

/// An arrow in a factor is an arrow of the graph, and both of its ends are
/// in that factor: the arrows between factors are in none.
pub proof fn lemma_factor_arrow_inside<T>(
    m: GraphView<T>,
    parts: Seq<GraphView<T>>,
    k: int,
    id: NodeId,
    i: int,
)
    requires
        well_formed(m),
        factors(m, parts),
        0 <= k < parts.len(),
        parts[k].contains_key(id),
        0 <= i < parts[k][id].outgoing.len(),
    ensures
        m[id].outgoing.contains(parts[k][id].outgoing[i]),
        parts[k][id].outgoing[i].from == id,
        parts[k].contains_key(parts[k][id].outgoing[i].to),
{
    assert(is_factor(m, parts[k]));
    let keep = ends_in(parts[k].dom());
    let arrow = parts[k][id].outgoing[i];
    m[id].outgoing.lemma_filter_pred(keep, i);
    assert(m[id].outgoing.filter(keep).contains(arrow));
    m[id].outgoing.lemma_filter_contains_rev(keep, arrow);
    let j = choose|j: int| 0 <= j < m[id].outgoing.len() && m[id].outgoing[j] == arrow;
    assert(m[id].outgoing[j].from == id);
}

/// Every arrow in a factor of a well-formed graph joins two nodes of the factor.
pub proof fn lemma_factor_arrows_joined<T>(m: GraphView<T>, parts: Seq<GraphView<T>>, k: int)
    requires
        well_formed(m),
        factors(m, parts),
        0 <= k < parts.len(),
    ensures
        arrows_joined(parts[k]),
{
    assert forall|id: NodeId, i: int|
        parts[k].contains_key(id) && 0 <= i < parts[k][id].outgoing.len() implies parts[k].contains_key(
        (#[trigger] parts[k][id].outgoing[i]).from,
    ) && parts[k].contains_key(parts[k][id].outgoing[i].to) by {
        lemma_factor_arrow_inside(m, parts, k, id, i);
    }
}

/// A sequence whose items all pass a test is what the test keeps of it.
proof fn lemma_filter_keeps_all<A>(items: Seq<A>, keep: spec_fn(A) -> bool)
    requires
        forall|i: int| 0 <= i < items.len() ==> keep(#[trigger] items[i]),
    ensures
        items.filter(keep) == items,
    decreases items.len(),
{
    reveal(Seq::filter);
    if items.len() > 0 {
        lemma_filter_keeps_all(items.drop_last(), keep);
        assert(items.drop_last().push(items.last()) == items);
    }
}

/// A node of a factor keeps its whole incoming list, the arrows from other
/// factors too: they end in the node.
pub proof fn lemma_factor_keeps_incoming<T>(m: GraphView<T>, parts: Seq<GraphView<T>>, k: int, id: NodeId)
    requires
        well_formed(m),
        factors(m, parts),
        0 <= k < parts.len(),
        parts[k].contains_key(id),
    ensures
        parts[k][id].incoming == m[id].incoming,
{
    assert(is_factor(m, parts[k]));
    let keep = ends_in(parts[k].dom());
    assert forall|i: int| 0 <= i < m[id].incoming.len() implies keep(#[trigger] m[id].incoming[i]) by {
        assert(m[id].incoming[i].to == id);
    }
    lemma_filter_keeps_all(m[id].incoming, keep);
}

} // verus!
