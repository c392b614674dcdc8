//! Subgraphs, and the decomposition of a graph into its connex factors.

use crate::graph::Graph;
use crate::model::{induced, is_least, least, lemma_least, pruned, well_formed, GraphView};
use crate::node::{Node, NodeId};
use crate::reach::{
    component, lemma_mutually_reachable_equivalence, lemma_reaches_itself, mutually_reachable,
};
use crate::sets::{intersection, remove_all, NodeSet};
use vstd::prelude::*;
use vstd::std_specs::iter::IteratorSpec;

verus! {

broadcast use vstd::std_specs::hash::group_hash_axioms;

/// `part` is a connex factor of `m`: its nodes are those of `m` that are
/// mutually reachable with one of them, and it is the subgraph of `m` on them.
pub open spec fn is_factor<T>(m: GraphView<T>, part: GraphView<T>) -> bool {
    &&& part.dom().subset_of(m.dom())
    &&& part.dom().contains(least(part.dom()))
    &&& part.dom() == component(m, least(part.dom()))
    &&& part == induced(m, part.dom())
}

/// `parts` is the decomposition of `m` into connex factors: every part is
/// one, every node of `m` is in exactly one part, and the parts come in
/// ascending order of their smallest identifier.
pub open spec fn factors<T>(m: GraphView<T>, parts: Seq<GraphView<T>>) -> bool {
    &&& forall|k: int| 0 <= k < parts.len() ==> is_factor(m, #[trigger] parts[k])
    &&& forall|id: NodeId|
        m.contains_key(id) ==> exists|k: int| 0 <= k < parts.len() && (#[trigger] parts[k]).contains_key(id)
    &&& forall|a: int, b: int, id: NodeId|
        #![trigger parts[a].contains_key(id), parts[b].contains_key(id)]
        0 <= a < parts.len() && 0 <= b < parts.len() && a != b && parts[a].contains_key(id)
            ==> !parts[b].contains_key(id)
    &&& forall|a: int, b: int|
        0 <= a < b < parts.len() ==> least((#[trigger] parts[a]).dom()) < least((#[trigger] parts[b]).dom())
}

/// What the graphs of a list hold, each as a mathematical value.
pub open spec fn views<T>(graphs: Seq<Graph<T>>) -> Seq<GraphView<T>> {
    Seq::new(graphs.len(), |k: int| graphs[k]@)
}

/// Nodes that are mutually reachable have the same connex factor.
pub proof fn lemma_same_component<T>(m: GraphView<T>, a: NodeId, b: NodeId)
    requires
        mutually_reachable(m, a, b),
    ensures
        component(m, a) == component(m, b),
{
    assert forall|id: NodeId| component(m, a).contains(id) <==> component(m, b).contains(id) by {
        lemma_mutually_reachable_equivalence(m, a, b, id);
        lemma_mutually_reachable_equivalence(m, b, a, id);
    }
    assert(component(m, a) =~= component(m, b));
}

impl<T> Graph<T> {
    /// The subgraph on `nodeset`: the nodes of `nodeset`, sharing their
    /// values, each with the arrows of both of its lists whose destination
    /// is in `nodeset`. New nodes of the subgraph get the identifiers that
    /// new nodes of the graph would get, so that none is used twice.
    pub fn subgraph_of(&self, nodeset: &NodeSet) -> (sub: Self)
        requires
            nodeset@.subset_of(self@.dom()),
        ensures
            sub@ == induced(self@, nodeset@),
            sub.next_id() == self.next_id(),
            self.ids_below_next() ==> sub.ids_below_next(),
    {
        let mut sub = Graph::empty_from(self.next());
        let ghost items = nodeset.iter().remaining().unref();
        for id in it: nodeset.iter()
            invariant
                it.seq().unref() == items,
                items.to_set() == nodeset@,
                nodeset@.subset_of(self@.dom()),
                sub.next_id() == self.next_id(),
                forall|x: NodeId|
                    #![trigger sub@.contains_key(x)]
                    sub@.contains_key(x) <==> exists|j: int| 0 <= j < it.index() && #[trigger] items[j] == x,
                forall|x: NodeId| sub@.contains_key(x) ==> #[trigger] sub@[x] == pruned(self@[x], nodeset@),
        {
            assert(items.contains(*id));
            let node = self.node(*id).pruned(nodeset);
            sub.insert(node);
        }
        proof {
            assert forall|x: NodeId| sub@.contains_key(x) <==> nodeset@.contains(x) by {
                if nodeset@.contains(x) {
                    assert(items.contains(x));
                }
                if sub@.contains_key(x) {
                    let j = choose|j: int| 0 <= j < items.len() && #[trigger] items[j] == x;
                    assert(items.contains(items[j]));
                }
            }
            assert(sub@ =~= induced(self@, nodeset@));
        }
        sub
    }

    /// The connex factors of the graph, one subgraph each, in ascending
    /// order of their smallest identifier.
    pub fn f_conex(&self) -> (parts: Vec<Self>)
        requires
            well_formed(self@),
        ensures
            factors(self@, views(parts@)),
            forall|k: int| 0 <= k < parts@.len() ==> (#[trigger] parts@[k]).next_id() == self.next_id(),
            self.ids_below_next() ==> forall|k: int| 0 <= k < parts@.len() ==> (#[trigger] parts@[k]).ids_below_next(),
    {
        let mut parts: Vec<Self> = Vec::new();
        let nodes = self.iter();
        let mut unvisited = self.all_ids(&nodes);
        let ghost mut seeds: Seq<NodeId> = Seq::empty();
        assert(unvisited@ =~= unclaimed(self@, seeds));
        let mut i: usize = 0;
        while i < nodes.len()
            invariant
                well_formed(self@),
                i <= nodes.len(),
                forall|j: int| 0 <= j < nodes@.len() ==> self@.contains_key(#[trigger] nodes@[j]@.id),
                forall|a: int, b: int| 0 <= a < b < nodes@.len() ==> nodes@[a]@.id < nodes@[b]@.id,
                forall|id: NodeId|
                    self@.contains_key(id) ==> exists|j: int| 0 <= j < nodes@.len() && nodes@[j]@.id == id,
                seeds.len() == parts@.len(),
                forall|k: int|
                    0 <= k < parts@.len() ==> grown_from(self@, (#[trigger] parts@[k])@, seeds[k])
                        && parts@[k].next_id() == self.next_id() && (self.ids_below_next()
                        ==> parts@[k].ids_below_next()),
                forall|k: int, j: int|
                    0 <= k < seeds.len() && i <= j < nodes@.len() ==> #[trigger] seeds[k] < (
                    #[trigger] nodes@[j])@.id,
                forall|a: int, b: int| 0 <= a < b < seeds.len() ==> seeds[a] < seeds[b],
                unvisited@ == unclaimed(self@, seeds),
                forall|j: int| 0 <= j < i ==> !unvisited@.contains(#[trigger] nodes@[j]@.id),
            decreases nodes.len() - i,
        {
            let seed = nodes[i].id();
            if unvisited.contains(&seed) {
                let rplus = self.forward_closure(seed);
                let rminus = self.backward_closure(seed);
                let wk = intersection(&rplus, &rminus);
                proof {
                    lemma_reaches_itself(self@, seed);
                    assert(wk@ =~= component(self@, seed));
                    lemma_new_factor(self@, seeds, seed);
                    assert(is_least(wk@, seed)) by {
                        assert forall|other: NodeId| wk@.contains(other) implies seed <= other by {
                            if other < seed {
                                let j = choose|j: int| 0 <= j < nodes@.len() && nodes@[j]@.id == other;
                                assert(nodes@[j]@.id == other);
                                assert(j < i);
                                assert(!unvisited@.contains(nodes@[j]@.id));
                            }
                        }
                    }
                }
                remove_all(&mut unvisited, &wk);
                let part = self.subgraph_of(&wk);
                assert(part@.dom() =~= wk@);
                let ghost built = parts@;
                let ghost earlier = seeds;
                parts.push(part);
                proof {
                    lemma_unclaimed_push(self@, earlier, seed);
                    seeds = earlier.push(seed);
                    assert forall|k: int| 0 <= k < parts@.len() implies grown_from(
                        self@,
                        (#[trigger] parts@[k])@,
                        seeds[k],
                    ) && parts@[k].next_id() == self.next_id() && (self.ids_below_next()
                        ==> parts@[k].ids_below_next()) by {
                        if k < built.len() {
                            assert(parts@[k] == built[k]);
                            assert(seeds[k] == earlier[k]);
                        } else {
                            reveal(grown_from);
                        }
                    }
                    assert forall|k: int, j: int|
                        0 <= k < seeds.len() && i + 1 <= j < nodes@.len() implies #[trigger] seeds[k] < (
                    #[trigger] nodes@[j])@.id by {
                        if k < earlier.len() {
                            assert(seeds[k] == earlier[k]);
                        } else {
                            assert(nodes@[i as int]@.id < nodes@[j]@.id);
                        }
                    }
                    assert forall|a: int, b: int| 0 <= a < b < seeds.len() implies seeds[a] < seeds[b] by {
                        assert(seeds[a] == earlier[a]);
                        if b < earlier.len() {
                            assert(seeds[b] == earlier[b]);
                        } else {
                            assert(earlier[a] < nodes@[i as int]@.id);
                        }
                    }
                }
            }
            i += 1;
        }
        proof {
            let all = views(parts@);
            assert forall|k: int| 0 <= k < all.len() implies grown_from(self@, #[trigger] all[k], seeds[k]) by {
                assert(grown_from(self@, parts@[k]@, seeds[k]));
            }
            assert forall|id: NodeId| self@.contains_key(id) implies !unclaimed(self@, seeds).contains(id) by {
                let j = choose|j: int| 0 <= j < nodes@.len() && nodes@[j]@.id == id;
                assert(!unvisited@.contains(nodes@[j]@.id));
            }
            lemma_grown_parts_are_factors(self@, all, seeds);
        }
        parts
    }

    /// The identifiers of the nodes of the graph, which `nodes` lists.
    fn all_ids(&self, nodes: &Vec<&Node<T>>) -> (ids: NodeSet)
        requires
            forall|i: int| 0 <= i < nodes@.len() ==> self@.contains_key(#[trigger] nodes@[i]@.id),
            forall|id: NodeId|
                self@.contains_key(id) ==> exists|i: int| 0 <= i < nodes@.len() && nodes@[i]@.id == id,
        ensures
            ids@ == self@.dom(),
    {
        let mut ids = NodeSet::new();
        let mut n: usize = 0;
        while n < nodes.len()
            invariant
                n <= nodes.len(),
                forall|id: NodeId|
                    #![trigger ids@.contains(id)]
                    ids@.contains(id) <==> exists|j: int| 0 <= j < n && (#[trigger] nodes@[j])@.id == id,
            decreases nodes.len() - n,
        {
            let ghost earlier = ids@;
            ids.insert(nodes[n].id());
            proof {
                assert forall|id: NodeId|
                    #![trigger ids@.contains(id)]
                    ids@.contains(id) <==> exists|j: int| 0 <= j < n + 1 && (#[trigger] nodes@[j])@.id == id by {
                    if earlier.contains(id) {
                        let j = choose|j: int| 0 <= j < n && (#[trigger] nodes@[j])@.id == id;
                        assert(nodes@[j]@.id == id);
                    }
                    if id == nodes@[n as int]@.id {
                        assert(nodes@[n as int]@.id == id);
                    }
                    if exists|j: int| 0 <= j < n + 1 && (#[trigger] nodes@[j])@.id == id {
                        let j = choose|j: int| 0 <= j < n + 1 && (#[trigger] nodes@[j])@.id == id;
                        if j < n {
                            assert(earlier.contains(id));
                        }
                    }
                }
            }
            n += 1;
        }
        proof {
            assert forall|id: NodeId| ids@.contains(id) <==> self@.dom().contains(id) by {
                if self@.contains_key(id) {
                    let i = choose|i: int| 0 <= i < nodes@.len() && nodes@[i]@.id == id;
                    assert(nodes@[i]@.id == id);
                }
                if ids@.contains(id) {
                    let j = choose|j: int| 0 <= j < nodes@.len() && (#[trigger] nodes@[j])@.id == id;
                    assert(self@.contains_key(nodes@[j]@.id));
                }
            }
            assert(ids@ =~= self@.dom());
        }
        ids
    }
}

/// `part` is the connex factor of `seed`, its smallest identifier, as a
/// subgraph of `m`.
#[verifier::opaque]
spec fn grown_from<T>(m: GraphView<T>, part: GraphView<T>, seed: NodeId) -> bool {
    &&& m.contains_key(seed)
    &&& part.dom() == component(m, seed)
    &&& is_least(part.dom(), seed)
    &&& part == induced(m, part.dom())
    &&& part.dom().subset_of(m.dom())
}

/// The nodes of `m` that are in the connex factor of none of `seeds`.
pub open spec fn unclaimed<T>(m: GraphView<T>, seeds: Seq<NodeId>) -> Set<NodeId> {
    Set::new(
        |id: NodeId|
            m.contains_key(id) && forall|k: int|
                0 <= k < seeds.len() ==> !component(m, #[trigger] seeds[k]).contains(id),
    )
}

/// A node that no earlier factor holds starts a factor of nodes that no
/// earlier factor holds.
proof fn lemma_new_factor<T>(m: GraphView<T>, seeds: Seq<NodeId>, seed: NodeId)
    requires
        unclaimed(m, seeds).contains(seed),
        component(m, seed).subset_of(m.dom()),
    ensures
        component(m, seed).subset_of(unclaimed(m, seeds)),
{
    assert forall|id: NodeId| component(m, seed).contains(id) implies unclaimed(m, seeds).contains(id) by {
        assert forall|k: int| 0 <= k < seeds.len() implies !component(m, #[trigger] seeds[k]).contains(id) by {
            if component(m, seeds[k]).contains(id) {
                lemma_mutually_reachable_equivalence(m, seed, id, seeds[k]);
                lemma_mutually_reachable_equivalence(m, seeds[k], id, seed);
                assert(component(m, seeds[k]).contains(seed));
            }
        }
    }
}

/// One more seed claims its connex factor, and nothing else.
proof fn lemma_unclaimed_push<T>(m: GraphView<T>, seeds: Seq<NodeId>, seed: NodeId)
    ensures
        unclaimed(m, seeds.push(seed)) == unclaimed(m, seeds).difference(component(m, seed)),
{
    let more = seeds.push(seed);
    assert forall|id: NodeId| unclaimed(m, more).contains(id) <==> unclaimed(m, seeds).difference(
        component(m, seed),
    ).contains(id) by {
        if unclaimed(m, more).contains(id) {
            assert(more[seeds.len() as int] == seed);
            assert forall|k: int| 0 <= k < seeds.len() implies !component(m, #[trigger] seeds[k]).contains(id) by {
                assert(more[k] == seeds[k]);
            }
        }
        if unclaimed(m, seeds).difference(component(m, seed)).contains(id) {
            assert forall|k: int| 0 <= k < more.len() implies !component(m, #[trigger] more[k]).contains(id) by {
                if k < seeds.len() {
                    assert(more[k] == seeds[k]);
                }
            }
        }
    }
    assert(unclaimed(m, more) =~= unclaimed(m, seeds).difference(component(m, seed)));
}

/// A part grown from a seed is a connex factor, and the seed is its
/// smallest identifier.
proof fn lemma_grown_is_factor<T>(m: GraphView<T>, part: GraphView<T>, seed: NodeId)
    requires
        grown_from(m, part, seed),
    ensures
        is_factor(m, part),
        least(part.dom()) == seed,
        part.dom() == component(m, seed),
{
    reveal(grown_from);
    lemma_least(part.dom(), seed);
}

/// Connex factors that share a node are the same set of nodes.
proof fn lemma_shared_node<T>(m: GraphView<T>, a: NodeId, b: NodeId, id: NodeId)
    requires
        component(m, a).contains(id),
        component(m, b).contains(id),
    ensures
        component(m, a) == component(m, b),
{
    lemma_mutually_reachable_equivalence(m, b, id, a);
    lemma_mutually_reachable_equivalence(m, a, id, a);
    lemma_same_component(m, a, b);
}

/// Parts grown from different seeds share no node.
proof fn lemma_grown_apart<T>(
    m: GraphView<T>,
    left: GraphView<T>,
    right: GraphView<T>,
    a: NodeId,
    b: NodeId,
    id: NodeId,
)
    requires
        grown_from(m, left, a),
        grown_from(m, right, b),
        a != b,
        left.contains_key(id),
    ensures
        !right.contains_key(id),
{
    reveal(grown_from);
    if right.contains_key(id) {
        lemma_shared_node(m, a, b, id);
        assert(left.dom() == right.dom());
    }
}

/// Factors grown from ascending seeds that leave no node unclaimed are the
/// decomposition of the graph.
proof fn lemma_grown_parts_are_factors<T>(m: GraphView<T>, parts: Seq<GraphView<T>>, seeds: Seq<NodeId>)
    requires
        seeds.len() == parts.len(),
        forall|k: int| 0 <= k < parts.len() ==> grown_from(m, #[trigger] parts[k], seeds[k]),
        forall|a: int, b: int| 0 <= a < b < seeds.len() ==> seeds[a] < seeds[b],
        forall|id: NodeId| m.contains_key(id) ==> !unclaimed(m, seeds).contains(id),
    ensures
        factors(m, parts),
{
    assert forall|k: int| 0 <= k < parts.len() implies is_factor(m, #[trigger] parts[k]) by {
        lemma_grown_is_factor(m, parts[k], seeds[k]);
    }
    assert forall|id: NodeId| m.contains_key(id) implies exists|k: int|
        0 <= k < parts.len() && (#[trigger] parts[k]).contains_key(id) by {
        assert(!unclaimed(m, seeds).contains(id));
        let k = choose|k: int| 0 <= k < seeds.len() && component(m, #[trigger] seeds[k]).contains(id);
        lemma_grown_is_factor(m, parts[k], seeds[k]);
        assert(parts[k].contains_key(id));
    }
    assert forall|a: int, b: int, id: NodeId|
        #![trigger parts[a].contains_key(id), parts[b].contains_key(id)]
        0 <= a < parts.len() && 0 <= b < parts.len() && a != b && parts[a].contains_key(id) implies !parts[b].contains_key(
            id,
        ) by {
        assert(grown_from(m, parts[a], seeds[a]));
        assert(grown_from(m, parts[b], seeds[b]));
        if a < b {
            assert(seeds[a] < seeds[b]);
        } else {
            assert(seeds[b] < seeds[a]);
        }
        lemma_grown_apart(m, parts[a], parts[b], seeds[a], seeds[b], id);
    }
    assert forall|a: int, b: int| 0 <= a < b < parts.len() implies least((#[trigger] parts[a]).dom()) < least(
        (#[trigger] parts[b]).dom(),
    ) by {
        lemma_grown_is_factor(m, parts[a], seeds[a]);
        lemma_grown_is_factor(m, parts[b], seeds[b]);
    }
}

} // verus!
