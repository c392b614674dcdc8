//! Finding nodes by value, and adding them where none is found.

use crate::graph::Graph;
use crate::model::{fresh_node, GraphView};
use crate::node::NodeId;
use vstd::laws_eq::{obeys_eq, obeys_eq_spec_properties};
use vstd::prelude::*;
use vstd::std_specs::cmp::PartialEqSpec;

verus! {

/// The node under `id` holds a value equal to `value`.
pub open spec fn holds<T: PartialEq>(m: GraphView<T>, id: NodeId, value: T) -> bool {
    m.contains_key(id) && m[id].value.eq_spec(&value)
}

/// `id` is the smallest identifier of a node that holds a value equal to `value`.
pub open spec fn is_first_holder<T: PartialEq>(m: GraphView<T>, id: NodeId, value: T) -> bool {
    holds(m, id, value) && forall|other: NodeId| holds(m, other, value) ==> id <= other
}

/// What finding or adding `value` makes of a graph `before` whose next
/// identifier is `next`: where a node holds an equal value, the graph and
/// its next identifier stay, and `id` is the first such node; else `id` is
/// a new node that holds `value`, and the next identifier is one more.
pub open spec fn found_or_added<T: PartialEq>(
    before: GraphView<T>,
    next: NodeId,
    value: T,
    after: GraphView<T>,
    later: NodeId,
    id: NodeId,
) -> bool {
    if exists|held: NodeId| holds(before, held, value) {
        is_first_holder(before, id, value) && after == before && later == next
    } else {
        id == next && after == before.insert(next, fresh_node(next, value)) && later == next + 1
    }
}

impl<T: Eq> Graph<T> {
    /// The first node, in ascending order of identifier, whose value equals `value`.
    pub fn find(&self, value: &T) -> (found: Option<NodeId>)
        ensures
            found matches Some(id) ==> self@.contains_key(id),
            T::obeys_eq_spec() ==> match found {
                Some(id) => is_first_holder(self@, id, *value),
                None => forall|id: NodeId| !holds(self@, id, *value),
            },
    {
        let nodes = self.iter();
        let mut i: usize = 0;
        while i < nodes.len()
            invariant
                i <= nodes.len(),
                forall|j: int| 0 <= j < nodes@.len() ==> self@.contains_key(#[trigger] nodes@[j]@.id)
                    && self@[nodes@[j]@.id] == nodes@[j]@,
                forall|a: int, b: int| 0 <= a < b < nodes@.len() ==> nodes@[a]@.id < nodes@[b]@.id,
                forall|id: NodeId|
                    self@.contains_key(id) ==> exists|j: int| 0 <= j < nodes@.len() && nodes@[j]@.id == id,
                T::obeys_eq_spec() ==> forall|j: int| 0 <= j < i ==> !holds(self@, #[trigger] nodes@[j]@.id, *value),
            decreases nodes.len() - i,
        {
            if nodes[i].value().eq(value) {
                proof {
                    if T::obeys_eq_spec() {
                        let id = nodes@[i as int]@.id;
                        assert(self@.contains_key(nodes@[i as int]@.id));
                        assert forall|other: NodeId| holds(self@, other, *value) implies id <= other by {
                            let j = choose|j: int| 0 <= j < nodes@.len() && nodes@[j]@.id == other;
                            if j < i {
                                assert(!holds(self@, nodes@[j]@.id, *value));
                            }
                        }
                    }
                }
                return Some(nodes[i].id());
            }
            i += 1;
        }
        proof {
            if T::obeys_eq_spec() {
                assert forall|id: NodeId| !holds(self@, id, *value) by {
                    if self@.contains_key(id) {
                        let j = choose|j: int| 0 <= j < nodes@.len() && nodes@[j]@.id == id;
                        assert(!holds(self@, nodes@[j]@.id, *value));
                    }
                }
            }
        }
        None
    }

    /// The node that `find` gives for `value` or, where it gives none, a new
    /// node that holds `value`. An identifier must be left for the new
    /// node, unless a node is known to hold an equal value.
    pub fn new_node_or_get(&mut self, value: T) -> (id: NodeId)
        requires
            old(self).next_id() < u64::MAX || (T::obeys_eq_spec() && exists|held: NodeId|
                holds(old(self)@, held, value)),
        ensures
            final(self)@ == old(self)@ && final(self).next_id() == old(self).next_id() && old(self)@.contains_key(id)
                || final(self)@ == old(self)@.insert(id, fresh_node(id, value)) && id == old(self).next_id()
                && final(self).next_id() == id + 1,
            T::obeys_eq_spec() ==> found_or_added(
                old(self)@,
                old(self).next_id(),
                value,
                final(self)@,
                final(self).next_id(),
                id,
            ),
            old(self).ids_below_next() ==> final(self).ids_below_next(),
            old(self).wf() ==> final(self).wf(),
    {
        match self.find(&value) {
            Some(id) => {
                assert(T::obeys_eq_spec() ==> holds(self@, id, value));
                id
            },
            None => self.new_node(value),
        }
    }
}

/// Finding or adding a value a second time gives the node of the first
/// time and adds nothing, provided that equality of values is symmetric
/// and transitive: of the two calls, the first adds one node at most and
/// the second none.
pub proof fn lemma_found_or_added_again<T: PartialEq>(
    before: GraphView<T>,
    next: NodeId,
    first: T,
    between: GraphView<T>,
    later: NodeId,
    id: NodeId,
    second: T,
    after: GraphView<T>,
    last: NodeId,
    again: NodeId,
)
    requires
        obeys_eq::<T>(),
        first.eq_spec(&second),
        found_or_added(before, next, first, between, later, id),
        found_or_added(between, later, second, after, last, again),
    ensures
        again == id,
        after == between,
        last == later,
        between == before || between == before.insert(id, fresh_node(id, first)),
        exists|held: NodeId| holds(between, held, second),
{
    reveal(obeys_eq_spec_properties);
    assert(second.eq_spec(&first));
    assert forall|held: NodeId| holds(before, held, second) <==> holds(before, held, first) by {
        if before.contains_key(held) {
            let x = before[held].value;
            if x.eq_spec(&second) {
                assert(x.eq_spec(&second) && second.eq_spec(&first));
                assert(x.eq_spec(&first));
            }
            if x.eq_spec(&first) {
                assert(x.eq_spec(&first) && first.eq_spec(&second));
                assert(x.eq_spec(&second));
            }
        }
    }
    if exists|held: NodeId| holds(before, held, first) {
        let held = choose|held: NodeId| holds(before, held, first);
        assert(holds(between, held, second));
        assert(holds(before, id, second));
        assert(holds(before, again, first));
    } else {
        assert(holds(between, next, second));
        assert forall|other: NodeId| holds(between, other, second) implies other == next by {
            if other != next {
                assert(holds(before, other, second));
            }
        }
    }
}

} // verus!
