//! Ordering nodes by identifier.

use crate::node::Node;
use itertools::Itertools;
use vstd::prelude::*;

verus! {

/// `Itertools::sorted_by_cached_key`, keyed by each node's identifier: the
/// result holds the same nodes as `nodes`, each as often as there, in
/// ascending order of identifier.
#[verifier::external_body]
pub(crate) fn sorted_by_id<'a, T>(nodes: Vec<&'a Node<T>>) -> (sorted: Vec<&'a Node<T>>)
    ensures
        sorted@.to_multiset() == nodes@.to_multiset(),
        forall|i: int, j: int| 0 <= i <= j < sorted@.len() ==> sorted@[i]@.id <= sorted@[j]@.id,
{
    nodes.into_iter().sorted_by_cached_key(|node| node.id()).collect()
}

/// Two sequences that hold the same items equally often have the same members,
/// and one repeats an item only if the other does.
pub(crate) proof fn lemma_same_items<A>(a: Seq<A>, b: Seq<A>)
    requires
        a.to_multiset() == b.to_multiset(),
    ensures
        forall|x: A| a.contains(x) <==> b.contains(x),
        a.no_duplicates() ==> b.no_duplicates(),
{
    a.to_multiset_ensures();
    b.to_multiset_ensures();
    assert forall|x: A| a.contains(x) <==> b.contains(x) by {
        assert(a.contains(x) <==> a.to_multiset().count(x) > 0);
        assert(b.contains(x) <==> b.to_multiset().count(x) > 0);
    }
    if a.no_duplicates() {
        a.lemma_multiset_has_no_duplicates();
        b.lemma_multiset_has_no_duplicates_conv();
    }
}

} // verus!
