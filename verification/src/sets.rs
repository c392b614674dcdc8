//! Sets of node identifiers, and the set operations of the decomposition.

use crate::node::NodeId;
use std::collections::HashSet;
use vstd::prelude::*;
use vstd::std_specs::iter::IteratorSpec;

verus! {

broadcast use vstd::std_specs::hash::group_hash_axioms;

/// A set of node identifiers.
pub type NodeSet = HashSet<NodeId>;

/// The identifiers of `left` that are not in `right`.
pub fn difference(left: &NodeSet, right: &NodeSet) -> (rest: NodeSet)
    ensures
        rest@ == left@.difference(right@),
{
    let mut rest = NodeSet::new();
    let ghost items = left.iter().remaining().unref();
    for id in it: left.iter()
        invariant
            it.seq().unref() == items,
            items.to_set() == left@,
            forall|x: NodeId|
                rest@.contains(x) <==> !right@.contains(x) && exists|j: int|
                    0 <= j < it.index() && #[trigger] items[j] == x,
    {
        if !right.contains(id) {
            rest.insert(*id);
        }
    }
    proof {
        assert forall|x: NodeId| rest@.contains(x) <==> left@.difference(right@).contains(x) by {
            if left@.contains(x) {
                assert(items.contains(x));
            }
        }
        assert(rest@ =~= left@.difference(right@));
    }
    rest
}

/// The identifiers that are in both sets.
pub fn intersection(left: &NodeSet, right: &NodeSet) -> (common: NodeSet)
    ensures
        common@ == left@.intersect(right@),
{
    let mut common = NodeSet::new();
    let ghost items = left.iter().remaining().unref();
    for id in it: left.iter()
        invariant
            it.seq().unref() == items,
            items.to_set() == left@,
            forall|x: NodeId|
                common@.contains(x) <==> right@.contains(x) && exists|j: int|
                    0 <= j < it.index() && #[trigger] items[j] == x,
    {
        if right.contains(id) {
            common.insert(*id);
        }
    }
    proof {
        assert forall|x: NodeId| common@.contains(x) <==> left@.intersect(right@).contains(x) by {
            if left@.contains(x) {
                assert(items.contains(x));
            }
        }
        assert(common@ =~= left@.intersect(right@));
    }
    common
}

/// Adds every identifier of `more` to `target`.
pub fn add_all(target: &mut NodeSet, more: &NodeSet)
    ensures
        final(target)@ == old(target)@.union(more@),
{
    let ghost items = more.iter().remaining().unref();
    for id in it: more.iter()
        invariant
            it.seq().unref() == items,
            items.to_set() == more@,
            forall|x: NodeId|
                target@.contains(x) <==> old(target)@.contains(x) || exists|j: int|
                    0 <= j < it.index() && #[trigger] items[j] == x,
    {
        target.insert(*id);
    }
    proof {
        assert forall|x: NodeId| target@.contains(x) <==> old(target)@.union(more@).contains(x) by {
            if more@.contains(x) {
                assert(items.contains(x));
            }
        }
        assert(target@ =~= old(target)@.union(more@));
    }
}

/// Takes every identifier of `gone` out of `target`.
pub fn remove_all(target: &mut NodeSet, gone: &NodeSet)
    ensures
        final(target)@ == old(target)@.difference(gone@),
{
    let ghost items = gone.iter().remaining().unref();
    for id in it: gone.iter()
        invariant
            it.seq().unref() == items,
            items.to_set() == gone@,
            forall|x: NodeId|
                target@.contains(x) <==> old(target)@.contains(x) && !exists|j: int|
                    0 <= j < it.index() && #[trigger] items[j] == x,
    {
        target.remove(id);
    }
    proof {
        assert forall|x: NodeId| target@.contains(x) <==> old(target)@.difference(gone@).contains(x) by {
            if gone@.contains(x) {
                assert(items.contains(x));
            }
        }
        assert(target@ =~= old(target)@.difference(gone@));
    }
}

} // verus!
