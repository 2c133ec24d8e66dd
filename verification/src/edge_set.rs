//! Ordered sets of edges and the few operations on them that the search
//! for a matching needs.

use std::collections::BTreeSet;
use vstd::prelude::*;
use vstd::std_specs::iter::IteratorSpec;
use crate::matching::{column_matched, symmetric_difference, Edge, Vertex};

verus! {

/// A set of edges, kept in ascending order of row, then of column.
pub type EdgeSet = BTreeSet<Edge>;

/// Puts `edge` into `set`.
pub fn insert_edge(set: &mut EdgeSet, edge: Edge)
    ensures
        final(set)@ == old(set)@.insert(edge),
{
    broadcast use vstd::laws_cmp::group_laws_cmp;

    set.insert(edge);
}

/// Whether `edge` is in `set`.
pub fn contains_edge(set: &EdgeSet, edge: Edge) -> (found: bool)
    ensures
        found == set@.contains(edge),
{
    broadcast use vstd::laws_cmp::group_laws_cmp;

    set.contains(&edge)
}

/// The number of edges in `set`.
pub fn edge_count(set: &EdgeSet) -> (count: usize)
    ensures
        count == set@.len(),
{
    broadcast use vstd::laws_cmp::group_laws_cmp;

    set.len()
}

/// Whether some edge of `matching` ends in the column `column`.
pub fn is_column_matched(matching: &EdgeSet, column: Vertex) -> (found: bool)
    ensures
        found == column_matched(matching@, column),
{
    broadcast use vstd::laws_cmp::group_laws_cmp;

    let mut found = false;
    for edge in walk: matching.iter()
        invariant
            walk.seq().unref().to_set() == matching@,
            found ==> column_matched(matching@, column),
            !found ==> forall|i: int| 0 <= i < walk.index() ==> (#[trigger] walk.seq()[i]).1 != column,
    {
        if edge.1 == column {
            proof {
                assert(walk.seq().unref()[walk.index()] == *edge);
                assert(walk.seq().unref().to_set().contains(*edge));
                assert(matching@.contains((edge.0, column)));
            }
            found = true;
        }
    }
    found
}

/// Adds to `into` the edges of `from` that are not in `except`.
fn insert_difference(into: &mut EdgeSet, from: &EdgeSet, except: &EdgeSet)
    requires
        old(into)@.finite(),
    ensures
        final(into)@ == old(into)@.union(from@.difference(except@)),
        final(into)@.finite(),
{
    broadcast use vstd::laws_cmp::group_laws_cmp;

    proof {
        assert forall|e: Edge| from@.contains(e) implies exists|i: int|
            0 <= i < from.iter().remaining().len() && *(#[trigger] from.iter().remaining()[i])
                == e by {
            let items = from.iter().remaining().unref();
            assert(items.to_set().contains(e));
            let i = choose|i: int| 0 <= i < items.len() && items[i] == e;
            assert(*from.iter().remaining()[i] == e);
        }
    }
    for edge in walk: from.iter()
        invariant
            walk.seq().unref().to_set() == from@,
            into@.finite(),
            into@.subset_of(old(into)@.union(from@.difference(except@))),
            old(into)@.subset_of(into@),
            forall|e: Edge|
                from@.contains(e) && !except@.contains(e) && !into@.contains(e) ==> exists|i: int|
                    walk.index() <= i < walk.seq().len() && *(#[trigger] walk.seq()[i]) == e,
    {
        proof {
            assert(walk.seq().unref()[walk.index()] == *edge);
            assert(walk.seq().unref().to_set().contains(*edge));
        }
        if !except.contains(edge) {
            into.insert(*edge);
        }
    }
    assert(into@ =~= old(into)@.union(from@.difference(except@)));
}

/// The edges that lie in exactly one of `a` and `b`.
pub fn symmetric_difference_of(a: &EdgeSet, b: &EdgeSet) -> (both: EdgeSet)
    ensures
        both@ == symmetric_difference(a@, b@),
        both@.finite(),
{
    let mut both: EdgeSet = BTreeSet::new();
    insert_difference(&mut both, a, b);
    insert_difference(&mut both, b, a);
    assert(both@ =~= symmetric_difference(a@, b@));
    both
}

} // verus!
