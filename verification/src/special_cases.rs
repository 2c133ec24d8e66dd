//! Graphs whose maximum matching size is plain to see: those without
//! edges, and those in which every row is joined with every column.

use vstd::prelude::*;
use crate::bipartite_matchings::BipartiteGraph;
use crate::matching::{
    is_matching_of, is_maximum_matching, is_maximum_matching_size,
    lemma_maximum_matching_size_unique, maximum_matching_size, Edge,
};

verus! {

/// The edges that join the row `i` with the column `i`, for `i` below `n`.
pub open spec fn diagonal(n: nat) -> Set<Edge> {
    Set::new(|e: Edge| e.0 == e.1 && e.0 < n)
}

/// The diagonal below `n` has `n` edges.
proof fn lemma_diagonal_size(n: nat)
    requires
        n <= usize::MAX,
    ensures
        diagonal(n).finite(),
        diagonal(n).len() == n,
    decreases n,
{
    if n == 0 {
        assert(diagonal(0) =~= Set::<Edge>::empty());
    } else {
        lemma_diagonal_size((n - 1) as nat);
        let last: Edge = ((n - 1) as usize, (n - 1) as usize);
        assert(diagonal(n) =~= diagonal((n - 1) as nat).insert(last));
    }
}

/// A graph without edges has no matching but the empty one.
pub proof fn lemma_no_edges_no_matching(g: Set<Edge>)
    requires
        forall|e: Edge| !g.contains(e),
    ensures
        maximum_matching_size(g) == 0,
{
    let none = Set::<Edge>::empty();
    assert forall|o: Set<Edge>| #[trigger] is_matching_of(g, o) implies o.len() <= none.len() by {
        assert(o =~= none);
    }
    assert(is_matching_of(g, none));
    assert(is_maximum_matching(g, none));
    assert(is_maximum_matching_size(g, 0));
    lemma_maximum_matching_size_unique(g, 0);
}

/// A graph without rows, or without columns, has maximum matching size 0.
pub proof fn lemma_no_rows_or_no_columns(graph: BipartiteGraph)
    requires
        graph.row_count() == 0 || graph.column_count() == 0,
    ensures
        maximum_matching_size(graph.edges()) == 0,
{
    assert forall|e: Edge| !graph.edges().contains(e) by {
        if graph.connects(e.0 as int, e.1 as int) {
            graph.lemma_connects_in_range(e.0 as int, e.1 as int);
        }
    }
    lemma_no_edges_no_matching(graph.edges());
}

/// A graph that the predicate always answered with "no" has maximum
/// matching size 0.
pub proof fn lemma_nothing_joined(graph: BipartiteGraph)
    requires
        forall|r: int, c: int| !graph.connects(r, c),
    ensures
        maximum_matching_size(graph.edges()) == 0,
{
    lemma_no_edges_no_matching(graph.edges());
}

/// In a graph that joins every row with every column, a maximum matching
/// has as many edges as there are rows, or columns if these are fewer.
/// With `n` rows and `n` columns that is `n`.
pub proof fn lemma_everything_joined(graph: BipartiteGraph)
    requires
        forall|r: int, c: int|
            0 <= r < graph.row_count() && 0 <= c < graph.column_count() ==> graph.connects(r, c),
    ensures
        maximum_matching_size(graph.edges()) == if graph.row_count() <= graph.column_count() {
            graph.row_count()
        } else {
            graph.column_count()
        },
{
    let n = if graph.row_count() <= graph.column_count() {
        graph.row_count()
    } else {
        graph.column_count()
    };
    graph.lemma_dimensions_fit();
    lemma_diagonal_size(n);
    let d = diagonal(n);
    assert(is_matching_of(graph.edges(), d));
    assert forall|o: Set<Edge>| #[trigger] is_matching_of(graph.edges(), o) implies o.len()
        <= d.len() by {
        graph.lemma_matching_fits(o);
    }
    assert(is_maximum_matching(graph.edges(), d));
    assert(is_maximum_matching_size(graph.edges(), n));
    lemma_maximum_matching_size_unique(graph.edges(), n);
}

} // verus!
