//! The mathematics of bipartite matchings: what a matching is, what an
//! alternating trail and an augmenting path are, and which matchings are
//! maximum.  Everything here is ghost code over sets and sequences of edges.

use vstd::prelude::*;
use vstd::relations::injective_on;
use vstd::set_lib::{lemma_int_range, lemma_len_subset, lemma_map_size, set_int_range};

verus! {

/// A zero-based index into the rows or into the columns of a graph.
pub type Vertex = usize;

/// An edge joins the row `.0` with the column `.1`.
pub type Edge = (Vertex, Vertex);

/// No two distinct edges of `m` share a row, and none share a column.
pub open spec fn is_matching(m: Set<Edge>) -> bool {
    forall|a: Edge, b: Edge|
        #[trigger] m.contains(a) && #[trigger] m.contains(b) && (a.0 == b.0 || a.1 == b.1) ==> a
            == b
}

/// `m` is a finite matching made of edges of the graph `g`.
pub open spec fn is_matching_of(g: Set<Edge>, m: Set<Edge>) -> bool {
    &&& m.finite()
    &&& m.subset_of(g)
    &&& is_matching(m)
}

/// Some edge of `m` touches the row `r`.
pub open spec fn row_matched(m: Set<Edge>, r: Vertex) -> bool {
    exists|c: Vertex| m.contains((r, c))
}

/// Some edge of `m` touches the column `c`.
pub open spec fn column_matched(m: Set<Edge>, c: Vertex) -> bool {
    exists|r: Vertex| m.contains((r, c))
}

/// A matching of `g` that no other matching of `g` exceeds in size.
pub open spec fn is_maximum_matching(g: Set<Edge>, m: Set<Edge>) -> bool {
    &&& is_matching_of(g, m)
    &&& forall|o: Set<Edge>| #[trigger] is_matching_of(g, o) ==> o.len() <= m.len()
}

/// Some maximum matching of `g` has exactly `k` edges.
pub open spec fn is_maximum_matching_size(g: Set<Edge>, k: nat) -> bool {
    exists|m: Set<Edge>| #[trigger] is_maximum_matching(g, m) && m.len() == k
}

/// The size that `g` allows a matching to reach.
pub open spec fn maximum_matching_size(g: Set<Edge>) -> nat {
    choose|k: nat| is_maximum_matching_size(g, k)
}

/// The edges that lie in exactly one of the two sets.
pub open spec fn symmetric_difference(a: Set<Edge>, b: Set<Edge>) -> Set<Edge> {
    a.difference(b).union(b.difference(a))
}

/// The vertex at which a walk stands after it left the row `start` along
/// `t`: a column after an odd number of edges, a row after an even number.
pub open spec fn frontier(start: Vertex, t: Seq<Edge>) -> Vertex {
    if t.len() == 0 {
        start
    } else if t.len() % 2 == 1 {
        t.last().1
    } else {
        t.last().0
    }
}

/// The edge at position `i` leaves the vertex that the edges before it reached.
pub open spec fn linked(start: Vertex, t: Seq<Edge>, i: int) -> bool {
    if i == 0 {
        t[0].0 == start
    } else if i % 2 == 1 {
        t[i].1 == t[i - 1].1
    } else {
        t[i].0 == t[i - 1].0
    }
}

/// `t` walks through `g` from the unmatched row `start`, uses no edge twice,
/// and takes by turns an edge outside `m` (first, third, ...) and an edge of
/// `m` (second, fourth, ...).
pub open spec fn is_alternating_trail(g: Set<Edge>, m: Set<Edge>, start: Vertex, t: Seq<Edge>) -> bool {
    &&& !row_matched(m, start)
    &&& t.no_duplicates()
    &&& forall|i: int| 0 <= i < t.len() ==> g.contains(#[trigger] t[i])
    &&& forall|i: int| 0 <= i < t.len() ==> (m.contains(#[trigger] t[i]) <==> i % 2 == 1)
    &&& forall|i: int| 0 <= i < t.len() ==> #[trigger] linked(start, t, i)
}

/// An alternating trail that ends in a column which `m` leaves free.
pub open spec fn is_augmenting_path(g: Set<Edge>, m: Set<Edge>, start: Vertex, t: Seq<Edge>) -> bool {
    &&& is_alternating_trail(g, m, start, t)
    &&& t.len() % 2 == 1
    &&& !column_matched(m, t.last().1)
}

/// No augmenting path from `start` begins with the edges of `prefix`.
pub open spec fn no_augmenting_extension(
    g: Set<Edge>,
    m: Set<Edge>,
    start: Vertex,
    prefix: Seq<Edge>,
) -> bool {
    forall|t: Seq<Edge>| #[trigger] is_augmenting_path(g, m, start, t) ==> !prefix.is_prefix_of(t)
}

/// No augmenting path sets out from the row `start`.
pub open spec fn no_augmenting_path_from(g: Set<Edge>, m: Set<Edge>, start: Vertex) -> bool {
    forall|t: Seq<Edge>| !#[trigger] is_augmenting_path(g, m, start, t)
}

/// `m` admits no augmenting path at all.
pub open spec fn has_no_augmenting_path(g: Set<Edge>, m: Set<Edge>) -> bool {
    forall|start: Vertex, t: Seq<Edge>| !#[trigger] is_augmenting_path(g, m, start, t)
}

/// The row `r` can be reached from a free row along an alternating trail.
pub open spec fn row_reachable(g: Set<Edge>, m: Set<Edge>, r: Vertex) -> bool {
    exists|start: Vertex, t: Seq<Edge>|
        #[trigger] is_alternating_trail(g, m, start, t) && t.len() % 2 == 0 && frontier(start, t)
            == r
}

/// The column `c` can be reached from a free row along an alternating trail.
pub open spec fn column_reachable(g: Set<Edge>, m: Set<Edge>, c: Vertex) -> bool {
    exists|start: Vertex, t: Seq<Edge>|
        #[trigger] is_alternating_trail(g, m, start, t) && t.len() % 2 == 1 && frontier(start, t)
            == c
}

/// Every start of an alternating trail is one again.
pub proof fn lemma_trail_prefix(g: Set<Edge>, m: Set<Edge>, start: Vertex, t: Seq<Edge>, n: int)
    requires
        is_alternating_trail(g, m, start, t),
        0 <= n <= t.len(),
    ensures
        is_alternating_trail(g, m, start, t.take(n)),
{
    let p = t.take(n);
    assert forall|i: int| 0 <= i < p.len() implies #[trigger] linked(start, p, i) by {
        assert(linked(start, t, i));
    }
    assert forall|i: int| 0 <= i < p.len() implies g.contains(#[trigger] p[i]) by {
        assert(p[i] == t[i]);
    }
    assert forall|i: int| 0 <= i < p.len() implies (m.contains(#[trigger] p[i]) <==> i % 2 == 1) by {
        assert(p[i] == t[i]);
    }
}

/// An alternating trail may go on along an edge that it has not used, that
/// leaves its frontier, and that lies in `m` exactly when its turn asks so.
pub proof fn lemma_trail_push(g: Set<Edge>, m: Set<Edge>, start: Vertex, t: Seq<Edge>, e: Edge)
    requires
        is_alternating_trail(g, m, start, t),
        g.contains(e),
        !t.contains(e),
        m.contains(e) <==> t.len() % 2 == 1,
        if t.len() % 2 == 1 {
            e.1 == frontier(start, t)
        } else {
            e.0 == frontier(start, t)
        },
    ensures
        is_alternating_trail(g, m, start, t.push(e)),
{
    let p = t.push(e);
    assert forall|i: int| 0 <= i < p.len() implies #[trigger] linked(start, p, i) by {
        if i < t.len() {
            assert(linked(start, t, i));
        }
    }
    assert forall|i: int| 0 <= i < p.len() implies g.contains(#[trigger] p[i]) by {
        if i < t.len() {
            assert(p[i] == t[i]);
        }
    }
    assert forall|i: int| 0 <= i < p.len() implies (m.contains(#[trigger] p[i]) <==> i % 2 == 1) by {
        if i < t.len() {
            assert(p[i] == t[i]);
        }
    }
    assert forall|i: int, j: int| 0 <= i < p.len() && 0 <= j < p.len() && i != j implies p[i]
        != p[j] by {
        if i < t.len() && j < t.len() {
            assert(t[i] != t[j]);
        } else if i < t.len() {
            assert(t.contains(t[i]));
        } else {
            assert(t.contains(t[j]));
        }
    }
}

/// A matching whose edges all lie in the first `rows` rows and the first
/// `columns` columns has at most `rows` edges and at most `columns` edges.
pub proof fn lemma_matching_size_bound(m: Set<Edge>, rows: nat, columns: nat)
    requires
        m.finite(),
        is_matching(m),
        forall|e: Edge| m.contains(e) ==> e.0 < rows && e.1 < columns,
    ensures
        m.len() <= rows,
        m.len() <= columns,
{
    let row_of = |e: Edge| e.0 as int;
    let column_of = |e: Edge| e.1 as int;
    assert(injective_on(row_of, m));
    assert(injective_on(column_of, m));
    lemma_map_size(m, m.map(row_of), row_of);
    lemma_map_size(m, m.map(column_of), column_of);
    lemma_int_range(0, rows as int);
    lemma_int_range(0, columns as int);
    assert(m.map(row_of).subset_of(set_int_range(0, rows as int)));
    assert(m.map(column_of).subset_of(set_int_range(0, columns as int)));
    lemma_len_subset(m.map(row_of), set_int_range(0, rows as int));
    lemma_len_subset(m.map(column_of), set_int_range(0, columns as int));
}

/// All maximum matchings of a graph have the same size, so a size that one
/// of them has is the maximum matching size of the graph.
pub proof fn lemma_maximum_matching_size_unique(g: Set<Edge>, k: nat)
    requires
        is_maximum_matching_size(g, k),
    ensures
        maximum_matching_size(g) == k,
{
    let other = maximum_matching_size(g);
    assert(is_maximum_matching_size(g, other));
    let m = choose|m: Set<Edge>| #[trigger] is_maximum_matching(g, m) && m.len() == k;
    let o = choose|o: Set<Edge>| #[trigger] is_maximum_matching(g, o) && o.len() == other;
    assert(is_matching_of(g, m));
    assert(is_matching_of(g, o));
}

/// A graph has one maximum matching size only: whoever asks for it twice
/// gets the same answer twice.
pub proof fn lemma_one_maximum_matching_size(g: Set<Edge>, first: nat, second: nat)
    requires
        is_maximum_matching_size(g, first),
        is_maximum_matching_size(g, second),
    ensures
        first == second,
{
    lemma_maximum_matching_size_unique(g, first);
    lemma_maximum_matching_size_unique(g, second);
}

} // verus!
