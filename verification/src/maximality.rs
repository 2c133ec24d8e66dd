//! Why a matching without an augmenting path is a maximum matching.
//!
//! The vertices that alternating trails reach from the free rows split the
//! graph: every edge has its row outside that region or its column inside
//! it, each such vertex is matched, and no edge of the matching has both.
//! Sending each edge of any other matching to the matching edge at that
//! vertex is therefore one-to-one, so the other matching is no larger.

use vstd::prelude::*;
use vstd::relations::injective_on;
use vstd::set_lib::{lemma_len_subset, lemma_map_size};
use crate::matching::{
    column_matched, column_reachable, frontier, has_no_augmenting_path, is_alternating_trail,
    is_augmenting_path, is_matching, is_matching_of, is_maximum_matching, lemma_trail_prefix,
    lemma_trail_push, linked, row_matched, row_reachable, Edge, Vertex,
};

verus! {

/// Along an edge outside the matching, a reachable row leads to a reachable column.
proof fn lemma_reach_column_by_free_edge(g: Set<Edge>, m: Set<Edge>, e: Edge)
    requires
        row_reachable(g, m, e.0),
        g.contains(e),
        !m.contains(e),
    ensures
        column_reachable(g, m, e.1),
{
    let (start, t): (Vertex, Seq<Edge>) = choose|start: Vertex, t: Seq<Edge>|
        #[trigger] is_alternating_trail(g, m, start, t) && t.len() % 2 == 0 && frontier(start, t)
            == e.0;
    if t.contains(e) {
        let j = choose|j: int| 0 <= j < t.len() && t[j] == e;
        let p = t.take(j + 1);
        lemma_trail_prefix(g, m, start, t, j + 1);
        assert(p.last() == e);
        assert(is_alternating_trail(g, m, start, p) && p.len() % 2 == 1 && frontier(start, p)
            == e.1);
    } else {
        lemma_trail_push(g, m, start, t, e);
        let p = t.push(e);
        assert(p.last() == e);
        assert(is_alternating_trail(g, m, start, p) && p.len() % 2 == 1 && frontier(start, p)
            == e.1);
    }
}

/// Along an edge of the matching, a reachable column leads to a reachable row.
proof fn lemma_reach_row_by_matched_edge(g: Set<Edge>, m: Set<Edge>, e: Edge)
    requires
        column_reachable(g, m, e.1),
        g.contains(e),
        m.contains(e),
    ensures
        row_reachable(g, m, e.0),
{
    let (start, t): (Vertex, Seq<Edge>) = choose|start: Vertex, t: Seq<Edge>|
        #[trigger] is_alternating_trail(g, m, start, t) && t.len() % 2 == 1 && frontier(start, t)
            == e.1;
    if t.contains(e) {
        let j = choose|j: int| 0 <= j < t.len() && t[j] == e;
        let p = t.take(j + 1);
        lemma_trail_prefix(g, m, start, t, j + 1);
        assert(p.last() == e);
        assert(is_alternating_trail(g, m, start, p) && p.len() % 2 == 0 && frontier(start, p)
            == e.0);
    } else {
        lemma_trail_push(g, m, start, t, e);
        let p = t.push(e);
        assert(p.last() == e);
        assert(is_alternating_trail(g, m, start, p) && p.len() % 2 == 0 && frontier(start, p)
            == e.0);
    }
}

/// A reachable row that is matched was reached through its partner column.
proof fn lemma_reach_column_by_matched_edge(g: Set<Edge>, m: Set<Edge>, e: Edge)
    requires
        is_matching(m),
        row_reachable(g, m, e.0),
        m.contains(e),
    ensures
        column_reachable(g, m, e.1),
{
    let (start, t): (Vertex, Seq<Edge>) = choose|start: Vertex, t: Seq<Edge>|
        #[trigger] is_alternating_trail(g, m, start, t) && t.len() % 2 == 0 && frontier(start, t)
            == e.0;
    if t.len() == 0 {
        assert(m.contains((start, e.1)));
        assert(row_matched(m, start));
    } else {
        let n = t.len() - 1;
        assert(m.contains(t[n]));
        assert(t[n] == e);
        assert(linked(start, t, n));
        let p = t.take(n);
        lemma_trail_prefix(g, m, start, t, n);
        assert(p.last() == t[n - 1]);
        assert(is_alternating_trail(g, m, start, p) && p.len() % 2 == 1 && frontier(start, p)
            == e.1);
    }
}

/// The edge of `m` that answers for the edge `e` of another matching: the
/// one at the row of `e` where that row is out of reach, else the one at
/// its column.
spec fn witness_edge(g: Set<Edge>, m: Set<Edge>, e: Edge) -> Edge {
    if !row_reachable(g, m, e.0) {
        (e.0, choose|c: Vertex| m.contains((e.0, c)))
    } else {
        (choose|r: Vertex| m.contains((r, e.1)), e.1)
    }
}

/// Every graph edge has its witness in the matching; where its row is
/// reachable, so is its column.
proof fn lemma_witness_in_matching(g: Set<Edge>, m: Set<Edge>, e: Edge)
    requires
        is_matching_of(g, m),
        has_no_augmenting_path(g, m),
        g.contains(e),
    ensures
        m.contains(witness_edge(g, m, e)),
        row_reachable(g, m, e.0) ==> column_reachable(g, m, e.1),
{
    if !row_reachable(g, m, e.0) {
        if !row_matched(m, e.0) {
            let t = Seq::<Edge>::empty();
            assert(is_alternating_trail(g, m, e.0, t) && t.len() % 2 == 0 && frontier(e.0, t)
                == e.0);
        }
    } else {
        if m.contains(e) {
            lemma_reach_column_by_matched_edge(g, m, e);
        } else {
            lemma_reach_column_by_free_edge(g, m, e);
        }
        if !column_matched(m, e.1) {
            let (start, t): (Vertex, Seq<Edge>) = choose|start: Vertex, t: Seq<Edge>|
                #[trigger] is_alternating_trail(g, m, start, t) && t.len() % 2 == 1 && frontier(
                    start,
                    t,
                ) == e.1;
            assert(is_augmenting_path(g, m, start, t));
        }
    }
}

/// A matching that admits no augmenting path is a maximum matching.
pub proof fn lemma_no_augmenting_path_is_maximum(g: Set<Edge>, m: Set<Edge>)
    requires
        is_matching_of(g, m),
        has_no_augmenting_path(g, m),
    ensures
        is_maximum_matching(g, m),
{
    assert forall|o: Set<Edge>| #[trigger] is_matching_of(g, o) implies o.len() <= m.len() by {
        let f = |e: Edge| witness_edge(g, m, e);
        assert forall|a: Edge, b: Edge|
            o.contains(a) && o.contains(b) && #[trigger] f(a) == #[trigger] f(b) implies a
            == b by {
            lemma_witness_in_matching(g, m, a);
            lemma_witness_in_matching(g, m, b);
            let ra = row_reachable(g, m, a.0);
            let rb = row_reachable(g, m, b.0);
            if ra && !rb {
                let w = f(a);
                assert(w.1 == a.1 && w.0 == b.0);
                lemma_reach_row_by_matched_edge(g, m, w);
            } else if !ra && rb {
                let w = f(b);
                assert(w.1 == b.1 && w.0 == a.0);
                lemma_reach_row_by_matched_edge(g, m, w);
            }
        }
        assert(injective_on(f, o));
        let image = o.map(f);
        lemma_map_size(o, image, f);
        assert forall|w: Edge| image.contains(w) implies m.contains(w) by {
            let e = choose|e: Edge| o.contains(e) && w == f(e);
            lemma_witness_in_matching(g, m, e);
        }
        lemma_len_subset(image, m);
    }
}

} // verus!
