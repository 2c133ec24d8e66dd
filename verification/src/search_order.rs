//! The order in which the depth-first search meets the augmenting paths,
//! and so which of them it returns.
//!
//! From every vertex the search tries the edges in ascending order of
//! their other end.  Of two paths from the same row, it therefore meets
//! first the one that, where the two part, goes to the vertex with the
//! smaller index.

use vstd::prelude::*;
use crate::matching::{
    column_matched, has_no_augmenting_path, is_augmenting_path, linked, no_augmenting_path_from,
    symmetric_difference, Edge, Vertex,
};

verus! {

/// The end at which an edge is left, when it is the edge at position
/// `position` of a walk that set out from a row: the column for the first,
/// third, ... edge, the row for the others.
pub open spec fn far_end(e: Edge, position: int) -> Vertex {
    if position % 2 == 0 {
        e.1
    } else {
        e.0
    }
}

/// The walks `a` and `b` part at some position, and `a` goes on to the
/// vertex with the smaller index there.
pub open spec fn comes_before(a: Seq<Edge>, b: Seq<Edge>) -> bool {
    exists|d: int|
        0 <= d < a.len() && d < b.len() && #[trigger] a.take(d) == b.take(d) && far_end(a[d], d)
            < far_end(b[d], d)
}

/// `t` is an augmenting path that begins with `prefix`, and it comes
/// before every other such path.
pub open spec fn first_among_extensions(
    g: Set<Edge>,
    m: Set<Edge>,
    start: Vertex,
    prefix: Seq<Edge>,
    t: Seq<Edge>,
) -> bool {
    &&& is_augmenting_path(g, m, start, t)
    &&& prefix.is_prefix_of(t)
    &&& forall|o: Seq<Edge>| #[trigger]
        is_augmenting_path(g, m, start, o) && prefix.is_prefix_of(o) ==> o == t || comes_before(
            t,
            o,
        )
}

/// `t` is the augmenting path from `start` that comes before all others.
pub open spec fn is_first_augmenting_path(
    g: Set<Edge>,
    m: Set<Edge>,
    start: Vertex,
    t: Seq<Edge>,
) -> bool {
    first_among_extensions(g, m, start, Seq::<Edge>::empty(), t)
}

/// The augmenting path from `start` that comes before all others, where
/// there is an augmenting path from `start`.
pub open spec fn first_augmenting_path(g: Set<Edge>, m: Set<Edge>, start: Vertex) -> Seq<Edge> {
    choose|t: Seq<Edge>| is_first_augmenting_path(g, m, start, t)
}

/// `start` is the row with the smallest index from which there is an
/// augmenting path.
pub open spec fn is_first_augmenting_row(g: Set<Edge>, m: Set<Edge>, start: Vertex) -> bool {
    &&& !no_augmenting_path_from(g, m, start)
    &&& forall|r: Vertex| r < start ==> no_augmenting_path_from(g, m, r)
}

/// The row with the smallest index from which there is an augmenting
/// path, where there is an augmenting path at all.
pub open spec fn first_augmenting_row(g: Set<Edge>, m: Set<Edge>) -> Vertex {
    choose|start: Vertex| is_first_augmenting_row(g, m, start)
}

/// The augmenting path by which the search enlarges the matching `m`:
/// the first one from the first row that has one.
pub open spec fn next_augmenting_path(g: Set<Edge>, m: Set<Edge>) -> Seq<Edge> {
    first_augmenting_path(g, m, first_augmenting_row(g, m))
}

/// The matching `m` after the exchange along its next augmenting path.
pub open spec fn augmented(g: Set<Edge>, m: Set<Edge>) -> Set<Edge> {
    symmetric_difference(m, next_augmenting_path(g, m).to_set())
}

/// The matching that `m` grows into, augmented along its next augmenting
/// path for as long as it has one, but no more than `steps` times.
pub open spec fn grown(g: Set<Edge>, m: Set<Edge>, steps: nat) -> Set<Edge>
    decreases steps,
{
    if steps == 0 || has_no_augmenting_path(g, m) {
        m
    } else {
        grown(g, augmented(g, m), (steps - 1) as nat)
    }
}

/// An augmenting path ends where it stands: no augmenting path goes on
/// beyond it.
pub proof fn lemma_augmenting_path_cannot_go_on(
    g: Set<Edge>,
    m: Set<Edge>,
    start: Vertex,
    t: Seq<Edge>,
    o: Seq<Edge>,
)
    requires
        is_augmenting_path(g, m, start, t),
        is_augmenting_path(g, m, start, o),
        t.is_prefix_of(o),
    ensures
        o == t,
{
    if o.len() > t.len() {
        let n = t.len() as int;
        assert(linked(start, o, n));
        assert(m.contains(o[n]));
        assert(o[n - 1] == t[n - 1]);
        assert(o[n] == (o[n].0, t.last().1));
        assert(m.contains((o[n].0, t.last().1)));
        assert(column_matched(m, t.last().1));
    }
    assert(o =~= t);
}

/// Of two walks, at most one comes before the other.
pub proof fn lemma_comes_before_one_way(a: Seq<Edge>, b: Seq<Edge>)
    requires
        comes_before(a, b),
    ensures
        !comes_before(b, a),
        a != b,
{
    let d = choose|d: int|
        0 <= d < a.len() && d < b.len() && #[trigger] a.take(d) == b.take(d) && far_end(a[d], d)
            < far_end(b[d], d);
    if comes_before(b, a) {
        let k = choose|k: int|
            0 <= k < b.len() && k < a.len() && #[trigger] b.take(k) == a.take(k) && far_end(
                b[k],
                k,
            ) < far_end(a[k], k);
        if d < k {
            assert(b.take(k)[d] == a.take(k)[d]);
        } else if k < d {
            assert(a.take(d)[k] == b.take(d)[k]);
        }
    }
}

/// There is only one first augmenting path among those that begin with
/// `prefix`.
pub proof fn lemma_first_among_extensions_unique(
    g: Set<Edge>,
    m: Set<Edge>,
    start: Vertex,
    prefix: Seq<Edge>,
    t: Seq<Edge>,
    o: Seq<Edge>,
)
    requires
        first_among_extensions(g, m, start, prefix, t),
        first_among_extensions(g, m, start, prefix, o),
    ensures
        t == o,
{
    if t != o {
        assert(comes_before(t, o));
        assert(comes_before(o, t));
        lemma_comes_before_one_way(t, o);
    }
}

/// A path that is the first from `start` is the first augmenting path
/// from `start`.
pub proof fn lemma_first_augmenting_path_is(
    g: Set<Edge>,
    m: Set<Edge>,
    start: Vertex,
    t: Seq<Edge>,
)
    requires
        is_first_augmenting_path(g, m, start, t),
    ensures
        first_augmenting_path(g, m, start) == t,
{
    let chosen = first_augmenting_path(g, m, start);
    lemma_first_among_extensions_unique(g, m, start, Seq::<Edge>::empty(), t, chosen);
}

/// A row that is the first with an augmenting path is the first
/// augmenting row.
pub proof fn lemma_first_augmenting_row_is(g: Set<Edge>, m: Set<Edge>, start: Vertex)
    requires
        is_first_augmenting_row(g, m, start),
    ensures
        first_augmenting_row(g, m) == start,
{
    let chosen = first_augmenting_row(g, m);
    assert(is_first_augmenting_row(g, m, chosen));
}

} // verus!
