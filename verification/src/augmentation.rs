//! What an augmenting path does to a matching: exchanging the edges of the
//! path that lie in the matching for those that do not gives a matching
//! again, larger by one edge.

use vstd::prelude::*;
use vstd::set_lib::lemma_len_subset;
use crate::matching::{
    column_matched, is_alternating_trail, is_augmenting_path, is_matching, is_matching_of, linked,
    row_matched, symmetric_difference, Edge, Vertex,
};

verus! {

/// Exchanging the first `k` edges of a trail changes the size of the
/// matching by one after an odd number of edges and by nothing after an
/// even number.
proof fn lemma_exchange_len(m: Set<Edge>, t: Seq<Edge>, k: int)
    requires
        m.finite(),
        t.no_duplicates(),
        forall|i: int| 0 <= i < t.len() ==> (m.contains(#[trigger] t[i]) <==> i % 2 == 1),
        0 <= k <= t.len(),
    ensures
        symmetric_difference(m, t.take(k).to_set()).finite(),
        symmetric_difference(m, t.take(k).to_set()).len() == m.len() + k % 2,
    decreases k,
{
    if k == 0 {
        assert(t.take(0).to_set() =~= Set::<Edge>::empty());
        assert(symmetric_difference(m, t.take(0).to_set()) =~= m);
    } else {
        lemma_exchange_len(m, t, k - 1);
        let e = t[k - 1];
        let shorter = t.take(k - 1);
        let longer = t.take(k);
        let before = symmetric_difference(m, shorter.to_set());
        let after = symmetric_difference(m, longer.to_set());
        assert(!shorter.contains(e)) by {
            if shorter.contains(e) {
                let j = choose|j: int| 0 <= j < shorter.len() && shorter[j] == e;
                assert(t[j] == t[k - 1]);
            }
        }
        assert forall|x: Edge| longer.to_set().contains(x) <==> (shorter.to_set().contains(x) || x
            == e) by {
            if shorter.contains(x) {
                let j = choose|j: int| 0 <= j < shorter.len() && shorter[j] == x;
                assert(longer[j] == x);
            }
            if x == e {
                assert(longer[k - 1] == x);
            }
            if longer.contains(x) {
                let j = choose|j: int| 0 <= j < longer.len() && longer[j] == x;
                if j < k - 1 {
                    assert(shorter[j] == x);
                }
            }
        }
        if (k - 1) % 2 == 1 {
            assert(before.contains(e));
            assert(after =~= before.remove(e));
        } else {
            assert(!before.contains(e));
            assert(after =~= before.insert(e));
        }
    }
}

/// The edges of an augmenting path that lie outside the matching have
/// pairwise different rows and pairwise different columns.
proof fn lemma_free_edges_apart(g: Set<Edge>, m: Set<Edge>, start: Vertex, t: Seq<Edge>, i: int, j: int)
    requires
        is_matching(m),
        is_augmenting_path(g, m, start, t),
        0 <= i < j < t.len(),
        i % 2 == 0,
        j % 2 == 0,
    ensures
        t[i].0 != t[j].0,
        t[i].1 != t[j].1,
{
    assert(linked(start, t, j));
    assert(linked(start, t, i));
    assert(m.contains(t[j - 1]));
    assert(t[j - 1] == (t[j].0, t[j - 1].1));
    if i == 0 {
        if t[i].0 == t[j].0 {
            assert(m.contains((start, t[j - 1].1)));
            assert(row_matched(m, start));
        }
    } else {
        assert(m.contains(t[i - 1]));
        assert(t[i - 1] != t[j - 1]);
    }
    assert(linked(start, t, i + 1));
    assert(m.contains(t[i + 1]));
    if j == t.len() - 1 {
        if t[i].1 == t[j].1 {
            assert(t[i + 1] == (t[i + 1].0, t.last().1));
            assert(m.contains((t[i + 1].0, t.last().1)));
            assert(column_matched(m, t.last().1));
        }
    } else {
        assert(linked(start, t, j + 1));
        assert(m.contains(t[j + 1]));
        assert(t[i + 1] != t[j + 1]);
    }
}

/// An edge of the matching that the augmenting path does not use shares
/// neither row nor column with an edge of the path that lies outside the
/// matching.
proof fn lemma_kept_edge_apart(g: Set<Edge>, m: Set<Edge>, start: Vertex, t: Seq<Edge>, a: Edge, j: int)
    requires
        is_matching(m),
        is_augmenting_path(g, m, start, t),
        m.contains(a),
        !t.contains(a),
        0 <= j < t.len(),
        j % 2 == 0,
    ensures
        a.0 != t[j].0,
        a.1 != t[j].1,
{
    assert(linked(start, t, j));
    if j == 0 {
        if a.0 == t[j].0 {
            assert(m.contains((start, a.1)));
            assert(row_matched(m, start));
        }
    } else {
        assert(m.contains(t[j - 1]));
        assert(t.contains(t[j - 1]));
    }
    if j == t.len() - 1 {
        if a.1 == t[j].1 {
            assert(m.contains((a.0, t.last().1)));
            assert(column_matched(m, t.last().1));
        }
    } else {
        assert(linked(start, t, j + 1));
        assert(m.contains(t[j + 1]));
        assert(t.contains(t[j + 1]));
    }
}

/// Exchanging the edges of an augmenting path turns a matching of `g` into
/// a matching of `g` with exactly one edge more.
pub proof fn lemma_augmentation_grows_by_one(g: Set<Edge>, m: Set<Edge>, start: Vertex, t: Seq<Edge>)
    requires
        is_matching_of(g, m),
        is_augmenting_path(g, m, start, t),
    ensures
        is_matching_of(g, symmetric_difference(m, t.to_set())),
        symmetric_difference(m, t.to_set()).len() == m.len() + 1,
{
    let grown = symmetric_difference(m, t.to_set());
    assert(t.take(t.len() as int) =~= t);
    lemma_exchange_len(m, t, t.len() as int);
    assert forall|x: Edge| grown.contains(x) implies g.contains(x) by {
        if t.contains(x) {
            let j = choose|j: int| 0 <= j < t.len() && t[j] == x;
        }
    }
    assert forall|a: Edge, b: Edge|
        #[trigger] grown.contains(a) && #[trigger] grown.contains(b) && (a.0 == b.0 || a.1
            == b.1) implies a == b by {
        if t.contains(a) && t.contains(b) {
            let i = choose|i: int| 0 <= i < t.len() && t[i] == a;
            let j = choose|j: int| 0 <= j < t.len() && t[j] == b;
            if i < j {
                lemma_free_edges_apart(g, m, start, t, i, j);
            } else if j < i {
                lemma_free_edges_apart(g, m, start, t, j, i);
            }
        } else if t.contains(a) {
            let i = choose|i: int| 0 <= i < t.len() && t[i] == a;
            lemma_kept_edge_apart(g, m, start, t, b, i);
        } else if t.contains(b) {
            let j = choose|j: int| 0 <= j < t.len() && t[j] == b;
            lemma_kept_edge_apart(g, m, start, t, a, j);
        }
    }
}

/// An alternating trail uses each edge of the matching at most once, so it
/// is at most twice as long as the matching is large, and one edge more.
pub proof fn lemma_trail_length_bound(g: Set<Edge>, m: Set<Edge>, start: Vertex, t: Seq<Edge>)
    requires
        m.finite(),
        is_alternating_trail(g, m, start, t),
    ensures
        t.len() <= 2 * m.len() + 1,
{
    let matched = Seq::new((t.len() / 2) as nat, |i: int| t[2 * i + 1]);
    assert forall|i: int, j: int|
        0 <= i < matched.len() && 0 <= j < matched.len() && i != j implies matched[i]
        != matched[j] by {
        assert(t[2 * i + 1] != t[2 * j + 1]);
    }
    matched.unique_seq_to_set();
    assert forall|x: Edge| matched.to_set().contains(x) implies m.contains(x) by {
        let i = choose|i: int| 0 <= i < matched.len() && matched[i] == x;
        assert(m.contains(t[2 * i + 1]));
    }
    lemma_len_subset(matched.to_set(), m);
}

} // verus!
