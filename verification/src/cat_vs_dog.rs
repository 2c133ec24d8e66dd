//! The answer for one show: its voters, less a maximum matching of their
//! conflicts.
//!
//! Two voters are in conflict when their votes cannot both be honoured.
//! Voters who favor the same species never are, so the conflicts form a
//! bipartite graph between the cat lovers and the dog lovers.  The answer
//! computed here is the number of voters minus the size of a maximum
//! matching of that graph.

use vstd::prelude::*;
use crate::bipartite_matchings::BipartiteGraph;
use crate::matching::{maximum_matching_size, Edge};
use crate::voter_input::{
    ballots, ballots_of, compatible, favoring, get_voter_list, lemma_ballots_of_len,
    lemma_favoring_splits, lines_of, Ballot, Species, Voter,
};

verus! {

/// The pairs of a cat lover and a dog lover, by their positions, whose
/// votes cannot both be honoured.
pub open spec fn conflicts(cat_lovers: Seq<Ballot>, dog_lovers: Seq<Ballot>) -> Set<Edge> {
    Set::new(
        |e: Edge|
            e.0 < cat_lovers.len() && e.1 < dog_lovers.len() && !compatible(
                cat_lovers[e.0 as int],
                dog_lovers[e.1 as int],
            ),
    )
}

/// The answer for the first `voter_count` votes that `lines` hold: their
/// number, less the size of a maximum matching of their conflicts.
pub open spec fn satisfied_voters(
    lines: Seq<Seq<char>>,
    cat_count: usize,
    dog_count: usize,
    voter_count: usize,
) -> int {
    let all = ballots_of(lines, cat_count, dog_count, voter_count as nat);
    all.len() - maximum_matching_size(
        conflicts(favoring(all, Species::Cat), favoring(all, Species::Dog)),
    )
}

/// The graph of the conflicts between the given cat lovers and dog lovers.
pub fn conflict_graph(cat_lovers: &Vec<Voter>, dog_lovers: &Vec<Voter>) -> (graph: BipartiteGraph)
    ensures
        graph.wf(),
        graph.row_count() == cat_lovers@.len(),
        graph.column_count() == dog_lovers@.len(),
        graph.edges() == conflicts(ballots(cat_lovers@), ballots(dog_lovers@)),
{
    let in_conflict = |a: &Voter, b: &Voter| -> (conflict: bool)
        ensures
            conflict == !compatible(a@, b@),
        { !a.is_compatible(b) };
    let graph = BipartiteGraph::from_closure(
        cat_lovers.as_slice(),
        dog_lovers.as_slice(),
        in_conflict,
    );
    proof {
        assert forall|e: Edge|
            graph.edges().contains(e) <==> conflicts(
                ballots(cat_lovers@),
                ballots(dog_lovers@),
            ).contains(e) by {
            if graph.connects(e.0 as int, e.1 as int) {
                graph.lemma_connects_in_range(e.0 as int, e.1 as int);
            }
            if e.0 < cat_lovers@.len() && e.1 < dog_lovers@.len() {
                assert(call_ensures(
                    in_conflict,
                    (&cat_lovers@[e.0 as int], &dog_lovers@[e.1 as int]),
                    graph.connects(e.0 as int, e.1 as int),
                ));
            }
        }
        assert(graph.edges() =~= conflicts(ballots(cat_lovers@), ballots(dog_lovers@)));
    }
    graph
}

/// Reads the first `voter_count` votes that `lines` hold and returns their
/// number, less the size of a maximum matching of their conflicts.
pub fn run_test_case(
    lines: &Vec<String>,
    cat_count: usize,
    dog_count: usize,
    voter_count: usize,
) -> (satisfied: usize)
    ensures
        satisfied == satisfied_voters(lines_of(lines@), cat_count, dog_count, voter_count),
{
    let (cat_lovers, dog_lovers) = get_voter_list(lines, cat_count, dog_count, voter_count);
    let graph = conflict_graph(&cat_lovers, &dog_lovers);
    proof {
        let all = ballots_of(lines_of(lines@), cat_count, dog_count, voter_count as nat);
        lemma_ballots_of_len(lines_of(lines@), cat_count, dog_count, voter_count as nat);
        lemma_favoring_splits(all);
    }
    cat_lovers.len() + dog_lovers.len() - graph.get_max_matching_size()
}

} // verus!
