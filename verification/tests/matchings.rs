use bipartite::bipartite_matchings::{BipartiteGraph, Path};
use bipartite::edge_set::{
    contains_edge, edge_count, insert_edge, is_column_matched, symmetric_difference_of, EdgeSet,
};

fn graph_of(rows: usize, columns: usize, edges: &[(usize, usize)]) -> BipartiteGraph {
    let mut graph = BipartiteGraph::new(rows, columns);
    for &(row, column) in edges {
        graph.set_edge(row, column, true);
    }
    graph
}

fn set_of(edges: &[(usize, usize)]) -> EdgeSet {
    let mut set = EdgeSet::new();
    for &edge in edges {
        insert_edge(&mut set, edge);
    }
    set
}

fn is_valid_matching(graph: &BipartiteGraph, matching: &EdgeSet) -> bool {
    let (rows, columns) = graph.dimensions();
    let edges: Vec<(usize, usize)> = matching.iter().cloned().collect();
    for (i, a) in edges.iter().enumerate() {
        if a.0 >= rows || a.1 >= columns || !graph.has_edge(a.0, a.1) {
            return false;
        }
        for b in edges.iter().skip(i + 1) {
            if a.0 == b.0 || a.1 == b.1 {
                return false;
            }
        }
    }
    true
}

fn largest_from(graph: &BipartiteGraph, row: usize, used: &mut Vec<bool>) -> usize {
    let (rows, columns) = graph.dimensions();
    if row == rows {
        return 0;
    }
    let mut best = largest_from(graph, row + 1, used);
    for column in 0..columns {
        if graph.has_edge(row, column) && !used[column] {
            used[column] = true;
            best = best.max(1 + largest_from(graph, row + 1, used));
            used[column] = false;
        }
    }
    best
}

fn largest_by_enumeration(graph: &BipartiteGraph) -> usize {
    let (_, columns) = graph.dimensions();
    largest_from(graph, 0, &mut vec![false; columns])
}

#[test]
fn test_graph_creation() {
    let rows = &[0usize; 10];
    let columns = &[0usize; 10];

    let graph = BipartiteGraph::from_closure(rows, columns, |_x, _y| true);

    assert_eq!(graph.get_max_matching_size(), 10);
}

#[test]
fn complete_graphs_match_every_vertex() {
    for n in 0..7usize {
        let items: Vec<usize> = (0..n).collect();
        let graph = BipartiteGraph::from_closure(&items, &items, |_, _| true);
        assert_eq!(graph.dimensions(), (n, n));
        assert_eq!(graph.get_max_matching_size(), n);
    }
}

#[test]
fn permutation_is_matched_whole() {
    let items = [0usize, 1, 2];
    let graph = BipartiteGraph::from_closure(&items, &items, |row, column| row == column);
    assert_eq!(graph.get_max_matching_size(), 3);
    assert_eq!(graph.get_max_matching(), set_of(&[(0, 0), (1, 1), (2, 2)]));
}

#[test]
fn search_gives_way_to_the_second_row() {
    let graph = graph_of(2, 3, &[(0, 0), (0, 1), (1, 0)]);
    assert_eq!(graph.get_max_matching_size(), 2);
    assert_eq!(graph.get_max_matching(), set_of(&[(0, 1), (1, 0)]));
}

#[test]
fn single_row_without_edges() {
    let graph = BipartiteGraph::new(1, 4);
    assert_eq!(graph.get_max_matching_size(), 0);
    let rows = [7usize];
    let columns: [usize; 0] = [];
    let graph = BipartiteGraph::from_closure(&rows, &columns, |_, _| true);
    assert_eq!(graph.dimensions(), (1, 0));
    assert_eq!(graph.get_max_matching_size(), 0);
}

#[test]
fn no_rows_or_no_columns() {
    let none: [u8; 0] = [];
    let some = [1u8, 2, 3];
    assert_eq!(BipartiteGraph::from_closure(&none, &some, |_, _| true).get_max_matching_size(), 0);
    assert_eq!(BipartiteGraph::from_closure(&some, &none, |_, _| true).get_max_matching_size(), 0);
    assert_eq!(BipartiteGraph::from_closure(&none, &none, |_, _| true).get_max_matching_size(), 0);
    assert_eq!(BipartiteGraph::new(0, 5).get_max_matching_size(), 0);
    assert_eq!(BipartiteGraph::new(5, 0).get_max_matching_size(), 0);
    assert!(BipartiteGraph::new(0, 0).get_max_matching().is_empty());
}

#[test]
fn no_edges_no_matching() {
    let items = [1u32, 2, 3, 4];
    let graph = BipartiteGraph::from_closure(&items, &items[..3], |_, _| false);
    assert_eq!(graph.dimensions(), (4, 3));
    assert_eq!(graph.get_max_matching_size(), 0);
    assert!(graph.get_max_matching().is_empty());
}

#[test]
fn closure_sees_the_items_in_row_major_order() {
    let rows = ["a", "b"];
    let columns = [10u32, 20, 30];
    let seen = std::cell::RefCell::new(Vec::new());
    let graph = BipartiteGraph::from_closure(&rows, &columns, |row, column| {
        seen.borrow_mut().push((*row, *column));
        *row == "b" && *column != 20
    });
    assert_eq!(
        seen.into_inner(),
        vec![("a", 10), ("a", 20), ("a", 30), ("b", 10), ("b", 20), ("b", 30)]
    );
    assert_eq!(graph.dimensions(), (2, 3));
    for row in 0..2 {
        for column in 0..3 {
            assert_eq!(graph.has_edge(row, column), row == 1 && column != 1);
        }
    }
    assert_eq!(graph.get_max_matching_size(), 1);
}

#[test]
fn set_edge_changes_one_cell() {
    let mut graph = BipartiteGraph::new(3, 2);
    assert_eq!(graph.dimensions(), (3, 2));
    graph.set_edge(2, 1, true);
    graph.set_edge(0, 0, true);
    graph.set_edge(1, 0, true);
    graph.set_edge(1, 0, false);
    for row in 0..3 {
        for column in 0..2 {
            assert_eq!(graph.has_edge(row, column), (row, column) == (2, 1) || (row, column) == (0, 0));
        }
    }
    assert_eq!(graph.get_edges(0, false), vec![(0, 0)]);
    assert_eq!(graph.get_edges(1, false), vec![]);
    assert_eq!(graph.get_edges(1, true), vec![(2, 1)]);
}

#[test]
fn incident_edges_come_in_ascending_order() {
    let graph = graph_of(3, 4, &[(1, 3), (1, 0), (1, 2), (0, 2), (2, 2)]);
    assert_eq!(graph.get_edges(1, false), vec![(1, 0), (1, 2), (1, 3)]);
    assert_eq!(graph.get_edges(2, true), vec![(0, 2), (1, 2), (2, 2)]);
    assert_eq!(graph.get_edges(1, true), vec![]);
}

#[test]
fn unmatched_rows_are_listed_in_order() {
    let graph = graph_of(4, 4, &[(0, 0), (1, 1), (2, 2), (3, 3)]);
    let matching = set_of(&[(2, 2), (0, 0)]);
    assert!(graph.is_row_matched(&matching, 0));
    assert!(!graph.is_row_matched(&matching, 1));
    assert!(graph.is_row_matched(&matching, 2));
    assert_eq!(graph.get_unmatched_rows(&matching), vec![1, 3]);
    assert_eq!(graph.get_unmatched_rows(&EdgeSet::new()), vec![0, 1, 2, 3]);
    assert!(is_column_matched(&matching, 2));
    assert!(!is_column_matched(&matching, 1));
}

#[test]
fn path_follows_its_edges() {
    let mut path = Path::new(4);
    assert_eq!(path.get_current(), 4);
    assert!(!path.is_odd_length());
    assert!(!path.has_edge((4, 1)));
    path.add_edge((4, 1));
    assert_eq!(path.get_current(), 1);
    assert!(path.is_odd_length());
    assert!(path.has_edge((4, 1)));
    path.add_edge((2, 1));
    assert_eq!(path.get_current(), 2);
    assert!(!path.is_odd_length());
    assert!(path.has_edge((2, 1)));
    assert!(!path.has_edge((1, 2)));
    assert_eq!(path.get_edge_set(), set_of(&[(2, 1), (4, 1)]));
    path.remove_edge();
    assert_eq!(path.get_current(), 1);
    assert_eq!(path.get_edge_set(), set_of(&[(4, 1)]));
    path.remove_edge();
    path.remove_edge();
    assert_eq!(path.get_current(), 4);
    assert!(path.get_edge_set().is_empty());
}

#[test]
fn edge_sets_behave_as_sets() {
    let mut set = EdgeSet::new();
    assert_eq!(edge_count(&set), 0);
    insert_edge(&mut set, (3, 1));
    insert_edge(&mut set, (0, 2));
    insert_edge(&mut set, (3, 1));
    assert_eq!(edge_count(&set), 2);
    assert!(contains_edge(&set, (0, 2)));
    assert!(!contains_edge(&set, (2, 0)));
    assert_eq!(set.iter().cloned().collect::<Vec<_>>(), vec![(0, 2), (3, 1)]);
}

#[test]
fn symmetric_difference_keeps_what_one_side_has() {
    let a = set_of(&[(0, 0), (1, 1), (2, 2)]);
    let b = set_of(&[(1, 1), (2, 3), (0, 1)]);
    assert_eq!(symmetric_difference_of(&a, &b), set_of(&[(0, 0), (0, 1), (2, 2), (2, 3)]));
    assert_eq!(symmetric_difference_of(&a, &a), EdgeSet::new());
    assert_eq!(symmetric_difference_of(&a, &EdgeSet::new()), a);
    assert_eq!(symmetric_difference_of(&EdgeSet::new(), &b), b);
}

#[test]
fn search_finds_the_first_path_in_order() {
    let graph = graph_of(2, 3, &[(0, 0), (0, 1), (1, 0)]);
    let empty = EdgeSet::new();
    assert_eq!(graph.try_augmenting_path(&empty, 0), Some(set_of(&[(0, 0)])));
    assert_eq!(graph.try_augmenting_path(&empty, 1), Some(set_of(&[(1, 0)])));
    assert_eq!(graph.get_augmenting_path(&empty), Some(set_of(&[(0, 0)])));

    let matching = set_of(&[(0, 0)]);
    assert_eq!(
        graph.try_augmenting_path(&matching, 1),
        Some(set_of(&[(1, 0), (0, 0), (0, 1)]))
    );
    let mut path = Path::new(1);
    let found = graph.search_path(&matching, &mut path);
    assert_eq!(found, Some(set_of(&[(0, 0), (0, 1), (1, 0)])));
    assert_eq!(path.get_current(), 1);
    assert!(path.is_odd_length());
    assert!(path.has_edge((0, 1)));

    let full = set_of(&[(0, 1), (1, 0)]);
    assert_eq!(graph.get_augmenting_path(&full), None);
}

#[test]
fn failed_search_leaves_the_path_alone() {
    let graph = graph_of(3, 2, &[(0, 0), (1, 0), (2, 0), (2, 1)]);
    let matching = set_of(&[(0, 0), (2, 1)]);
    let mut path = Path::new(1);
    assert_eq!(graph.search_path(&matching, &mut path), None);
    assert_eq!(path.get_current(), 1);
    assert!(!path.is_odd_length());
    assert!(path.get_edge_set().is_empty());
    assert_eq!(graph.try_augmenting_path(&matching, 1), None);
    assert_eq!(graph.get_augmenting_path(&matching), None);
    assert_eq!(graph.max_matching_size(&matching), 2);
}

#[test]
fn search_ends_on_alternating_cycles() {
    let graph = graph_of(3, 2, &[(0, 0), (0, 1), (1, 0), (1, 1), (2, 0), (2, 1)]);
    let matching = set_of(&[(0, 0), (1, 1)]);
    assert_eq!(graph.try_augmenting_path(&matching, 2), None);
    assert_eq!(graph.get_max_matching_size(), 2);
}

#[test]
fn each_augmentation_adds_one_edge() {
    let graph = graph_of(
        4,
        4,
        &[(0, 0), (0, 1), (1, 0), (1, 2), (2, 1), (2, 3), (3, 2), (3, 3), (3, 0)],
    );
    let mut matching = EdgeSet::new();
    let mut sizes = vec![edge_count(&matching)];
    while let Some(path) = graph.get_augmenting_path(&matching) {
        assert_eq!(path.len() % 2, 1);
        let next = symmetric_difference_of(&matching, &path);
        assert_eq!(edge_count(&next), edge_count(&matching) + 1);
        assert!(is_valid_matching(&graph, &next));
        matching = next;
        sizes.push(edge_count(&matching));
    }
    assert_eq!(sizes, vec![0, 1, 2, 3, 4]);
    assert_eq!(graph.get_max_matching_size(), 4);
}

#[test]
fn growing_from_a_given_matching() {
    let graph = graph_of(3, 3, &[(0, 0), (0, 1), (1, 1), (1, 2), (2, 2)]);
    assert_eq!(graph.max_matching_size(&EdgeSet::new()), 3);
    assert_eq!(graph.max_matching_size(&set_of(&[(0, 1), (1, 2)])), 3);
    assert_eq!(graph.max_matching_size(&set_of(&[(0, 0), (1, 1), (2, 2)])), 3);
}

#[test]
fn size_agrees_with_enumeration_on_small_graphs() {
    for rows in 0..4usize {
        for columns in 0..4usize {
            let cells = rows * columns;
            for mask in 0..(1u32 << cells) {
                let mut graph = BipartiteGraph::new(rows, columns);
                for cell in 0..cells {
                    if mask & (1 << cell) != 0 {
                        graph.set_edge(cell / columns, cell % columns, true);
                    }
                }
                let expected = largest_by_enumeration(&graph);
                let size = graph.get_max_matching_size();
                assert_eq!(size, expected);
                assert!(size <= rows.min(columns));
                let matching = graph.get_max_matching();
                assert_eq!(matching.len(), expected);
                assert!(is_valid_matching(&graph, &matching));
                assert_eq!(graph.get_augmenting_path(&matching), None);
            }
        }
    }
}

#[test]
fn size_agrees_with_enumeration_on_larger_graphs() {
    let mut state: u64 = 0x2545_f491_4f6c_dd1d;
    for round in 0..60usize {
        let rows = 3 + round % 4;
        let columns = 2 + round % 5;
        let mut graph = BipartiteGraph::new(rows, columns);
        for row in 0..rows {
            for column in 0..columns {
                state ^= state << 13;
                state ^= state >> 7;
                state ^= state << 17;
                if state % 3 == 0 {
                    graph.set_edge(row, column, true);
                }
            }
        }
        let expected = largest_by_enumeration(&graph);
        assert_eq!(graph.get_max_matching_size(), expected);
        assert!(expected <= rows.min(columns));
        assert!(is_valid_matching(&graph, &graph.get_max_matching()));
    }
}

#[test]
fn asking_twice_gives_the_same_answer() {
    let graph = graph_of(3, 4, &[(0, 1), (0, 3), (1, 1), (2, 1), (2, 0)]);
    let first = graph.get_max_matching_size();
    let second = graph.get_max_matching_size();
    assert_eq!(first, 3);
    assert_eq!(first, second);
    assert_eq!(graph.get_max_matching(), graph.get_max_matching());
    assert_eq!(graph.dimensions(), (3, 4));
    assert!(graph.has_edge(2, 0));
}
