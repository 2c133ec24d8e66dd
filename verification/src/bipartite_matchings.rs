//! Dense bipartite graphs and the search for a maximum matching by
//! augmenting paths.

use std::collections::BTreeSet;
use vstd::prelude::*;
use crate::augmentation::{lemma_augmentation_grows_by_one, lemma_trail_length_bound};
use crate::edge_set::{
    contains_edge, edge_count, insert_edge, is_column_matched, symmetric_difference_of, EdgeSet,
};
use crate::matching::{
    frontier, has_no_augmenting_path, is_alternating_trail, is_augmenting_path, is_matching_of,
    is_maximum_matching, is_maximum_matching_size, lemma_matching_size_bound,
    lemma_maximum_matching_size_unique, lemma_trail_push, linked, maximum_matching_size,
    no_augmenting_extension, no_augmenting_path_from, row_matched, Edge, Vertex,
};
use crate::maximality::lemma_no_augmenting_path_is_maximum;
use crate::search_order::{
    augmented, comes_before, far_end, first_among_extensions, first_augmenting_path,
    first_augmenting_row, grown, is_first_augmenting_path, is_first_augmenting_row,
    lemma_augmenting_path_cannot_go_on, lemma_first_augmenting_path_is,
    lemma_first_augmenting_row_is, next_augmenting_path,
};

verus! {

/// The cell of `(row, column)` in a row-major table with `columns` columns
/// lies inside a table of `rows` rows.
proof fn lemma_cell_in_table(rows: int, columns: int, row: int, column: int)
    requires
        0 <= row < rows,
        0 <= column < columns,
    ensures
        0 <= row * columns + column < rows * columns,
        0 <= row * columns <= rows * columns,
{
    assert(row * columns + columns == (row + 1) * columns) by (nonlinear_arith);
    assert((row + 1) * columns <= rows * columns) by (nonlinear_arith)
        requires
            row + 1 <= rows,
            0 <= columns,
    ;
    assert(0 <= row * columns) by (nonlinear_arith)
        requires
            0 <= row,
            0 <= columns,
    ;
}

/// Two different pairs have different cells.
proof fn lemma_cells_differ(columns: int, r1: int, c1: int, r2: int, c2: int)
    requires
        0 <= r1,
        0 <= r2,
        0 <= c1 < columns,
        0 <= c2 < columns,
        r1 * columns + c1 == r2 * columns + c2,
    ensures
        r1 == r2,
        c1 == c2,
{
    if r1 < r2 {
        assert(r1 * columns + columns <= r2 * columns) by (nonlinear_arith)
            requires
                r1 + 1 <= r2,
                0 <= columns,
        ;
    } else if r2 < r1 {
        assert(r2 * columns + columns <= r1 * columns) by (nonlinear_arith)
            requires
                r2 + 1 <= r1,
                0 <= columns,
        ;
    }
}

/// A walk under construction: the row it started from and the edges taken
/// so far, in order.
pub struct Path {
    starting_row: Vertex,
    trace: Vec<Edge>,
}

impl Path {
    /// The row from which the walk set out.
    pub closed spec fn start(&self) -> Vertex {
        self.starting_row
    }

    /// The edges taken so far, the first one first.
    pub closed spec fn edges(&self) -> Seq<Edge> {
        self.trace@
    }

    /// The walk that stands at `start` and has taken no edge.
    pub fn new(start: Vertex) -> (path: Path)
        ensures
            path.start() == start,
            path.edges() == Seq::<Edge>::empty(),
    {
        Path { starting_row: start, trace: Vec::new() }
    }

    /// The vertex at which the walk stands: the starting row before the
    /// first edge, the column of the last edge after an odd number of
    /// edges, its row after an even number.
    pub fn get_current(&self) -> (vertex: Vertex)
        ensures
            vertex == frontier(self.start(), self.edges()),
    {
        let path_length: usize = self.trace.len();
        if path_length > 0 {
            let (row, col) = self.trace[path_length - 1];
            if self.is_odd_length() {
                col
            } else {
                row
            }
        } else {
            self.starting_row
        }
    }

    /// Whether the walk has taken an odd number of edges, that is, whether
    /// it stands at a column.
    pub fn is_odd_length(&self) -> (odd: bool)
        ensures
            odd == (self.edges().len() % 2 == 1),
    {
        self.trace.len() % 2 == 1
    }

    /// Whether the walk has taken the edge `edge`.
    pub fn has_edge(&self, edge: Edge) -> (found: bool)
        ensures
            found == self.edges().contains(edge),
    {
        let mut k: usize = 0;
        while k < self.trace.len()
            invariant
                k <= self.trace@.len(),
                forall|i: int| 0 <= i < k ==> self.trace@[i] != edge,
            decreases self.trace@.len() - k,
        {
            let taken: Edge = self.trace[k];
            if taken.0 == edge.0 && taken.1 == edge.1 {
                return true;
            }
            k += 1;
        }
        false
    }

    /// Takes one more edge.
    pub fn add_edge(&mut self, edge: Edge)
        ensures
            final(self).start() == old(self).start(),
            final(self).edges() == old(self).edges().push(edge),
    {
        self.trace.push(edge);
    }

    /// Takes back the last edge, if there is one.
    pub fn remove_edge(&mut self)
        ensures
            final(self).start() == old(self).start(),
            final(self).edges() == if old(self).edges().len() > 0 {
                old(self).edges().drop_last()
            } else {
                old(self).edges()
            },
    {
        self.trace.pop();
    }

    /// The edges taken so far, as a set.
    pub fn get_edge_set(&self) -> (set: EdgeSet)
        ensures
            set@ == self.edges().to_set(),
            set@.finite(),
    {
        let mut set: EdgeSet = BTreeSet::new();
        let mut k: usize = 0;
        while k < self.trace.len()
            invariant
                k <= self.trace@.len(),
                set@ == self.trace@.take(k as int).to_set(),
                set@.finite(),
            decreases self.trace@.len() - k,
        {
            let taken: Edge = self.trace[k];
            insert_edge(&mut set, taken);
            proof {
                let shorter = self.trace@.take(k as int);
                let longer = self.trace@.take(k + 1);
                assert(longer == shorter.push(taken));
                assert forall|e: Edge| longer.to_set().contains(e) <==> shorter.to_set().insert(
                    taken,
                ).contains(e) by {
                    if shorter.contains(e) {
                        let i = choose|i: int| 0 <= i < shorter.len() && shorter[i] == e;
                        assert(longer[i] == e);
                    }
                    if e == taken {
                        assert(longer[k as int] == e);
                    }
                    if longer.contains(e) {
                        let i = choose|i: int| 0 <= i < longer.len() && longer[i] == e;
                        if i < k {
                            assert(shorter[i] == e);
                        }
                    }
                }
                assert(longer.to_set() =~= shorter.to_set().insert(taken));
            }
            k += 1;
        }
        proof {
            assert(self.trace@.take(self.trace@.len() as int) == self.trace@);
        }
        set
    }
}

/// A bipartite graph over `rows` row vertices and `columns` column
/// vertices, held as a dense row-major table of which pairs are joined.
pub struct BipartiteGraph {
    rows: usize,
    columns: usize,
    incidence_matrix: Vec<bool>,
}

impl BipartiteGraph {
    /// The number of row vertices.
    pub closed spec fn row_count(&self) -> nat {
        self.rows as nat
    }

    /// The number of column vertices.
    pub closed spec fn column_count(&self) -> nat {
        self.columns as nat
    }

    /// The table has one cell for each pair of a row and a column.
    pub closed spec fn wf(&self) -> bool {
        &&& self.incidence_matrix@.len() == self.rows * self.columns
        &&& self.rows * self.columns <= usize::MAX
    }

    /// The graph joins the row `row` with the column `column`.
    pub closed spec fn connects(&self, row: int, column: int) -> bool {
        &&& 0 <= row < self.rows
        &&& 0 <= column < self.columns
        &&& self.incidence_matrix@[row * self.columns + column]
    }

    /// The edges of the graph, as a set.
    pub open spec fn edges(&self) -> Set<Edge> {
        Set::new(|e: Edge| self.connects(e.0 as int, e.1 as int))
    }

    /// Only pairs inside the table are joined.
    pub proof fn lemma_connects_in_range(&self, row: int, column: int)
        requires
            self.connects(row, column),
        ensures
            0 <= row < self.row_count(),
            0 <= column < self.column_count(),
    {
    }

    /// The numbers of rows and of columns fit the machine word.
    pub proof fn lemma_dimensions_fit(&self)
        ensures
            self.row_count() <= usize::MAX,
            self.column_count() <= usize::MAX,
    {
    }

    /// A graph of the given size without any edge.
    pub fn new(rows: usize, columns: usize) -> (graph: BipartiteGraph)
        requires
            rows * columns <= usize::MAX,
        ensures
            graph.wf(),
            graph.row_count() == rows,
            graph.column_count() == columns,
            forall|r: int, c: int| !graph.connects(r, c),
    {
        let mut cells: Vec<bool> = Vec::new();
        let size: usize = rows * columns;
        let mut filled: usize = 0;
        while filled < size
            invariant
                filled <= size,
                cells@.len() == filled,
                forall|k: int| 0 <= k < filled ==> !cells@[k],
            decreases size - filled,
        {
            cells.push(false);
            filled += 1;
        }
        let graph = BipartiteGraph { rows, columns, incidence_matrix: cells };
        proof {
            assert forall|r: int, c: int| !graph.connects(r, c) by {
                if 0 <= r < rows && 0 <= c < columns {
                    lemma_cell_in_table(rows as int, columns as int, r, c);
                }
            }
        }
        graph
    }

    /// The graph over the given row and column items in which the row at
    /// position `i` and the column at position `j` are joined exactly when
    /// `closure` says so of the two items.  The pairs are examined row by
    /// row, each row from its first column to its last.
    pub fn from_closure<R, C, F: Fn(&R, &C) -> bool>(rows: &[R], columns: &[C], closure: F) -> (graph:
        BipartiteGraph)
        requires
            forall|i: int, j: int|
                0 <= i < rows@.len() && 0 <= j < columns@.len() ==> call_requires(
                    closure,
                    (&rows@[i], &columns@[j]),
                ),
        ensures
            graph.wf(),
            graph.row_count() == rows@.len(),
            graph.column_count() == columns@.len(),
            forall|i: int, j: int|
                0 <= i < rows@.len() && 0 <= j < columns@.len() ==> call_ensures(
                    closure,
                    (&rows@[i], &columns@[j]),
                    #[trigger] graph.connects(i, j),
                ),
    {
        let mut cells: Vec<bool> = Vec::new();
        let row_total: usize = rows.len();
        let column_total: usize = columns.len();
        let mut i: usize = 0;
        while i < row_total
            invariant
                row_total == rows@.len(),
                column_total == columns@.len(),
                i <= row_total,
                cells@.len() == i * column_total,
                forall|r: int, c: int|
                    0 <= r < rows@.len() && 0 <= c < columns@.len() ==> call_requires(
                        closure,
                        (&rows@[r], &columns@[c]),
                    ),
                forall|r: int, c: int|
                    0 <= r < i && 0 <= c < column_total ==> call_ensures(
                        closure,
                        (&rows@[r], &columns@[c]),
                        #[trigger] cells@[r * column_total + c],
                    ),
            decreases row_total - i,
        {
            let mut j: usize = 0;
            while j < column_total
                invariant
                    row_total == rows@.len(),
                    column_total == columns@.len(),
                    i < row_total,
                    j <= column_total,
                    cells@.len() == i * column_total + j,
                    forall|r: int, c: int|
                        0 <= r < rows@.len() && 0 <= c < columns@.len() ==> call_requires(
                            closure,
                            (&rows@[r], &columns@[c]),
                        ),
                    forall|r: int, c: int|
                        0 <= r < i && 0 <= c < column_total ==> call_ensures(
                            closure,
                            (&rows@[r], &columns@[c]),
                            #[trigger] cells@[r * column_total + c],
                        ),
                    forall|c: int|
                        0 <= c < j ==> call_ensures(
                            closure,
                            (&rows@[i as int], &columns@[c]),
                            #[trigger] cells@[i * column_total + c],
                        ),
                decreases column_total - j,
            {
                let joined = closure(&rows[i], &columns[j]);
                let ghost before = cells@;
                cells.push(joined);
                proof {
                    assert forall|r: int, c: int| 0 <= r < i && 0 <= c < column_total implies call_ensures(
                        closure,
                        (&rows@[r], &columns@[c]),
                        #[trigger] cells@[r * column_total + c],
                    ) by {
                        lemma_cell_in_table(i as int, column_total as int, r, c);
                        assert(cells@[r * column_total + c] == before[r * column_total + c]);
                    }
                    assert forall|c: int| 0 <= c < j + 1 implies call_ensures(
                        closure,
                        (&rows@[i as int], &columns@[c]),
                        #[trigger] cells@[i * column_total + c],
                    ) by {
                        if c < j {
                            assert(cells@[i * column_total + c] == before[i * column_total + c]);
                        }
                    }
                }
                j += 1;
            }
            proof {
                assert(i * column_total + column_total == (i + 1) * column_total)
                    by (nonlinear_arith);
                assert forall|r: int, c: int| 0 <= r < i + 1 && 0 <= c < column_total implies call_ensures(
                    closure,
                    (&rows@[r], &columns@[c]),
                    #[trigger] cells@[r * column_total + c],
                ) by {
                    if r == i {
                        assert(call_ensures(
                            closure,
                            (&rows@[i as int], &columns@[c]),
                            cells@[i * column_total + c],
                        ));
                    }
                }
            }
            i += 1;
        }
        assert(cells.len() == row_total * column_total);
        BipartiteGraph { rows: row_total, columns: column_total, incidence_matrix: cells }
    }

    /// The numbers of rows and of columns.
    pub fn dimensions(&self) -> (size: (usize, usize))
        ensures
            size.0 == self.row_count(),
            size.1 == self.column_count(),
    {
        (self.rows, self.columns)
    }

    /// Whether the row `row` and the column `column` are joined.
    pub fn has_edge(&self, row: Vertex, column: Vertex) -> (present: bool)
        requires
            self.wf(),
            row < self.row_count(),
            column < self.column_count(),
        ensures
            present == self.connects(row as int, column as int),
            present == self.edges().contains((row, column)),
    {
        proof {
            lemma_cell_in_table(self.rows as int, self.columns as int, row as int, column as int);
        }
        self.incidence_matrix[row * self.columns + column]
    }

    /// Joins the row `row` and the column `column`, or parts them, and
    /// leaves every other pair as it was.
    pub fn set_edge(&mut self, row: Vertex, column: Vertex, present: bool)
        requires
            old(self).wf(),
            row < old(self).row_count(),
            column < old(self).column_count(),
        ensures
            final(self).wf(),
            final(self).row_count() == old(self).row_count(),
            final(self).column_count() == old(self).column_count(),
            forall|r: int, c: int|
                #[trigger] final(self).connects(r, c) == if r == row && c == column {
                    present
                } else {
                    old(self).connects(r, c)
                },
    {
        proof {
            lemma_cell_in_table(self.rows as int, self.columns as int, row as int, column as int);
        }
        let ghost before = *self;
        let cell: usize = row * self.columns + column;
        self.incidence_matrix.set(cell, present);
        proof {
            assert forall|r: int, c: int|
                #[trigger] self.connects(r, c) == if r == row && c == column {
                    present
                } else {
                    before.connects(r, c)
                } by {
                if 0 <= r < self.rows && 0 <= c < self.columns {
                    lemma_cell_in_table(self.rows as int, self.columns as int, r, c);
                    if r * self.columns + c == cell {
                        lemma_cells_differ(self.columns as int, r, c, row as int, column as int);
                    }
                }
            }
        }
    }

    /// Some edge of `m` joins the row `row` with a column of this graph.
    pub open spec fn row_taken(&self, m: Set<Edge>, row: Vertex) -> bool {
        exists|c: Vertex| c < self.column_count() && m.contains((row, c))
    }

    /// Among edges of this graph, a row is taken exactly when it is matched.
    pub proof fn lemma_row_taken_is_matched(&self, m: Set<Edge>, row: Vertex)
        requires
            m.subset_of(self.edges()),
        ensures
            self.row_taken(m, row) == row_matched(m, row),
    {
        if row_matched(m, row) {
            let c = choose|c: Vertex| m.contains((row, c));
            assert(self.edges().contains((row, c)));
        }
    }

    /// Whether some edge of `matching` joins the row `row` with a column of
    /// this graph.
    pub fn is_row_matched(&self, matching: &EdgeSet, row: Vertex) -> (matched: bool)
        ensures
            matched == self.row_taken(matching@, row),
    {
        let mut col: usize = 0;
        while col < self.columns
            invariant
                col <= self.columns,
                forall|c: Vertex| c < col ==> !matching@.contains((row, c)),
            decreases self.columns - col,
        {
            if contains_edge(matching, (row, col)) {
                return true;
            }
            col += 1;
        }
        false
    }

    /// The rows that no edge of `matching` touches, in ascending order.
    pub fn get_unmatched_rows(&self, matching: &EdgeSet) -> (free: Vec<Vertex>)
        ensures
            forall|i: int, j: int| 0 <= i < j < free@.len() ==> free@[i] < free@[j],
            forall|r: Vertex|
                free@.contains(r) <==> r < self.row_count() && !self.row_taken(matching@, r),
    {
        let mut free: Vec<Vertex> = Vec::new();
        let mut row: usize = 0;
        while row < self.rows
            invariant
                row <= self.rows,
                forall|i: int, j: int| 0 <= i < j < free@.len() ==> free@[i] < free@[j],
                forall|i: int| 0 <= i < free@.len() ==> free@[i] < row,
                forall|r: Vertex|
                    free@.contains(r) <==> r < row && !self.row_taken(matching@, r),
            decreases self.rows - row,
        {
            let ghost before = free@;
            let taken = self.is_row_matched(matching, row);
            if !taken {
                free.push(row);
            }
            proof {
                assert forall|r: Vertex| free@.contains(r) <==> r < row + 1 && !self.row_taken(
                    matching@,
                    r,
                ) by {
                    if before.contains(r) {
                        let i = choose|i: int| 0 <= i < before.len() && before[i] == r;
                        assert(free@[i] == r);
                    }
                    if !taken && r == row {
                        assert(free@[before.len() as int] == r);
                    }
                    if free@.contains(r) {
                        let i = choose|i: int| 0 <= i < free@.len() && free@[i] == r;
                        if i < before.len() {
                            assert(before[i] == r);
                            assert(before.contains(r));
                        }
                    }
                }
            }
            row += 1;
        }
        free
    }

    /// The edges of the graph at the vertex `node`, which is a column where
    /// `is_column` holds and a row where it does not, in ascending order of
    /// their other end.
    pub fn get_edges(&self, node: Vertex, is_column: bool) -> (incident: Vec<Edge>)
        requires
            self.wf(),
            if is_column {
                node < self.column_count()
            } else {
                node < self.row_count()
            },
        ensures
            forall|e: Edge|
                incident@.contains(e) <==> self.edges().contains(e) && if is_column {
                    e.1 == node
                } else {
                    e.0 == node
                },
            forall|i: int, j: int|
                0 <= i < j < incident@.len() ==> if is_column {
                    incident@[i].0 < incident@[j].0
                } else {
                    incident@[i].1 < incident@[j].1
                },
    {
        let mut incident: Vec<Edge> = Vec::new();
        let limit: usize = if is_column {
            self.rows
        } else {
            self.columns
        };
        let mut other: usize = 0;
        while other < limit
            invariant
                self.wf(),
                other <= limit,
                limit == if is_column {
                    self.rows
                } else {
                    self.columns
                },
                if is_column {
                    node < self.columns
                } else {
                    node < self.rows
                },
                forall|i: int|
                    0 <= i < incident@.len() ==> if is_column {
                        (#[trigger] incident@[i]).0 < other
                    } else {
                        incident@[i].1 < other
                    },
                forall|i: int, j: int|
                    0 <= i < j < incident@.len() ==> if is_column {
                        incident@[i].0 < incident@[j].0
                    } else {
                        incident@[i].1 < incident@[j].1
                    },
                forall|e: Edge|
                    incident@.contains(e) <==> self.edges().contains(e) && if is_column {
                        e.1 == node && e.0 < other
                    } else {
                        e.0 == node && e.1 < other
                    },
            decreases limit - other,
        {
            let edge: Edge = if is_column {
                (other, node)
            } else {
                (node, other)
            };
            let ghost before = incident@;
            let present = self.has_edge(edge.0, edge.1);
            if present {
                incident.push(edge);
            }
            proof {
                assert forall|e: Edge|
                    incident@.contains(e) <==> self.edges().contains(e) && if is_column {
                        e.1 == node && e.0 < other + 1
                    } else {
                        e.0 == node && e.1 < other + 1
                    } by {
                    if before.contains(e) {
                        let i = choose|i: int| 0 <= i < before.len() && before[i] == e;
                        assert(incident@[i] == e);
                    }
                    if present && e == edge {
                        assert(incident@[before.len() as int] == e);
                    }
                    if incident@.contains(e) {
                        let i = choose|i: int| 0 <= i < incident@.len() && incident@[i] == e;
                        if i < before.len() {
                            assert(before[i] == e);
                            assert(before.contains(e));
                        }
                    }
                }
            }
            other += 1;
        }
        incident
    }

    /// Searches depth first for an augmenting path that begins with the
    /// edges of `path`.  The edges that leave the frontier are tried in
    /// ascending order of their other end; one is taken only if the path
    /// has not used it and if it lies in `matching` exactly when the
    /// frontier is a column.  The first path found is returned as a set of
    /// edges, with `path` left standing on it; if there is none, `path`
    /// is left as it was.
    pub fn search_path(&self, matching: &EdgeSet, path: &mut Path) -> (found: Option<EdgeSet>)
        requires
            self.wf(),
            is_matching_of(self.edges(), matching@),
            old(path).start() < self.row_count(),
            is_alternating_trail(self.edges(), matching@, old(path).start(), old(path).edges()),
        ensures
            final(path).start() == old(path).start(),
            match found {
                Some(set) => {
                    &&& first_among_extensions(
                        self.edges(),
                        matching@,
                        old(path).start(),
                        old(path).edges(),
                        final(path).edges(),
                    )
                    &&& set@ == final(path).edges().to_set()
                },
                None => {
                    &&& final(path).edges() == old(path).edges()
                    &&& no_augmenting_extension(
                        self.edges(),
                        matching@,
                        old(path).start(),
                        old(path).edges(),
                    )
                },
            },
        decreases 2 * matching@.len() + 1 - old(path).edges().len(),
    {
        let ghost start = path.start();
        let ghost trail = path.edges();
        let ghost len = trail.len() as int;
        let current = path.get_current();
        let is_column = path.is_odd_length();

        if is_column && !is_column_matched(matching, current) {
            proof {
                assert forall|o: Seq<Edge>| #[trigger]
                    is_augmenting_path(self.edges(), matching@, start, o) && trail.is_prefix_of(
                        o,
                    ) implies o == trail || comes_before(trail, o) by {
                    lemma_augmenting_path_cannot_go_on(self.edges(), matching@, start, trail, o);
                }
            }
            return Some(path.get_edge_set());
        }
        proof {
            if len > 0 {
                assert(self.edges().contains(trail[len - 1]));
            }
        }
        let incident = self.get_edges(current, is_column);
        let mut eligible: Vec<Edge> = Vec::new();
        let mut k: usize = 0;
        while k < incident.len()
            invariant
                k <= incident@.len(),
                path.edges() == trail,
                len == trail.len(),
                is_column == (len % 2 == 1),
                forall|i: int, j: int|
                    0 <= i < j < incident@.len() ==> far_end(incident@[i], len) < far_end(
                        incident@[j],
                        len,
                    ),
                forall|i: int, j: int|
                    0 <= i < j < eligible@.len() ==> far_end(eligible@[i], len) < far_end(
                        eligible@[j],
                        len,
                    ),
                forall|i: int, j: int|
                    0 <= i < eligible@.len() && k <= j < incident@.len() ==> far_end(
                        eligible@[i],
                        len,
                    ) < far_end(incident@[j], len),
                forall|i: int|
                    0 <= i < eligible@.len() ==> {
                        &&& incident@.contains(#[trigger] eligible@[i])
                        &&& !trail.contains(eligible@[i])
                        &&& matching@.contains(eligible@[i]) == is_column
                    },
                forall|i: int|
                    0 <= i < k && !trail.contains(#[trigger] incident@[i]) && matching@.contains(
                        incident@[i],
                    ) == is_column ==> eligible@.contains(incident@[i]),
            decreases incident@.len() - k,
        {
            let edge: Edge = incident[k];
            let ghost before = eligible@;
            if !path.has_edge(edge) && contains_edge(matching, edge) == is_column {
                eligible.push(edge);
                proof {
                    assert(eligible@[before.len() as int] == edge);
                }
            }
            proof {
                assert forall|i: int|
                    0 <= i < k + 1 && !trail.contains(#[trigger] incident@[i])
                        && matching@.contains(incident@[i])
                        == is_column implies eligible@.contains(incident@[i]) by {
                    if i < k {
                        let j = choose|j: int| 0 <= j < before.len() && before[j] == incident@[i];
                        assert(eligible@[j] == incident@[i]);
                    }
                }
            }
            k += 1;
        }
        proof {
            assert forall|o: Seq<Edge>| #[trigger]
                is_augmenting_path(self.edges(), matching@, start, o) && trail.is_prefix_of(
                    o,
                ) implies o.len() > len && eligible@.contains(o[len]) by {
                if o.len() == len {
                    assert(o =~= trail);
                } else {
                    let e = o[len];
                    assert(linked(start, o, len));
                    if len > 0 {
                        assert(o[len - 1] == trail[len - 1]);
                    }
                    if trail.contains(e) {
                        let j = choose|j: int| 0 <= j < len && trail[j] == e;
                        assert(o[j] == trail[j]);
                    }
                    assert(incident@.contains(e));
                    let i = choose|i: int| 0 <= i < incident@.len() && incident@[i] == e;
                    assert(eligible@.contains(incident@[i]));
                }
            }
        }

        let mut n: usize = 0;
        while n < eligible.len()
            invariant
                self.wf(),
                is_matching_of(self.edges(), matching@),
                start < self.row_count(),
                is_alternating_trail(self.edges(), matching@, start, trail),
                n <= eligible@.len(),
                start == old(path).start(),
                trail == old(path).edges(),
                len == trail.len(),
                path.start() == start,
                path.edges() == trail,
                current == frontier(start, trail),
                is_column == (len % 2 == 1),
                forall|i: int, j: int|
                    0 <= i < j < eligible@.len() ==> far_end(eligible@[i], len) < far_end(
                        eligible@[j],
                        len,
                    ),
                forall|i: int|
                    0 <= i < eligible@.len() ==> {
                        &&& incident@.contains(#[trigger] eligible@[i])
                        &&& !trail.contains(eligible@[i])
                        &&& matching@.contains(eligible@[i]) == is_column
                    },
                forall|e: Edge|
                    incident@.contains(e) <==> self.edges().contains(e) && if is_column {
                        e.1 == current
                    } else {
                        e.0 == current
                    },
                forall|o: Seq<Edge>| #[trigger]
                    is_augmenting_path(self.edges(), matching@, start, o) && trail.is_prefix_of(o)
                        ==> o.len() > len && eligible@.contains(o[len]),
                forall|i: int|
                    0 <= i < n ==> no_augmenting_extension(
                        self.edges(),
                        matching@,
                        start,
                        trail.push(#[trigger] eligible@[i]),
                    ),
            decreases eligible@.len() - n,
        {
            let edge: Edge = eligible[n];
            path.add_edge(edge);
            proof {
                lemma_trail_push(self.edges(), matching@, start, trail, edge);
                lemma_trail_length_bound(self.edges(), matching@, start, trail.push(edge));
            }
            match self.search_path(matching, path) {
                Some(set) => {
                    proof {
                        let reached = path.edges();
                        assert(reached[len] == trail.push(edge)[len]);
                        assert(reached.take(len) =~= trail);
                        assert(trail.is_prefix_of(reached));
                        assert forall|o: Seq<Edge>| #[trigger]
                            is_augmenting_path(self.edges(), matching@, start, o)
                                && trail.is_prefix_of(o) implies o == reached || comes_before(
                            reached,
                            o,
                        ) by {
                            let e = o[len];
                            let j = choose|j: int| 0 <= j < eligible@.len() && eligible@[j] == e;
                            assert(trail.push(eligible@[j]) =~= o.subrange(0, len + 1));
                            assert(trail.push(eligible@[j]).is_prefix_of(o));
                            if j < n {
                                assert(no_augmenting_extension(
                                    self.edges(),
                                    matching@,
                                    start,
                                    trail.push(eligible@[j]),
                                ));
                            } else if j > n {
                                assert(o.take(len) =~= trail);
                                assert(reached.take(len) == o.take(len));
                                assert(far_end(reached[len], len) < far_end(o[len], len));
                            }
                        }
                    }
                    return Some(set);
                },
                None => {
                    path.remove_edge();
                    assert(path.edges() =~= trail);
                },
            }
            n += 1;
        }
        proof {
            assert forall|o: Seq<Edge>| #[trigger]
                is_augmenting_path(self.edges(), matching@, start, o) implies !trail.is_prefix_of(
                o,
            ) by {
                if trail.is_prefix_of(o) {
                    let e = o[len];
                    let j = choose|j: int| 0 <= j < eligible@.len() && eligible@[j] == e;
                    assert(trail.push(eligible@[j]) =~= o.subrange(0, len + 1));
                    assert(trail.push(eligible@[j]).is_prefix_of(o));
                    assert(no_augmenting_extension(
                        self.edges(),
                        matching@,
                        start,
                        trail.push(eligible@[j]),
                    ));
                }
            }
        }
        None
    }

    /// Searches for an augmenting path that sets out from the free row
    /// `row`, and returns the edges of the first one in the order of the
    /// search.
    pub fn try_augmenting_path(&self, matching: &EdgeSet, row: Vertex) -> (found: Option<EdgeSet>)
        requires
            self.wf(),
            is_matching_of(self.edges(), matching@),
            row < self.row_count(),
            !row_matched(matching@, row),
        ensures
            match found {
                Some(set) => {
                    &&& is_first_augmenting_path(
                        self.edges(),
                        matching@,
                        row,
                        first_augmenting_path(self.edges(), matching@, row),
                    )
                    &&& set@ == first_augmenting_path(self.edges(), matching@, row).to_set()
                },
                None => no_augmenting_path_from(self.edges(), matching@, row),
            },
    {
        let mut path = Path::new(row);
        let found = self.search_path(matching, &mut path);
        proof {
            if found is None {
                assert forall|t: Seq<Edge>| !#[trigger] is_augmenting_path(
                    self.edges(),
                    matching@,
                    row,
                    t,
                ) by {
                    assert(Seq::<Edge>::empty().is_prefix_of(t));
                }
            } else {
                lemma_first_augmenting_path_is(self.edges(), matching@, row, path.edges());
            }
        }
        found
    }

    /// Searches for an augmenting path from each free row in turn, in
    /// ascending order, and returns the edges of the first one found.
    pub fn get_augmenting_path(&self, matching: &EdgeSet) -> (found: Option<EdgeSet>)
        requires
            self.wf(),
            is_matching_of(self.edges(), matching@),
        ensures
            match found {
                Some(set) => {
                    &&& is_first_augmenting_row(
                        self.edges(),
                        matching@,
                        first_augmenting_row(self.edges(), matching@),
                    )
                    &&& is_first_augmenting_path(
                        self.edges(),
                        matching@,
                        first_augmenting_row(self.edges(), matching@),
                        next_augmenting_path(self.edges(), matching@),
                    )
                    &&& set@ == next_augmenting_path(self.edges(), matching@).to_set()
                },
                None => has_no_augmenting_path(self.edges(), matching@),
            },
    {
        let free = self.get_unmatched_rows(matching);
        let mut k: usize = 0;
        while k < free.len()
            invariant
                self.wf(),
                is_matching_of(self.edges(), matching@),
                k <= free@.len(),
                forall|i: int, j: int| 0 <= i < j < free@.len() ==> free@[i] < free@[j],
                forall|r: Vertex|
                    free@.contains(r) <==> r < self.row_count() && !self.row_taken(matching@, r),
                forall|i: int|
                    0 <= i < k ==> no_augmenting_path_from(
                        self.edges(),
                        matching@,
                        #[trigger] free@[i],
                    ),
            decreases free@.len() - k,
        {
            let row: Vertex = free[k];
            proof {
                assert(free@.contains(row));
                self.lemma_row_taken_is_matched(matching@, row);
            }
            match self.try_augmenting_path(matching, row) {
                Some(set) => {
                    proof {
                        assert forall|r: Vertex| r < row implies no_augmenting_path_from(
                            self.edges(),
                            matching@,
                            r,
                        ) by {
                            self.lemma_only_free_rows_start_paths(matching@, r);
                            if free@.contains(r) {
                                let i = choose|i: int| 0 <= i < free@.len() && free@[i] == r;
                                assert(i < k);
                            }
                        }
                        assert(is_augmenting_path(
                            self.edges(),
                            matching@,
                            row,
                            first_augmenting_path(self.edges(), matching@, row),
                        ));
                        lemma_first_augmenting_row_is(self.edges(), matching@, row);
                    }
                    return Some(set);
                },
                None => {},
            }
            k += 1;
        }
        proof {
            assert forall|start: Vertex, t: Seq<Edge>| !#[trigger] is_augmenting_path(
                self.edges(),
                matching@,
                start,
                t,
            ) by {
                self.lemma_only_free_rows_start_paths(matching@, start);
                if free@.contains(start) {
                    let i = choose|i: int| 0 <= i < free@.len() && free@[i] == start;
                    assert(no_augmenting_path_from(self.edges(), matching@, free@[i]));
                }
            }
        }
        None
    }

    /// An augmenting path can set out only from a row of the graph that
    /// the matching leaves free.
    pub proof fn lemma_only_free_rows_start_paths(&self, m: Set<Edge>, start: Vertex)
        requires
            m.subset_of(self.edges()),
        ensures
            !(start < self.row_count() && !self.row_taken(m, start)) ==> no_augmenting_path_from(
                self.edges(),
                m,
                start,
            ),
    {
        self.lemma_row_taken_is_matched(m, start);
        assert forall|t: Seq<Edge>|
            !(start < self.row_count() && !self.row_taken(m, start)) implies !#[trigger] is_augmenting_path(
            self.edges(),
            m,
            start,
            t,
        ) by {
            if is_augmenting_path(self.edges(), m, start, t) {
                assert(linked(start, t, 0));
                assert(self.edges().contains(t[0]));
            }
        }
    }

    /// The edges of a matching of this graph are bounded in number by its
    /// rows and by its columns.
    pub proof fn lemma_matching_fits(&self, m: Set<Edge>)
        requires
            is_matching_of(self.edges(), m),
        ensures
            m.len() <= self.row_count(),
            m.len() <= self.column_count(),
    {
        assert forall|e: Edge| m.contains(e) implies e.0 < self.row_count() && e.1
            < self.column_count() by {
            assert(self.edges().contains(e));
        }
        lemma_matching_size_bound(m, self.row_count(), self.column_count());
    }

    /// Grows `matching` along augmenting paths for as long as there is
    /// one, and returns the size that it reaches: the size of a maximum
    /// matching of the graph.
    pub fn max_matching_size(&self, matching: &EdgeSet) -> (size: usize)
        requires
            self.wf(),
            is_matching_of(self.edges(), matching@),
        ensures
            size == maximum_matching_size(self.edges()),
            is_maximum_matching_size(self.edges(), size as nat),
            matching@.len() <= size,
            size <= self.row_count(),
            size <= self.column_count(),
        decreases self.row_count() - matching@.len(),
    {
        proof {
            self.lemma_matching_fits(matching@);
        }
        match self.get_augmenting_path(matching) {
            None => {
                proof {
                    lemma_no_augmenting_path_is_maximum(self.edges(), matching@);
                    assert(is_maximum_matching_size(self.edges(), matching@.len()));
                    lemma_maximum_matching_size_unique(self.edges(), matching@.len());
                }
                edge_count(matching)
            },
            Some(path) => {
                let new_matching: EdgeSet = symmetric_difference_of(matching, &path);
                proof {
                    lemma_augmentation_grows_by_one(
                        self.edges(),
                        matching@,
                        first_augmenting_row(self.edges(), matching@),
                        next_augmenting_path(self.edges(), matching@),
                    );
                    self.lemma_matching_fits(new_matching@);
                }
                self.max_matching_size(&new_matching)
            },
        }
    }

    /// The size of a maximum matching of the graph: the largest number of
    /// edges of which no two share a row or a column.
    pub fn get_max_matching_size(&self) -> (size: usize)
        requires
            self.wf(),
        ensures
            size == maximum_matching_size(self.edges()),
            is_maximum_matching_size(self.edges(), size as nat),
            size <= self.row_count(),
            size <= self.column_count(),
    {
        let empty_matching: EdgeSet = BTreeSet::new();
        self.max_matching_size(&empty_matching)
    }

    /// The maximum matching of the graph that the search arrives at: the
    /// empty matching, grown along one augmenting path after another.
    pub fn get_max_matching(&self) -> (matching: EdgeSet)
        requires
            self.wf(),
        ensures
            matching@ == grown(self.edges(), Set::<Edge>::empty(), self.row_count()),
            is_maximum_matching(self.edges(), matching@),
            matching@.len() == maximum_matching_size(self.edges()),
    {
        let mut matching: EdgeSet = BTreeSet::new();
        let ghost target = grown(self.edges(), Set::<Edge>::empty(), self.row_count());
        loop
            invariant
                self.wf(),
                is_matching_of(self.edges(), matching@),
                matching@.len() <= self.row_count(),
                target == grown(self.edges(), Set::<Edge>::empty(), self.row_count()),
                target == grown(
                    self.edges(),
                    matching@,
                    (self.row_count() - matching@.len()) as nat,
                ),
            ensures
                is_maximum_matching(self.edges(), matching@),
                matching@ == target,
            decreases self.row_count() - matching@.len(),
        {
            match self.get_augmenting_path(&matching) {
                None => {
                    proof {
                        lemma_no_augmenting_path_is_maximum(self.edges(), matching@);
                    }
                    break ;
                },
                Some(path) => {
                    let ghost before = matching@;
                    matching = symmetric_difference_of(&matching, &path);
                    proof {
                        lemma_augmentation_grows_by_one(
                            self.edges(),
                            before,
                            first_augmenting_row(self.edges(), before),
                            next_augmenting_path(self.edges(), before),
                        );
                        self.lemma_matching_fits(matching@);
                        assert(matching@ == augmented(self.edges(), before));
                    }
                },
            }
        }
        proof {
            assert(is_maximum_matching_size(self.edges(), matching@.len()));
            lemma_maximum_matching_size_unique(self.edges(), matching@.len());
        }
        matching
    }
}

} // verus!
