//! Writing down the integer program of a graph.

use vstd::prelude::*;

use crate::graph::ClassGraph;
use crate::model::{
    a_col, all_node_rows, child_row, choice_row, choice_terms, class_node_rows, class_rows,
    class_usage_terms, column_at, cost_terms, edge_row, end_row, fits, has_columns, k_col, last_col,
    model, model_columns, node_fits, node_rows, node_slot_terms, node_usage_terms, resource_row,
    resource_rows, root_row, slot_row, slot_terms, start_row, t_col, unit_slot_terms, usage_terms,
    x_col, y_col, BIG_M,
};
use crate::program::{row_views, term_view, term_views, Column, LinearProgram, Relation, Row};
use crate::tile::{edge_at, edge_count, folded, modulo_rt, ResourceTable};

verus! {

/// Later classes have more nodes before them.
pub proof fn nodes_before_grows(g: ClassGraph, b: int, c: int)
    requires
        b <= c,
    ensures
        g.nodes_before(b) <= g.nodes_before(c),
    decreases c - b,
{
    if b < c {
        nodes_before_grows(g, b, c - 1);
    }
}

/// The columns of a node stand between those of the classes and the last one.
pub proof fn node_columns_in_range(g: ClassGraph, ii: int, c: int, j: int)
    requires
        0 < ii,
        0 <= c < g.classes@.len(),
        0 <= j < g.nodes(c).len(),
    ensures
        3 * g.classes@.len() <= x_col(g, ii, c, j),
        x_col(g, ii, c, j) + ii < last_col(g, ii),
        (g.nodes_before(c) + j) * (ii + 1) >= 0,
{
    nodes_before_grows(g, c + 1, g.classes@.len() as int);
    let here = g.nodes_before(c) + j;
    let all = g.nodes_before(g.classes@.len() as int) as int;
    assert(here + 1 <= all);
    assert(0 <= here * (ii + 1)) by (nonlinear_arith)
        requires
            0 <= here,
            0 < ii,
    ;
    assert((here + 1) * (ii + 1) <= all * (ii + 1)) by (nonlinear_arith)
        requires
            here + 1 <= all,
            0 < ii,
    ;
    assert((here + 1) * (ii + 1) == here * (ii + 1) + ii + 1) by (nonlinear_arith);
}

/// Adding a row adds its view.
pub proof fn row_views_push(rows: Seq<Row>, row: Row)
    ensures
        row_views(rows.push(row)) == row_views(rows).push(row@),
{
    assert(row_views(rows.push(row)) =~= row_views(rows).push(row@));
}

/// Adding a term adds its view.
pub proof fn term_views_push(terms: Seq<(usize, i32)>, term: (usize, i32))
    ensures
        term_views(terms.push(term)) == term_views(terms).push(term_view(term)),
{
    assert(term_views(terms.push(term)) =~= term_views(terms).push(term_view(term)));
}

/// Where the columns of each class and node of a graph stand.
pub struct Layout<'a> {
    graph: &'a ClassGraph,
    ii: usize,
    n_resources: usize,
    offsets: Vec<usize>,
}

impl<'a> Layout<'a> {
    pub closed spec fn wf(&self) -> bool {
        &&& self.graph.wf()
        &&& has_columns(*self.graph, self.ii as int)
        &&& self.offsets@.len() == self.graph.classes@.len() + 1
        &&& forall|c: int|
            0 <= c < self.offsets@.len() ==> #[trigger] self.offsets@[c] == self.graph.nodes_before(
                c,
            )
    }

    /// The numbers of the program fit the machine.
    pub closed spec fn ready(&self) -> bool {
        &&& self.wf()
        &&& fits(*self.graph, self.n_resources as int, self.ii as int)
    }

    pub closed spec fn g(&self) -> ClassGraph {
        *self.graph
    }

    pub closed spec fn interval(&self) -> int {
        self.ii as int
    }

    pub closed spec fn resources(&self) -> int {
        self.n_resources as int
    }

    /// Lays out the columns of `graph` for an initiation interval of `ii` cycles.
    pub fn new(graph: &'a ClassGraph, ii: usize, n_resources: usize) -> (r: Self)
        requires
            graph.wf(),
            has_columns(*graph, ii as int),
        ensures
            r.wf(),
            fits(*graph, n_resources as int, ii as int) ==> r.ready(),
            r.g() == *graph,
            r.interval() == ii,
            r.resources() == n_resources,
    {
        let mut offsets: Vec<usize> = Vec::new();
        let mut count: usize = 0;
        offsets.push(count);
        let mut c: usize = 0;
        while c < graph.classes.len()
            invariant
                c <= graph.classes@.len(),
                0 < ii,
                last_col(*graph, ii as int) < usize::MAX,
                offsets@.len() == c + 1,
                count == graph.nodes_before(c as int),
                forall|b: int|
                    0 <= b < offsets@.len() ==> #[trigger] offsets@[b] == graph.nodes_before(b),
            decreases graph.classes.len() - c,
        {
            proof {
                nodes_before_grows(*graph, c + 1, graph.classes@.len() as int);
                let all = graph.nodes_before(graph.classes@.len() as int) as int;
                assert(all <= all * (ii + 1)) by (nonlinear_arith)
                    requires
                        0 <= all,
                        0 < ii,
                ;
            }
            count = count + graph.classes[c].nodes.len();
            offsets.push(count);
            c = c + 1;
        }
        Layout { graph, ii, n_resources, offsets }
    }

    /// The column of a class's start cycle.
    pub(crate) fn t(&self, c: usize) -> (r: usize)
        requires
            self.wf(),
            c < self.g().classes@.len(),
        ensures
            r == t_col(c as int),
    {
        proof {
            self.class_columns_in_range(c as int);
        }
        3 * c
    }

    /// The column of a class's interval count.
    fn k(&self, c: usize) -> (r: usize)
        requires
            self.wf(),
            c < self.g().classes@.len(),
        ensures
            r == k_col(c as int),
    {
        proof {
            self.class_columns_in_range(c as int);
        }
        3 * c + 1
    }

    /// The column of a class's selection.
    pub(crate) fn y(&self, c: usize) -> (r: usize)
        requires
            self.wf(),
            c < self.g().classes@.len(),
        ensures
            r == y_col(c as int),
    {
        proof {
            self.class_columns_in_range(c as int);
        }
        3 * c + 2
    }

    proof fn class_columns_in_range(&self, c: int)
        requires
            self.wf(),
            0 <= c < self.g().classes@.len(),
        ensures
            3 * c + 2 < 3 * self.g().classes@.len() <= last_col(self.g(), self.interval()) < usize::MAX,
    {
        let all = self.graph.nodes_before(self.graph.classes@.len() as int) as int;
        let ii = self.ii as int;
        assert(0 <= all * (ii + 1)) by (nonlinear_arith)
            requires
                0 <= all,
                0 < ii,
        ;
    }

    /// The column of a node's selection.
    pub(crate) fn x(&self, c: usize, j: usize) -> (r: usize)
        requires
            self.wf(),
            c < self.g().classes@.len(),
            j < self.g().nodes(c as int).len(),
        ensures
            r == x_col(self.g(), self.interval(), c as int, j as int),
    {
        proof {
            node_columns_in_range(*self.graph, self.ii as int, c as int, j as int);
            let here = self.graph.nodes_before(c as int) + j;
            let ii = self.ii as int;
            assert(here <= here * (ii + 1)) by (nonlinear_arith)
                requires
                    0 <= here,
                    0 < ii,
            ;
            assert(self.offsets@[c as int] == self.graph.nodes_before(c as int));
        }
        3 * self.graph.classes.len() + (self.offsets[c] + j) * (self.ii + 1)
    }

    /// The column of one of a node's slots.
    fn a(&self, c: usize, j: usize, slot: usize) -> (r: usize)
        requires
            self.wf(),
            c < self.g().classes@.len(),
            j < self.g().nodes(c as int).len(),
            slot < self.interval(),
        ensures
            r == a_col(self.g(), self.interval(), c as int, j as int, slot as int),
    {
        proof {
            node_columns_in_range(*self.graph, self.ii as int, c as int, j as int);
        }
        self.x(c, j) + 1 + slot
    }

    /// The column of the finishing cycle.
    pub(crate) fn last(&self) -> (r: usize)
        requires
            self.wf(),
        ensures
            r == last_col(self.g(), self.interval()),
    {
        let n = self.graph.classes.len();
        proof {
            assert(self.offsets@[n as int] == self.graph.nodes_before(n as int));
            let all = self.graph.nodes_before(n as int) as int;
            let ii = self.ii as int;
            assert(0 <= all * (ii + 1)) by (nonlinear_arith)
                requires
                    0 <= all,
                    0 < ii,
            ;
        }
        3 * n + self.offsets[n] * (self.ii + 1)
    }

    /// One column for each class's start, interval count and selection, then for each node its
    /// selection and its slots, then the finishing cycle.
    fn columns(&self) -> (r: Vec<Column>)
        requires
            self.ready(),
        ensures
            r@ == model_columns(self.g(), self.interval()),
    {
        let n = self.graph.classes.len();
        let last = self.last();
        proof {
            let all = self.graph.nodes_before(n as int) as int;
            let ii = self.ii as int;
            assert(0 <= all * (ii + 1)) by (nonlinear_arith)
                requires
                    0 <= all,
                    0 < ii,
            ;
        }
        let mut columns: Vec<Column> = Vec::new();
        let mut i: usize = 0;
        while i <= last
            invariant
                self.ready(),
                n == self.g().classes@.len(),
                last == last_col(self.g(), self.interval()),
                last < usize::MAX,
                3 * n <= last,
                i <= last + 1,
                columns@ == Seq::new(i as nat, |k: int| column_at(self.g(), self.interval(), k)),
            decreases last + 1 - i,
        {
            let column = if i < 3 * n {
                if i % 3 == 2 {
                    Column::Binary
                } else {
                    Column::Natural
                }
            } else if i < last {
                Column::Binary
            } else {
                Column::Natural
            };
            columns.push(column);
            i = i + 1;
        }
        columns
    }

    /// The constraint that a class is selected exactly when one of its nodes is.
    fn choice(&self, c: usize) -> (row: Row)
        requires
            self.ready(),
            c < self.g().classes@.len(),
        ensures
            row@ == choice_row(self.g(), self.interval(), c as int),
    {
        let n = self.graph.classes[c].nodes.len();
        let mut terms: Vec<(usize, i32)> = Vec::new();
        let mut j: usize = 0;
        while j < n
            invariant
                self.ready(),
                c < self.g().classes@.len(),
                n == self.g().nodes(c as int).len(),
                j <= n,
                term_views(terms@) == choice_terms(self.g(), self.interval(), c as int, j as nat),
            decreases n - j,
        {
            let ghost before = terms@;
            terms.push((self.x(c, j), 1));
            proof {
                term_views_push(before, terms@.last());
                assert(term_views(terms@) =~= choice_terms(
                    self.g(),
                    self.interval(),
                    c as int,
                    (j + 1) as nat,
                ));
            }
            j = j + 1;
        }
        let ghost before = terms@;
        terms.push((self.y(c), -1));
        proof {
            term_views_push(before, terms@.last());
        }
        Row { terms, constant: 0, relation: Relation::Equal, bound: 0 }
    }

    /// The constraint that a class starts a number of whole intervals and its slot after cycle
    /// zero.
    fn start(&self, c: usize) -> (row: Row)
        requires
            self.ready(),
            c < self.g().classes@.len(),
        ensures
            row@ == start_row(self.g(), self.interval(), c as int),
    {
        let ghost g = self.g();
        let ghost interval = self.interval();
        let n = self.graph.classes[c].nodes.len();
        let mut terms: Vec<(usize, i32)> = Vec::new();
        terms.push((self.t(c), 1));
        terms.push((self.k(c), -(self.ii as i32)));
        let ghost head = seq![(t_col(c as int), 1int), (k_col(c as int), -interval)];
        proof {
            assert(term_views(terms@) =~= head + slot_terms(g, interval, c as int, 0));
        }
        let mut j: usize = 0;
        while j < n
            invariant
                self.ready(),
                g == self.g(),
                interval == self.interval(),
                c < g.classes@.len(),
                n == g.nodes(c as int).len(),
                j <= n,
                term_views(terms@) == head + slot_terms(g, interval, c as int, j as nat),
            decreases n - j,
        {
            let mut slot: usize = 0;
            let ghost done = terms@;
            while slot < self.ii
                invariant
                    self.ready(),
                    g == self.g(),
                    interval == self.interval(),
                    c < g.classes@.len(),
                    j < g.nodes(c as int).len(),
                    slot <= self.ii,
                    term_views(terms@) == term_views(done) + node_slot_terms(
                        g,
                        interval,
                        c as int,
                        j as int,
                    ).take(slot as int),
                decreases self.ii - slot,
            {
                let ghost before = terms@;
                terms.push((self.a(c, j, slot), -(slot as i32)));
                proof {
                    term_views_push(before, terms@.last());
                    assert(term_views(terms@) =~= term_views(done) + node_slot_terms(
                        g,
                        interval,
                        c as int,
                        j as int,
                    ).take(slot + 1));
                }
                slot = slot + 1;
            }
            proof {
                let node = node_slot_terms(g, interval, c as int, j as int);
                assert(node.take(slot as int) =~= node);
                assert(term_views(terms@) =~= head + slot_terms(
                    g,
                    interval,
                    c as int,
                    (j + 1) as nat,
                ));
            }
            j = j + 1;
        }
        Row { terms, constant: 0, relation: Relation::Equal, bound: 0 }
    }

    /// The constraint that everything has finished when a class has.
    fn end(&self, c: usize) -> (row: Row)
        requires
            self.ready(),
            c < self.g().classes@.len(),
        ensures
            row@ == end_row(self.g(), self.interval(), c as int),
    {
        let ghost g = self.g();
        let ghost interval = self.interval();
        let n = self.graph.classes[c].nodes.len();
        let mut terms: Vec<(usize, i32)> = Vec::new();
        terms.push((self.last(), 1));
        terms.push((self.t(c), -1));
        let ghost head = seq![(last_col(g, interval), 1int), (t_col(c as int), -1int)];
        proof {
            assert(term_views(terms@) =~= head + cost_terms(g, interval, c as int, 0));
        }
        let mut j: usize = 0;
        while j < n
            invariant
                self.ready(),
                g == self.g(),
                interval == self.interval(),
                c < g.classes@.len(),
                n == g.nodes(c as int).len(),
                j <= n,
                term_views(terms@) == head + cost_terms(g, interval, c as int, j as nat),
            decreases n - j,
        {
            let ghost before = terms@;
            proof {
                assert(node_fits(g.nodes(c as int)[j as int], self.resources(), interval));
            }
            let cycles = self.graph.classes[c].nodes[j].rt.len() as i32;
            terms.push((self.x(c, j), -cycles));
            proof {
                term_views_push(before, terms@.last());
                assert(term_views(terms@) =~= head + cost_terms(
                    g,
                    interval,
                    c as int,
                    (j + 1) as nat,
                ));
            }
            j = j + 1;
        }
        Row { terms, constant: 0, relation: Relation::AtLeast, bound: 0 }
    }

    /// The constraints of every class.
    fn class_constraints(&self) -> (rows: Vec<Row>)
        requires
            self.ready(),
        ensures
            row_views(rows@) == class_rows(self.g(), self.interval(), self.g().classes@.len()),
    {
        let n = self.graph.classes.len();
        let mut rows: Vec<Row> = Vec::new();
        proof {
            assert(row_views(rows@) =~= seq![]);
        }
        let mut c: usize = 0;
        while c < n
            invariant
                self.ready(),
                n == self.g().classes@.len(),
                c <= n,
                row_views(rows@) == class_rows(self.g(), self.interval(), c as nat),
            decreases n - c,
        {
            let ghost done = rows@;
            rows.push(self.choice(c));
            rows.push(self.start(c));
            rows.push(self.end(c));
            proof {
                assert(row_views(rows@) =~= row_views(done) + seq![
                    choice_row(self.g(), self.interval(), c as int),
                    start_row(self.g(), self.interval(), c as int),
                    end_row(self.g(), self.interval(), c as int),
                ]);
            }
            c = c + 1;
        }
        rows
    }

    /// The constraint that a node starts in one slot exactly when it is selected.
    fn slots(&self, c: usize, j: usize) -> (row: Row)
        requires
            self.ready(),
            c < self.g().classes@.len(),
            j < self.g().nodes(c as int).len(),
        ensures
            row@ == slot_row(self.g(), self.interval(), c as int, j as int),
    {
        let ghost g = self.g();
        let ghost interval = self.interval();
        let mut terms: Vec<(usize, i32)> = Vec::new();
        let ghost all = unit_slot_terms(g, interval, c as int, j as int);
        proof {
            assert(term_views(terms@) =~= all.take(0));
        }
        let mut slot: usize = 0;
        while slot < self.ii
            invariant
                self.ready(),
                g == self.g(),
                interval == self.interval(),
                c < g.classes@.len(),
                j < g.nodes(c as int).len(),
                slot <= self.ii,
                all == unit_slot_terms(g, interval, c as int, j as int),
                term_views(terms@) == all.take(slot as int),
            decreases self.ii - slot,
        {
            let ghost before = terms@;
            terms.push((self.a(c, j, slot), 1));
            proof {
                term_views_push(before, terms@.last());
                assert(term_views(terms@) =~= all.take(slot + 1));
            }
            slot = slot + 1;
        }
        let ghost before = terms@;
        terms.push((self.x(c, j), -1));
        proof {
            term_views_push(before, terms@.last());
            assert(all.take(slot as int) =~= all);
        }
        Row { terms, constant: 0, relation: Relation::Equal, bound: 0 }
    }

    /// The constraint that a selected node has its `k`th operand selected.
    fn child(&self, c: usize, j: usize, k: usize) -> (row: Row)
        requires
            self.ready(),
            c < self.g().classes@.len(),
            j < self.g().nodes(c as int).len(),
            k < self.g().nodes(c as int)[j as int].children@.len(),
        ensures
            row@ == child_row(self.g(), self.interval(), c as int, j as int, k as int),
    {
        let child = self.graph.locate(self.graph.classes[c].nodes[j].children[k]);
        let mut terms: Vec<(usize, i32)> = Vec::new();
        terms.push((self.x(c, j), 1));
        terms.push((self.y(child), -1));
        let row = Row { terms, constant: 0, relation: Relation::AtMost, bound: 0 };
        proof {
            assert(row@.terms =~= child_row(
                self.g(),
                self.interval(),
                c as int,
                j as int,
                k as int,
            ).terms);
        }
        row
    }

    /// The constraint that a selected node starts late enough for its `k`th dependence.
    fn edge(&self, c: usize, j: usize, k: usize) -> (row: Row)
        requires
            self.ready(),
            c < self.g().classes@.len(),
            j < self.g().nodes(c as int).len(),
            k < edge_count(self.g().nodes(c as int)[j as int]),
        ensures
            row@ == edge_row(self.g(), self.interval(), c as int, j as int, k as int),
    {
        let edge = self.graph.classes[c].nodes[j].edges()[k];
        let source = self.graph.locate(edge.id);
        proof {
            let tile = self.g().nodes(c as int)[j as int];
            assert(node_fits(tile, self.resources(), self.interval()));
            assert(edge == edge_at(tile, k as int));
        }
        let bound = edge.d - (self.ii as i32) * edge.delta;
        let mut terms: Vec<(usize, i32)> = Vec::new();
        terms.push((self.t(c), 1));
        terms.push((self.t(source), -1));
        terms.push((self.x(c, j), -BIG_M));
        let row = Row { terms, constant: BIG_M, relation: Relation::AtLeast, bound };
        proof {
            assert(row@.terms =~= edge_row(
                self.g(),
                self.interval(),
                c as int,
                j as int,
                k as int,
            ).terms);
        }
        row
    }

    /// The constraints of one node.
    fn node_constraints(&self, c: usize, j: usize, rows: &mut Vec<Row>)
        requires
            self.ready(),
            c < self.g().classes@.len(),
            j < self.g().nodes(c as int).len(),
        ensures
            row_views(final(rows)@) == row_views(old(rows)@) + node_rows(
                self.g(),
                self.interval(),
                c as int,
                j as int,
            ),
    {
        let ghost g = self.g();
        let ghost interval = self.interval();
        let ghost tile = g.nodes(c as int)[j as int];
        let ghost first = row_views(rows@) + seq![slot_row(g, interval, c as int, j as int)];
        let ghost children = Seq::new(
            tile.children@.len(),
            |k: int| child_row(g, interval, c as int, j as int, k),
        );
        let ghost edges = Seq::new(
            edge_count(tile),
            |k: int| edge_row(g, interval, c as int, j as int, k),
        );
        let ghost before = rows@;
        rows.push(self.slots(c, j));
        proof {
            row_views_push(before, rows@.last());
            assert(row_views(rows@) =~= first + children.take(0));
        }
        let n_children = self.graph.classes[c].nodes[j].children.len();
        let mut k: usize = 0;
        while k < n_children
            invariant
                self.ready(),
                g == self.g(),
                interval == self.interval(),
                c < g.classes@.len(),
                j < g.nodes(c as int).len(),
                tile == g.nodes(c as int)[j as int],
                n_children == tile.children@.len(),
                k <= n_children,
                children == Seq::new(
                    tile.children@.len(),
                    |k: int| child_row(g, interval, c as int, j as int, k),
                ),
                row_views(rows@) == first + children.take(k as int),
            decreases n_children - k,
        {
            let ghost before = rows@;
            rows.push(self.child(c, j, k));
            proof {
                row_views_push(before, rows@.last());
                assert(row_views(rows@) =~= first + children.take(k + 1));
            }
            k = k + 1;
        }
        proof {
            assert(children.take(k as int) =~= children);
            assert(row_views(rows@) =~= first + children + edges.take(0));
        }
        let n_edges = self.graph.classes[c].nodes[j].edges().len();
        let mut e: usize = 0;
        while e < n_edges
            invariant
                self.ready(),
                g == self.g(),
                interval == self.interval(),
                c < g.classes@.len(),
                j < g.nodes(c as int).len(),
                tile == g.nodes(c as int)[j as int],
                n_edges == edge_count(tile),
                e <= n_edges,
                edges == Seq::new(
                    edge_count(tile),
                    |k: int| edge_row(g, interval, c as int, j as int, k),
                ),
                row_views(rows@) == first + children + edges.take(e as int),
            decreases n_edges - e,
        {
            let ghost before = rows@;
            rows.push(self.edge(c, j, e));
            proof {
                row_views_push(before, rows@.last());
                assert(row_views(rows@) =~= first + children + edges.take(e + 1));
            }
            e = e + 1;
        }
        proof {
            assert(edges.take(e as int) =~= edges);
            assert(row_views(rows@) =~= row_views(before) + node_rows(
                g,
                interval,
                c as int,
                j as int,
            ));
        }
    }

    /// The constraints of every node.
    fn all_node_constraints(&self, rows: &mut Vec<Row>)
        requires
            self.ready(),
        ensures
            row_views(final(rows)@) == row_views(old(rows)@) + all_node_rows(
                self.g(),
                self.interval(),
                self.g().classes@.len(),
            ),
    {
        let ghost g = self.g();
        let ghost interval = self.interval();
        let ghost start = row_views(rows@);
        proof {
            assert(start =~= start + all_node_rows(g, interval, 0));
        }
        let n = self.graph.classes.len();
        let mut c: usize = 0;
        while c < n
            invariant
                self.ready(),
                g == self.g(),
                interval == self.interval(),
                n == g.classes@.len(),
                c <= n,
                row_views(rows@) == start + all_node_rows(g, interval, c as nat),
            decreases n - c,
        {
            let ghost done = row_views(rows@);
            proof {
                assert(done =~= done + class_node_rows(g, interval, c as int, 0));
            }
            let n_nodes = self.graph.classes[c].nodes.len();
            let mut j: usize = 0;
            while j < n_nodes
                invariant
                    self.ready(),
                    g == self.g(),
                    interval == self.interval(),
                    c < g.classes@.len(),
                    n_nodes == g.nodes(c as int).len(),
                    j <= n_nodes,
                    row_views(rows@) == done + class_node_rows(g, interval, c as int, j as nat),
                decreases n_nodes - j,
            {
                self.node_constraints(c, j, rows);
                proof {
                    assert(row_views(rows@) =~= done + class_node_rows(
                        g,
                        interval,
                        c as int,
                        (j + 1) as nat,
                    ));
                }
                j = j + 1;
            }
            proof {
                assert(row_views(rows@) =~= start + all_node_rows(g, interval, (c + 1) as nat));
            }
            c = c + 1;
        }
    }

    /// `mrt` is the resource table of node `j` of the class at position `c`, folded.
    closed spec fn is_folded(&self, mrt: ResourceTable, c: int, j: int) -> bool {
        let rt = self.g().nodes(c)[j].rt@;
        &&& mrt@.len() == self.interval()
        &&& forall|slot: int|
            0 <= slot < self.interval() ==> (#[trigger] mrt@[slot])@.len() == self.resources()
        &&& forall|slot: int, col: int|
            0 <= slot < self.interval() && 0 <= col < self.resources()
                ==> #[trigger] mrt@[slot]@[col] == folded(
                rt,
                self.interval(),
                slot,
                col,
                rt.len(),
            )
    }

    /// `tables` holds the folded resource table of every node.
    closed spec fn are_folded(&self, tables: Seq<Vec<ResourceTable>>) -> bool {
        &&& tables.len() == self.g().classes@.len()
        &&& forall|c: int|
            0 <= c < tables.len() ==> (#[trigger] tables[c])@.len() == self.g().nodes(c).len()
        &&& forall|c: int, j: int|
            0 <= c < tables.len() && 0 <= j < tables[c]@.len() ==> self.is_folded(
                #[trigger] tables[c]@[j],
                c,
                j,
            )
    }

    /// Folds the resource table of every node.
    fn fold_tables(&self) -> (tables: Vec<Vec<ResourceTable>>)
        requires
            self.ready(),
        ensures
            self.are_folded(tables@),
    {
        let ghost g = self.g();
        let n = self.graph.classes.len();
        let mut tables: Vec<Vec<ResourceTable>> = Vec::new();
        let mut c: usize = 0;
        while c < n
            invariant
                self.ready(),
                g == self.g(),
                n == g.classes@.len(),
                c <= n,
                tables@.len() == c,
                forall|b: int|
                    0 <= b < c ==> (#[trigger] tables@[b])@.len() == g.nodes(b).len(),
                forall|b: int, j: int|
                    0 <= b < c && 0 <= j < tables@[b]@.len() ==> self.is_folded(
                        #[trigger] tables@[b]@[j],
                        b,
                        j,
                    ),
            decreases n - c,
        {
            let n_nodes = self.graph.classes[c].nodes.len();
            let mut of_class: Vec<ResourceTable> = Vec::new();
            let mut j: usize = 0;
            while j < n_nodes
                invariant
                    self.ready(),
                    g == self.g(),
                    c < g.classes@.len(),
                    n_nodes == g.nodes(c as int).len(),
                    j <= n_nodes,
                    of_class@.len() == j,
                    forall|i: int|
                        0 <= i < j ==> self.is_folded(#[trigger] of_class@[i], c as int, i),
                decreases n_nodes - j,
            {
                proof {
                    assert(node_fits(
                        g.nodes(c as int)[j as int],
                        self.resources(),
                        self.interval(),
                    ));
                }
                let mrt = modulo_rt(
                    &self.graph.classes[c].nodes[j].rt,
                    self.ii,
                    self.n_resources,
                );
                proof {
                    assert(self.is_folded(mrt, c as int, j as int));
                }
                of_class.push(mrt);
                j = j + 1;
            }
            tables.push(of_class);
            c = c + 1;
        }
        tables
    }

    /// Adds what one node uses of resource `s` in slot `at`, for each slot in which it may start.
    fn node_usage(
        &self,
        tables: &Vec<Vec<ResourceTable>>,
        s: usize,
        at: usize,
        c: usize,
        j: usize,
        terms: &mut Vec<(usize, i32)>,
    )
        requires
            self.ready(),
            self.are_folded(tables@),
            s < self.resources(),
            at < self.interval(),
            c < self.g().classes@.len(),
            j < self.g().nodes(c as int).len(),
        ensures
            term_views(final(terms)@) == term_views(old(terms)@) + node_usage_terms(
                self.g(),
                self.interval(),
                s as int,
                at as int,
                c as int,
                j as int,
            ),
    {
        let ghost g = self.g();
        let ghost interval = self.interval();
        let ghost start = term_views(terms@);
        let ghost all = node_usage_terms(g, interval, s as int, at as int, c as int, j as int);
        proof {
            assert(start =~= start + all.take(0));
        }
        let mrt = &tables[c][j];
        proof {
            assert(self.is_folded(tables@[c as int]@[j as int], c as int, j as int));
        }
        let mut i: usize = 0;
        while i < self.ii
            invariant
                self.ready(),
                g == self.g(),
                interval == self.interval(),
                c < g.classes@.len(),
                j < g.nodes(c as int).len(),
                s < self.resources(),
                at < interval,
                i <= self.ii,
                self.is_folded(*mrt, c as int, j as int),
                all == node_usage_terms(g, interval, s as int, at as int, c as int, j as int),
                term_views(terms@) == start + all.take(i as int),
            decreases self.ii - i,
        {
            let ghost before = terms@;
            let slot = if i <= at {
                at - i
            } else {
                at + (self.ii - i)
            };
            proof {
                let ii = self.ii as int;
                if i <= at {
                    vstd::arithmetic::div_mod::lemma_mod_add_multiples_vanish(slot as int, ii);
                    vstd::arithmetic::div_mod::lemma_small_mod(slot as nat, ii as nat);
                } else {
                    vstd::arithmetic::div_mod::lemma_small_mod(slot as nat, ii as nat);
                }
                assert(slot == (at + ii - i) % ii);
            }
            let used = mrt[slot][s];
            terms.push((self.a(c, j, i), used));
            proof {
                term_views_push(before, terms@.last());
                assert(term_views(terms@) =~= start + all.take(i + 1));
            }
            i = i + 1;
        }
        proof {
            assert(all.take(i as int) =~= all);
        }
    }

    /// The constraint that resource `s` suffices in slot `at`.
    fn resource(
        &self,
        tables: &Vec<Vec<ResourceTable>>,
        limits: &Vec<i32>,
        s: usize,
        at: usize,
    ) -> (row: Row)
        requires
            self.ready(),
            self.are_folded(tables@),
            limits@.len() == self.resources(),
            s < self.resources(),
            at < self.interval(),
        ensures
            row@ == resource_row(self.g(), limits@, self.interval(), s as int, at as int),
    {
        let ghost g = self.g();
        let ghost interval = self.interval();
        let n = self.graph.classes.len();
        let mut terms: Vec<(usize, i32)> = Vec::new();
        proof {
            assert(term_views(terms@) =~= usage_terms(g, interval, s as int, at as int, 0));
        }
        let mut c: usize = 0;
        while c < n
            invariant
                self.ready(),
                self.are_folded(tables@),
                g == self.g(),
                interval == self.interval(),
                n == g.classes@.len(),
                s < self.resources(),
                at < interval,
                c <= n,
                term_views(terms@) == usage_terms(g, interval, s as int, at as int, c as nat),
            decreases n - c,
        {
            let ghost done = term_views(terms@);
            proof {
                assert(done =~= done + class_usage_terms(
                    g,
                    interval,
                    s as int,
                    at as int,
                    c as int,
                    0,
                ));
            }
            let n_nodes = self.graph.classes[c].nodes.len();
            let mut j: usize = 0;
            while j < n_nodes
                invariant
                    self.ready(),
                    self.are_folded(tables@),
                    g == self.g(),
                    interval == self.interval(),
                    s < self.resources(),
                    at < interval,
                    c < g.classes@.len(),
                    n_nodes == g.nodes(c as int).len(),
                    j <= n_nodes,
                    term_views(terms@) == done + class_usage_terms(
                        g,
                        interval,
                        s as int,
                        at as int,
                        c as int,
                        j as nat,
                    ),
                decreases n_nodes - j,
            {
                self.node_usage(tables, s, at, c, j, &mut terms);
                proof {
                    assert(term_views(terms@) =~= done + class_usage_terms(
                        g,
                        interval,
                        s as int,
                        at as int,
                        c as int,
                        (j + 1) as nat,
                    ));
                }
                j = j + 1;
            }
            c = c + 1;
        }
        Row { terms, constant: 0, relation: Relation::AtMost, bound: limits[s] }
    }

    /// The constraints of every resource.
    fn resource_constraints(&self, limits: &Vec<i32>, rows: &mut Vec<Row>)
        requires
            self.ready(),
            limits@.len() == self.resources(),
        ensures
            row_views(final(rows)@) == row_views(old(rows)@) + resource_rows(
                self.g(),
                limits@,
                self.interval(),
                limits@.len(),
            ),
    {
        let ghost g = self.g();
        let ghost interval = self.interval();
        let ghost start = row_views(rows@);
        proof {
            assert(start =~= start + resource_rows(g, limits@, interval, 0));
        }
        let tables = self.fold_tables();
        let n_resources = limits.len();
        let mut s: usize = 0;
        while s < n_resources
            invariant
                self.ready(),
                self.are_folded(tables@),
                g == self.g(),
                interval == self.interval(),
                n_resources == limits@.len(),
                limits@.len() == self.resources(),
                s <= n_resources,
                row_views(rows@) == start + resource_rows(g, limits@, interval, s as nat),
            decreases n_resources - s,
        {
            let ghost done = row_views(rows@);
            let ghost slots = Seq::new(
                interval as nat,
                |at: int| resource_row(g, limits@, interval, s as int, at),
            );
            proof {
                assert(done =~= done + slots.take(0));
            }
            let mut at: usize = 0;
            while at < self.ii
                invariant
                    self.ready(),
                    self.are_folded(tables@),
                    g == self.g(),
                    interval == self.interval(),
                    limits@.len() == self.resources(),
                    s < self.resources(),
                    at <= self.ii,
                    slots == Seq::new(
                        interval as nat,
                        |at: int| resource_row(g, limits@, interval, s as int, at),
                    ),
                    row_views(rows@) == done + slots.take(at as int),
                decreases self.ii - at,
            {
                let ghost before = rows@;
                rows.push(self.resource(&tables, limits, s, at));
                proof {
                    row_views_push(before, rows@.last());
                    assert(row_views(rows@) =~= done + slots.take(at + 1));
                }
                at = at + 1;
            }
            proof {
                assert(slots.take(at as int) =~= slots);
                assert(row_views(rows@) =~= start + resource_rows(
                    g,
                    limits@,
                    interval,
                    (s + 1) as nat,
                ));
            }
            s = s + 1;
        }
    }

    /// The constraints that the classes of the roots are selected.
    fn root_constraints(&self, roots: &[usize], rows: &mut Vec<Row>)
        requires
            self.ready(),
            forall|i: int|
                0 <= i < roots@.len() ==> (#[trigger] roots@[i]) < self.g().leaders@.len(),
        ensures
            row_views(final(rows)@) == row_views(old(rows)@) + Seq::new(
                roots@.len(),
                |i: int| root_row(self.g(), roots@[i]),
            ),
    {
        let ghost g = self.g();
        let ghost start = row_views(rows@);
        let ghost all = Seq::new(roots@.len(), |i: int| root_row(g, roots@[i]));
        proof {
            assert(start =~= start + all.take(0));
        }
        let n_roots = roots.len();
        let mut i: usize = 0;
        while i < n_roots
            invariant
                self.ready(),
                g == self.g(),
                n_roots == roots@.len(),
                forall|i: int| 0 <= i < roots@.len() ==> (#[trigger] roots@[i]) < g.leaders@.len(),
                all == Seq::new(roots@.len(), |i: int| root_row(g, roots@[i])),
                i <= n_roots,
                row_views(rows@) == start + all.take(i as int),
            decreases n_roots - i,
        {
            let ghost before = rows@;
            let class = self.graph.locate(roots[i]);
            let mut terms: Vec<(usize, i32)> = Vec::new();
            terms.push((self.y(class), 1));
            rows.push(Row { terms, constant: 0, relation: Relation::Equal, bound: 1 });
            proof {
                row_views_push(before, rows@.last());
                assert(rows@.last()@.terms =~= root_row(g, roots@[i as int]).terms);
                assert(row_views(rows@) =~= start + all.take(i + 1));
            }
            i = i + 1;
        }
        proof {
            assert(all.take(i as int) =~= all);
        }
    }
}

/// Writes down the integer program that asks for a modulo schedule of `graph` with an
/// initiation interval of `ii` cycles.
pub fn build_model(graph: &ClassGraph, limits: &Vec<i32>, ii: usize, roots: &[usize]) -> (program:
    LinearProgram)
    requires
        graph.wf(),
        fits(*graph, limits@.len() as int, ii as int),
        forall|i: int| 0 <= i < roots@.len() ==> (#[trigger] roots@[i]) < graph.leaders@.len(),
    ensures
        program@ == model(*graph, limits@, ii as int, roots@),
{
    let layout = Layout::new(graph, ii, limits.len());
    let columns = layout.columns();
    let objective = layout.last();
    let mut rows = layout.class_constraints();
    layout.all_node_constraints(&mut rows);
    layout.root_constraints(roots, &mut rows);
    layout.resource_constraints(limits, &mut rows);
    LinearProgram { columns, objective, rows }
}

} // verus!
