//! The integer program whose feasible points are the modulo schedules of a graph.

use vstd::prelude::*;

use crate::graph::ClassGraph;
use crate::program::{Column, ProgramView, Relation, RowView};
use crate::tile::{edge_at, edge_count, folded, folds, EdgeData, TileLang};

verus! {

/// How far a dependence of an operation that is not selected is relaxed.
pub const BIG_M: i32 = 1000;

/// The column that holds the start cycle of the class at position `c`.
pub open spec fn t_col(c: int) -> int {
    3 * c
}

/// The column that counts the whole intervals before the start of the class at position `c`.
pub open spec fn k_col(c: int) -> int {
    3 * c + 1
}

/// The column that tells whether the class at position `c` is selected.
pub open spec fn y_col(c: int) -> int {
    3 * c + 2
}

/// The column that tells whether node `j` of the class at position `c` is selected.
pub open spec fn x_col(g: ClassGraph, ii: int, c: int, j: int) -> int {
    3 * g.classes@.len() + (g.nodes_before(c) + j) * (ii + 1)
}

/// The column that tells whether that node is selected and starts in slot `slot`.
pub open spec fn a_col(g: ClassGraph, ii: int, c: int, j: int, slot: int) -> int {
    x_col(g, ii, c, j) + 1 + slot
}

/// The column that holds the cycle in which everything has finished.
pub open spec fn last_col(g: ClassGraph, ii: int) -> int {
    3 * g.classes@.len() + g.nodes_before(g.classes@.len() as int) * (ii + 1)
}

/// Whether column `i` is one of a node rather than one of a class.
pub open spec fn column_at(g: ClassGraph, ii: int, i: int) -> Column {
    if i < 3 * g.classes@.len() {
        if i % 3 == 2 {
            Column::Binary
        } else {
            Column::Natural
        }
    } else if i < last_col(g, ii) {
        Column::Binary
    } else {
        Column::Natural
    }
}

/// One column for each class's start, interval count and selection, then for each node its
/// selection and its slots, then the finishing cycle.
pub open spec fn model_columns(g: ClassGraph, ii: int) -> Seq<Column> {
    Seq::new((last_col(g, ii) + 1) as nat, |i: int| column_at(g, ii, i))
}

/// The selection columns of the first `n` nodes, each with coefficient one.
pub open spec fn choice_terms(g: ClassGraph, ii: int, c: int, n: nat) -> Seq<(int, int)> {
    Seq::new(n, |j: int| (x_col(g, ii, c, j), 1int))
}

/// A class is selected exactly when one of its nodes is.
pub open spec fn choice_row(g: ClassGraph, ii: int, c: int) -> RowView {
    RowView {
        terms: choice_terms(g, ii, c, g.nodes(c).len()).push((y_col(c), -1int)),
        constant: 0,
        relation: Relation::Equal,
        bound: 0,
    }
}

/// The slot columns of one node, each with its slot as a negative coefficient.
pub open spec fn node_slot_terms(g: ClassGraph, ii: int, c: int, j: int) -> Seq<(int, int)> {
    Seq::new(ii as nat, |slot: int| (a_col(g, ii, c, j, slot), -slot))
}

/// The slot columns of the first `n` nodes.
pub open spec fn slot_terms(g: ClassGraph, ii: int, c: int, n: nat) -> Seq<(int, int)>
    decreases n,
{
    if n == 0 {
        seq![]
    } else {
        slot_terms(g, ii, c, (n - 1) as nat) + node_slot_terms(g, ii, c, n - 1)
    }
}

/// A class starts a number of whole intervals and its slot after cycle zero.
pub open spec fn start_row(g: ClassGraph, ii: int, c: int) -> RowView {
    RowView {
        terms: seq![(t_col(c), 1int), (k_col(c), -ii)] + slot_terms(g, ii, c, g.nodes(c).len()),
        constant: 0,
        relation: Relation::Equal,
        bound: 0,
    }
}

/// How many cycles a node keeps its resources.
pub open spec fn cost(tile: TileLang<usize>) -> int {
    tile.rt@.len() as int
}

/// The selection columns of the first `n` nodes, each with its cost as a negative coefficient.
pub open spec fn cost_terms(g: ClassGraph, ii: int, c: int, n: nat) -> Seq<(int, int)> {
    Seq::new(n, |j: int| (x_col(g, ii, c, j), -cost(g.nodes(c)[j])))
}

/// Everything has finished when a class has.
pub open spec fn end_row(g: ClassGraph, ii: int, c: int) -> RowView {
    RowView {
        terms: seq![(last_col(g, ii), 1int), (t_col(c), -1int)] + cost_terms(
            g,
            ii,
            c,
            g.nodes(c).len(),
        ),
        constant: 0,
        relation: Relation::AtLeast,
        bound: 0,
    }
}

/// The rows of the first `n` classes.
pub open spec fn class_rows(g: ClassGraph, ii: int, n: nat) -> Seq<RowView>
    decreases n,
{
    if n == 0 {
        seq![]
    } else {
        class_rows(g, ii, (n - 1) as nat) + seq![
            choice_row(g, ii, n - 1),
            start_row(g, ii, n - 1),
            end_row(g, ii, n - 1),
        ]
    }
}

/// The slot columns of one node, each with coefficient one.
pub open spec fn unit_slot_terms(g: ClassGraph, ii: int, c: int, j: int) -> Seq<(int, int)> {
    Seq::new(ii as nat, |slot: int| (a_col(g, ii, c, j, slot), 1int))
}

/// A node starts in one slot exactly when it is selected.
pub open spec fn slot_row(g: ClassGraph, ii: int, c: int, j: int) -> RowView {
    RowView {
        terms: unit_slot_terms(g, ii, c, j).push((x_col(g, ii, c, j), -1int)),
        constant: 0,
        relation: Relation::Equal,
        bound: 0,
    }
}

/// A selected node has its `k`th operand selected.
pub open spec fn child_row(g: ClassGraph, ii: int, c: int, j: int, k: int) -> RowView {
    let child = g.class_index(g.nodes(c)[j].children@[k]);
    RowView {
        terms: seq![(x_col(g, ii, c, j), 1int), (y_col(child), -1int)],
        constant: 0,
        relation: Relation::AtMost,
        bound: 0,
    }
}

/// How much later than its source a dependence lets an operation start, in one iteration.
pub open spec fn lag(edge: EdgeData<usize>, ii: int) -> int {
    edge.d - ii * edge.delta
}

/// A selected node starts late enough for its `k`th dependence.
pub open spec fn edge_row(g: ClassGraph, ii: int, c: int, j: int, k: int) -> RowView {
    let edge = edge_at(g.nodes(c)[j], k);
    RowView {
        terms: seq![
            (t_col(c), 1int),
            (t_col(g.class_index(edge.id)), -1int),
            (x_col(g, ii, c, j), -BIG_M as int),
        ],
        constant: BIG_M as int,
        relation: Relation::AtLeast,
        bound: lag(edge, ii),
    }
}

/// The rows of one node.
pub open spec fn node_rows(g: ClassGraph, ii: int, c: int, j: int) -> Seq<RowView> {
    seq![slot_row(g, ii, c, j)] + Seq::new(
        g.nodes(c)[j].children@.len(),
        |k: int| child_row(g, ii, c, j, k),
    ) + Seq::new(edge_count(g.nodes(c)[j]), |k: int| edge_row(g, ii, c, j, k))
}

/// The rows of the first `n` nodes of a class.
pub open spec fn class_node_rows(g: ClassGraph, ii: int, c: int, n: nat) -> Seq<RowView>
    decreases n,
{
    if n == 0 {
        seq![]
    } else {
        class_node_rows(g, ii, c, (n - 1) as nat) + node_rows(g, ii, c, n - 1)
    }
}

/// The rows of the nodes of the first `n` classes.
pub open spec fn all_node_rows(g: ClassGraph, ii: int, n: nat) -> Seq<RowView>
    decreases n,
{
    if n == 0 {
        seq![]
    } else {
        all_node_rows(g, ii, (n - 1) as nat) + class_node_rows(
            g,
            ii,
            n - 1,
            g.nodes(n - 1).len(),
        )
    }
}

/// The class of a root is selected.
pub open spec fn root_row(g: ClassGraph, root: usize) -> RowView {
    RowView {
        terms: seq![(y_col(g.class_index(root)), 1int)],
        constant: 0,
        relation: Relation::Equal,
        bound: 1,
    }
}

/// The slots of one node, each with what the node then uses of resource `s` in slot `at`.
pub open spec fn node_usage_terms(g: ClassGraph, ii: int, s: int, at: int, c: int, j: int) -> Seq<
    (int, int),
> {
    let rt = g.nodes(c)[j].rt@;
    Seq::new(
        ii as nat,
        |i: int| (a_col(g, ii, c, j, i), folded(rt, ii, (at + ii - i) % ii, s, rt.len())),
    )
}

/// The same for the first `n` nodes of a class.
pub open spec fn class_usage_terms(
    g: ClassGraph,
    ii: int,
    s: int,
    at: int,
    c: int,
    n: nat,
) -> Seq<(int, int)>
    decreases n,
{
    if n == 0 {
        seq![]
    } else {
        class_usage_terms(g, ii, s, at, c, (n - 1) as nat) + node_usage_terms(
            g,
            ii,
            s,
            at,
            c,
            n - 1,
        )
    }
}

/// The same for the nodes of the first `n` classes.
pub open spec fn usage_terms(g: ClassGraph, ii: int, s: int, at: int, n: nat) -> Seq<(int, int)>
    decreases n,
{
    if n == 0 {
        seq![]
    } else {
        usage_terms(g, ii, s, at, (n - 1) as nat) + class_usage_terms(
            g,
            ii,
            s,
            at,
            n - 1,
            g.nodes(n - 1).len(),
        )
    }
}

/// Resource `s` suffices in slot `at`.
pub open spec fn resource_row(g: ClassGraph, limits: Seq<i32>, ii: int, s: int, at: int) -> RowView {
    RowView {
        terms: usage_terms(g, ii, s, at, g.classes@.len()),
        constant: 0,
        relation: Relation::AtMost,
        bound: limits[s] as int,
    }
}

/// The rows of the first `n` resources.
pub open spec fn resource_rows(g: ClassGraph, limits: Seq<i32>, ii: int, n: nat) -> Seq<RowView>
    decreases n,
{
    if n == 0 {
        seq![]
    } else {
        resource_rows(g, limits, ii, (n - 1) as nat) + Seq::new(
            ii as nat,
            |at: int| resource_row(g, limits, ii, n - 1, at),
        )
    }
}

/// Every row of the program.
pub open spec fn model_rows(g: ClassGraph, limits: Seq<i32>, ii: int, roots: Seq<usize>) -> Seq<
    RowView,
> {
    class_rows(g, ii, g.classes@.len()) + all_node_rows(g, ii, g.classes@.len()) + Seq::new(
        roots.len(),
        |i: int| root_row(g, roots[i]),
    ) + resource_rows(g, limits, ii, limits.len())
}

/// The program that asks for a modulo schedule of `g` with an initiation interval of `ii`
/// cycles which has the classes of `roots` and finishes as early as possible.
pub open spec fn model(g: ClassGraph, limits: Seq<i32>, ii: int, roots: Seq<usize>) -> ProgramView {
    ProgramView {
        columns: model_columns(g, ii),
        objective: last_col(g, ii),
        rows: model_rows(g, limits, ii, roots),
    }
}

/// The numbers of the program of `g` for `ii` fit the machine: it has a column for everything,
/// and intervals, costs, lags and folded resource tables are within the range of `i32`.
pub open spec fn fits(g: ClassGraph, n_resources: int, ii: int) -> bool {
    &&& has_columns(g, ii)
    &&& forall|c: int, j: int|
        0 <= c < g.classes@.len() && 0 <= j < g.nodes(c).len() ==> node_fits(
            #[trigger] g.nodes(c)[j],
            n_resources,
            ii,
        )
}

/// There is a column for everything, and the initiation interval fits the machine.
pub open spec fn has_columns(g: ClassGraph, ii: int) -> bool {
    &&& last_col(g, ii) < usize::MAX
    &&& 0 < ii <= i32::MAX
}

/// The numbers of one node fit the machine.
pub open spec fn node_fits(tile: TileLang<usize>, n_resources: int, ii: int) -> bool {
    &&& cost(tile) <= i32::MAX
    &&& folds(tile.rt@, ii, n_resources)
    &&& forall|k: int| 0 <= k < edge_count(tile) ==> lag_fits(#[trigger] edge_at(tile, k), ii)
}

/// The lag of a dependence fits the machine.
pub open spec fn lag_fits(edge: EdgeData<usize>, ii: int) -> bool {
    &&& i32::MIN <= ii * edge.delta <= i32::MAX
    &&& i32::MIN <= lag(edge, ii) <= i32::MAX
}

} // verus!
