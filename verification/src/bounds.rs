//! The program of a graph names only its own columns.

use vstd::prelude::*;

use crate::assemble::node_columns_in_range;
use crate::graph::ClassGraph;
use crate::model::{
    all_node_rows, child_row, choice_row, class_node_rows, class_rows, class_usage_terms, edge_row,
    end_row, last_col, model, model_rows, node_rows, resource_row, resource_rows, root_row,
    slot_terms, start_row, usage_terms, x_col,
};
use crate::program::{terms_within, well_formed, RowView};
use crate::tile::edge_count;

verus! {

/// Every row names columns below `width`.
pub open spec fn rows_within(rows: Seq<RowView>, width: int) -> bool {
    forall|i: int| 0 <= i < rows.len() ==> terms_within((#[trigger] rows[i]).terms, width)
}

proof fn slot_terms_within(g: ClassGraph, ii: int, c: int, n: nat)
    requires
        0 < ii,
        0 <= c < g.classes@.len(),
        n <= g.nodes(c).len(),
    ensures
        terms_within(slot_terms(g, ii, c, n), last_col(g, ii) + 1),
    decreases n,
{
    if n > 0 {
        slot_terms_within(g, ii, c, (n - 1) as nat);
        node_columns_in_range(g, ii, c, n - 1);
    }
}

proof fn class_usage_terms_within(g: ClassGraph, ii: int, s: int, at: int, c: int, n: nat)
    requires
        0 < ii,
        0 <= c < g.classes@.len(),
        n <= g.nodes(c).len(),
    ensures
        terms_within(class_usage_terms(g, ii, s, at, c, n), last_col(g, ii) + 1),
    decreases n,
{
    if n > 0 {
        class_usage_terms_within(g, ii, s, at, c, (n - 1) as nat);
        node_columns_in_range(g, ii, c, n - 1);
    }
}

proof fn usage_terms_within(g: ClassGraph, ii: int, s: int, at: int, n: nat)
    requires
        0 < ii,
        n <= g.classes@.len(),
    ensures
        terms_within(usage_terms(g, ii, s, at, n), last_col(g, ii) + 1),
    decreases n,
{
    if n > 0 {
        usage_terms_within(g, ii, s, at, (n - 1) as nat);
        class_usage_terms_within(g, ii, s, at, n - 1, g.nodes(n - 1).len());
    }
}

pub proof fn last_column_is_last(g: ClassGraph, ii: int)
    requires
        0 < ii,
    ensures
        3 * g.classes@.len() <= last_col(g, ii),
{
    let all = g.nodes_before(g.classes@.len() as int) as int;
    assert(0 <= all * (ii + 1)) by (nonlinear_arith)
        requires
            0 <= all,
            0 < ii,
    ;
}

proof fn class_rows_within(g: ClassGraph, ii: int, n: nat)
    requires
        0 < ii,
        n <= g.classes@.len(),
    ensures
        rows_within(class_rows(g, ii, n), last_col(g, ii) + 1),
    decreases n,
{
    if n > 0 {
        let c = n - 1;
        class_rows_within(g, ii, c as nat);
        last_column_is_last(g, ii);
        assert forall|j: int| 0 <= j < g.nodes(c).len() implies 0 <= #[trigger] x_col(g, ii, c, j)
            <= last_col(g, ii) by {
            node_columns_in_range(g, ii, c, j);
        }
        slot_terms_within(g, ii, c, g.nodes(c).len());
        let three = seq![choice_row(g, ii, c), start_row(g, ii, c), end_row(g, ii, c)];
        assert(rows_within(three, last_col(g, ii) + 1));
    }
}

proof fn node_rows_within(g: ClassGraph, ii: int, c: int, j: int)
    requires
        g.wf(),
        0 < ii,
        0 <= c < g.classes@.len(),
        0 <= j < g.nodes(c).len(),
    ensures
        rows_within(node_rows(g, ii, c, j), last_col(g, ii) + 1),
{
    last_column_is_last(g, ii);
    node_columns_in_range(g, ii, c, j);
    let tile = g.nodes(c)[j];
    let width = last_col(g, ii) + 1;
    assert forall|k: int| 0 <= k < tile.children@.len() implies terms_within(
        (#[trigger] child_row(g, ii, c, j, k)).terms,
        width,
    ) by {
        g.class_index_is_unique(tile.children@[k], 0);
    }
    assert forall|k: int| 0 <= k < edge_count(tile) implies terms_within(
        (#[trigger] edge_row(g, ii, c, j, k)).terms,
        width,
    ) by {
        g.class_index_is_unique(tile.children@[k], 0);
    }
}

proof fn class_node_rows_within(g: ClassGraph, ii: int, c: int, n: nat)
    requires
        g.wf(),
        0 < ii,
        0 <= c < g.classes@.len(),
        n <= g.nodes(c).len(),
    ensures
        rows_within(class_node_rows(g, ii, c, n), last_col(g, ii) + 1),
    decreases n,
{
    if n > 0 {
        class_node_rows_within(g, ii, c, (n - 1) as nat);
        node_rows_within(g, ii, c, n - 1);
    }
}

proof fn all_node_rows_within(g: ClassGraph, ii: int, n: nat)
    requires
        g.wf(),
        0 < ii,
        n <= g.classes@.len(),
    ensures
        rows_within(all_node_rows(g, ii, n), last_col(g, ii) + 1),
    decreases n,
{
    if n > 0 {
        all_node_rows_within(g, ii, (n - 1) as nat);
        class_node_rows_within(g, ii, n - 1, g.nodes(n - 1).len());
    }
}

proof fn resource_rows_within(g: ClassGraph, limits: Seq<i32>, ii: int, n: nat)
    requires
        0 < ii,
    ensures
        rows_within(resource_rows(g, limits, ii, n), last_col(g, ii) + 1),
    decreases n,
{
    if n > 0 {
        resource_rows_within(g, limits, ii, (n - 1) as nat);
        assert forall|at: int| terms_within(
            (#[trigger] resource_row(g, limits, ii, n - 1, at)).terms,
            last_col(g, ii) + 1,
        ) by {
            usage_terms_within(g, ii, n - 1, at, g.classes@.len());
        }
    }
}

/// The program of a graph names only its own columns.
pub proof fn model_is_well_formed(g: ClassGraph, limits: Seq<i32>, ii: int, roots: Seq<usize>)
    requires
        g.wf(),
        0 < ii,
        forall|i: int| 0 <= i < roots.len() ==> (#[trigger] roots[i]) < g.leaders@.len(),
    ensures
        well_formed(model(g, limits, ii, roots)),
{
    let n = g.classes@.len();
    let width = last_col(g, ii) + 1;
    last_column_is_last(g, ii);
    class_rows_within(g, ii, n);
    all_node_rows_within(g, ii, n);
    resource_rows_within(g, limits, ii, limits.len());
    assert forall|i: int| 0 <= i < roots.len() implies terms_within(
        (#[trigger] root_row(g, roots[i])).terms,
        width,
    ) by {
        g.class_index_is_unique(roots[i], 0);
    }
    assert(rows_within(model_rows(g, limits, ii, roots), width));
}

} // verus!
