//! What a modulo schedule is, and that the integer program describes exactly those.

use vstd::arithmetic::div_mod::{
    lemma_div_pos_is_pos, lemma_fundamental_div_mod, lemma_fundamental_div_mod_converse,
    lemma_mod_bound, lemma_mod_equivalence, lemma_small_mod,
};
use vstd::prelude::*;

use crate::assemble::{node_columns_in_range, nodes_before_grows};
use crate::bounds::last_column_is_last;
use crate::extract::{clamp_i32, decodes, picks, selects, SwpSolution};
use crate::graph::ClassGraph;
use crate::model::{
    a_col, all_node_rows, child_row, choice_row, choice_terms, class_node_rows, class_rows,
    class_usage_terms, cost, cost_terms, edge_row, end_row, k_col, lag, last_col, model,
    model_columns, model_rows, node_rows, node_slot_terms, node_usage_terms, resource_row,
    resource_rows, root_row, slot_row, slot_terms, start_row, t_col, unit_slot_terms, usage_terms,
    x_col, y_col, BIG_M,
};
use crate::program::{
    all_hold, all_hold_of_sum, feasible, holds, in_domain, total, total_of_push, total_of_sum,
    Column,
};
use crate::tile::{cell, edge_at, edge_count, folded, TileLang};

verus! {

/// The class at position `c` is selected.
pub open spec fn chosen(g: ClassGraph, selected: Map<usize, (usize, i32)>, c: int) -> bool {
    selected.contains_key(g.classes@[c].id)
}

/// The position of the node that is selected of the class at position `c`.
pub open spec fn choice(g: ClassGraph, selected: Map<usize, (usize, i32)>, c: int) -> int {
    selected[g.classes@[c].id].0 as int
}

/// The node that is selected of the class at position `c`.
pub open spec fn tile(g: ClassGraph, selected: Map<usize, (usize, i32)>, c: int) -> TileLang<usize> {
    g.nodes(c)[choice(g, selected, c)]
}

/// The cycle in which the class at position `c` starts.
pub open spec fn start(g: ClassGraph, selected: Map<usize, (usize, i32)>, c: int) -> int {
    selected[g.classes@[c].id].1 as int
}

/// The units of resource `s` that the first `n` rows of `rt` use in the cycles that are `at`
/// modulo `ii`, when the first row is used in cycle `from`.
pub open spec fn occupied(rt: Seq<Vec<i32>>, ii: int, from: int, s: int, at: int, n: nat) -> int
    decreases n,
{
    if n == 0 {
        0
    } else {
        let rest = occupied(rt, ii, from, s, at, (n - 1) as nat);
        if (from + n - 1) % ii == at {
            rest + cell(rt[n - 1]@, s)
        } else {
            rest
        }
    }
}

/// The units of resource `s` that the selected nodes of the first `n` classes use in the cycles
/// that are `at` modulo `ii`.
pub open spec fn demand(
    g: ClassGraph,
    ii: int,
    selected: Map<usize, (usize, i32)>,
    s: int,
    at: int,
    n: nat,
) -> int
    decreases n,
{
    if n == 0 {
        0
    } else {
        let c = n - 1;
        let rest = demand(g, ii, selected, s, at, c as nat);
        if chosen(g, selected, c) {
            let rt = tile(g, selected, c).rt@;
            rest + occupied(rt, ii, start(g, selected, c), s, at, rt.len())
        } else {
            rest
        }
    }
}

/// The selection is one node of each of some classes, and all of them run between cycle zero
/// and `end`.
pub open spec fn runs_within(g: ClassGraph, end: int, selected: Map<usize, (usize, i32)>) -> bool {
    &&& forall|id: usize| #[trigger] selected.contains_key(id) ==> g.is_class(id)
    &&& forall|c: int|
        0 <= c < g.classes@.len() && #[trigger] chosen(g, selected, c) ==> {
            &&& 0 <= choice(g, selected, c) < g.nodes(c).len()
            &&& 0 <= start(g, selected, c)
            &&& start(g, selected, c) + cost(tile(g, selected, c)) <= end
        }
}

/// The classes of the roots are selected, and so are the operands of all that is selected.
pub open spec fn is_closed(
    g: ClassGraph,
    roots: Seq<usize>,
    selected: Map<usize, (usize, i32)>,
) -> bool {
    &&& forall|i: int|
        0 <= i < roots.len() ==> chosen(g, selected, g.class_index(#[trigger] roots[i]))
    &&& forall|c: int, k: int|
        0 <= c < g.classes@.len() && chosen(g, selected, c) && 0 <= k < tile(
            g,
            selected,
            c,
        ).children@.len() ==> chosen(
            g,
            selected,
            g.class_index(#[trigger] tile(g, selected, c).children@[k]),
        )
}

/// Everything that is selected starts late enough for its dependences.
pub open spec fn keeps_dependences(
    g: ClassGraph,
    ii: int,
    selected: Map<usize, (usize, i32)>,
) -> bool {
    forall|c: int, k: int|
        0 <= c < g.classes@.len() && chosen(g, selected, c) && 0 <= k < edge_count(
            tile(g, selected, c),
        ) ==> {
            let edge = #[trigger] edge_at(tile(g, selected, c), k);
            start(g, selected, c) >= start(g, selected, g.class_index(edge.id)) + lag(edge, ii)
        }
}

/// No resource is used beyond its limit in any slot of the initiation interval.
pub open spec fn keeps_limits(
    g: ClassGraph,
    limits: Seq<i32>,
    ii: int,
    selected: Map<usize, (usize, i32)>,
) -> bool {
    forall|s: int, at: int|
        0 <= s < limits.len() && 0 <= at < ii ==> #[trigger] demand(
            g,
            ii,
            selected,
            s,
            at,
            g.classes@.len(),
        ) <= limits[s]
}

/// `selected` is a modulo schedule of `g` with an initiation interval of `ii` cycles that has
/// the classes of the roots and has finished by cycle `end`.
pub open spec fn is_schedule(
    g: ClassGraph,
    limits: Seq<i32>,
    ii: int,
    roots: Seq<usize>,
    end: int,
    selected: Map<usize, (usize, i32)>,
) -> bool {
    &&& runs_within(g, end, selected)
    &&& is_closed(g, roots, selected)
    &&& keeps_dependences(g, ii, selected)
    &&& keeps_limits(g, limits, ii, selected)
}

/// The columns of the terms are zero, but for that of term `i`, which is one.
pub open spec fn hot_at(terms: Seq<(int, int)>, values: Seq<int>, i: int) -> bool {
    &&& 0 <= i < terms.len()
    &&& values[terms[i].0] == 1
    &&& forall|k: int| 0 <= k < terms.len() && k != i ==> values[(#[trigger] terms[k]).0] == 0
}

/// The columns of the terms are zero.
pub open spec fn cold(terms: Seq<(int, int)>, values: Seq<int>) -> bool {
    forall|k: int| 0 <= k < terms.len() ==> values[(#[trigger] terms[k]).0] == 0
}

proof fn total_of_cold(terms: Seq<(int, int)>, values: Seq<int>)
    requires
        cold(terms, values),
    ensures
        total(terms, values) == 0,
    decreases terms.len(),
{
    if terms.len() > 0 {
        assert forall|k: int| 0 <= k < terms.drop_last().len() implies values[(
        #[trigger] terms.drop_last()[k]).0] == 0 by {
            assert(terms[k] == terms.drop_last()[k]);
        }
        total_of_cold(terms.drop_last(), values);
        assert(values[terms[terms.len() - 1].0] == 0);
        assert(terms.last().1 * 0 == 0) by (nonlinear_arith);
    }
}

proof fn total_of_hot(terms: Seq<(int, int)>, values: Seq<int>, i: int)
    requires
        hot_at(terms, values, i),
    ensures
        total(terms, values) == terms[i].1,
    decreases terms.len(),
{
    let front = terms.drop_last();
    assert forall|k: int| 0 <= k < front.len() && k != i implies values[(#[trigger] front[k]).0]
        == 0 by {
        assert(terms[k] == front[k]);
    }
    if i == terms.len() - 1 {
        total_of_cold(front, values);
        assert(terms.last().1 * 1 == terms.last().1) by (nonlinear_arith);
    } else {
        assert(front[i] == terms[i]);
        total_of_hot(front, values, i);
        assert(values[terms[terms.len() - 1].0] == 0);
        assert(terms.last().1 * 0 == 0) by (nonlinear_arith);
    }
}

/// Columns that are zero or one add up to their number of ones.
proof fn total_of_units(terms: Seq<(int, int)>, values: Seq<int>) -> (i: int)
    requires
        forall|k: int|
            0 <= k < terms.len() ==> (#[trigger] terms[k]).1 == 1 && in_domain(
                Column::Binary,
                values[terms[k].0],
            ),
    ensures
        0 <= total(terms, values),
        total(terms, values) == 0 ==> cold(terms, values),
        total(terms, values) == 1 ==> hot_at(terms, values, i),
    decreases terms.len(),
{
    if terms.len() == 0 {
        0
    } else {
        let front = terms.drop_last();
        assert forall|k: int| 0 <= k < front.len() implies (#[trigger] front[k]).1 == 1
            && in_domain(Column::Binary, values[front[k].0]) by {
            assert(terms[k] == front[k]);
        }
        let i = total_of_units(front, values);
        let last = terms[terms.len() - 1];
        assert(last.1 == 1 && in_domain(Column::Binary, values[last.0]));
        if values[last.0] == 1 {
            if total(terms, values) == 1 {
                assert forall|k: int| 0 <= k < terms.len() && k != terms.len() - 1 implies values[(
                #[trigger] terms[k]).0] == 0 by {
                    assert(terms[k] == front[k]);
                }
            }
            terms.len() - 1
        } else {
            if total(terms, values) == 0 {
                assert forall|k: int| 0 <= k < terms.len() implies values[(#[trigger] terms[k]).0]
                    == 0 by {
                    if k < front.len() {
                        assert(terms[k] == front[k]);
                    }
                }
            }
            if total(terms, values) == 1 {
                assert(terms[i] == front[i]);
                assert forall|k: int| 0 <= k < terms.len() && k != i implies values[(
                #[trigger] terms[k]).0] == 0 by {
                    if k < front.len() {
                        assert(terms[k] == front[k]);
                    }
                }
            }
            i
        }
    }
}

/// Of the class at position `c` only node `j` is selected, and it starts in slot `slot`.
pub open spec fn class_hot(
    g: ClassGraph,
    ii: int,
    values: Seq<int>,
    c: int,
    j: int,
    slot: int,
) -> bool {
    &&& 0 <= j < g.nodes(c).len()
    &&& 0 <= slot < ii
    &&& forall|i: int|
        0 <= i < g.nodes(c).len() ==> values[#[trigger] x_col(g, ii, c, i)] == if i == j {
            1int
        } else {
            0
        }
    &&& forall|i: int, q: int|
        0 <= i < g.nodes(c).len() && 0 <= q < ii ==> values[#[trigger] a_col(g, ii, c, i, q)]
            == if i == j && q == slot {
            1int
        } else {
            0
        }
}

/// No node of the class at position `c` is selected.
pub open spec fn class_cold(g: ClassGraph, ii: int, values: Seq<int>, c: int) -> bool {
    &&& forall|i: int|
        0 <= i < g.nodes(c).len() ==> values[#[trigger] x_col(g, ii, c, i)] == 0
    &&& forall|i: int, q: int|
        0 <= i < g.nodes(c).len() && 0 <= q < ii ==> values[#[trigger] a_col(g, ii, c, i, q)] == 0
}

proof fn times_one(k: int, v: int)
    by (nonlinear_arith)
    requires
        k == 1,
    ensures
        k * v == v,
{
}

proof fn times_minus(k: int, m: int, v: int)
    by (nonlinear_arith)
    requires
        k == -m,
    ensures
        k * v == -(m * v),
{
}

proof fn total_of_two(a: (int, int), b: (int, int), values: Seq<int>)
    ensures
        total(seq![a, b], values) == a.1 * values[a.0] + b.1 * values[b.0],
{
    reveal_with_fuel(total, 3);
    let both = seq![a, b];
    assert(both.drop_last() =~= seq![a]);
    assert(seq![a].drop_last() =~= seq![]);
}

proof fn total_of_three(a: (int, int), b: (int, int), c: (int, int), values: Seq<int>)
    ensures
        total(seq![a, b, c], values) == a.1 * values[a.0] + b.1 * values[b.0] + c.1 * values[c.0],
{
    let all = seq![a, b, c];
    assert(all.drop_last() =~= seq![a, b]);
    total_of_two(a, b, values);
}

proof fn slot_terms_of_hot(
    g: ClassGraph,
    ii: int,
    values: Seq<int>,
    c: int,
    j: int,
    slot: int,
    n: nat,
)
    requires
        class_hot(g, ii, values, c, j, slot),
        n <= g.nodes(c).len(),
    ensures
        total(slot_terms(g, ii, c, n), values) == if j < n {
            -slot
        } else {
            0
        },
    decreases n,
{
    if n > 0 {
        slot_terms_of_hot(g, ii, values, c, j, slot, (n - 1) as nat);
        let node = node_slot_terms(g, ii, c, n - 1);
        total_of_sum(slot_terms(g, ii, c, (n - 1) as nat), node, values);
        if n - 1 == j {
            assert(node[slot].0 == a_col(g, ii, c, j, slot));
            total_of_hot(node, values, slot);
        } else {
            total_of_cold(node, values);
        }
    }
}

proof fn slot_terms_of_cold(g: ClassGraph, ii: int, values: Seq<int>, c: int, n: nat)
    requires
        0 < ii,
        class_cold(g, ii, values, c),
        n <= g.nodes(c).len(),
    ensures
        total(slot_terms(g, ii, c, n), values) == 0,
    decreases n,
{
    if n > 0 {
        slot_terms_of_cold(g, ii, values, c, (n - 1) as nat);
        let node = node_slot_terms(g, ii, c, n - 1);
        total_of_sum(slot_terms(g, ii, c, (n - 1) as nat), node, values);
        total_of_cold(node, values);
    }
}

/// What the rows of a selected class say.
proof fn class_rows_of_hot(g: ClassGraph, ii: int, values: Seq<int>, c: int, j: int, slot: int)
    requires
        class_hot(g, ii, values, c, j, slot),
    ensures
        holds(choice_row(g, ii, c), values) <==> values[y_col(c)] == 1,
        holds(start_row(g, ii, c), values) <==> values[t_col(c)] == ii * values[k_col(c)] + slot,
        holds(end_row(g, ii, c), values) <==> values[last_col(g, ii)] >= values[t_col(c)] + cost(
            g.nodes(c)[j],
        ),
{
    let n = g.nodes(c).len();
    let choices = choice_terms(g, ii, c, n);
    assert(choices[j].0 == x_col(g, ii, c, j));
    total_of_hot(choices, values, j);
    total_of_push(choices, (y_col(c), -1int), values);
    let t = (t_col(c), 1int);
    let k = (k_col(c), -ii);
    total_of_two(t, k, values);
    slot_terms_of_hot(g, ii, values, c, j, slot, n);
    total_of_sum(seq![t, k], slot_terms(g, ii, c, n), values);
    times_one(t.1, values[t.0]);
    times_minus(k.1, ii, values[k.0]);
    assert(start_row(g, ii, c).terms == seq![t, k] + slot_terms(g, ii, c, n));
    let costs = cost_terms(g, ii, c, n);
    let last = (last_col(g, ii), 1int);
    let minus_t = (t_col(c), -1int);
    total_of_two(last, minus_t, values);
    assert(costs[j].0 == x_col(g, ii, c, j));
    total_of_hot(costs, values, j);
    total_of_sum(seq![last, minus_t], costs, values);
    times_one(last.1, values[last.0]);
    times_minus(minus_t.1, 1, values[minus_t.0]);
    assert(end_row(g, ii, c).terms == seq![last, minus_t] + costs);
}

/// What the rows of a class say that is not selected.
proof fn class_rows_of_cold(g: ClassGraph, ii: int, values: Seq<int>, c: int)
    requires
        0 < ii,
        class_cold(g, ii, values, c),
    ensures
        holds(choice_row(g, ii, c), values) <==> values[y_col(c)] == 0,
        holds(start_row(g, ii, c), values) <==> values[t_col(c)] == ii * values[k_col(c)],
        holds(end_row(g, ii, c), values) <==> values[last_col(g, ii)] >= values[t_col(c)],
{
    let n = g.nodes(c).len();
    let choices = choice_terms(g, ii, c, n);
    total_of_cold(choices, values);
    total_of_push(choices, (y_col(c), -1int), values);
    let t = (t_col(c), 1int);
    let k = (k_col(c), -ii);
    total_of_two(t, k, values);
    slot_terms_of_cold(g, ii, values, c, n);
    total_of_sum(seq![t, k], slot_terms(g, ii, c, n), values);
    times_one(t.1, values[t.0]);
    times_minus(k.1, ii, values[k.0]);
    assert(start_row(g, ii, c).terms == seq![t, k] + slot_terms(g, ii, c, n));
    let costs = cost_terms(g, ii, c, n);
    let last = (last_col(g, ii), 1int);
    let minus_t = (t_col(c), -1int);
    total_of_two(last, minus_t, values);
    total_of_cold(costs, values);
    total_of_sum(seq![last, minus_t], costs, values);
    times_one(last.1, values[last.0]);
    times_minus(minus_t.1, 1, values[minus_t.0]);
    assert(end_row(g, ii, c).terms == seq![last, minus_t] + costs);
}

/// What the rows of a node say.
proof fn node_rows_say(g: ClassGraph, ii: int, values: Seq<int>, c: int, j: int, k: int)
    ensures
        holds(child_row(g, ii, c, j, k), values) <==> values[x_col(g, ii, c, j)] <= values[y_col(
            g.class_index(g.nodes(c)[j].children@[k]),
        )],
        holds(edge_row(g, ii, c, j, k), values) <==> {
            let edge = edge_at(g.nodes(c)[j], k);
            values[t_col(c)] - values[t_col(g.class_index(edge.id))] + BIG_M - BIG_M
                * values[x_col(g, ii, c, j)] >= lag(edge, ii)
        },
{
    let child = g.class_index(g.nodes(c)[j].children@[k]);
    total_of_two((x_col(g, ii, c, j), 1int), (y_col(child), -1int), values);
    let edge = edge_at(g.nodes(c)[j], k);
    let t = (t_col(c), 1int);
    let source = (t_col(g.class_index(edge.id)), -1int);
    let x = (x_col(g, ii, c, j), -BIG_M as int);
    total_of_three(t, source, x, values);
    times_one(t.1, values[t.0]);
    times_minus(source.1, 1, values[source.0]);
    times_minus(x.1, BIG_M as int, values[x.0]);
    assert(edge_row(g, ii, c, j, k).terms == seq![t, source, x]);
}

/// A node that is selected exactly when its class says so starts in one slot.
proof fn slot_row_says(g: ClassGraph, ii: int, values: Seq<int>, c: int, j: int)
    ensures
        holds(slot_row(g, ii, c, j), values) <==> total(unit_slot_terms(g, ii, c, j), values)
            == values[x_col(g, ii, c, j)],
{
    total_of_push(unit_slot_terms(g, ii, c, j), (x_col(g, ii, c, j), -1int), values);
}

proof fn root_row_says(g: ClassGraph, root: usize, values: Seq<int>)
    ensures
        holds(root_row(g, root), values) <==> values[y_col(g.class_index(root))] == 1,
{
    reveal_with_fuel(total, 2);
    let one = seq![(y_col(g.class_index(root)), 1int)];
    assert(one.drop_last() =~= seq![]);
}

/// Every row of every class holds.
pub open spec fn classes_hold(g: ClassGraph, ii: int, values: Seq<int>, n: nat) -> bool {
    forall|c: int|
        #![trigger g.classes@[c]]
        0 <= c < n ==> holds(choice_row(g, ii, c), values) && holds(start_row(g, ii, c), values)
            && holds(end_row(g, ii, c), values)
}

proof fn class_rows_hold(g: ClassGraph, ii: int, values: Seq<int>, n: nat)
    requires
        n <= g.classes@.len(),
    ensures
        all_hold(class_rows(g, ii, n), values) <==> classes_hold(g, ii, values, n),
    decreases n,
{
    if n > 0 {
        let c = n - 1;
        let three = seq![choice_row(g, ii, c), start_row(g, ii, c), end_row(g, ii, c)];
        class_rows_hold(g, ii, values, c as nat);
        all_hold_of_sum(class_rows(g, ii, c as nat), three, values);
        if all_hold(three, values) {
            assert(holds(three[0], values) && holds(three[1], values) && holds(three[2], values));
        }
        if classes_hold(g, ii, values, n) {
            let _ = g.classes@[c];
            assert(all_hold(three, values));
        }
    }
}

/// Every row of a node holds.
pub open spec fn node_holds(g: ClassGraph, ii: int, values: Seq<int>, c: int, j: int) -> bool {
    &&& holds(slot_row(g, ii, c, j), values)
    &&& forall|k: int|
        0 <= k < g.nodes(c)[j].children@.len() ==> holds(
            #[trigger] child_row(g, ii, c, j, k),
            values,
        )
    &&& forall|k: int|
        0 <= k < edge_count(g.nodes(c)[j]) ==> holds(#[trigger] edge_row(g, ii, c, j, k), values)
}

proof fn node_rows_hold(g: ClassGraph, ii: int, values: Seq<int>, c: int, j: int)
    ensures
        all_hold(node_rows(g, ii, c, j), values) <==> node_holds(g, ii, values, c, j),
{
    let tile = g.nodes(c)[j];
    let one = seq![slot_row(g, ii, c, j)];
    let children = Seq::new(tile.children@.len(), |k: int| child_row(g, ii, c, j, k));
    let edges = Seq::new(edge_count(tile), |k: int| edge_row(g, ii, c, j, k));
    all_hold_of_sum(one + children, edges, values);
    all_hold_of_sum(one, children, values);
    if all_hold(one + children + edges, values) {
        assert(holds(one[0], values));
        assert forall|k: int| 0 <= k < tile.children@.len() implies holds(
            #[trigger] child_row(g, ii, c, j, k),
            values,
        ) by {
            assert(holds(children[k], values));
        }
        assert forall|k: int| 0 <= k < edge_count(tile) implies holds(
            #[trigger] edge_row(g, ii, c, j, k),
            values,
        ) by {
            assert(holds(edges[k], values));
        }
    }
}

proof fn class_node_rows_hold(g: ClassGraph, ii: int, values: Seq<int>, c: int, n: nat)
    ensures
        all_hold(class_node_rows(g, ii, c, n), values) <==> forall|j: int|
            0 <= j < n ==> #[trigger] node_holds(g, ii, values, c, j),
    decreases n,
{
    if n > 0 {
        class_node_rows_hold(g, ii, values, c, (n - 1) as nat);
        node_rows_hold(g, ii, values, c, n - 1);
        all_hold_of_sum(
            class_node_rows(g, ii, c, (n - 1) as nat),
            node_rows(g, ii, c, n - 1),
            values,
        );
    }
}

proof fn all_node_rows_hold(g: ClassGraph, ii: int, values: Seq<int>, n: nat)
    ensures
        all_hold(all_node_rows(g, ii, n), values) <==> forall|c: int, j: int|
            0 <= c < n && 0 <= j < g.nodes(c).len() ==> #[trigger] node_holds(
                g,
                ii,
                values,
                c,
                j,
            ),
    decreases n,
{
    if n > 0 {
        let c = n - 1;
        all_node_rows_hold(g, ii, values, c as nat);
        class_node_rows_hold(g, ii, values, c, g.nodes(c).len());
        all_hold_of_sum(
            all_node_rows(g, ii, c as nat),
            class_node_rows(g, ii, c, g.nodes(c).len()),
            values,
        );
    }
}

proof fn resource_rows_hold(g: ClassGraph, limits: Seq<i32>, ii: int, values: Seq<int>, n: nat)
    requires
        0 < ii,
    ensures
        all_hold(resource_rows(g, limits, ii, n), values) <==> forall|s: int, at: int|
            0 <= s < n && 0 <= at < ii ==> holds(
                #[trigger] resource_row(g, limits, ii, s, at),
                values,
            ),
    decreases n,
{
    if n > 0 {
        let s = n - 1;
        resource_rows_hold(g, limits, ii, values, s as nat);
        let slots = Seq::new(ii as nat, |at: int| resource_row(g, limits, ii, s, at));
        all_hold_of_sum(resource_rows(g, limits, ii, s as nat), slots, values);
        if all_hold(slots, values) {
            assert forall|at: int| 0 <= at < ii implies holds(
                #[trigger] resource_row(g, limits, ii, s, at),
                values,
            ) by {
                assert(holds(slots[at], values));
            }
        }
    }
}

/// What it takes for every row of the program to hold.
pub proof fn model_rows_hold(
    g: ClassGraph,
    limits: Seq<i32>,
    ii: int,
    roots: Seq<usize>,
    values: Seq<int>,
)
    requires
        0 < ii,
    ensures
        all_hold(model_rows(g, limits, ii, roots), values) <==> {
            &&& classes_hold(g, ii, values, g.classes@.len())
            &&& forall|c: int, j: int|
                0 <= c < g.classes@.len() && 0 <= j < g.nodes(c).len() ==> #[trigger] node_holds(
                    g,
                    ii,
                    values,
                    c,
                    j,
                )
            &&& forall|i: int|
                0 <= i < roots.len() ==> holds(root_row(g, #[trigger] roots[i]), values)
            &&& forall|s: int, at: int|
                0 <= s < limits.len() && 0 <= at < ii ==> holds(
                    #[trigger] resource_row(g, limits, ii, s, at),
                    values,
                )
        },
{
    let n = g.classes@.len();
    let classes = class_rows(g, ii, n);
    let nodes = all_node_rows(g, ii, n);
    let wanted = Seq::new(roots.len(), |i: int| root_row(g, roots[i]));
    let resources = resource_rows(g, limits, ii, limits.len());
    all_hold_of_sum(classes + nodes + wanted, resources, values);
    all_hold_of_sum(classes + nodes, wanted, values);
    all_hold_of_sum(classes, nodes, values);
    class_rows_hold(g, ii, values, n);
    all_node_rows_hold(g, ii, values, n);
    resource_rows_hold(g, limits, ii, values, limits.len());
    if all_hold(wanted, values) {
        assert forall|i: int| 0 <= i < roots.len() implies holds(
            root_row(g, #[trigger] roots[i]),
            values,
        ) by {
            assert(holds(wanted[i], values));
        }
    }
}

/// Shifting a table by its start cycle is folding it and shifting the slots.
proof fn occupied_is_folded(
    rt: Seq<Vec<i32>>,
    ii: int,
    from: int,
    slot: int,
    s: int,
    at: int,
    n: nat,
)
    requires
        0 < ii,
        0 <= at < ii,
        slot == from % ii,
    ensures
        occupied(rt, ii, from, s, at, n) == folded(rt, ii, (at + ii - slot) % ii, s, n),
    decreases n,
{
    if n > 0 {
        let m = n - 1;
        occupied_is_folded(rt, ii, from, slot, s, at, m as nat);
        let k = from / ii;
        lemma_fundamental_div_mod(from, ii);
        lemma_mod_equivalence(from + m, at, ii);
        lemma_small_mod(at as nat, ii as nat);
        lemma_mod_equivalence(m, at + ii - slot, ii);
        let gap = m - (at + ii - slot);
        assert(from + m - at == ii * (k + 1) + gap) by (nonlinear_arith)
            requires
                from == ii * k + slot,
                gap == m - (at + ii - slot),
        ;
        vstd::arithmetic::div_mod::lemma_mod_multiples_vanish(k + 1, gap, ii);
    }
}

proof fn class_usage_of_hot(
    g: ClassGraph,
    ii: int,
    values: Seq<int>,
    s: int,
    at: int,
    c: int,
    j: int,
    slot: int,
    n: nat,
)
    requires
        class_hot(g, ii, values, c, j, slot),
        n <= g.nodes(c).len(),
    ensures
        total(class_usage_terms(g, ii, s, at, c, n), values) == if j < n {
            folded(g.nodes(c)[j].rt@, ii, (at + ii - slot) % ii, s, g.nodes(c)[j].rt@.len())
        } else {
            0
        },
    decreases n,
{
    if n > 0 {
        class_usage_of_hot(g, ii, values, s, at, c, j, slot, (n - 1) as nat);
        let node = node_usage_terms(g, ii, s, at, c, n - 1);
        total_of_sum(class_usage_terms(g, ii, s, at, c, (n - 1) as nat), node, values);
        if n - 1 == j {
            assert(node[slot].0 == a_col(g, ii, c, j, slot));
            total_of_hot(node, values, slot);
        } else {
            total_of_cold(node, values);
        }
    }
}

proof fn class_usage_of_cold(
    g: ClassGraph,
    ii: int,
    values: Seq<int>,
    s: int,
    at: int,
    c: int,
    n: nat,
)
    requires
        0 < ii,
        class_cold(g, ii, values, c),
        n <= g.nodes(c).len(),
    ensures
        total(class_usage_terms(g, ii, s, at, c, n), values) == 0,
    decreases n,
{
    if n > 0 {
        class_usage_of_cold(g, ii, values, s, at, c, (n - 1) as nat);
        let node = node_usage_terms(g, ii, s, at, c, n - 1);
        total_of_sum(class_usage_terms(g, ii, s, at, c, (n - 1) as nat), node, values);
        total_of_cold(node, values);
    }
}

/// The node and slot columns say what `selected` says.
pub open spec fn columns_match(
    g: ClassGraph,
    ii: int,
    values: Seq<int>,
    selected: Map<usize, (usize, i32)>,
) -> bool {
    forall|c: int|
        0 <= c < g.classes@.len() ==> if #[trigger] chosen(g, selected, c) {
            class_hot(
                g,
                ii,
                values,
                c,
                choice(g, selected, c),
                start(g, selected, c) % ii,
            )
        } else {
            class_cold(g, ii, values, c)
        }
}

proof fn usage_is_demand(
    g: ClassGraph,
    ii: int,
    values: Seq<int>,
    selected: Map<usize, (usize, i32)>,
    s: int,
    at: int,
    n: nat,
)
    requires
        0 < ii,
        0 <= at < ii,
        n <= g.classes@.len(),
        columns_match(g, ii, values, selected),
    ensures
        total(usage_terms(g, ii, s, at, n), values) == demand(g, ii, selected, s, at, n),
    decreases n,
{
    if n > 0 {
        let c = n - 1;
        usage_is_demand(g, ii, values, selected, s, at, c as nat);
        let nodes = g.nodes(c).len();
        let class = class_usage_terms(g, ii, s, at, c, nodes);
        total_of_sum(usage_terms(g, ii, s, at, c as nat), class, values);
        if chosen(g, selected, c) {
            let j = choice(g, selected, c);
            let from = start(g, selected, c);
            let rt = g.nodes(c)[j].rt@;
            class_usage_of_hot(g, ii, values, s, at, c, j, from % ii, nodes);
            occupied_is_folded(rt, ii, from, from % ii, s, at, rt.len());
        } else {
            class_usage_of_cold(g, ii, values, s, at, c, nodes);
        }
    }
}

/// What the columns of a class of a feasible point look like: nothing is selected, or one node
/// and one slot are.
proof fn class_shape(
    g: ClassGraph,
    limits: Seq<i32>,
    ii: int,
    roots: Seq<usize>,
    values: Seq<int>,
    c: int,
) -> (r: (int, int))
    requires
        0 < ii,
        feasible(model(g, limits, ii, roots), values),
        0 <= c < g.classes@.len(),
    ensures
        values[y_col(c)] == 0 || values[y_col(c)] == 1,
        0 <= values[t_col(c)],
        0 <= values[k_col(c)],
        values[y_col(c)] == 0 ==> class_cold(g, ii, values, c),
        values[y_col(c)] == 1 ==> class_hot(g, ii, values, c, r.0, r.1),
{
    let columns = model_columns(g, ii);
    let n = g.nodes(c).len();
    last_column_is_last(g, ii);
    model_rows_hold(g, limits, ii, roots, values);
    let _ = g.classes@[c];
    assert(in_domain(columns[y_col(c)], values[y_col(c)]));
    assert(in_domain(columns[t_col(c)], values[t_col(c)]));
    assert(in_domain(columns[k_col(c)], values[k_col(c)]));
    let choices = choice_terms(g, ii, c, n);
    assert forall|k: int| 0 <= k < choices.len() implies (#[trigger] choices[k]).1 == 1
        && in_domain(Column::Binary, values[choices[k].0]) by {
        node_columns_in_range(g, ii, c, k);
        assert(in_domain(columns[x_col(g, ii, c, k)], values[x_col(g, ii, c, k)]));
    }
    let j = total_of_units(choices, values);
    total_of_push(choices, (y_col(c), -1int), values);
    assert forall|i: int| 0 <= i < n implies total(
        #[trigger] unit_slot_terms(g, ii, c, i),
        values,
    ) == values[x_col(g, ii, c, i)] by {
        assert(node_holds(g, ii, values, c, i));
        slot_row_says(g, ii, values, c, i);
    }
    assert forall|i: int, q: int| 0 <= i < n && 0 <= q < ii implies in_domain(
        Column::Binary,
        values[#[trigger] a_col(g, ii, c, i, q)],
    ) by {
        node_columns_in_range(g, ii, c, i);
        assert(in_domain(columns[a_col(g, ii, c, i, q)], values[a_col(g, ii, c, i, q)]));
    }
    if values[y_col(c)] == 0 {
        assert forall|i: int| 0 <= i < n implies values[#[trigger] x_col(g, ii, c, i)] == 0 by {
            assert(values[choices[i].0] == 0);
        }
        assert forall|i: int, q: int| 0 <= i < n && 0 <= q < ii implies values[#[trigger] a_col(
            g,
            ii,
            c,
            i,
            q,
        )] == 0 by {
            let units = unit_slot_terms(g, ii, c, i);
            let _ = total_of_units(units, values);
            assert(values[x_col(g, ii, c, i)] == 0);
            assert(values[units[q].0] == 0);
        }
        (0, 0)
    } else {
        assert forall|i: int| 0 <= i < n implies values[#[trigger] x_col(g, ii, c, i)] == if i == j {
            1int
        } else {
            0
        } by {
            assert(values[choices[i].0] == if i == j {
                1int
            } else {
                0
            });
        }
        let units = unit_slot_terms(g, ii, c, j);
        assert(values[x_col(g, ii, c, j)] == 1);
        let slot = total_of_units(units, values);
        assert forall|i: int, q: int| 0 <= i < n && 0 <= q < ii implies values[#[trigger] a_col(
            g,
            ii,
            c,
            i,
            q,
        )] == if i == j && q == slot {
            1int
        } else {
            0
        } by {
            let of_node = unit_slot_terms(g, ii, c, i);
            assert(of_node[q].0 == a_col(g, ii, c, i, q));
            if i != j {
                let _ = total_of_units(of_node, values);
                assert(values[x_col(g, ii, c, i)] == 0);
                assert(values[of_node[q].0] == 0);
            }
        }
        (j, slot)
    }
}

/// What is read off the columns of a class of a feasible point.
proof fn class_reading(
    g: ClassGraph,
    limits: Seq<i32>,
    ii: int,
    roots: Seq<usize>,
    values: Seq<int>,
    selected: Map<usize, (usize, i32)>,
    c: int,
)
    requires
        g.wf(),
        0 < ii,
        feasible(model(g, limits, ii, roots), values),
        values[last_col(g, ii)] <= i32::MAX,
        selects(g, ii, values, selected),
        0 <= c < g.classes@.len(),
    ensures
        values[y_col(c)] == if chosen(g, selected, c) {
            1int
        } else {
            0
        },
        !chosen(g, selected, c) ==> class_cold(g, ii, values, c),
        chosen(g, selected, c) ==> {
            &&& start(g, selected, c) == values[t_col(c)]
            &&& 0 <= start(g, selected, c)
            &&& class_hot(
                g,
                ii,
                values,
                c,
                choice(g, selected, c),
                start(g, selected, c) % ii,
            )
            &&& start(g, selected, c) + cost(tile(g, selected, c)) <= values[last_col(g, ii)]
        },
{
    let (j, slot) = class_shape(g, limits, ii, roots, values, c);
    model_rows_hold(g, limits, ii, roots, values);
    let id = g.classes@[c].id;
    if values[y_col(c)] == 1 {
        assert(picks(g, ii, values, c, j));
        class_rows_of_hot(g, ii, values, c, j, slot);
        let t = values[t_col(c)];
        let k = values[k_col(c)];
        lemma_fundamental_div_mod_converse(t, ii, k, slot);
    } else {
        if chosen(g, selected, c) {
            let (b, i) = choose|b: int, i: int| #[trigger]
                picks(g, ii, values, b, i) && g.classes@[b].id == id;
            assert(g.classes@[b].id == g.classes@[c].id);
            assert(b == c);
        }
    }
}

/// Every feasible point of the program describes a modulo schedule that has finished by the
/// value of the objective.
pub proof fn feasible_points_are_schedules(
    g: ClassGraph,
    limits: Seq<i32>,
    ii: int,
    roots: Seq<usize>,
    values: Seq<int>,
    r: SwpSolution,
)
    requires
        g.wf(),
        0 < ii,
        forall|i: int| 0 <= i < roots.len() ==> (#[trigger] roots[i]) < g.leaders@.len(),
        feasible(model(g, limits, ii, roots), values),
        values[last_col(g, ii)] <= i32::MAX,
        decodes(g, ii, values, r),
    ensures
        r.end == values[last_col(g, ii)],
        is_schedule(g, limits, ii, roots, r.end as int, r.selected@),
{
    let selected = r.selected@;
    let columns = model_columns(g, ii);
    last_column_is_last(g, ii);
    assert(in_domain(columns[last_col(g, ii)], values[last_col(g, ii)]));
    model_rows_hold(g, limits, ii, roots, values);
    assert forall|id: usize| #[trigger] selected.contains_key(id) implies g.is_class(id) by {
        let (c, j) = choose|c: int, j: int| #[trigger]
            picks(g, ii, values, c, j) && g.classes@[c].id == id;
        assert(g.classes@[c].id == id);
    }
    assert forall|c: int| 0 <= c < g.classes@.len() && #[trigger] chosen(g, selected, c) implies {
        &&& 0 <= choice(g, selected, c) < g.nodes(c).len()
        &&& 0 <= start(g, selected, c)
        &&& start(g, selected, c) + cost(tile(g, selected, c)) <= r.end
    } by {
        class_reading(g, limits, ii, roots, values, selected, c);
    }
    assert forall|i: int| 0 <= i < roots.len() implies chosen(
        g,
        selected,
        g.class_index(#[trigger] roots[i]),
    ) by {
        g.class_index_is_unique(roots[i], 0);
        root_row_says(g, roots[i], values);
        class_reading(g, limits, ii, roots, values, selected, g.class_index(roots[i]));
    }
    assert forall|c: int, k: int|
        0 <= c < g.classes@.len() && chosen(g, selected, c) && 0 <= k < tile(
            g,
            selected,
            c,
        ).children@.len() implies chosen(
        g,
        selected,
        g.class_index(#[trigger] tile(g, selected, c).children@[k]),
    ) by {
        class_reading(g, limits, ii, roots, values, selected, c);
        let j = choice(g, selected, c);
        assert(node_holds(g, ii, values, c, j));
        let child = g.nodes(c)[j].children@[k];
        assert(holds(child_row(g, ii, c, j, k), values));
        node_rows_say(g, ii, values, c, j, k);
        assert(values[x_col(g, ii, c, j)] == 1);
        g.class_index_is_unique(child, 0);
        class_reading(g, limits, ii, roots, values, selected, g.class_index(child));
    }
    assert forall|c: int, k: int|
        0 <= c < g.classes@.len() && chosen(g, selected, c) && 0 <= k < edge_count(
            tile(g, selected, c),
        ) implies {
        let edge = #[trigger] edge_at(tile(g, selected, c), k);
        start(g, selected, c) >= start(g, selected, g.class_index(edge.id)) + lag(edge, ii)
    } by {
        class_reading(g, limits, ii, roots, values, selected, c);
        let j = choice(g, selected, c);
        assert(node_holds(g, ii, values, c, j));
        let source = tile(g, selected, c).children@[k];
        assert(source == g.nodes(c)[j].children@[k]);
        assert(holds(edge_row(g, ii, c, j, k), values));
        node_rows_say(g, ii, values, c, j, k);
        assert(values[x_col(g, ii, c, j)] == 1);
        assert(chosen(g, selected, g.class_index(source)));
        g.class_index_is_unique(source, 0);
        class_reading(g, limits, ii, roots, values, selected, g.class_index(source));
    }
    assert(columns_match(g, ii, values, selected)) by {
        assert forall|c: int| 0 <= c < g.classes@.len() implies if #[trigger] chosen(
            g,
            selected,
            c,
        ) {
            class_hot(g, ii, values, c, choice(g, selected, c), start(g, selected, c) % ii)
        } else {
            class_cold(g, ii, values, c)
        } by {
            class_reading(g, limits, ii, roots, values, selected, c);
        }
    }
    assert forall|s: int, at: int| 0 <= s < limits.len() && 0 <= at < ii implies #[trigger] demand(
        g,
        ii,
        selected,
        s,
        at,
        g.classes@.len(),
    ) <= limits[s] by {
        usage_is_demand(g, ii, values, selected, s, at, g.classes@.len());
        assert(holds(resource_row(g, limits, ii, s, at), values));
    }
}

/// The position of the class that has node number `q` of the graph.
pub open spec fn owner(g: ClassGraph, q: int) -> int {
    choose|c: int|
        0 <= c < g.classes@.len() && #[trigger] g.nodes_before(c) <= q < g.nodes_before(c)
            + g.nodes(c).len()
}

proof fn owner_is(g: ClassGraph, c: int, j: int)
    requires
        0 <= c < g.classes@.len(),
        0 <= j < g.nodes(c).len(),
    ensures
        owner(g, g.nodes_before(c) + j) == c,
{
    let q = g.nodes_before(c) + j;
    let b = owner(g, q);
    assert(0 <= c < g.classes@.len() && g.nodes_before(c) <= q < g.nodes_before(c) + g.nodes(
        c,
    ).len());
    assert(g.nodes_before(b) <= q < g.nodes_before(b) + g.nodes(b).len());
    if b < c {
        nodes_before_grows(g, b + 1, c);
    }
    if c < b {
        nodes_before_grows(g, c + 1, b);
    }
}

/// The cycle in which the class at position `c` starts, where a class that is not selected starts
/// with interval `idle[c]`.
pub open spec fn begins(
    g: ClassGraph,
    ii: int,
    selected: Map<usize, (usize, i32)>,
    idle: Seq<int>,
    c: int,
) -> int {
    if chosen(g, selected, c) {
        start(g, selected, c)
    } else {
        ii * idle[c]
    }
}

/// The value of a class's column in the point that describes a schedule.
pub open spec fn class_value(
    g: ClassGraph,
    ii: int,
    selected: Map<usize, (usize, i32)>,
    idle: Seq<int>,
    c: int,
    which: int,
) -> int {
    if which == 0 {
        begins(g, ii, selected, idle, c)
    } else if which == 1 {
        if chosen(g, selected, c) {
            start(g, selected, c) / ii
        } else {
            idle[c]
        }
    } else if chosen(g, selected, c) {
        1
    } else {
        0
    }
}

/// The value of a node's column in the point that describes a schedule: of its selection where
/// `which` is zero, else of slot `which - 1`.
pub open spec fn node_value(
    g: ClassGraph,
    ii: int,
    selected: Map<usize, (usize, i32)>,
    c: int,
    j: int,
    which: int,
) -> int {
    if chosen(g, selected, c) && choice(g, selected, c) == j && (which == 0 || start(
        g,
        selected,
        c,
    ) % ii == which - 1) {
        1
    } else {
        0
    }
}

/// The point that describes a schedule.
pub open spec fn point(
    g: ClassGraph,
    ii: int,
    end: int,
    selected: Map<usize, (usize, i32)>,
    idle: Seq<int>,
) -> Seq<int> {
    Seq::new(
        (last_col(g, ii) + 1) as nat,
        |i: int|
            {
                let n = 3 * g.classes@.len();
                if i < n {
                    class_value(g, ii, selected, idle, i / 3, i % 3)
                } else if i < last_col(g, ii) {
                    let q = (i - n) / (ii + 1);
                    let c = owner(g, q);
                    node_value(g, ii, selected, c, q - g.nodes_before(c), (i - n) % (ii + 1))
                } else {
                    end
                }
            },
    )
}

proof fn point_of_node(
    g: ClassGraph,
    ii: int,
    end: int,
    selected: Map<usize, (usize, i32)>,
    idle: Seq<int>,
    c: int,
    j: int,
    which: int,
)
    requires
        0 < ii,
        0 <= c < g.classes@.len(),
        0 <= j < g.nodes(c).len(),
        0 <= which <= ii,
    ensures
        point(g, ii, end, selected, idle)[x_col(g, ii, c, j) + which] == node_value(
            g,
            ii,
            selected,
            c,
            j,
            which,
        ),
{
    node_columns_in_range(g, ii, c, j);
    owner_is(g, c, j);
    let q = g.nodes_before(c) + j;
    let i = x_col(g, ii, c, j) + which - 3 * g.classes@.len();
    assert(i == q * (ii + 1) + which);
    lemma_fundamental_div_mod_converse(i, ii + 1, q, which);
}

/// The columns of the point that describes a schedule say what the schedule says.
proof fn point_matches(
    g: ClassGraph,
    ii: int,
    end: int,
    selected: Map<usize, (usize, i32)>,
    idle: Seq<int>,
)
    requires
        0 < ii,
        runs_within(g, end, selected),
    ensures
        columns_match(g, ii, point(g, ii, end, selected, idle), selected),
        forall|c: int|
            #![trigger g.classes@[c]]
            0 <= c < g.classes@.len() ==> {
                let values = point(g, ii, end, selected, idle);
                &&& values[t_col(c)] == class_value(g, ii, selected, idle, c, 0)
                &&& values[k_col(c)] == class_value(g, ii, selected, idle, c, 1)
                &&& values[y_col(c)] == class_value(g, ii, selected, idle, c, 2)
            },
        point(g, ii, end, selected, idle)[last_col(g, ii)] == end,
{
    let values = point(g, ii, end, selected, idle);
    last_column_is_last(g, ii);
    assert forall|c: int| 0 <= c < g.classes@.len() implies if #[trigger] chosen(g, selected, c) {
        class_hot(g, ii, values, c, choice(g, selected, c), start(g, selected, c) % ii)
    } else {
        class_cold(g, ii, values, c)
    } by {
        assert forall|i: int| 0 <= i < g.nodes(c).len() implies values[#[trigger] x_col(
            g,
            ii,
            c,
            i,
        )] == node_value(g, ii, selected, c, i, 0) by {
            point_of_node(g, ii, end, selected, idle, c, i, 0);
        }
        assert forall|i: int, q: int| 0 <= i < g.nodes(c).len() && 0 <= q < ii implies values[
        #[trigger] a_col(g, ii, c, i, q)] == node_value(g, ii, selected, c, i, q + 1) by {
            point_of_node(g, ii, end, selected, idle, c, i, q + 1);
        }
        if chosen(g, selected, c) {
            lemma_mod_bound(start(g, selected, c), ii);
        }
    }
}

/// Node `j` of the class at position `c` is the one that is selected of it.
pub open spec fn is_selected(
    g: ClassGraph,
    selected: Map<usize, (usize, i32)>,
    c: int,
    j: int,
) -> bool {
    chosen(g, selected, c) && choice(g, selected, c) == j
}

/// With these starts, classes that are not selected start between cycle zero and `end`, and no
/// dependence of a node that is not selected asks for more than its relaxation leaves.
pub open spec fn relaxes(
    g: ClassGraph,
    ii: int,
    end: int,
    selected: Map<usize, (usize, i32)>,
    idle: Seq<int>,
) -> bool {
    &&& forall|c: int|
        0 <= c < g.classes@.len() && !#[trigger] chosen(g, selected, c) ==> 0 <= idle[c] && ii
            * idle[c] <= end
    &&& forall|c: int, j: int, k: int|
        0 <= c < g.classes@.len() && 0 <= j < g.nodes(c).len() && 0 <= k < edge_count(g.nodes(c)[j])
            && !is_selected(g, selected, c, j) ==> {
            let edge = #[trigger] edge_at(g.nodes(c)[j], k);
            begins(g, ii, selected, idle, c) - begins(
                g,
                ii,
                selected,
                idle,
                g.class_index(edge.id),
            ) + BIG_M >= lag(edge, ii)
        }
}

/// The program has a feasible point for every modulo schedule, as long as the classes that are not
/// selected can start so that no dependence asks for more than its relaxation leaves.
pub proof fn schedules_are_feasible_points(
    g: ClassGraph,
    limits: Seq<i32>,
    ii: int,
    roots: Seq<usize>,
    end: int,
    selected: Map<usize, (usize, i32)>,
    idle: Seq<int>,
)
    requires
        g.wf(),
        0 < ii,
        forall|i: int| 0 <= i < roots.len() ==> (#[trigger] roots[i]) < g.leaders@.len(),
        0 <= end,
        relaxes(g, ii, end, selected, idle),
        is_schedule(g, limits, ii, roots, end, selected),
    ensures
        feasible(model(g, limits, ii, roots), point(g, ii, end, selected, idle)),
        point(g, ii, end, selected, idle)[last_col(g, ii)] == end,
        selects(g, ii, point(g, ii, end, selected, idle), selected),
{
    let values = point(g, ii, end, selected, idle);
    let columns = model_columns(g, ii);
    last_column_is_last(g, ii);
    point_matches(g, ii, end, selected, idle);
    assert forall|i: int| 0 <= i < values.len() implies in_domain(
        #[trigger] columns[i],
        values[i],
    ) by {
        if i < 3 * g.classes@.len() {
            let c = i / 3;
            assert(0 <= c < g.classes@.len());
            if chosen(g, selected, c) {
                lemma_div_pos_is_pos(start(g, selected, c), ii);
            } else {
                assert(0 <= ii * idle[c]) by (nonlinear_arith)
                    requires
                        0 < ii,
                        0 <= idle[c],
                ;
            }
        }
    }
    assert forall|c: int|
        #![trigger g.classes@[c]]
        0 <= c < g.classes@.len() implies holds(choice_row(g, ii, c), values) && holds(
        start_row(g, ii, c),
        values,
    ) && holds(end_row(g, ii, c), values) by {
        if chosen(g, selected, c) {
            let from = start(g, selected, c);
            class_rows_of_hot(g, ii, values, c, choice(g, selected, c), from % ii);
            lemma_fundamental_div_mod(from, ii);
        } else {
            class_rows_of_cold(g, ii, values, c);
        }
    }
    assert forall|c: int, j: int|
        0 <= c < g.classes@.len() && 0 <= j < g.nodes(c).len() implies #[trigger] node_holds(
        g,
        ii,
        values,
        c,
        j,
    ) by {
        node_of_point_holds(g, limits, ii, roots, end, selected, idle, c, j);
    }
    assert forall|i: int| 0 <= i < roots.len() implies holds(
        root_row(g, #[trigger] roots[i]),
        values,
    ) by {
        g.class_index_is_unique(roots[i], 0);
        root_row_says(g, roots[i], values);
        let _ = g.classes@[g.class_index(roots[i])];
    }
    assert forall|s: int, at: int| 0 <= s < limits.len() && 0 <= at < ii implies holds(
        #[trigger] resource_row(g, limits, ii, s, at),
        values,
    ) by {
        usage_is_demand(g, ii, values, selected, s, at, g.classes@.len());
        assert(demand(g, ii, selected, s, at, g.classes@.len()) <= limits[s]);
    }
    model_rows_hold(g, limits, ii, roots, values);
    point_selects(g, ii, end, selected, idle);
}

proof fn node_of_point_holds(
    g: ClassGraph,
    limits: Seq<i32>,
    ii: int,
    roots: Seq<usize>,
    end: int,
    selected: Map<usize, (usize, i32)>,
    idle: Seq<int>,
    c: int,
    j: int,
)
    requires
        g.wf(),
        0 < ii,
        0 <= end,
        relaxes(g, ii, end, selected, idle),
        is_schedule(g, limits, ii, roots, end, selected),
        0 <= c < g.classes@.len(),
        0 <= j < g.nodes(c).len(),
    ensures
        node_holds(g, ii, point(g, ii, end, selected, idle), c, j),
{
    let values = point(g, ii, end, selected, idle);
    point_matches(g, ii, end, selected, idle);
    let x = values[x_col(g, ii, c, j)];
    let units = unit_slot_terms(g, ii, c, j);
    let _ = g.classes@[c];
    let mine = is_selected(g, selected, c, j);
    assert(x == if mine {
        1int
    } else {
        0
    });
    if mine {
        let slot = start(g, selected, c) % ii;
        assert(units[slot].0 == a_col(g, ii, c, j, slot));
        total_of_hot(units, values, slot);
    } else {
        total_of_cold(units, values);
    }
    slot_row_says(g, ii, values, c, j);
    assert forall|k: int| 0 <= k < g.nodes(c)[j].children@.len() implies holds(
        #[trigger] child_row(g, ii, c, j, k),
        values,
    ) by {
        node_rows_say(g, ii, values, c, j, k);
        let child = g.nodes(c)[j].children@[k];
        g.class_index_is_unique(child, 0);
        let _ = g.classes@[g.class_index(child)];
        if mine {
            assert(child == tile(g, selected, c).children@[k]);
        }
    }
    assert forall|k: int| 0 <= k < edge_count(g.nodes(c)[j]) implies holds(
        #[trigger] edge_row(g, ii, c, j, k),
        values,
    ) by {
        node_rows_say(g, ii, values, c, j, k);
        let edge = edge_at(g.nodes(c)[j], k);
        let source = g.nodes(c)[j].children@[k];
        g.class_index_is_unique(source, 0);
        let b = g.class_index(source);
        let _ = g.classes@[b];
        if mine {
            assert(source == tile(g, selected, c).children@[k]);
            assert(edge == edge_at(tile(g, selected, c), k));
            assert(chosen(g, selected, b));
        }
    }
}

/// The selection is read back off the point that describes it.
proof fn point_selects(
    g: ClassGraph,
    ii: int,
    end: int,
    selected: Map<usize, (usize, i32)>,
    idle: Seq<int>,
)
    requires
        g.wf(),
        0 < ii,
        runs_within(g, end, selected),
    ensures
        selects(g, ii, point(g, ii, end, selected, idle), selected),
{
    let values = point(g, ii, end, selected, idle);
    point_matches(g, ii, end, selected, idle);
    assert forall|c: int, j: int| #[trigger] picks(
        g,
        ii,
        values,
        c,
        j,
    ) implies selected.contains_key(g.classes@[c].id) && selected[g.classes@[c].id].0 == j
        && selected[g.classes@[c].id].1 == clamp_i32(values[t_col(c)]) by {
        let _ = g.classes@[c];
        assert(chosen(g, selected, c));
        assert(values[x_col(g, ii, c, j)] == 1);
    }
    assert forall|id: usize| #[trigger] selected.contains_key(id) implies exists|c: int, j: int|
     #[trigger]
        picks(g, ii, values, c, j) && g.classes@[c].id == id by {
        assert(g.is_class(id));
        let c = choose|c: int|
            0 <= c < g.classes@.len() && (#[trigger] g.classes@[c]).id == id;
        assert(chosen(g, selected, c));
        let j = choice(g, selected, c);
        assert(values[x_col(g, ii, c, j)] == 1);
        assert(picks(g, ii, values, c, j));
    }
}

/// A feasible point of the program starts the classes that it does not select so that no dependence
/// asks for more than its relaxation leaves.
pub proof fn feasible_points_are_relaxed(
    g: ClassGraph,
    limits: Seq<i32>,
    ii: int,
    roots: Seq<usize>,
    values: Seq<int>,
    r: SwpSolution,
)
    requires
        g.wf(),
        0 < ii,
        feasible(model(g, limits, ii, roots), values),
        values[last_col(g, ii)] <= i32::MAX,
        decodes(g, ii, values, r),
    ensures
        relaxes(
            g,
            ii,
            r.end as int,
            r.selected@,
            Seq::new(g.classes@.len(), |c: int| values[k_col(c)]),
        ),
{
    let selected = r.selected@;
    let idle = Seq::new(g.classes@.len(), |c: int| values[k_col(c)]);
    let columns = model_columns(g, ii);
    last_column_is_last(g, ii);
    assert(in_domain(columns[last_col(g, ii)], values[last_col(g, ii)]));
    model_rows_hold(g, limits, ii, roots, values);
    assert forall|c: int| 0 <= c < g.classes@.len() implies values[t_col(c)] == #[trigger] begins(
        g,
        ii,
        selected,
        idle,
        c,
    ) && (!chosen(g, selected, c) ==> 0 <= idle[c] && ii * idle[c] <= r.end) by {
        class_reading(g, limits, ii, roots, values, selected, c);
        let _ = g.classes@[c];
        if !chosen(g, selected, c) {
            class_rows_of_cold(g, ii, values, c);
            assert(in_domain(columns[k_col(c)], values[k_col(c)]));
        }
    }
    assert forall|c: int|
        0 <= c < g.classes@.len() && !#[trigger] chosen(g, selected, c) implies 0 <= idle[c] && ii
        * idle[c] <= r.end by {
        let _ = begins(g, ii, selected, idle, c);
    }
    assert forall|c: int, j: int, k: int|
        0 <= c < g.classes@.len() && 0 <= j < g.nodes(c).len() && 0 <= k < edge_count(g.nodes(c)[j])
            && !is_selected(g, selected, c, j) implies {
        let edge = #[trigger] edge_at(g.nodes(c)[j], k);
        begins(g, ii, selected, idle, c) - begins(g, ii, selected, idle, g.class_index(edge.id))
            + BIG_M >= lag(edge, ii)
    } by {
        class_reading(g, limits, ii, roots, values, selected, c);
        assert(node_holds(g, ii, values, c, j));
        assert(holds(edge_row(g, ii, c, j, k), values));
        node_rows_say(g, ii, values, c, j, k);
        assert(values[x_col(g, ii, c, j)] == 0);
        let edge = edge_at(g.nodes(c)[j], k);
        assert(edge.id == g.nodes(c)[j].children@[k]);
        g.class_index_is_unique(edge.id, 0);
    }
}

} // verus!
