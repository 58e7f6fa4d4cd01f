//! Schedules of the operations of a dependence graph.

use vstd::prelude::*;

use crate::arrange::{arranged, operations_have_their_own_classes, unfolded};
use crate::dep::{has_op, DepGraph};
use crate::egraph::{classes_of, mirrors, tile_views, TileGraph};
use crate::graph::ClassGraph;

use crate::model::{cost, lag};
use crate::schedule::{choice, chosen, demand, is_schedule, occupied, start, tile};
use crate::text::is_phantom;
use crate::tile::{cell, edge_at, edge_count, table_view};

verus! {

/// No operation has the name of a placeholder.
pub open spec fn is_ordinary(dep: DepGraph) -> bool {
    forall|i: int| 0 <= i < dep.nodes@.len() ==> !is_phantom(#[trigger] dep.name(i))
}

/// `r` holds the classes that the graph unfolds into, where the operation at position `i` is in
/// the class `ids[i]`.
pub open spec fn unfolds_into(dep: DepGraph, g: TileGraph, ids: Seq<nat>, r: ClassGraph) -> bool {
    &&& dep.wf()
    &&& is_ordinary(dep)
    &&& arranged(dep, classes_of(g), ids)
    &&& mirrors(g, r)
    &&& r.wf()
}

/// The operation of the class at position `c`.
pub open spec fn op_of(ids: Seq<nat>, r: ClassGraph, c: int) -> int {
    choose|i: int| 0 <= i < ids.len() && #[trigger] ids[i] == r.classes@[c].id
}

/// A class has one operation, which is its only node.
pub proof fn class_holds_its_operation(
    dep: DepGraph,
    g: TileGraph,
    ids: Seq<nat>,
    r: ClassGraph,
    c: int,
)
    requires
        unfolds_into(dep, g, ids, r),
        0 <= c < r.classes@.len(),
    ensures
        0 <= op_of(ids, r, c) < dep.nodes@.len(),
        ids[op_of(ids, r, c)] == r.classes@[c].id,
        r.nodes(c).len() == 1,
        r.nodes(c)[0]@ == unfolded(dep, ids, op_of(ids, r, c)),
        forall|i: int|
            0 <= i < ids.len() && #[trigger] ids[i] == r.classes@[c].id ==> i == op_of(ids, r, c),
{
    operations_have_their_own_classes(dep, classes_of(g), ids);
    let id = r.classes@[c].id as nat;
    assert(classes_of(g).contains_key(id));
    let i = op_of(ids, r, c);
    assert(0 <= i < ids.len() && ids[i] == id);
    assert(classes_of(g)[ids[i]] == seq![unfolded(dep, ids, i)]);
    assert(tile_views(r.nodes(c)).len() == 1);
    assert(tile_views(r.nodes(c))[0] == r.nodes(c)[0]@);
    assert forall|j: int| 0 <= j < ids.len() && #[trigger] ids[j] == id implies j == i by {
        assert(!(i < j) && !(j < i));
    }
}

/// An operation has a class.
pub proof fn operation_has_a_class(
    dep: DepGraph,
    g: TileGraph,
    ids: Seq<nat>,
    r: ClassGraph,
    i: int,
) -> (c: int)
    requires
        unfolds_into(dep, g, ids, r),
        0 <= i < dep.nodes@.len(),
    ensures
        0 <= c < r.classes@.len(),
        r.classes@[c].id == ids[i],
        op_of(ids, r, c) == i,
{
    assert(classes_of(g).contains_key(ids[i]));
    let c = choose|c: int| 0 <= c < r.classes@.len() && (#[trigger] r.classes@[c]).id == ids[i];
    class_holds_its_operation(dep, g, ids, r, c);
    c
}

/// A class has the operator of an operation exactly when it is that operation's class, and every
/// operation has one.
pub proof fn operations_are_found(
    dep: DepGraph,
    g: TileGraph,
    ids: Seq<nat>,
    r: ClassGraph,
    i: int,
)
    requires
        unfolds_into(dep, g, ids, r),
        0 <= i < dep.nodes@.len(),
    ensures
        exists|c: int| 0 <= c < r.classes@.len() && #[trigger] has_op(r, c, dep.name(i)),
        forall|c: int|
            0 <= c < r.classes@.len() ==> (#[trigger] has_op(r, c, dep.name(i)) <==> r.classes@[c].id
                == ids[i]),
{
    assert forall|c: int| 0 <= c < r.classes@.len() implies (#[trigger] has_op(r, c, dep.name(i))
        <==> r.classes@[c].id == ids[i]) by {
        class_holds_its_operation(dep, g, ids, r, c);
        let j = op_of(ids, r, c);
        assert(r.nodes(c)[0].op@ == dep.name(j));
        if has_op(r, c, dep.name(i)) {
            let q = choose|q: int|
                0 <= q < r.nodes(c).len() && (#[trigger] r.nodes(c)[q]).op@ == dep.name(i);
            assert(q == 0);
            if i < j {
                assert(dep.nodes@[i]@ != dep.nodes@[j]@);
            }
            if j < i {
                assert(dep.nodes@[j]@ != dep.nodes@[i]@);
            }
        }
    }
    let c = operation_has_a_class(dep, g, ids, r, i);
    assert(has_op(r, c, dep.name(i)));
}

/// The operation at position `i` is selected.
pub open spec fn runs(ids: Seq<nat>, selected: Map<usize, (usize, i32)>, i: int) -> bool {
    selected.contains_key(ids[i] as usize)
}

/// The cycle in which the operation at position `i` starts.
pub open spec fn op_start(ids: Seq<nat>, selected: Map<usize, (usize, i32)>, i: int) -> int {
    selected[ids[i] as usize].1 as int
}

/// The units of resource `s` that the first `n` rows of a table use in the cycles that are `at`
/// modulo `ii`, when the first row is used in cycle `from`.
pub open spec fn rows_occupied(
    rows: Seq<Seq<i32>>,
    ii: int,
    from: int,
    s: int,
    at: int,
    n: nat,
) -> int
    decreases n,
{
    if n == 0 {
        0
    } else {
        let rest = rows_occupied(rows, ii, from, s, at, (n - 1) as nat);
        if (from + n - 1) % ii == at {
            rest + cell(rows[n - 1], s)
        } else {
            rest
        }
    }
}

/// The units of resource `s` that the operation at position `i` uses in the cycles that are `at`
/// modulo `ii`.
pub open spec fn op_usage(
    dep: DepGraph,
    ids: Seq<nat>,
    ii: int,
    selected: Map<usize, (usize, i32)>,
    s: int,
    at: int,
    i: int,
) -> int {
    if runs(ids, selected, i) {
        let rows = dep.table(dep.name(i));
        rows_occupied(rows, ii, op_start(ids, selected, i), s, at, rows.len())
    } else {
        0
    }
}

/// The sum of numbers.
pub open spec fn sum(numbers: Seq<int>) -> int
    decreases numbers.len(),
{
    if numbers.len() == 0 {
        0
    } else {
        sum(numbers.drop_last()) + numbers.last()
    }
}

/// The units of resource `s` that the operations use in the cycles that are `at` modulo `ii`.
pub open spec fn op_demand(
    dep: DepGraph,
    ids: Seq<nat>,
    ii: int,
    selected: Map<usize, (usize, i32)>,
    s: int,
    at: int,
) -> int {
    sum(Seq::new(dep.nodes@.len(), |i: int| op_usage(dep, ids, ii, selected, s, at, i)))
}

/// Every operation that is selected runs between cycle zero and `end`, after everything that it
/// depends on, and no resource is used beyond its limit in any slot of the initiation interval.
pub open spec fn is_op_schedule(
    dep: DepGraph,
    ids: Seq<nat>,
    limits: Seq<i32>,
    ii: int,
    end: int,
    selected: Map<usize, (usize, i32)>,
) -> bool {
    &&& forall|i: int|
        0 <= i < dep.nodes@.len() && #[trigger] runs(ids, selected, i) ==> 0 <= op_start(
            ids,
            selected,
            i,
        ) && op_start(ids, selected, i) + dep.table(dep.name(i)).len() <= end
    &&& forall|i: int, k: int|
        0 <= i < dep.nodes@.len() && runs(ids, selected, i) && 0 <= k < dep.in_edges(
            dep.name(i),
        ).len() ==> {
            let edge = #[trigger] dep.in_edges(dep.name(i))[k];
            let source = dep.place(edge.id@);
            &&& runs(ids, selected, source)
            &&& op_start(ids, selected, i) >= op_start(ids, selected, source) + edge.d - ii
                * edge.delta
        }
    &&& forall|s: int, at: int|
        0 <= s < limits.len() && 0 <= at < ii ==> #[trigger] op_demand(
            dep,
            ids,
            ii,
            selected,
            s,
            at,
        ) <= limits[s]
}

/// Taking a number out lowers the sum by it.
proof fn sum_of_rest(numbers: Seq<int>, q: int)
    requires
        0 <= q < numbers.len(),
    ensures
        sum(numbers) == sum(numbers.remove(q)) + numbers[q],
    decreases numbers.len(),
{
    if q == numbers.len() - 1 {
        assert(numbers.remove(q) =~= numbers.drop_last());
    } else {
        let front = numbers.drop_last();
        sum_of_rest(front, q);
        assert(numbers.remove(q).drop_last() =~= front.remove(q));
        assert(numbers.remove(q).last() == numbers.last());
    }
}

/// The same numbers in another order have the same sum.
proof fn sum_in_another_order(a: Seq<int>, b: Seq<int>, places: Seq<int>)
    requires
        a.len() == b.len(),
        places.len() == a.len(),
        forall|c: int| 0 <= c < a.len() ==> 0 <= #[trigger] places[c] < b.len() && a[c] == b[places[c]],
        forall|c: int, d: int|
            0 <= c < d < a.len() ==> #[trigger] places[c] != #[trigger] places[d],
    ensures
        sum(a) == sum(b),
    decreases a.len(),
{
    if a.len() > 0 {
        let n = a.len() - 1;
        let q = places[n];
        let rest = b.remove(q);
        let moved = Seq::new(
            n as nat,
            |c: int|
                if places[c] > q {
                    places[c] - 1
                } else {
                    places[c]
                },
        );
        let front = a.drop_last();
        assert forall|c: int| 0 <= c < front.len() implies 0 <= #[trigger] moved[c] < rest.len()
            && front[c] == rest[moved[c]] by {
            assert(places[c] != places[n]);
            assert(0 <= places[c] < b.len() && a[c] == b[places[c]]);
        }
        assert forall|c: int, d: int| 0 <= c < d < front.len() implies #[trigger] moved[c]
            != #[trigger] moved[d] by {
            assert(places[c] != places[d]);
            assert(places[c] != places[n]);
            assert(places[d] != places[n]);
        }
        sum_in_another_order(front, rest, moved);
        sum_of_rest(b, q);
        assert(a[n] == b[places[n]]);
    }
}

/// The rows of a node are those of its table.
proof fn occupied_by_rows(rt: Seq<Vec<i32>>, ii: int, from: int, s: int, at: int, n: nat)
    requires
        n <= rt.len(),
    ensures
        occupied(rt, ii, from, s, at, n) == rows_occupied(table_view(rt), ii, from, s, at, n),
    decreases n,
{
    if n > 0 {
        occupied_by_rows(rt, ii, from, s, at, (n - 1) as nat);
        assert(table_view(rt)[n - 1] == rt[n - 1]@);
    }
}

/// What a class uses.
spec fn class_usage(
    g: ClassGraph,
    ii: int,
    selected: Map<usize, (usize, i32)>,
    s: int,
    at: int,
    c: int,
) -> int {
    if chosen(g, selected, c) {
        let rt = tile(g, selected, c).rt@;
        occupied(rt, ii, start(g, selected, c), s, at, rt.len())
    } else {
        0
    }
}

/// Demand is the sum of what classes use.
proof fn demand_is_a_sum(
    g: ClassGraph,
    ii: int,
    selected: Map<usize, (usize, i32)>,
    s: int,
    at: int,
    n: nat,
)
    ensures
        demand(g, ii, selected, s, at, n) == sum(
            Seq::new(n, |c: int| class_usage(g, ii, selected, s, at, c)),
        ),
    decreases n,
{
    if n > 0 {
        demand_is_a_sum(g, ii, selected, s, at, (n - 1) as nat);
        let usage = Seq::new(n, |c: int| class_usage(g, ii, selected, s, at, c));
        assert(usage.drop_last() =~= Seq::new(
            (n - 1) as nat,
            |c: int| class_usage(g, ii, selected, s, at, c),
        ));
    }
}

/// There are as many classes as operations.
pub proof fn as_many_classes(dep: DepGraph, g: TileGraph, ids: Seq<nat>, r: ClassGraph)
    requires
        unfolds_into(dep, g, ids, r),
    ensures
        r.classes@.len() == dep.nodes@.len(),
{
    let n = dep.nodes@.len();
    let ops = Seq::new(r.classes@.len(), |c: int| op_of(ids, r, c));
    assert forall|c: int| 0 <= c < ops.len() implies 0 <= #[trigger] ops[c] < n by {
        class_holds_its_operation(dep, g, ids, r, c);
    }
    assert(ops.no_duplicates()) by {
        assert forall|c: int, d: int|
            0 <= c < ops.len() && 0 <= d < ops.len() && c != d implies ops[c] != ops[d] by {
            class_holds_its_operation(dep, g, ids, r, c);
            class_holds_its_operation(dep, g, ids, r, d);
            if c < d {
                assert(r.classes@[c].id != r.classes@[d].id);
            } else {
                assert(r.classes@[d].id != r.classes@[c].id);
            }
        }
    }
    let range = vstd::set_lib::set_int_range(0, n as int);
    vstd::set_lib::lemma_int_range(0, n as int);
    ops.unique_seq_to_set();
    assert(ops.to_set() =~= range) by {
        assert forall|i: int| range.contains(i) implies ops.to_set().contains(i) by {
            let c = operation_has_a_class(dep, g, ids, r, i);
            assert(ops[c] == i);
        }
        assert forall|i: int| ops.to_set().contains(i) implies range.contains(i) by {
            let c = choose|c: int| 0 <= c < ops.len() && ops[c] == i;
            assert(0 <= ops[c] < n);
        }
    }
}

/// What the class of an operation says of it.
proof fn class_is_of_operation(
    dep: DepGraph,
    g: TileGraph,
    ids: Seq<nat>,
    r: ClassGraph,
    selected: Map<usize, (usize, i32)>,
    c: int,
)
    requires
        unfolds_into(dep, g, ids, r),
        0 <= c < r.classes@.len(),
        chosen(r, selected, c) ==> 0 <= choice(r, selected, c) < r.nodes(c).len(),
    ensures
        ({
            let i = op_of(ids, r, c);
            let node = r.nodes(c)[0];
            &&& chosen(r, selected, c) <==> runs(ids, selected, i)
            &&& chosen(r, selected, c) ==> tile(r, selected, c) == node && start(r, selected, c)
                == op_start(ids, selected, i)
            &&& node@ == unfolded(dep, ids, i)
            &&& table_view(node.rt@) == dep.table(dep.name(i))
            &&& node.rt@.len() == dep.table(dep.name(i)).len()
            &&& node.children@.len() == dep.in_edges(dep.name(i)).len()
            &&& edge_count(node) == dep.in_edges(dep.name(i)).len()
        }),
{
    class_holds_its_operation(dep, g, ids, r, c);
    let i = op_of(ids, r, c);
    let node = r.nodes(c)[0];
    assert(node@.rt == dep.table(dep.name(i)));
    assert(node@.children.len() == dep.in_edges(dep.name(i)).len());
    assert(node@.edge_data.len() == dep.in_edges(dep.name(i)).len());
}

/// A schedule of the classes that a dependence graph unfolds into is a schedule of its operations.
pub proof fn class_schedules_schedule_operations(
    dep: DepGraph,
    g: TileGraph,
    ids: Seq<nat>,
    r: ClassGraph,
    limits: Seq<i32>,
    ii: int,
    roots: Seq<usize>,
    end: int,
    selected: Map<usize, (usize, i32)>,
)
    requires
        unfolds_into(dep, g, ids, r),
        is_schedule(r, limits, ii, roots, end, selected),
    ensures
        is_op_schedule(dep, ids, limits, ii, end, selected),
{
    let n = dep.nodes@.len();
    assert forall|c: int|
        0 <= c < r.classes@.len() && #[trigger] chosen(r, selected, c) implies 0 <= choice(
        r,
        selected,
        c,
    ) < r.nodes(c).len() by {}
    assert forall|i: int| 0 <= i < n && #[trigger] runs(ids, selected, i) implies 0 <= op_start(
        ids,
        selected,
        i,
    ) && op_start(ids, selected, i) + dep.table(dep.name(i)).len() <= end by {
        let c = operation_has_a_class(dep, g, ids, r, i);
        class_is_of_operation(dep, g, ids, r, selected, c);
        assert(chosen(r, selected, c));
    }
    assert forall|i: int, k: int|
        0 <= i < n && runs(ids, selected, i) && 0 <= k < dep.in_edges(
            dep.name(i),
        ).len() implies {
        let edge = #[trigger] dep.in_edges(dep.name(i))[k];
        let source = dep.place(edge.id@);
        &&& runs(ids, selected, source)
        &&& op_start(ids, selected, i) >= op_start(ids, selected, source) + edge.d - ii * edge.delta
    } by {
        edge_is_kept(dep, g, ids, r, limits, ii, roots, end, selected, i, k);
    }
    assert forall|s: int, at: int| 0 <= s < limits.len() && 0 <= at < ii implies #[trigger] op_demand(
        dep,
        ids,
        ii,
        selected,
        s,
        at,
    ) <= limits[s] by {
        demand_is_of_operations(dep, g, ids, r, ii, selected, s, at);
        assert(demand(r, ii, selected, s, at, r.classes@.len()) <= limits[s]);
    }
}

/// Classes use what their operations use.
proof fn demand_is_of_operations(
    dep: DepGraph,
    g: TileGraph,
    ids: Seq<nat>,
    r: ClassGraph,
    ii: int,
    selected: Map<usize, (usize, i32)>,
    s: int,
    at: int,
)
    requires
        unfolds_into(dep, g, ids, r),
        forall|c: int|
            0 <= c < r.classes@.len() && #[trigger] chosen(r, selected, c) ==> 0 <= choice(
                r,
                selected,
                c,
            ) < r.nodes(c).len(),
    ensures
        demand(r, ii, selected, s, at, r.classes@.len()) == op_demand(
            dep,
            ids,
            ii,
            selected,
            s,
            at,
        ),
{
    let n = dep.nodes@.len();
    as_many_classes(dep, g, ids, r);
    let by_class = Seq::new(n, |c: int| class_usage(r, ii, selected, s, at, c));
    let by_op = Seq::new(n, |i: int| op_usage(dep, ids, ii, selected, s, at, i));
    let places = Seq::new(n, |c: int| op_of(ids, r, c));
    demand_is_a_sum(r, ii, selected, s, at, n);
    assert forall|c: int| 0 <= c < n implies 0 <= #[trigger] places[c] < by_op.len()
        && by_class[c] == by_op[places[c]] by {
        class_holds_its_operation(dep, g, ids, r, c);
        class_is_of_operation(dep, g, ids, r, selected, c);
        let node = r.nodes(c)[0];
        occupied_by_rows(node.rt@, ii, start(r, selected, c), s, at, node.rt@.len());
    }
    assert forall|c: int, d: int| 0 <= c < d < n implies #[trigger] places[c]
        != #[trigger] places[d] by {
        class_holds_its_operation(dep, g, ids, r, c);
        class_holds_its_operation(dep, g, ids, r, d);
        assert(r.classes@[c].id != r.classes@[d].id);
    }
    sum_in_another_order(by_class, by_op, places);
}

/// An operation starts late enough for one of its dependences.
proof fn edge_is_kept(
    dep: DepGraph,
    g: TileGraph,
    ids: Seq<nat>,
    r: ClassGraph,
    limits: Seq<i32>,
    ii: int,
    roots: Seq<usize>,
    end: int,
    selected: Map<usize, (usize, i32)>,
    i: int,
    k: int,
)
    requires
        unfolds_into(dep, g, ids, r),
        is_schedule(r, limits, ii, roots, end, selected),
        0 <= i < dep.nodes@.len(),
        runs(ids, selected, i),
        0 <= k < dep.in_edges(dep.name(i)).len(),
    ensures
        ({
            let edge = dep.in_edges(dep.name(i))[k];
            let source = dep.place(edge.id@);
            &&& runs(ids, selected, source)
            &&& op_start(ids, selected, i) >= op_start(ids, selected, source) + edge.d - ii
                * edge.delta
        }),
{
    let c = operation_has_a_class(dep, g, ids, r, i);
    class_holds_its_operation(dep, g, ids, r, c);
    assert(chosen(r, selected, c));
    class_is_of_operation(dep, g, ids, r, selected, c);
    operand_is_of_operation(dep, g, ids, r, c, k);
    let child = tile(r, selected, c).children@[k];
    assert(child == r.nodes(c)[0].children@[k]);
    let b = r.class_index(child);
    assert(chosen(r, selected, b));
    class_holds_its_operation(dep, g, ids, r, b);
    class_is_of_operation(dep, g, ids, r, selected, b);
    let found = edge_at(tile(r, selected, c), k);
    assert(found.id == child);
}

/// The operand of a class's node is the class of the operation that its operation depends on.
proof fn operand_is_of_operation(
    dep: DepGraph,
    g: TileGraph,
    ids: Seq<nat>,
    r: ClassGraph,
    c: int,
    k: int,
)
    requires
        unfolds_into(dep, g, ids, r),
        0 <= c < r.classes@.len(),
        0 <= k < dep.in_edges(dep.name(op_of(ids, r, c))).len(),
    ensures
        ({
            let node = r.nodes(c)[0];
            let edge = dep.in_edges(dep.name(op_of(ids, r, c)))[k];
            let b = r.class_index(node.children@[k]);
            &&& 0 <= b < r.classes@.len()
            &&& op_of(ids, r, b) == dep.place(edge.id@)
            &&& edge_at(node, k).d == edge.d
            &&& edge_at(node, k).delta == edge.delta
        }),
{
    class_holds_its_operation(dep, g, ids, r, c);
    let i = op_of(ids, r, c);
    let node = r.nodes(c)[0];
    let edge = dep.in_edges(dep.name(i))[k];
    let source = dep.place(edge.id@);
    assert(dep.has(edge.id@));
    assert(node@.children.len() == dep.in_edges(dep.name(i)).len());
    assert(node@.children[k] == ids[source]);
    assert(node@.edge_data[k] == (edge.d, edge.delta));
    let child = node.children@[k];
    assert(r.nodes(c)[0].children@[k] < r.leaders@.len());
    let b = operation_has_a_class(dep, g, ids, r, source);
    assert(r.classes@[b].id == child);
    r.class_index_is_unique(child, b);
}

/// A schedule of the operations of a dependence graph, as a selection of their classes that has the
/// classes of the roots, is a schedule of the classes.
pub proof fn operation_schedules_schedule_classes(
    dep: DepGraph,
    g: TileGraph,
    ids: Seq<nat>,
    r: ClassGraph,
    limits: Seq<i32>,
    ii: int,
    roots: Seq<usize>,
    end: int,
    selected: Map<usize, (usize, i32)>,
)
    requires
        unfolds_into(dep, g, ids, r),
        is_op_schedule(dep, ids, limits, ii, end, selected),
        forall|id: usize| #[trigger]
            selected.contains_key(id) ==> r.is_class(id) && selected[id].0 == 0,
        forall|i: int|
            0 <= i < roots.len() ==> chosen(r, selected, r.class_index(#[trigger] roots[i])),
    ensures
        is_schedule(r, limits, ii, roots, end, selected),
{
    assert forall|c: int|
        0 <= c < r.classes@.len() && #[trigger] chosen(r, selected, c) implies 0 <= choice(
        r,
        selected,
        c,
    ) < r.nodes(c).len() by {
        class_holds_its_operation(dep, g, ids, r, c);
    }
    assert forall|c: int|
        0 <= c < r.classes@.len() && #[trigger] chosen(r, selected, c) implies {
        &&& 0 <= choice(r, selected, c) < r.nodes(c).len()
        &&& 0 <= start(r, selected, c)
        &&& start(r, selected, c) + cost(tile(r, selected, c)) <= end
    } by {
        class_holds_its_operation(dep, g, ids, r, c);
        class_is_of_operation(dep, g, ids, r, selected, c);
        assert(runs(ids, selected, op_of(ids, r, c)));
    }
    assert forall|c: int, k: int|
        0 <= c < r.classes@.len() && chosen(r, selected, c) && 0 <= k < tile(
            r,
            selected,
            c,
        ).children@.len() implies chosen(
        r,
        selected,
        r.class_index(#[trigger] tile(r, selected, c).children@[k]),
    ) by {
        class_holds_its_operation(dep, g, ids, r, c);
        class_is_of_operation(dep, g, ids, r, selected, c);
        operand_is_of_operation(dep, g, ids, r, c, k);
        let edge = dep.in_edges(dep.name(op_of(ids, r, c)))[k];
        let b = r.class_index(tile(r, selected, c).children@[k]);
        assert(runs(ids, selected, dep.place(edge.id@)));
        class_is_of_operation(dep, g, ids, r, selected, b);
    }
    assert forall|c: int, k: int|
        0 <= c < r.classes@.len() && chosen(r, selected, c) && 0 <= k < edge_count(
            tile(r, selected, c),
        ) implies {
        let edge = #[trigger] edge_at(tile(r, selected, c), k);
        start(r, selected, c) >= start(r, selected, r.class_index(edge.id)) + lag(edge, ii)
    } by {
        class_holds_its_operation(dep, g, ids, r, c);
        class_is_of_operation(dep, g, ids, r, selected, c);
        operand_is_of_operation(dep, g, ids, r, c, k);
        let edge = dep.in_edges(dep.name(op_of(ids, r, c)))[k];
        let b = r.class_index(tile(r, selected, c).children@[k]);
        assert(runs(ids, selected, dep.place(edge.id@)));
        class_is_of_operation(dep, g, ids, r, selected, b);
    }
    assert forall|s: int, at: int| 0 <= s < limits.len() && 0 <= at < ii implies #[trigger] demand(
        r,
        ii,
        selected,
        s,
        at,
        r.classes@.len(),
    ) <= limits[s] by {
        demand_is_of_operations(dep, g, ids, r, ii, selected, s, at);
        assert(op_demand(dep, ids, ii, selected, s, at) <= limits[s]);
    }
}

} // verus!
