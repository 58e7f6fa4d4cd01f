//! What the classes of a dependence graph say of its entries.

use vstd::prelude::*;

use crate::arrange::{absorbed, arranged, stands_in, stem, unfolded, unfolds_to, Classes};
use crate::dep::{last_entry, DepGraph};
use crate::egraph::{TileGraph, TileView};
use crate::graph::ClassGraph;
use crate::operations::{
    as_many_classes, class_holds_its_operation, class_schedules_schedule_operations, is_op_schedule,
    op_demand, op_of, op_start, op_usage, operation_has_a_class,
    operation_schedules_schedule_classes, rows_occupied, runs, sum, unfolds_into,
};
use crate::schedule::{chosen, is_schedule};
use crate::text::{is_phantom, phantom, phantom_round_trip, what_a_placeholder_is_called};
use crate::tile::{table_view, TileLang};

verus! {

/// The entry at position `e` is the one that counts for the name: the last one that has it.
pub open spec fn counts_for<T>(entries: Seq<(&str, T)>, name: Seq<char>, e: int) -> bool {
    &&& 0 <= e < entries.len()
    &&& entries[e].0@ == name
    &&& forall|f: int| e < f < entries.len() ==> (#[trigger] entries[f]).0@ != name
}

/// No entry has the name.
pub open spec fn none_counts<T>(entries: Seq<(&str, T)>, name: Seq<char>) -> bool {
    forall|f: int| 0 <= f < entries.len() ==> (#[trigger] entries[f]).0@ != name
}

proof fn last_entry_counts<T>(entries: Seq<(&str, T)>, name: Seq<char>, n: nat)
    requires
        n <= entries.len(),
    ensures
        ({
            let e = last_entry(entries, name, n);
            &&& -1 <= e < n
            &&& e >= 0 ==> entries[e].0@ == name
            &&& forall|f: int| e < f < n ==> (#[trigger] entries[f]).0@ != name
        }),
    decreases n,
{
    if n > 0 && entries[n - 1].0@ != name {
        last_entry_counts(entries, name, (n - 1) as nat);
    }
}

/// The last entry of a name is the one that counts, where there is one.
pub proof fn the_last_entry_counts<T>(entries: Seq<(&str, T)>, name: Seq<char>)
    ensures
        ({
            let e = last_entry(entries, name, entries.len());
            &&& e >= 0 ==> counts_for(entries, name, e)
            &&& e < 0 ==> none_counts(entries, name)
            &&& forall|f: int| #[trigger] counts_for(entries, name, f) ==> f == e
            &&& none_counts(entries, name) ==> e == -1
        }),
{
    last_entry_counts(entries, name, entries.len());
    let e = last_entry(entries, name, entries.len());
    assert forall|f: int| #[trigger] counts_for(entries, name, f) implies f == e by {
        assert(entries[f].0@ == name);
        if f < e {
            assert(entries[e].0@ != name);
        }
    }
    if none_counts(entries, name) && e >= 0 {
        assert(entries[e].0@ != name);
    }
}

/// The table holds the rows, each with its columns.
pub open spec fn has_rows(table: Seq<Seq<i32>>, rows: Seq<Vec<i32>>) -> bool {
    &&& table.len() == rows.len()
    &&& forall|r: int|
        0 <= r < rows.len() ==> (#[trigger] table[r]).len() == rows[r]@.len() && forall|s: int|
            0 <= s < rows[r]@.len() ==> #[trigger] table[r][s] == rows[r]@[s]
}

/// The operation at position `i` over the ids: its name, the rows of its table, and for each of its
/// dependences, in order, the id of the operation that it is on, the distance and the offset.
pub open spec fn is_operation(dep: DepGraph, ids: Seq<nat>, i: int, tile: TileView) -> bool {
    let name = dep.nodes@[i]@;
    &&& tile.op == name
    &&& forall|e: int| #[trigger]
        counts_for(dep.rts@, name, e) ==> has_rows(tile.rt, dep.rts@[e].1@)
    &&& none_counts(dep.rts@, name) ==> tile.rt.len() == 0
    &&& forall|e: int| #[trigger]
        counts_for(dep.edges@, name, e) ==> {
            &&& tile.children.len() == dep.edges@[e].1@.len()
            &&& tile.edge_data.len() == dep.edges@[e].1@.len()
            &&& forall|k: int|
                0 <= k < dep.edges@[e].1@.len() ==> (#[trigger] tile.edge_data[k]).0
                    == dep.edges@[e].1@[k].d && tile.edge_data[k].1 == dep.edges@[e].1@[k].delta
            &&& forall|k: int, j: int|
                0 <= k < dep.edges@[e].1@.len() && 0 <= j < dep.nodes@.len()
                    && dep.edges@[e].1@[k].id@ == (#[trigger] dep.nodes@[j])@
                    ==> #[trigger] tile.children[k] == ids[j]
        }
    &&& none_counts(dep.edges@, name) ==> tile.children.len() == 0 && tile.edge_data.len() == 0
}

proof fn unfolded_is_operation(dep: DepGraph, ids: Seq<nat>, i: int)
    requires
        dep.wf(),
        0 <= i < dep.nodes@.len(),
    ensures
        is_operation(dep, ids, i, unfolded(dep, ids, i)),
{
    let name = dep.nodes@[i]@;
    let tile = unfolded(dep, ids, i);
    assert(dep.name(i) == name);
    the_last_entry_counts(dep.rts@, name);
    the_last_entry_counts(dep.edges@, name);
    assert forall|e: int| #[trigger] counts_for(dep.rts@, name, e) implies has_rows(
        tile.rt,
        dep.rts@[e].1@,
    ) by {
        let rows = dep.rts@[e].1@;
        assert(tile.rt == table_view(rows));
        assert forall|r: int| 0 <= r < rows.len() implies (#[trigger] tile.rt[r]).len()
            == rows[r]@.len() && forall|s: int|
            0 <= s < rows[r]@.len() ==> #[trigger] tile.rt[r][s] == rows[r]@[s] by {
            assert(tile.rt[r] == rows[r]@);
        }
    }
    assert forall|e: int| #[trigger] counts_for(dep.edges@, name, e) implies {
        &&& tile.children.len() == dep.edges@[e].1@.len()
        &&& tile.edge_data.len() == dep.edges@[e].1@.len()
        &&& forall|k: int|
            0 <= k < dep.edges@[e].1@.len() ==> (#[trigger] tile.edge_data[k]).0
                == dep.edges@[e].1@[k].d && tile.edge_data[k].1 == dep.edges@[e].1@[k].delta
        &&& forall|k: int, j: int|
            0 <= k < dep.edges@[e].1@.len() && 0 <= j < dep.nodes@.len()
                && dep.edges@[e].1@[k].id@ == (#[trigger] dep.nodes@[j])@
                ==> #[trigger] tile.children[k] == ids[j]
    } by {
        let edges = dep.edges@[e].1@;
        assert(edges == dep.in_edges(name));
        assert forall|k: int, j: int|
            0 <= k < edges.len() && 0 <= j < dep.nodes@.len() && edges[k].id@ == (
            #[trigger] dep.nodes@[j])@ implies #[trigger] tile.children[k] == ids[j] by {
            dep.place_is_unique(j);
            assert(dep.name(j) == edges[k].id@);
        }
    }
}

/// A class has the operations that are in it as the entries of the dependence graph say them, and
/// nothing else: operations with the name of a placeholder are left out.
pub proof fn classes_hold_the_entries(dep: DepGraph, classes: Classes, ids: Seq<nat>)
    requires
        dep.wf(),
        arranged(dep, classes, ids),
    ensures
        ids.len() == dep.nodes@.len(),
        forall|i: int|
            0 <= i < ids.len() && !is_phantom((#[trigger] dep.nodes@[i])@) ==> exists|x: int|
                0 <= x < classes[ids[i]].len() && is_operation(
                    dep,
                    ids,
                    i,
                    #[trigger] classes[ids[i]][x],
                ),
        forall|id: nat, x: int|
            classes.contains_key(id) && 0 <= x < classes[id].len() ==> exists|i: int|
                0 <= i < ids.len() && #[trigger] ids[i] == id && is_operation(
                    dep,
                    ids,
                    i,
                    #[trigger] classes[id][x],
                ),
{
    assert forall|i: int|
        0 <= i < ids.len() && !is_phantom((#[trigger] dep.nodes@[i])@) implies exists|x: int|
        0 <= x < classes[ids[i]].len() && is_operation(
            dep,
            ids,
            i,
            #[trigger] classes[ids[i]][x],
        ) by {
        assert(dep.name(i) == dep.nodes@[i]@);
        unfolded_is_operation(dep, ids, i);
        assert(classes[ids[i]].contains(unfolded(dep, ids, i)));
        let x = choose|x: int|
            0 <= x < classes[ids[i]].len() && classes[ids[i]][x] == unfolded(dep, ids, i);
        assert(is_operation(dep, ids, i, classes[ids[i]][x]));
    }
    assert forall|id: nat, x: int|
        classes.contains_key(id) && 0 <= x < classes[id].len() implies exists|i: int|
        0 <= i < ids.len() && #[trigger] ids[i] == id && is_operation(
            dep,
            ids,
            i,
            #[trigger] classes[id][x],
        ) by {
        assert(unfolds_to(dep, ids, id, classes[id][x]));
        let i = choose|i: int|
            0 <= i < dep.nodes@.len() && !is_phantom(dep.name(i)) && #[trigger] ids[i] == id
                && classes[id][x] == unfolded(dep, ids, i);
        unfolded_is_operation(dep, ids, i);
        assert(ids[i] == id);
    }
}

/// The node is the operation at position `i`, with the ids of the operations' classes for operands:
/// name, rows, distances and offsets are those of the entries.
pub open spec fn is_node_of(
    dep: DepGraph,
    roots: Seq<usize>,
    i: int,
    node: TileLang<usize>,
) -> bool {
    let name = dep.nodes@[i]@;
    &&& node.op@ == name
    &&& forall|e: int| #[trigger]
        counts_for(dep.rts@, name, e) ==> {
            &&& node.rt@.len() == dep.rts@[e].1@.len()
            &&& forall|r: int|
                0 <= r < node.rt@.len() ==> (#[trigger] node.rt@[r])@.len()
                    == dep.rts@[e].1@[r]@.len()
            &&& forall|r: int, s: int|
                0 <= r < node.rt@.len() && 0 <= s < node.rt@[r]@.len()
                    ==> #[trigger] node.rt@[r]@[s] == dep.rts@[e].1@[r]@[s]
        }
    &&& none_counts(dep.rts@, name) ==> node.rt@.len() == 0
    &&& forall|e: int| #[trigger]
        counts_for(dep.edges@, name, e) ==> {
            &&& node.children@.len() == dep.edges@[e].1@.len()
            &&& node.edge_data@.len() == dep.edges@[e].1@.len()
            &&& forall|k: int|
                0 <= k < node.edge_data@.len() ==> (#[trigger] node.edge_data@[k]).0
                    == dep.edges@[e].1@[k].d && node.edge_data@[k].1 == dep.edges@[e].1@[k].delta
            &&& forall|k: int, j: int|
                0 <= k < node.children@.len() && 0 <= j < dep.nodes@.len()
                    && dep.edges@[e].1@[k].id@ == (#[trigger] dep.nodes@[j])@
                    ==> #[trigger] node.children@[k] == roots[j]
        }
    &&& none_counts(dep.edges@, name) ==> node.children@.len() == 0 && node.edge_data@.len() == 0
}

/// Every operation has a class of its own, under the id that stands for it in `roots`, whose only
/// node is the operation, and there are no other classes.
pub open spec fn is_faithful(dep: DepGraph, r: ClassGraph, roots: Seq<usize>) -> bool {
    &&& roots.len() == dep.nodes@.len()
    &&& r.classes@.len() == dep.nodes@.len()
    &&& forall|i: int, j: int| 0 <= i < j < roots.len() ==> #[trigger] roots[i] != #[trigger] roots[j]
    &&& forall|c: int| 0 <= c < r.classes@.len() ==> roots.contains((#[trigger] r.classes@[c]).id)
    &&& forall|c: int, i: int|
        0 <= c < r.classes@.len() && 0 <= i < roots.len() && (#[trigger] r.classes@[c]).id
            == #[trigger] roots[i] ==> r.classes@[c].nodes@.len() == 1 && is_node_of(
            dep,
            roots,
            i,
            r.classes@[c].nodes@[0],
        )
}

/// The classes that a dependence graph unfolds into have its operations as its entries say them: the
/// tables row by row and column by column, and the dependences one by one.
pub proof fn classes_are_faithful(
    dep: DepGraph,
    g: TileGraph,
    ids: Seq<nat>,
    r: ClassGraph,
    roots: Seq<usize>,
)
    requires
        unfolds_into(dep, g, ids, r),
        roots.len() == ids.len(),
        forall|i: int| 0 <= i < roots.len() ==> #[trigger] roots[i] == ids[i],
    ensures
        is_faithful(dep, r, roots),
{
    as_many_classes(dep, g, ids, r);
    assert forall|i: int, j: int| 0 <= i < j < roots.len() implies #[trigger] roots[i]
        != #[trigger] roots[j] by {
        let c = operation_has_a_class(dep, g, ids, r, i);
        class_holds_its_operation(dep, g, ids, r, c);
        assert(ids[j] != ids[i]);
    }
    assert forall|c: int| 0 <= c < r.classes@.len() implies roots.contains(
        (#[trigger] r.classes@[c]).id,
    ) by {
        class_holds_its_operation(dep, g, ids, r, c);
        let i = op_of(ids, r, c);
        assert(roots[i] == r.classes@[c].id);
    }
    assert forall|c: int, i: int|
        0 <= c < r.classes@.len() && 0 <= i < roots.len() && (#[trigger] r.classes@[c]).id
            == #[trigger] roots[i] implies r.classes@[c].nodes@.len() == 1 && is_node_of(
        dep,
        roots,
        i,
        r.classes@[c].nodes@[0],
    ) by {
        class_holds_its_operation(dep, g, ids, r, c);
        assert(ids[i] == r.classes@[c].id);
        unfolded_is_operation(dep, ids, i);
        let node = r.nodes(c)[0];
        assert(node@ == unfolded(dep, ids, i));
        node_is_of_operation(dep, ids, roots, i, node);
    }
}

proof fn node_is_of_operation(
    dep: DepGraph,
    ids: Seq<nat>,
    roots: Seq<usize>,
    i: int,
    node: TileLang<usize>,
)
    requires
        dep.wf(),
        ids.len() == dep.nodes@.len(),
        roots.len() == ids.len(),
        forall|i: int| 0 <= i < roots.len() ==> #[trigger] roots[i] == ids[i],
        0 <= i < ids.len(),
        is_operation(dep, ids, i, node@),
    ensures
        is_node_of(dep, roots, i, node),
{
    let name = dep.nodes@[i]@;
    let tile = node@;
    assert(tile.rt.len() == node.rt@.len());
    assert(tile.children.len() == node.children@.len());
    assert(tile.edge_data == node.edge_data@);
    assert forall|e: int| #[trigger] counts_for(dep.rts@, name, e) implies {
        &&& node.rt@.len() == dep.rts@[e].1@.len()
        &&& forall|r: int|
            0 <= r < node.rt@.len() ==> (#[trigger] node.rt@[r])@.len() == dep.rts@[e].1@[r]@.len()
        &&& forall|r: int, s: int|
            0 <= r < node.rt@.len() && 0 <= s < node.rt@[r]@.len()
                ==> #[trigger] node.rt@[r]@[s] == dep.rts@[e].1@[r]@[s]
    } by {
        let rows = dep.rts@[e].1@;
        assert(has_rows(tile.rt, rows));
        assert forall|r: int| 0 <= r < node.rt@.len() implies (#[trigger] node.rt@[r])@.len()
            == rows[r]@.len() by {
            assert(tile.rt[r] == node.rt@[r]@);
        }
        assert forall|r: int, s: int|
            0 <= r < node.rt@.len() && 0 <= s < node.rt@[r]@.len() implies #[trigger] node.rt@[r]@[s]
            == rows[r]@[s] by {
            assert(tile.rt[r] == node.rt@[r]@);
            assert(tile.rt[r][s] == rows[r]@[s]);
        }
    }
    assert forall|e: int| #[trigger] counts_for(dep.edges@, name, e) implies {
        &&& node.children@.len() == dep.edges@[e].1@.len()
        &&& node.edge_data@.len() == dep.edges@[e].1@.len()
        &&& forall|k: int|
            0 <= k < node.edge_data@.len() ==> (#[trigger] node.edge_data@[k]).0
                == dep.edges@[e].1@[k].d && node.edge_data@[k].1 == dep.edges@[e].1@[k].delta
        &&& forall|k: int, j: int|
            0 <= k < node.children@.len() && 0 <= j < dep.nodes@.len()
                && dep.edges@[e].1@[k].id@ == (#[trigger] dep.nodes@[j])@
                ==> #[trigger] node.children@[k] == roots[j]
    } by {
        let edges = dep.edges@[e].1@;
        assert forall|k: int| 0 <= k < node.edge_data@.len() implies (
        #[trigger] node.edge_data@[k]).0 == edges[k].d && node.edge_data@[k].1
            == edges[k].delta by {
            assert(tile.edge_data[k] == node.edge_data@[k]);
        }
        assert forall|k: int, j: int|
            0 <= k < node.children@.len() && 0 <= j < dep.nodes@.len() && edges[k].id@ == (
            #[trigger] dep.nodes@[j])@ implies #[trigger] node.children@[k] == roots[j] by {
            assert(tile.children[k] == node.children@[k]);
            assert(tile.children[k] == ids[j]);
            assert(roots[j] == ids[j]);
        }
    }
}

/// The sum of numbers.
pub open spec fn added(numbers: Seq<int>) -> int {
    numbers.fold_left(0, |a: int, b: int| a + b)
}

/// What the rows use of resource `s` in the cycles that are `at` modulo `ii`, when the first row is
/// used in cycle `from` and each of the others a cycle after the one before.
pub open spec fn units_of(rows: Seq<Vec<i32>>, ii: int, from: int, s: int, at: int) -> int {
    added(
        Seq::new(
            rows.len(),
            |r: int|
                if (from + r) % ii == at && s < rows[r]@.len() {
                    rows[r]@[s] as int
                } else {
                    0
                },
        ),
    )
}

/// The rows of the entry of each operation; there are none where it has no entry.
pub open spec fn are_tables(dep: DepGraph, tables: Seq<Seq<Vec<i32>>>) -> bool {
    &&& tables.len() == dep.nodes@.len()
    &&& forall|i: int, e: int|
        0 <= i < tables.len() && #[trigger] counts_for(dep.rts@, dep.nodes@[i]@, e)
            ==> #[trigger] tables[i] == dep.rts@[e].1@
    &&& forall|i: int|
        0 <= i < tables.len() && none_counts(dep.rts@, dep.nodes@[i]@) ==> (
        #[trigger] tables[i]).len() == 0
}

/// The operations that are selected under their ids in `roots` start late enough for the
/// dependences of their entries, which are selected too, run between cycle zero and `end`, and use
/// no more than there is in any slot of the initiation interval, as their tables say.
pub open spec fn keeps_entries(
    dep: DepGraph,
    tables: Seq<Seq<Vec<i32>>>,
    limits: Seq<i32>,
    ii: int,
    end: int,
    roots: Seq<usize>,
    selected: Map<usize, (usize, i32)>,
) -> bool {
    let n = dep.nodes@.len();
    &&& forall|i: int|
        0 <= i < n && selected.contains_key(#[trigger] roots[i]) ==> 0 <= selected[roots[i]].1
            && selected[roots[i]].1 + tables[i].len() <= end
    &&& forall|i: int, e: int, k: int, j: int|
        0 <= i < n && 0 <= j < n && selected.contains_key(#[trigger] roots[i]) && counts_for(
            dep.edges@,
            dep.nodes@[i]@,
            e,
        ) && 0 <= k < dep.edges@[e].1@.len() && (#[trigger] dep.edges@[e].1@[k]).id@ == (
        #[trigger] dep.nodes@[j])@ ==> selected.contains_key(roots[j]) && selected[roots[i]].1
            >= selected[roots[j]].1 + dep.edges@[e].1@[k].d - ii * dep.edges@[e].1@[k].delta
    &&& forall|s: int, at: int|
        0 <= s < limits.len() && 0 <= at < ii ==> #[trigger] units_in_slot(
            tables,
            ii,
            roots,
            selected,
            s,
            at,
        ) <= limits[s]
}

/// What all operations that are selected use of resource `s` in the cycles that are `at` modulo `ii`.
pub open spec fn units_in_slot(
    tables: Seq<Seq<Vec<i32>>>,
    ii: int,
    roots: Seq<usize>,
    selected: Map<usize, (usize, i32)>,
    s: int,
    at: int,
) -> int {
    added(
        Seq::new(
            tables.len(),
            |i: int|
                if selected.contains_key(roots[i]) {
                    units_of(tables[i], ii, selected[roots[i]].1 as int, s, at)
                } else {
                    0
                },
        ),
    )
}

proof fn added_is_sum(numbers: Seq<int>)
    ensures
        added(numbers) == sum(numbers),
    decreases numbers.len(),
{
    reveal_with_fuel(Seq::fold_left, 2);
    if numbers.len() > 0 {
        added_is_sum(numbers.drop_last());
    }
}

proof fn units_are_occupied(rows: Seq<Vec<i32>>, ii: int, from: int, s: int, at: int, n: nat)
    requires
        n <= rows.len(),
        0 <= s,
    ensures
        sum(
            Seq::new(
                n,
                |r: int|
                    if (from + r) % ii == at && s < rows[r]@.len() {
                        rows[r]@[s] as int
                    } else {
                        0
                    },
            ),
        ) == rows_occupied(table_view(rows), ii, from, s, at, n),
    decreases n,
{
    if n > 0 {
        units_are_occupied(rows, ii, from, s, at, (n - 1) as nat);
        let use_of = |r: int|
            if (from + r) % ii == at && s < rows[r]@.len() {
                rows[r]@[s] as int
            } else {
                0
            };
        assert(Seq::new(n, use_of).drop_last() =~= Seq::new((n - 1) as nat, use_of));
        assert(table_view(rows)[n - 1] == rows[n - 1]@);
    }
}

proof fn table_is_of_entry(dep: DepGraph, tables: Seq<Seq<Vec<i32>>>, i: int)
    requires
        are_tables(dep, tables),
        0 <= i < dep.nodes@.len(),
    ensures
        dep.table(dep.name(i)) == table_view(tables[i]),
        dep.table(dep.name(i)).len() == tables[i].len(),
{
    let name = dep.nodes@[i]@;
    the_last_entry_counts(dep.rts@, name);
    let e = last_entry(dep.rts@, name, dep.rts@.len());
    if e >= 0 {
        assert(counts_for(dep.rts@, name, e));
        assert(tables[i] == dep.rts@[e].1@);
    } else {
        assert(tables[i].len() == 0);
        assert(table_view(tables[i]) =~= seq![]);
    }
}

proof fn slot_is_demand(
    dep: DepGraph,
    tables: Seq<Seq<Vec<i32>>>,
    ii: int,
    ids: Seq<nat>,
    roots: Seq<usize>,
    selected: Map<usize, (usize, i32)>,
    s: int,
    at: int,
)
    requires
        are_tables(dep, tables),
        ids.len() == dep.nodes@.len(),
        roots.len() == ids.len(),
        forall|i: int| 0 <= i < roots.len() ==> #[trigger] roots[i] == ids[i],
        0 <= s,
    ensures
        units_in_slot(tables, ii, roots, selected, s, at) == op_demand(
            dep,
            ids,
            ii,
            selected,
            s,
            at,
        ),
{
    let n = tables.len();
    let by_table = Seq::new(
        n,
        |i: int|
            if selected.contains_key(roots[i]) {
                units_of(tables[i], ii, selected[roots[i]].1 as int, s, at)
            } else {
                0
            },
    );
    let by_op = Seq::new(n, |i: int| op_usage(dep, ids, ii, selected, s, at, i));
    assert forall|i: int| 0 <= i < n implies by_table[i] == by_op[i] by {
        assert(roots[i] == ids[i]);
        assert(runs(ids, selected, i) == selected.contains_key(roots[i]));
        table_is_of_entry(dep, tables, i);
        if selected.contains_key(roots[i]) {
            let from = op_start(ids, selected, i);
            units_are_occupied(tables[i], ii, from, s, at, tables[i].len());
            added_is_sum(
                Seq::new(
                    tables[i].len(),
                    |r: int|
                        if (from + r) % ii == at && s < tables[i][r]@.len() {
                            tables[i][r]@[s] as int
                        } else {
                            0
                        },
                ),
            );
        }
    }
    assert(by_table =~= by_op);
    added_is_sum(by_table);
}

proof fn op_schedules_keep_entries(
    dep: DepGraph,
    tables: Seq<Seq<Vec<i32>>>,
    limits: Seq<i32>,
    ii: int,
    end: int,
    ids: Seq<nat>,
    roots: Seq<usize>,
    selected: Map<usize, (usize, i32)>,
)
    requires
        dep.wf(),
        are_tables(dep, tables),
        ids.len() == dep.nodes@.len(),
        roots.len() == ids.len(),
        forall|i: int| 0 <= i < roots.len() ==> #[trigger] roots[i] == ids[i],
    ensures
        is_op_schedule(dep, ids, limits, ii, end, selected) <==> keeps_entries(
            dep,
            tables,
            limits,
            ii,
            end,
            roots,
            selected,
        ),
{
    let n = dep.nodes@.len();
    assert forall|i: int| 0 <= i < n implies #[trigger] runs(ids, selected, i)
        == selected.contains_key(roots[i]) && op_start(ids, selected, i) == selected[roots[i]].1
        && dep.table(dep.name(i)).len() == tables[i].len() by {
        assert(roots[i] == ids[i]);
        table_is_of_entry(dep, tables, i);
    }
    assert forall|s: int, at: int| 0 <= s implies #[trigger] units_in_slot(
        tables,
        ii,
        roots,
        selected,
        s,
        at,
    ) == op_demand(dep, ids, ii, selected, s, at) by {
        slot_is_demand(dep, tables, ii, ids, roots, selected, s, at);
    }
    if is_op_schedule(dep, ids, limits, ii, end, selected) {
        assert forall|i: int| 0 <= i < n && selected.contains_key(#[trigger] roots[i]) implies 0
            <= selected[roots[i]].1 && selected[roots[i]].1 + tables[i].len() <= end by {
            assert(runs(ids, selected, i));
        }
        assert forall|i: int, e: int, k: int, j: int|
            0 <= i < n && 0 <= j < n && selected.contains_key(#[trigger] roots[i]) && counts_for(
                dep.edges@,
                dep.nodes@[i]@,
                e,
            ) && 0 <= k < dep.edges@[e].1@.len() && (#[trigger] dep.edges@[e].1@[k]).id@ == (
            #[trigger] dep.nodes@[j])@ implies selected.contains_key(roots[j])
            && selected[roots[i]].1 >= selected[roots[j]].1 + dep.edges@[e].1@[k].d - ii
            * dep.edges@[e].1@[k].delta by {
            the_last_entry_counts(dep.edges@, dep.nodes@[i]@);
            assert(runs(ids, selected, i));
            let edge = dep.in_edges(dep.name(i))[k];
            assert(edge == dep.edges@[e].1@[k]);
            dep.place_is_unique(j);
            assert(dep.name(j) == edge.id@);
            assert(runs(ids, selected, j));
        }
        assert forall|s: int, at: int|
            0 <= s < limits.len() && 0 <= at < ii implies #[trigger] units_in_slot(
            tables,
            ii,
            roots,
            selected,
            s,
            at,
        ) <= limits[s] by {
            assert(op_demand(dep, ids, ii, selected, s, at) <= limits[s]);
        }
    }
    if keeps_entries(dep, tables, limits, ii, end, roots, selected) {
        assert forall|i: int| 0 <= i < n && #[trigger] runs(ids, selected, i) implies 0 <= op_start(
            ids,
            selected,
            i,
        ) && op_start(ids, selected, i) + dep.table(dep.name(i)).len() <= end by {
            assert(selected.contains_key(roots[i]));
        }
        assert forall|i: int, k: int|
            0 <= i < n && runs(ids, selected, i) && 0 <= k < dep.in_edges(
                dep.name(i),
            ).len() implies {
            let edge = #[trigger] dep.in_edges(dep.name(i))[k];
            let source = dep.place(edge.id@);
            &&& runs(ids, selected, source)
            &&& op_start(ids, selected, i) >= op_start(ids, selected, source) + edge.d - ii
                * edge.delta
        } by {
            the_last_entry_counts(dep.edges@, dep.nodes@[i]@);
            let e = last_entry(dep.edges@, dep.nodes@[i]@, dep.edges@.len());
            let edge = dep.in_edges(dep.name(i))[k];
            assert(dep.has(edge.id@));
            let j = dep.place(edge.id@);
            assert(0 <= j < n && dep.name(j) == edge.id@);
            assert(dep.nodes@[j]@ == dep.edges@[e].1@[k].id@);
            assert(selected.contains_key(roots[i]));
            assert(runs(ids, selected, j));
        }
        assert forall|s: int, at: int|
            0 <= s < limits.len() && 0 <= at < ii implies #[trigger] op_demand(
            dep,
            ids,
            ii,
            selected,
            s,
            at,
        ) <= limits[s] by {
            assert(units_in_slot(tables, ii, roots, selected, s, at) <= limits[s]);
        }
    }
}

/// A schedule of the classes that a dependence graph unfolds into keeps what the entries of the
/// graph say: every dependence, and the units of every row in the cycle in which it is used.
pub proof fn schedules_keep_the_entries(
    dep: DepGraph,
    g: TileGraph,
    ids: Seq<nat>,
    r: ClassGraph,
    tables: Seq<Seq<Vec<i32>>>,
    limits: Seq<i32>,
    ii: int,
    wanted: Seq<usize>,
    end: int,
    roots: Seq<usize>,
    selected: Map<usize, (usize, i32)>,
)
    requires
        unfolds_into(dep, g, ids, r),
        roots.len() == ids.len(),
        forall|i: int| 0 <= i < roots.len() ==> #[trigger] roots[i] == ids[i],
        are_tables(dep, tables),
        is_schedule(r, limits, ii, wanted, end, selected),
    ensures
        keeps_entries(dep, tables, limits, ii, end, roots, selected),
{
    class_schedules_schedule_operations(dep, g, ids, r, limits, ii, wanted, end, selected);
    op_schedules_keep_entries(dep, tables, limits, ii, end, ids, roots, selected);
}

/// What keeps the entries of a dependence graph is a schedule of its classes, where it selects
/// classes, of each of them the only node, and those that are wanted.
pub proof fn what_keeps_the_entries_is_a_schedule(
    dep: DepGraph,
    g: TileGraph,
    ids: Seq<nat>,
    r: ClassGraph,
    tables: Seq<Seq<Vec<i32>>>,
    limits: Seq<i32>,
    ii: int,
    wanted: Seq<usize>,
    end: int,
    roots: Seq<usize>,
    selected: Map<usize, (usize, i32)>,
)
    requires
        unfolds_into(dep, g, ids, r),
        roots.len() == ids.len(),
        forall|i: int| 0 <= i < roots.len() ==> #[trigger] roots[i] == ids[i],
        are_tables(dep, tables),
        keeps_entries(dep, tables, limits, ii, end, roots, selected),
        forall|id: usize| #[trigger]
            selected.contains_key(id) ==> roots.contains(id) && selected[id].0 == 0,
        forall|i: int|
            0 <= i < wanted.len() ==> roots.contains(#[trigger] wanted[i])
                && selected.contains_key(wanted[i]),
    ensures
        is_schedule(r, limits, ii, wanted, end, selected),
{
    op_schedules_keep_entries(dep, tables, limits, ii, end, ids, roots, selected);
    assert forall|id: usize| #[trigger] roots.contains(id) implies r.is_class(id) && id
        < r.leaders@.len() && r.leaders@[id as int] == id by {
        let i = choose|i: int| 0 <= i < roots.len() && roots[i] == id;
        let c = operation_has_a_class(dep, g, ids, r, i);
        assert(r.classes@[c].id == id);
    }
    assert forall|i: int| 0 <= i < wanted.len() implies chosen(
        r,
        selected,
        r.class_index(#[trigger] wanted[i]),
    ) by {
        assert(roots.contains(wanted[i]));
        r.class_index_is_unique(wanted[i], 0);
    }
    operation_schedules_schedule_classes(dep, g, ids, r, limits, ii, wanted, end, selected);
}

/// An operation that is called like the placeholder of another and has no dependences is in the class
/// of the other; operations that are not called like placeholders are all in different classes.
pub proof fn placeholders_share_the_class(
    dep: DepGraph,
    classes: Classes,
    ids: Seq<nat>,
    i: int,
    j: int,
)
    requires
        dep.wf(),
        arranged(dep, classes, ids),
        0 <= i < dep.nodes@.len(),
        0 <= j < dep.nodes@.len(),
    ensures
        dep.nodes@[j]@ == "__phantom_"@ + dep.nodes@[i]@ && (forall|e: int| #[trigger]
            counts_for(dep.edges@, dep.nodes@[j]@, e) ==> dep.edges@[e].1@.len() == 0) ==> ids[i]
            == ids[j],
        i != j && (forall|rest: Seq<char>|
            dep.nodes@[i]@ != #[trigger] ("__phantom_"@ + rest)) && (forall|rest: Seq<char>|
            dep.nodes@[j]@ != #[trigger] ("__phantom_"@ + rest)) ==> ids[i] != ids[j],
{
    let n = dep.nodes@.len() as int;
    let (a, b) = (dep.name(i), dep.name(j));
    what_a_placeholder_is_called(a);
    what_a_placeholder_is_called(b);
    if b == "__phantom_"@ + a && (forall|e: int| #[trigger]
        counts_for(dep.edges@, b, e) ==> dep.edges@[e].1@.len() == 0) {
        phantom_round_trip(a);
        the_last_entry_counts(dep.edges@, b);
        assert(b == phantom(a));
        assert(dep.in_edges(b).len() == 0);
        assert(dep.has(a));
        assert(absorbed(dep, j));
        assert(stands_in(dep, b, n));
        assert(stem(dep, b, n) == stem(dep, a, n));
        assert(ids[i] == ids[j] <==> stem(dep, dep.name(i), n) == stem(dep, dep.name(j), n));
    }
    if i != j && !is_phantom(a) && !is_phantom(b) {
        assert(!stands_in(dep, a, n) && !stands_in(dep, b, n));
        assert(dep.nodes@[i]@ != dep.nodes@[j]@) by {
            if i < j {
                assert(dep.nodes@[i]@ != dep.nodes@[j]@);
            } else {
                assert(dep.nodes@[j]@ != dep.nodes@[i]@);
            }
        }
        assert(ids[i] == ids[j] <==> stem(dep, dep.name(i), n) == stem(dep, dep.name(j), n));
    }
}

} // verus!
