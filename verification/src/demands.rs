//! What the dependence graph of a problem and its schedules say of the problem.

use vstd::prelude::*;

use crate::dep::DepGraph;
use crate::egraph::TileGraph;
use crate::faithful::{
    added, are_tables, counts_for, keeps_entries, none_counts, schedules_keep_the_entries,
    the_last_entry_counts, units_in_slot, units_of, what_keeps_the_entries_is_a_schedule,
};
use crate::graph::ClassGraph;
use crate::operations::operation_has_a_class;
use crate::plan::{
    edge_views, entry_is_at_its_name, incoming, represents, unfolds_with_roots, unit_row, unit_rows,
};
use crate::schedule::{chosen, is_schedule};
use crate::swp::{edge_is_sound, is_sound, node_is_sound, SwpProblem, SwpProblemView};
use crate::tile::{table_view, EdgeData};

verus! {

/// `list` is of the dependences of the operation at position `i`: the one at position `k` of the
/// problem, if it is one of them, stands at `places[k]`, with the name of the operation that it is
/// on, its distance and its offset; they stand in the order of the problem, and nothing else does.
pub open spec fn lists_edges(
    p: SwpProblem,
    i: int,
    list: Seq<EdgeData<&str>>,
    places: Seq<int>,
) -> bool {
    &&& places.len() == p.edges@.len()
    &&& forall|k: int|
        0 <= k < p.edges@.len() && (#[trigger] p.edges@[k]).dst == i ==> {
            &&& 0 <= places[k] < list.len()
            &&& list[places[k]].id@ == p.nodes@[p.edges@[k].src as int].name@
            &&& list[places[k]].d == p.edges@[k].d
            &&& list[places[k]].delta == p.edges@[k].delta
        }
    &&& forall|k: int, m: int|
        0 <= k < m < p.edges@.len() && (#[trigger] p.edges@[k]).dst == i && (
        #[trigger] p.edges@[m]).dst == i ==> places[k] < places[m]
    &&& forall|q: int| 0 <= q < list.len() ==> #[trigger] is_placed(p, i, places, q)
}

/// One of the dependences of the operation at position `i` stands at `q`.
pub open spec fn is_placed(p: SwpProblem, i: int, places: Seq<int>, q: int) -> bool {
    exists|k: int| 0 <= k < p.edges@.len() && (#[trigger] p.edges@[k]).dst == i && places[k] == q
}

/// `list` is of all dependences of the operation at position `i`, each once and in order.
pub open spec fn has_all_edges(p: SwpProblem, i: int, list: Seq<EdgeData<&str>>) -> bool {
    exists|places: Seq<int>| lists_edges(p, i, list, places)
}

/// The dependence graph has the operations of the problem, each with a row for each of its cycles
/// that has one unit of its resource and nothing else, all of its dependences, and the units that
/// the machine has of each resource.
pub open spec fn carries(p: SwpProblem, dep: DepGraph) -> bool {
    let n = p.nodes@.len();
    &&& dep.nodes@.len() == n
    &&& forall|i: int| 0 <= i < n ==> (#[trigger] dep.nodes@[i])@ == p.nodes@[i].name@
    &&& dep.rts@.len() == n
    &&& forall|i: int| 0 <= i < n ==> (#[trigger] dep.rts@[i]).0@ == p.nodes@[i].name@
    &&& forall|i: int| 0 <= i < n ==> (#[trigger] dep.rts@[i]).1@.len() == p.nodes@[i].cost
    &&& forall|i: int, r: int|
        0 <= i < n && 0 <= r < p.nodes@[i].cost ==> (#[trigger] dep.rts@[i].1@[r])@.len()
            == p.resources@.len()
    &&& forall|i: int, r: int, s: int|
        0 <= i < n && 0 <= r < p.nodes@[i].cost && 0 <= s < p.resources@.len()
            ==> #[trigger] dep.rts@[i].1@[r]@[s] == if s == p.nodes@[i].kind {
            1i32
        } else {
            0i32
        }
    &&& dep.edges@.len() == n
    &&& forall|i: int| 0 <= i < n ==> (#[trigger] dep.edges@[i]).0@ == p.nodes@[i].name@
    &&& forall|i: int| 0 <= i < n ==> has_all_edges(p, i, (#[trigger] dep.edges@[i]).1@)
    &&& dep.resource_limits@ == p.resources@
}

proof fn incoming_grows(p: SwpProblemView, i: int, k: int, m: int)
    requires
        0 <= k < m <= p.edges.len(),
    ensures
        incoming(p, i, k).len() <= incoming(p, i, m).len(),
        p.edges[k].dst == i ==> incoming(p, i, k).len() < incoming(p, i, m).len() && incoming(
            p,
            i,
            m,
        )[incoming(p, i, k).len() as int] == (
            p.nodes[p.edges[k].src].name,
            p.edges[k].d,
            p.edges[k].delta,
        ),
    decreases m,
{
    if k < m - 1 {
        incoming_grows(p, i, k, m - 1);
    }
}

proof fn incoming_comes_from(p: SwpProblemView, i: int, m: int, q: int) -> (k: int)
    requires
        0 <= m <= p.edges.len(),
        0 <= q < incoming(p, i, m).len(),
    ensures
        0 <= k < m,
        p.edges[k].dst == i,
        incoming(p, i, k).len() == q,
    decreases m,
{
    if q < incoming(p, i, m - 1).len() {
        incoming_comes_from(p, i, m - 1, q)
    } else {
        m - 1
    }
}

/// The dependence graph of a problem has everything that the problem has: every edge becomes a
/// dependence of the operation that it leads to, and no dependence comes from anything else.
pub proof fn graphs_carry_their_problems(p: SwpProblem, dep: DepGraph)
    requires
        is_sound(p@),
        represents(p@, dep),
    ensures
        carries(p, dep),
{
    let v = p@;
    let n = p.nodes@.len();
    let m = p.edges@.len() as int;
    assert forall|i: int| 0 <= i < n implies v.nodes[i].name == (#[trigger] p.nodes@[i]).name@
        && v.nodes[i].cost == p.nodes@[i].cost && v.nodes[i].kind == p.nodes@[i].kind by {
        assert(v.nodes[i] == p.nodes@[i]@);
    }
    assert forall|i: int| 0 <= i < n implies (#[trigger] dep.nodes@[i])@ == p.nodes@[i].name@ by {
        assert(dep.name(i) == v.nodes[i].name);
    }
    assert forall|i: int| 0 <= i < n implies table_view((#[trigger] dep.rts@[i]).1@) == unit_rows(
        v.nodes[i],
        v.resources.len() as int,
    ) && dep.rts@[i].1@.len() == p.nodes@[i].cost by {
        entry_is_at_its_name(dep.rts@, v, i, n);
        assert(dep.table(v.nodes[i].name) == table_view(dep.rts@[i].1@));
        assert(table_view(dep.rts@[i].1@).len() == dep.rts@[i].1@.len());
        assert(node_is_sound(v.nodes[i], v.resources.len() as int));
        assert(v.nodes[i].cost == p.nodes@[i].cost);
    }
    assert forall|i: int, r: int| 0 <= i < n && 0 <= r < p.nodes@[i].cost implies (
    #[trigger] dep.rts@[i].1@[r])@ == unit_row(p.nodes@[i].kind as int, v.resources.len() as int) by {
        assert(table_view(dep.rts@[i].1@)[r] == dep.rts@[i].1@[r]@);
        assert(v.nodes[i].kind == p.nodes@[i].kind);
    }
    assert forall|i: int| 0 <= i < n implies has_all_edges(
        p,
        i,
        (#[trigger] dep.edges@[i]).1@,
    ) by {
        entry_is_at_its_name(dep.edges@, v, i, n);
        let list = dep.edges@[i].1@;
        assert(v.nodes[i] == p.nodes@[i]@);
        assert(dep.in_edges(v.nodes[i].name) == list);
        assert(edge_views(list) == incoming(v, i, m));
        assert(edge_views(list).len() == list.len());
        let places = Seq::new(p.edges@.len(), |k: int| incoming(v, i, k).len() as int);
        assert forall|k: int| 0 <= k < m && (#[trigger] p.edges@[k]).dst == i implies {
            &&& 0 <= places[k] < list.len()
            &&& list[places[k]].id@ == p.nodes@[p.edges@[k].src as int].name@
            &&& list[places[k]].d == p.edges@[k].d
            &&& list[places[k]].delta == p.edges@[k].delta
        } by {
            assert(v.edges[k] == p.edges@[k]@);
            assert(edge_is_sound(v.edges[k], n as int));
            incoming_grows(v, i, k, m);
            let q = places[k];
            assert(edge_views(list)[q] == (
                list[q].id@,
                list[q].d as int,
                list[q].delta as int,
            ));
            assert(v.nodes[v.edges[k].src] == p.nodes@[v.edges[k].src]@);
        }
        assert forall|k: int, l: int|
            0 <= k < l < m && (#[trigger] p.edges@[k]).dst == i && (#[trigger] p.edges@[l]).dst
                == i implies places[k] < places[l] by {
            assert(v.edges[k] == p.edges@[k]@);
            incoming_grows(v, i, k, l);
        }
        assert forall|q: int| 0 <= q < list.len() implies #[trigger] is_placed(
            p,
            i,
            places,
            q,
        ) by {
            let k = incoming_comes_from(v, i, m, q);
            assert(v.edges[k] == p.edges@[k]@);
            assert(p.edges@[k].dst == i && places[k] == q);
        }
        assert(lists_edges(p, i, list, places));
    }
    assert(dep.resource_limits@ =~= p.resources@) by {
        assert forall|s: int| 0 <= s < p.resources@.len() implies dep.resource_limits@[s]
            == p.resources@[s] by {
            assert(v.resources[s] == p.resources@[s]);
        }
    }
}

/// How many of the `cost` cycles from cycle `from` on are `at` modulo `ii`.
pub open spec fn cycles_at(cost: nat, ii: int, from: int, at: int) -> int {
    added(
        Seq::new(
            cost,
            |r: int|
                if (from + r) % ii == at {
                    1int
                } else {
                    0
                },
        ),
    )
}

/// How many units of resource `s` the operations use in the cycles that are `at` modulo `ii`, when
/// the one at position `i` starts in cycle `starts[i]`.
pub open spec fn units_taken(p: SwpProblem, ii: int, starts: Seq<int>, s: int, at: int) -> int {
    added(
        Seq::new(
            p.nodes@.len(),
            |i: int|
                if p.nodes@[i].kind == s {
                    cycles_at(p.nodes@[i].cost as nat, ii, starts[i], at)
                } else {
                    0
                },
        ),
    )
}

/// The operations of the problem can start in these cycles of every iteration, when one iteration
/// starts every `ii` cycles and takes at most `end` cycles: all dependences and all limits are kept.
pub open spec fn is_plan(p: SwpProblem, ii: int, end: int, starts: Seq<int>) -> bool {
    &&& starts.len() == p.nodes@.len()
    &&& forall|i: int|
        0 <= i < starts.len() ==> 0 <= #[trigger] starts[i] && starts[i] + p.nodes@[i].cost <= end
    &&& forall|k: int|
        0 <= k < p.edges@.len() ==> {
            let edge = #[trigger] p.edges@[k];
            starts[edge.dst as int] >= starts[edge.src as int] + edge.d - ii * edge.delta
        }
    &&& forall|s: int, at: int|
        0 <= s < p.resources@.len() && 0 <= at < ii ==> #[trigger] units_taken(
            p,
            ii,
            starts,
            s,
            at,
        ) <= p.resources@[s]
}

/// The cycles in which the operations start, where all are selected under their ids in `roots`.
pub open spec fn starts_of(roots: Seq<usize>, selected: Map<usize, (usize, i32)>) -> Seq<int> {
    Seq::new(roots.len(), |i: int| selected[roots[i]].1 as int)
}

/// The rows of the entries of the graph of a problem.
spec fn tables_of(dep: DepGraph) -> Seq<Seq<Vec<i32>>> {
    Seq::new(dep.rts@.len(), |i: int| dep.rts@[i].1@)
}

proof fn entries_count_in_place(p: SwpProblem, dep: DepGraph, i: int)
    requires
        is_sound(p@),
        carries(p, dep),
        0 <= i < p.nodes@.len(),
    ensures
        counts_for(dep.rts@, dep.nodes@[i]@, i),
        counts_for(dep.edges@, dep.nodes@[i]@, i),
        forall|e: int| #[trigger] counts_for(dep.rts@, dep.nodes@[i]@, e) ==> e == i,
        forall|e: int| #[trigger] counts_for(dep.edges@, dep.nodes@[i]@, e) ==> e == i,
{
    let n = p.nodes@.len();
    let name = dep.nodes@[i]@;
    assert forall|f: int| i < f < n implies (#[trigger] p.nodes@[f]).name@ != name by {
        assert(p@.nodes[i] == p.nodes@[i]@ && p@.nodes[f] == p.nodes@[f]@);
        assert(p@.nodes[i].name != p@.nodes[f].name);
    }
    assert forall|f: int| i < f < dep.rts@.len() implies (#[trigger] dep.rts@[f]).0@ != name by {
        assert(p.nodes@[f].name@ != name);
    }
    assert forall|f: int| i < f < dep.edges@.len() implies (#[trigger] dep.edges@[f]).0@
        != name by {
        assert(p.nodes@[f].name@ != name);
    }
    assert(dep.rts@[i].0@ == name && dep.edges@[i].0@ == name);
    the_last_entry_counts(dep.rts@, name);
    the_last_entry_counts(dep.edges@, name);
}

proof fn tables_are_of_entries(p: SwpProblem, dep: DepGraph)
    requires
        is_sound(p@),
        carries(p, dep),
    ensures
        are_tables(dep, tables_of(dep)),
{
    let tables = tables_of(dep);
    assert forall|i: int, e: int|
        0 <= i < tables.len() && #[trigger] counts_for(
            dep.rts@,
            dep.nodes@[i]@,
            e,
        ) implies #[trigger] tables[i] == dep.rts@[e].1@ by {
        entries_count_in_place(p, dep, i);
    }
    assert forall|i: int|
        0 <= i < tables.len() && none_counts(
            dep.rts@,
            dep.nodes@[i]@,
        ) implies (#[trigger] tables[i]).len() == 0 by {
        entries_count_in_place(p, dep, i);
        assert(dep.rts@[i].0@ == dep.nodes@[i]@);
    }
}

proof fn added_of_nothing(numbers: Seq<int>)
    requires
        forall|i: int| 0 <= i < numbers.len() ==> #[trigger] numbers[i] == 0,
    ensures
        added(numbers) == 0,
    decreases numbers.len(),
{
    reveal_with_fuel(Seq::fold_left, 2);
    if numbers.len() > 0 {
        assert(numbers[numbers.len() - 1] == 0);
        added_of_nothing(numbers.drop_last());
    }
}

proof fn slots_are_alike(
    p: SwpProblem,
    dep: DepGraph,
    ii: int,
    roots: Seq<usize>,
    selected: Map<usize, (usize, i32)>,
    s: int,
    at: int,
)
    requires
        is_sound(p@),
        carries(p, dep),
        roots.len() == p.nodes@.len(),
        forall|i: int| 0 <= i < roots.len() ==> selected.contains_key(#[trigger] roots[i]),
        0 <= s < p.resources@.len(),
    ensures
        units_in_slot(tables_of(dep), ii, roots, selected, s, at) == units_taken(
            p,
            ii,
            starts_of(roots, selected),
            s,
            at,
        ),
{
    let tables = tables_of(dep);
    let starts = starts_of(roots, selected);
    let by_table = Seq::new(
        tables.len(),
        |i: int|
            if selected.contains_key(roots[i]) {
                units_of(tables[i], ii, selected[roots[i]].1 as int, s, at)
            } else {
                0
            },
    );
    let by_kind = Seq::new(
        p.nodes@.len(),
        |i: int|
            if p.nodes@[i].kind == s {
                cycles_at(p.nodes@[i].cost as nat, ii, starts[i], at)
            } else {
                0
            },
    );
    assert forall|i: int| 0 <= i < by_kind.len() implies by_table[i] == by_kind[i] by {
        assert(selected.contains_key(roots[i]));
        let rows = tables[i];
        let from = starts[i];
        assert(rows == dep.rts@[i].1@);
        let used = Seq::new(
            rows.len(),
            |r: int|
                if (from + r) % ii == at && s < rows[r]@.len() {
                    rows[r]@[s] as int
                } else {
                    0
                },
        );
        assert forall|r: int| 0 <= r < rows.len() implies rows[r]@.len() == p.resources@.len()
            && #[trigger] rows[r]@[s] == if s == p.nodes@[i].kind {
            1i32
        } else {
            0i32
        } by {
            assert(dep.rts@[i].1@[r]@.len() == p.resources@.len());
            assert(dep.rts@[i].1@[r]@[s] == rows[r]@[s]);
        }
        if p.nodes@[i].kind == s {
            let ones = Seq::new(
                p.nodes@[i].cost as nat,
                |r: int|
                    if (from + r) % ii == at {
                        1int
                    } else {
                        0
                    },
            );
            assert forall|r: int| 0 <= r < rows.len() implies used[r] == ones[r] by {
                assert(rows[r]@[s] == 1);
            }
            assert(used =~= ones);
        } else {
            assert forall|r: int| 0 <= r < used.len() implies #[trigger] used[r] == 0 by {
                assert(rows[r]@[s] == 0);
            }
            added_of_nothing(used);
        }
    }
    assert(by_table =~= by_kind);
}

proof fn plans_keep_entries(
    p: SwpProblem,
    dep: DepGraph,
    ii: int,
    end: int,
    roots: Seq<usize>,
    selected: Map<usize, (usize, i32)>,
)
    requires
        is_sound(p@),
        carries(p, dep),
        roots.len() == p.nodes@.len(),
        forall|i: int| 0 <= i < roots.len() ==> selected.contains_key(#[trigger] roots[i]),
    ensures
        keeps_entries(dep, tables_of(dep), dep.resource_limits@, ii, end, roots, selected)
            <==> is_plan(p, ii, end, starts_of(roots, selected)),
{
    let n = p.nodes@.len();
    let tables = tables_of(dep);
    let starts = starts_of(roots, selected);
    let limits = dep.resource_limits@;
    assert forall|i: int| 0 <= i < n implies (#[trigger] tables[i]).len() == p.nodes@[i].cost by {
        assert(dep.rts@[i].1@.len() == p.nodes@[i].cost);
    }
    assert forall|s: int, at: int| 0 <= s < limits.len() implies #[trigger] units_in_slot(
        tables,
        ii,
        roots,
        selected,
        s,
        at,
    ) == units_taken(p, ii, starts, s, at) by {
        slots_are_alike(p, dep, ii, roots, selected, s, at);
    }
    if keeps_entries(dep, tables, limits, ii, end, roots, selected) {
        assert forall|i: int| 0 <= i < starts.len() implies 0 <= #[trigger] starts[i] && starts[i]
            + p.nodes@[i].cost <= end by {
            assert(selected.contains_key(roots[i]));
            assert(tables[i].len() == p.nodes@[i].cost);
        }
        assert forall|k: int| 0 <= k < p.edges@.len() implies {
            let edge = #[trigger] p.edges@[k];
            starts[edge.dst as int] >= starts[edge.src as int] + edge.d - ii * edge.delta
        } by {
            let edge = p.edges@[k];
            assert(p@.edges[k] == edge@);
            assert(edge_is_sound(p@.edges[k], n as int));
            let i = edge.dst as int;
            let j = edge.src as int;
            let list = dep.edges@[i].1@;
            entries_count_in_place(p, dep, i);
            assert(has_all_edges(p, i, list));
            let places = choose|places: Seq<int>| lists_edges(p, i, list, places);
            let q = places[k];
            assert(dep.edges@[i].1@[q].id@ == dep.nodes@[j]@);
            assert(selected.contains_key(roots[i]));
        }
        assert forall|s: int, at: int|
            0 <= s < p.resources@.len() && 0 <= at < ii implies #[trigger] units_taken(
            p,
            ii,
            starts,
            s,
            at,
        ) <= p.resources@[s] by {
            assert(units_in_slot(tables, ii, roots, selected, s, at) <= limits[s]);
        }
    }
    if is_plan(p, ii, end, starts) {
        assert forall|i: int| 0 <= i < n && selected.contains_key(#[trigger] roots[i]) implies 0
            <= selected[roots[i]].1 && selected[roots[i]].1 + tables[i].len() <= end by {
            assert(0 <= starts[i]);
            assert(tables[i].len() == p.nodes@[i].cost);
        }
        assert forall|i: int, e: int, q: int, j: int|
            0 <= i < n && 0 <= j < n && selected.contains_key(#[trigger] roots[i]) && counts_for(
                dep.edges@,
                dep.nodes@[i]@,
                e,
            ) && 0 <= q < dep.edges@[e].1@.len() && (#[trigger] dep.edges@[e].1@[q]).id@ == (
            #[trigger] dep.nodes@[j])@ implies selected.contains_key(roots[j])
            && selected[roots[i]].1 >= selected[roots[j]].1 + dep.edges@[e].1@[q].d - ii
            * dep.edges@[e].1@[q].delta by {
            entries_count_in_place(p, dep, i);
            let list = dep.edges@[i].1@;
            assert(has_all_edges(p, i, list));
            let places = choose|places: Seq<int>| lists_edges(p, i, list, places);
            assert(is_placed(p, i, places, q));
            let k = choose|k: int|
                0 <= k < p.edges@.len() && (#[trigger] p.edges@[k]).dst == i && places[k] == q;
            let edge = p.edges@[k];
            assert(p@.edges[k] == edge@);
            assert(edge_is_sound(p@.edges[k], n as int));
            let source = edge.src as int;
            assert(list[q].id@ == p.nodes@[source].name@);
            assert(p@.nodes[j] == p.nodes@[j]@ && p@.nodes[source] == p.nodes@[source]@);
            assert(dep.nodes@[j]@ == p.nodes@[j].name@);
            assert(source == j) by {
                if source < j {
                    assert(p@.nodes[source].name != p@.nodes[j].name);
                }
                if j < source {
                    assert(p@.nodes[j].name != p@.nodes[source].name);
                }
            }
            assert(selected.contains_key(roots[j]));
        }
        assert forall|s: int, at: int|
            0 <= s < limits.len() && 0 <= at < ii implies #[trigger] units_in_slot(
            tables,
            ii,
            roots,
            selected,
            s,
            at,
        ) <= limits[s] by {
            assert(units_taken(p, ii, starts, s, at) <= p.resources@[s]);
        }
    }
}

/// A schedule of all operations of a problem starts them so that every edge of the problem and the
/// units of every resource are kept.
pub proof fn schedules_are_plans(
    p: SwpProblem,
    dep: DepGraph,
    g: TileGraph,
    ids: Seq<nat>,
    graph: ClassGraph,
    roots: Seq<usize>,
    ii: int,
    end: int,
    selected: Map<usize, (usize, i32)>,
)
    requires
        is_sound(p@),
        represents(p@, dep),
        unfolds_with_roots(dep, g, ids, graph, roots),
        is_schedule(graph, dep.resource_limits@, ii, roots, end, selected),
    ensures
        forall|i: int| 0 <= i < roots.len() ==> selected.contains_key(#[trigger] roots[i]),
        is_plan(p, ii, end, starts_of(roots, selected)),
{
    graphs_carry_their_problems(p, dep);
    tables_are_of_entries(p, dep);
    assert forall|i: int| 0 <= i < roots.len() implies selected.contains_key(
        #[trigger] roots[i],
    ) by {
        let c = operation_has_a_class(dep, g, ids, graph, i);
        graph.class_index_is_unique(roots[i], c);
        assert(chosen(graph, selected, graph.class_index(roots[i])));
    }
    schedules_keep_the_entries(
        dep,
        g,
        ids,
        graph,
        tables_of(dep),
        dep.resource_limits@,
        ii,
        roots,
        end,
        roots,
        selected,
    );
    plans_keep_entries(p, dep, ii, end, roots, selected);
}

/// Wherever the operations of a problem can start so that every edge and every limit is kept, the
/// classes of its dependence graph have the schedule that starts them there.
pub proof fn plans_are_schedules(
    p: SwpProblem,
    dep: DepGraph,
    g: TileGraph,
    ids: Seq<nat>,
    graph: ClassGraph,
    roots: Seq<usize>,
    ii: int,
    end: int,
    selected: Map<usize, (usize, i32)>,
)
    requires
        is_sound(p@),
        represents(p@, dep),
        unfolds_with_roots(dep, g, ids, graph, roots),
        forall|i: int| 0 <= i < roots.len() ==> selected.contains_key(#[trigger] roots[i]),
        forall|id: usize| #[trigger]
            selected.contains_key(id) ==> roots.contains(id) && selected[id].0 == 0,
        is_plan(p, ii, end, starts_of(roots, selected)),
    ensures
        is_schedule(graph, dep.resource_limits@, ii, roots, end, selected),
{
    graphs_carry_their_problems(p, dep);
    tables_are_of_entries(p, dep);
    plans_keep_entries(p, dep, ii, end, roots, selected);
    assert forall|i: int| 0 <= i < roots.len() implies roots.contains(#[trigger] roots[i])
        && selected.contains_key(roots[i]) by {}
    what_keeps_the_entries_is_a_schedule(
        dep,
        g,
        ids,
        graph,
        tables_of(dep),
        dep.resource_limits@,
        ii,
        roots,
        end,
        roots,
        selected,
    );
}

/// The number of dependences of each operation among the first `m`.
spec fn counts_up_to(p: SwpProblemView, m: int) -> Seq<int> {
    Seq::new(p.nodes.len(), |i: int| incoming(p, i, m).len() as int)
}

proof fn added_with_one_more(a: Seq<int>, b: Seq<int>, q: int)
    requires
        a.len() == b.len(),
        0 <= q < a.len(),
        forall|i: int|
            0 <= i < a.len() ==> #[trigger] b[i] == a[i] + if i == q {
                1int
            } else {
                0
            },
    ensures
        added(b) == added(a) + 1,
    decreases a.len(),
{
    reveal_with_fuel(Seq::fold_left, 2);
    let n = a.len() - 1;
    assert(b[n] == a[n] + if n == q {
        1int
    } else {
        0
    });
    if q < n {
        added_with_one_more(a.drop_last(), b.drop_last(), q);
    } else {
        assert(a.drop_last() =~= b.drop_last());
    }
}

proof fn edges_add_up(p: SwpProblemView, m: int)
    requires
        is_sound(p),
        0 <= m <= p.edges.len(),
    ensures
        added(counts_up_to(p, m)) == m,
    decreases m,
{
    if m == 0 {
        assert forall|i: int| 0 <= i < p.nodes.len() implies #[trigger] counts_up_to(p, 0)[i]
            == 0 by {}
        added_of_nothing(counts_up_to(p, 0));
    } else {
        edges_add_up(p, m - 1);
        let q = p.edges[m - 1].dst;
        assert(edge_is_sound(p.edges[m - 1], p.nodes.len() as int));
        added_with_one_more(counts_up_to(p, m - 1), counts_up_to(p, m), q);
    }
}

/// The dependence graph of a problem has as many dependences as the problem has edges.
pub proof fn as_many_dependences_as_edges(p: SwpProblem, dep: DepGraph)
    requires
        is_sound(p@),
        represents(p@, dep),
    ensures
        added(Seq::new(dep.edges@.len(), |i: int| dep.edges@[i].1@.len() as int))
            == p.edges@.len(),
{
    let v = p@;
    let m = p.edges@.len() as int;
    edges_add_up(v, m);
    let counts = Seq::new(dep.edges@.len(), |i: int| dep.edges@[i].1@.len() as int);
    assert forall|i: int| 0 <= i < counts.len() implies counts[i] == counts_up_to(v, m)[i] by {
        entry_is_at_its_name(dep.edges@, v, i, dep.edges@.len());
        assert(edge_views(dep.in_edges(v.nodes[i].name)) == incoming(v, i, m));
        assert(edge_views(dep.edges@[i].1@).len() == dep.edges@[i].1@.len());
    }
    assert(counts =~= counts_up_to(v, m));
}

} // verus!
