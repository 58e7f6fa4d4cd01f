//! Schedules, tables and limits of a graph, field by field.

use vstd::arithmetic::div_mod::lemma_small_mod;
use vstd::prelude::*;

use crate::faithful::{added, units_of};
use crate::graph::ClassGraph;
use crate::model::{cost, fits, has_columns, lag, lag_fits, last_col, node_fits};
use crate::schedule::{
    choice, chosen, demand, is_closed, is_schedule, keeps_dependences, keeps_limits, occupied,
    runs_within, start, tile,
};
use crate::tile::{edge_at, edge_count, folded, folds, TileLang};

verus! {

/// Every class that is selected is one of the graph; its node is one of the class, and runs between
/// cycle zero and `end`; the classes of its operands are selected too; and for each operand that has
/// a distance and an offset it starts late enough.
pub open spec fn runs_after_its_operands(
    g: ClassGraph,
    ii: int,
    end: int,
    selected: Map<usize, (usize, i32)>,
    c: int,
) -> bool {
    let (j, t) = selected[g.classes@[c].id];
    let node = g.classes@[c].nodes@[j as int];
    &&& j < g.classes@[c].nodes@.len()
    &&& 0 <= t
    &&& t + node.rt@.len() <= end
    &&& forall|k: int|
        0 <= k < node.children@.len() ==> selected.contains_key(
            g.leaders@[(#[trigger] node.children@[k]) as int],
        )
    &&& forall|k: int|
        0 <= k < node.children@.len() && k < node.edge_data@.len() ==> t >= selected[g.leaders@[(
        #[trigger] node.children@[k]) as int]].1 + node.edge_data@[k].0 - ii
            * node.edge_data@[k].1
}

/// What the selected nodes use of resource `s` in the cycles that are `at` modulo `ii`.
pub open spec fn units_used(
    g: ClassGraph,
    ii: int,
    selected: Map<usize, (usize, i32)>,
    s: int,
    at: int,
    n: nat,
) -> int {
    added(
        Seq::new(
            n,
            |c: int|
                if selected.contains_key(g.classes@[c].id) {
                    let (j, t) = selected[g.classes@[c].id];
                    units_of(g.classes@[c].nodes@[j as int].rt@, ii, t as int, s, at)
                } else {
                    0
                },
        ),
    )
}

/// A schedule is a selection of nodes, one of each of some classes of the graph, that has the
/// classes of the roots, where everything runs after its operands and no more is used than there is.
pub open spec fn is_plain_schedule(
    g: ClassGraph,
    limits: Seq<i32>,
    ii: int,
    roots: Seq<usize>,
    end: int,
    selected: Map<usize, (usize, i32)>,
) -> bool {
    &&& forall|id: usize| #[trigger]
        selected.contains_key(id) ==> exists|c: int|
            0 <= c < g.classes@.len() && (#[trigger] g.classes@[c]).id == id
    &&& forall|i: int|
        0 <= i < roots.len() ==> selected.contains_key(g.leaders@[(#[trigger] roots[i]) as int])
    &&& forall|c: int|
        0 <= c < g.classes@.len() && selected.contains_key((#[trigger] g.classes@[c]).id)
            ==> runs_after_its_operands(g, ii, end, selected, c)
    &&& forall|s: int, at: int|
        0 <= s < limits.len() && 0 <= at < ii ==> #[trigger] units_used(
            g,
            ii,
            selected,
            s,
            at,
            g.classes@.len(),
        ) <= limits[s]
}

proof fn occupied_is_units(rt: Seq<Vec<i32>>, ii: int, from: int, s: int, at: int, n: nat)
    requires
        n <= rt.len(),
        0 <= s,
    ensures
        occupied(rt, ii, from, s, at, n) == added(
            Seq::new(
                n,
                |r: int|
                    if (from + r) % ii == at && s < rt[r]@.len() {
                        rt[r]@[s] as int
                    } else {
                        0
                    },
            ),
        ),
    decreases n,
{
    reveal_with_fuel(Seq::fold_left, 2);
    let used = |r: int|
        if (from + r) % ii == at && s < rt[r]@.len() {
            rt[r]@[s] as int
        } else {
            0
        };
    if n > 0 {
        occupied_is_units(rt, ii, from, s, at, (n - 1) as nat);
        assert(Seq::new(n, used).drop_last() =~= Seq::new((n - 1) as nat, used));
    }
}

proof fn demand_is_units(
    g: ClassGraph,
    ii: int,
    selected: Map<usize, (usize, i32)>,
    s: int,
    at: int,
    n: nat,
)
    requires
        0 <= s,
    ensures
        demand(g, ii, selected, s, at, n) == units_used(g, ii, selected, s, at, n),
    decreases n,
{
    reveal_with_fuel(Seq::fold_left, 2);
    let used = |c: int|
        if selected.contains_key(g.classes@[c].id) {
            let (j, t) = selected[g.classes@[c].id];
            units_of(g.classes@[c].nodes@[j as int].rt@, ii, t as int, s, at)
        } else {
            0
        };
    if n > 0 {
        demand_is_units(g, ii, selected, s, at, (n - 1) as nat);
        assert(Seq::new(n, used).drop_last() =~= Seq::new((n - 1) as nat, used));
        let c = n - 1;
        if chosen(g, selected, c) {
            let rt = tile(g, selected, c).rt@;
            occupied_is_units(rt, ii, start(g, selected, c), s, at, rt.len());
        }
    }
}

/// What a schedule is, field by field.
pub proof fn what_a_schedule_is(
    g: ClassGraph,
    limits: Seq<i32>,
    ii: int,
    roots: Seq<usize>,
    end: int,
    selected: Map<usize, (usize, i32)>,
)
    requires
        g.wf(),
        forall|i: int| 0 <= i < roots.len() ==> (#[trigger] roots[i]) < g.leaders@.len(),
    ensures
        is_schedule(g, limits, ii, roots, end, selected) <==> is_plain_schedule(
            g,
            limits,
            ii,
            roots,
            end,
            selected,
        ),
{
    assert forall|id: usize| id < g.leaders@.len() implies #[trigger] chosen(
        g,
        selected,
        g.class_index(id),
    ) == selected.contains_key(g.leaders@[id as int]) && start(g, selected, g.class_index(id))
        == selected[g.leaders@[id as int]].1 by {
        g.class_index_is_unique(id, 0);
    }
    assert forall|s: int, at: int| 0 <= s implies #[trigger] units_used(
        g,
        ii,
        selected,
        s,
        at,
        g.classes@.len(),
    ) == demand(g, ii, selected, s, at, g.classes@.len()) by {
        demand_is_units(g, ii, selected, s, at, g.classes@.len());
    }
    if is_schedule(g, limits, ii, roots, end, selected) {
        assert forall|id: usize| #[trigger] selected.contains_key(id) implies exists|c: int|
            0 <= c < g.classes@.len() && (#[trigger] g.classes@[c]).id == id by {
            assert(g.is_class(id));
        }
        assert forall|i: int| 0 <= i < roots.len() implies selected.contains_key(
            g.leaders@[(#[trigger] roots[i]) as int],
        ) by {
            assert(chosen(g, selected, g.class_index(roots[i])));
        }
        assert forall|c: int|
            0 <= c < g.classes@.len() && selected.contains_key(
                (#[trigger] g.classes@[c]).id,
            ) implies runs_after_its_operands(g, ii, end, selected, c) by {
            class_runs_after(g, limits, ii, roots, end, selected, c);
        }
        assert forall|s: int, at: int|
            0 <= s < limits.len() && 0 <= at < ii implies #[trigger] units_used(
            g,
            ii,
            selected,
            s,
            at,
            g.classes@.len(),
        ) <= limits[s] by {
            assert(demand(g, ii, selected, s, at, g.classes@.len()) <= limits[s]);
        }
    }
    if is_plain_schedule(g, limits, ii, roots, end, selected) {
        plain_is_schedule(g, limits, ii, roots, end, selected);
    }
}

proof fn class_runs_after(
    g: ClassGraph,
    limits: Seq<i32>,
    ii: int,
    roots: Seq<usize>,
    end: int,
    selected: Map<usize, (usize, i32)>,
    c: int,
)
    requires
        g.wf(),
        is_schedule(g, limits, ii, roots, end, selected),
        0 <= c < g.classes@.len(),
        selected.contains_key(g.classes@[c].id),
    ensures
        runs_after_its_operands(g, ii, end, selected, c),
{
    assert(chosen(g, selected, c));
    let node = tile(g, selected, c);
    let j = choice(g, selected, c);
    assert forall|k: int| 0 <= k < node.children@.len() implies selected.contains_key(
        g.leaders@[(#[trigger] node.children@[k]) as int],
    ) by {
        assert(g.nodes(c)[j].children@[k] < g.leaders@.len());
        assert(chosen(g, selected, g.class_index(tile(g, selected, c).children@[k])));
        g.class_index_is_unique(node.children@[k], 0);
    }
    assert forall|k: int|
        0 <= k < node.children@.len() && k < node.edge_data@.len() implies start(g, selected, c)
        >= selected[g.leaders@[(#[trigger] node.children@[k]) as int]].1 + node.edge_data@[k].0
        - ii * node.edge_data@[k].1 by {
        assert(g.nodes(c)[j].children@[k] < g.leaders@.len());
        let edge = edge_at(tile(g, selected, c), k);
        assert(edge.id == node.children@[k]);
        g.class_index_is_unique(node.children@[k], 0);
    }
}

proof fn plain_is_schedule(
    g: ClassGraph,
    limits: Seq<i32>,
    ii: int,
    roots: Seq<usize>,
    end: int,
    selected: Map<usize, (usize, i32)>,
)
    requires
        g.wf(),
        forall|i: int| 0 <= i < roots.len() ==> (#[trigger] roots[i]) < g.leaders@.len(),
        is_plain_schedule(g, limits, ii, roots, end, selected),
    ensures
        is_schedule(g, limits, ii, roots, end, selected),
{
    assert(runs_within(g, end, selected)) by {
        assert forall|id: usize| #[trigger] selected.contains_key(id) implies g.is_class(id) by {
            let c = choose|c: int|
                0 <= c < g.classes@.len() && (#[trigger] g.classes@[c]).id == id;
            assert(g.classes@[c].id == id);
        }
        assert forall|c: int|
            0 <= c < g.classes@.len() && #[trigger] chosen(g, selected, c) implies {
            &&& 0 <= choice(g, selected, c) < g.nodes(c).len()
            &&& 0 <= start(g, selected, c)
            &&& start(g, selected, c) + cost(tile(g, selected, c)) <= end
        } by {
            assert(runs_after_its_operands(g, ii, end, selected, c));
        }
    }
    assert(is_closed(g, roots, selected)) by {
        assert forall|i: int| 0 <= i < roots.len() implies chosen(
            g,
            selected,
            g.class_index(#[trigger] roots[i]),
        ) by {
            assert(selected.contains_key(g.leaders@[roots[i] as int]));
            g.class_index_is_unique(roots[i], 0);
        }
        assert forall|c: int, k: int|
            0 <= c < g.classes@.len() && chosen(g, selected, c) && 0 <= k < tile(
                g,
                selected,
                c,
            ).children@.len() implies chosen(
            g,
            selected,
            g.class_index(#[trigger] tile(g, selected, c).children@[k]),
        ) by {
            assert(runs_after_its_operands(g, ii, end, selected, c));
            let j = choice(g, selected, c);
            let child = g.nodes(c)[j].children@[k];
            assert(child < g.leaders@.len());
            assert(selected.contains_key(g.leaders@[child as int]));
            g.class_index_is_unique(child, 0);
        }
    }
    assert(keeps_dependences(g, ii, selected)) by {
        assert forall|c: int, k: int|
            0 <= c < g.classes@.len() && chosen(g, selected, c) && 0 <= k < edge_count(
                tile(g, selected, c),
            ) implies {
            let edge = #[trigger] edge_at(tile(g, selected, c), k);
            start(g, selected, c) >= start(g, selected, g.class_index(edge.id)) + lag(edge, ii)
        } by {
            assert(runs_after_its_operands(g, ii, end, selected, c));
            let j = choice(g, selected, c);
            let child = g.nodes(c)[j].children@[k];
            assert(child < g.leaders@.len());
            g.class_index_is_unique(child, 0);
        }
    }
    assert(keeps_limits(g, limits, ii, selected)) by {
        assert forall|s: int, at: int|
            0 <= s < limits.len() && 0 <= at < ii implies #[trigger] demand(
            g,
            ii,
            selected,
            s,
            at,
            g.classes@.len(),
        ) <= limits[s] by {
            demand_is_units(g, ii, selected, s, at, g.classes@.len());
            assert(units_used(g, ii, selected, s, at, g.classes@.len()) <= limits[s]);
        }
    }
}

/// Folding a table adds up, for each slot and resource, what the rows hold that are the slot modulo
/// the interval.
pub proof fn folding_adds_rows_up(rt: Seq<Vec<i32>>, ii: int, slot: int, col: int, n: nat)
    requires
        n <= rt.len(),
        0 <= col,
    ensures
        folded(rt, ii, slot, col, n) == added(
            Seq::new(
                n,
                |r: int|
                    if r % ii == slot && col < rt[r]@.len() {
                        rt[r]@[col] as int
                    } else {
                        0
                    },
            ),
        ),
    decreases n,
{
    reveal_with_fuel(Seq::fold_left, 2);
    let used = |r: int|
        if r % ii == slot && col < rt[r]@.len() {
            rt[r]@[col] as int
        } else {
            0
        };
    if n > 0 {
        folding_adds_rows_up(rt, ii, slot, col, (n - 1) as nat);
        assert(Seq::new(n, used).drop_last() =~= Seq::new((n - 1) as nat, used));
    }
}

/// A table that is no longer than the interval stays as it is: row `r` in slot `r`.
pub proof fn short_tables_are_not_folded(
    rt: Seq<Vec<i32>>,
    ii: int,
    slot: int,
    col: int,
    n: nat,
)
    requires
        n <= rt.len(),
        n <= ii,
        0 <= slot < ii,
        0 <= col,
    ensures
        folded(rt, ii, slot, col, n) == if slot < n && col < rt[slot]@.len() {
            rt[slot]@[col] as int
        } else {
            0
        },
    decreases n,
{
    if n > 0 {
        short_tables_are_not_folded(rt, ii, slot, col, (n - 1) as nat);
        lemma_small_mod((n - 1) as nat, ii as nat);
    }
}

/// The number of nodes of the classes.
pub open spec fn nodes_in(g: ClassGraph) -> int {
    added(Seq::new(g.classes@.len(), |c: int| g.classes@[c].nodes@.len() as int))
}

/// The numbers of a node are in the range of `i32`: how long it runs, how much later its dependences
/// let it start, and what its rows add up to in each slot of the interval, row by row.
pub open spec fn node_is_in_range(node: TileLang<usize>, n_resources: int, ii: int) -> bool {
    &&& node.rt@.len() <= 0x7fff_ffff
    &&& forall|k: int|
        0 <= k < node.children@.len() && k < node.edge_data@.len() ==> {
            let (d, delta) = #[trigger] node.edge_data@[k];
            -0x8000_0000 <= ii * delta <= 0x7fff_ffff && -0x8000_0000 <= d - ii * delta
                <= 0x7fff_ffff
        }
    &&& forall|n: nat, slot: int, col: int|
        n <= node.rt@.len() && 0 <= slot < ii && 0 <= col < n_resources ==> -0x8000_0000
            <= #[trigger] folded_rows(node.rt@, ii, slot, col, n) <= 0x7fff_ffff
}

/// What those of the first `n` rows that are `slot` modulo `ii` hold in a column.
pub open spec fn folded_rows(rt: Seq<Vec<i32>>, ii: int, slot: int, col: int, n: nat) -> int {
    added(
        Seq::new(
            n,
            |r: int|
                if r % ii == slot && col < rt[r]@.len() {
                    rt[r]@[col] as int
                } else {
                    0
                },
        ),
    )
}

/// What it takes for a graph to be accepted: the interval, the number of columns and the numbers of
/// every node are in range.
pub proof fn what_fits(g: ClassGraph, n_resources: int, ii: int)
    requires
        0 < ii,
    ensures
        fits(g, n_resources, ii) <==> {
            &&& ii <= 0x7fff_ffff
            &&& 3 * g.classes@.len() + nodes_in(g) * (ii + 1) < usize::MAX
            &&& forall|c: int, j: int|
                0 <= c < g.classes@.len() && 0 <= j < g.classes@[c].nodes@.len()
                    ==> node_is_in_range(#[trigger] g.classes@[c].nodes@[j], n_resources, ii)
        },
{
    nodes_before_adds_up(g, g.classes@.len() as int);
    assert(last_col(g, ii) == 3 * g.classes@.len() + nodes_in(g) * (ii + 1));
    assert forall|node: TileLang<usize>| #[trigger]
        node_is_in_range(node, n_resources, ii) <==> node_fits(node, n_resources, ii) by {
        node_fits_in_range(node, n_resources, ii);
    }
    if fits(g, n_resources, ii) {
        assert forall|c: int, j: int|
            0 <= c < g.classes@.len() && 0 <= j < g.classes@[c].nodes@.len() implies node_is_in_range(
            #[trigger] g.classes@[c].nodes@[j],
            n_resources,
            ii,
        ) by {
            assert(node_fits(g.nodes(c)[j], n_resources, ii));
        }
    }
    if has_columns(g, ii) && forall|c: int, j: int|
        0 <= c < g.classes@.len() && 0 <= j < g.classes@[c].nodes@.len() ==> node_is_in_range(
            #[trigger] g.classes@[c].nodes@[j],
            n_resources,
            ii,
        ) {
        assert forall|c: int, j: int|
            0 <= c < g.classes@.len() && 0 <= j < g.nodes(c).len() implies node_fits(
            #[trigger] g.nodes(c)[j],
            n_resources,
            ii,
        ) by {
            assert(node_is_in_range(g.classes@[c].nodes@[j], n_resources, ii));
        }
    }
}

/// The nodes before a class are those of the classes before it.
pub proof fn nodes_before_adds_up(g: ClassGraph, n: int)
    requires
        0 <= n,
    ensures
        g.nodes_before(n) == added(
            Seq::new(n as nat, |c: int| g.classes@[c].nodes@.len() as int),
        ),
    decreases n,
{
    reveal_with_fuel(Seq::fold_left, 2);
    let counts = |c: int| g.classes@[c].nodes@.len() as int;
    if n > 0 {
        nodes_before_adds_up(g, n - 1);
        assert(Seq::new(n as nat, counts).drop_last() =~= Seq::new((n - 1) as nat, counts));
    }
}

proof fn node_fits_in_range(node: TileLang<usize>, n_resources: int, ii: int)
    ensures
        node_is_in_range(node, n_resources, ii) <==> node_fits(node, n_resources, ii),
{
    let rt = node.rt@;
    assert forall|n: nat, slot: int, col: int| n <= rt.len() && 0 <= col implies folded(
        rt,
        ii,
        slot,
        col,
        n,
    ) == #[trigger] folded_rows(rt, ii, slot, col, n) by {
        folding_adds_rows_up(rt, ii, slot, col, n);
    }
    if node_is_in_range(node, n_resources, ii) {
        assert(folds(rt, ii, n_resources)) by {
            assert forall|n: nat, slot: int, col: int|
                n <= rt.len() && 0 <= slot < ii && 0 <= col < n_resources implies i32::MIN
                <= #[trigger] folded(rt, ii, slot, col, n) <= i32::MAX by {
                assert(-0x8000_0000 <= folded_rows(rt, ii, slot, col, n) <= 0x7fff_ffff);
            }
        }
        assert forall|k: int| 0 <= k < edge_count(node) implies lag_fits(
            #[trigger] edge_at(node, k),
            ii,
        ) by {
            let _ = node.edge_data@[k];
        }
    }
    if node_fits(node, n_resources, ii) {
        assert forall|k: int|
            0 <= k < node.children@.len() && k < node.edge_data@.len() implies {
            let (d, delta) = #[trigger] node.edge_data@[k];
            -0x8000_0000 <= ii * delta <= 0x7fff_ffff && -0x8000_0000 <= d - ii * delta
                <= 0x7fff_ffff
        } by {
            assert(lag_fits(edge_at(node, k), ii));
        }
        assert forall|n: nat, slot: int, col: int|
            n <= rt.len() && 0 <= slot < ii && 0 <= col < n_resources implies -0x8000_0000
            <= #[trigger] folded_rows(rt, ii, slot, col, n) <= 0x7fff_ffff by {
            assert(i32::MIN <= folded(rt, ii, slot, col, n) <= i32::MAX);
        }
    }
}

} // verus!
