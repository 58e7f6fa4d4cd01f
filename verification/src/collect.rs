//! The operations of a schedule.

use std::collections::HashMap;

use vstd::prelude::*;
use vstd::std_specs::iter::IteratorSpec;

use crate::extract::SwpSolution;
use crate::graph::ClassGraph;
use crate::lanes::{op_views, Op, OpView};
use crate::lasting::{
    are_drawn, classes_last_as_their_first_dependence_says, is_first_on, is_needed,
    what_lasts_is_drawn,
};
use crate::tile::{cell, edge_at, edge_count, TileLang};

verus! {

/// The class and the distance of each of the first `k` dependences of an operation.
pub open spec fn node_edges(g: ClassGraph, node: TileLang<usize>, k: int) -> Seq<(usize, i32)> {
    Seq::new(
        k as nat,
        |e: int| (g.leaders@[edge_at(node, e).id as int], edge_at(node, e).d),
    )
}

/// The class and the distance of each dependence of the first `j` nodes of a class.
pub open spec fn class_edges(g: ClassGraph, c: int, j: int) -> Seq<(usize, i32)>
    decreases j,
{
    if j <= 0 {
        seq![]
    } else {
        class_edges(g, c, j - 1) + node_edges(
            g,
            g.nodes(c)[j - 1],
            edge_count(g.nodes(c)[j - 1]) as int,
        )
    }
}

/// The class and the distance of each dependence in the first `c` classes.
pub open spec fn all_edges(g: ClassGraph, c: int) -> Seq<(usize, i32)>
    decreases c,
{
    if c <= 0 {
        seq![]
    } else {
        all_edges(g, c - 1) + class_edges(g, c - 1, g.nodes(c - 1).len() as int)
    }
}

/// For each class that the pairs name, the number of the first pair that names it.
pub open spec fn first_of_each(pairs: Seq<(usize, i32)>) -> Map<usize, i32>
    decreases pairs.len(),
{
    if pairs.len() == 0 {
        Map::empty()
    } else {
        let rest = first_of_each(pairs.drop_last());
        if rest.contains_key(pairs.last().0) {
            rest
        } else {
            rest.insert(pairs.last().0, pairs.last().1)
        }
    }
}

/// A class that something depends on lasts as long as the first dependence on it says.
pub open spec fn durations(g: ClassGraph) -> Map<usize, i32> {
    first_of_each(all_edges(g, g.classes@.len() as int))
}

/// The classes that pairs name first keep their numbers when more pairs come.
pub proof fn first_counts(pairs: Seq<(usize, i32)>, i: int)
    requires
        0 <= i < pairs.len(),
        forall|j: int| 0 <= j < i ==> (#[trigger] pairs[j]).0 != pairs[i].0,
    ensures
        first_of_each(pairs).contains_key(pairs[i].0),
        first_of_each(pairs)[pairs[i].0] == pairs[i].1,
    decreases pairs.len(),
{
    let front = pairs.drop_last();
    if i < front.len() {
        first_counts(front, i);
    } else {
        if first_of_each(front).contains_key(pairs[i].0) {
            named_by_a_pair(front, pairs[i].0);
            let j = choose|j: int| 0 <= j < front.len() && (#[trigger] front[j]).0 == pairs[i].0;
            assert(pairs[j].0 == pairs[i].0);
        }
    }
}

/// Only classes that pairs name have numbers.
pub proof fn named_by_a_pair(pairs: Seq<(usize, i32)>, id: usize)
    requires
        first_of_each(pairs).contains_key(id),
    ensures
        exists|j: int| 0 <= j < pairs.len() && (#[trigger] pairs[j]).0 == id,
    decreases pairs.len(),
{
    let front = pairs.drop_last();
    if first_of_each(front).contains_key(id) {
        named_by_a_pair(front, id);
        let j = choose|j: int| 0 <= j < front.len() && (#[trigger] front[j]).0 == id;
        assert(pairs[j].0 == id);
    } else {
        assert(pairs[pairs.len() - 1].0 == id);
    }
}

/// How long each class lasts that something depends on.
pub fn class_durations(egraph: &ClassGraph) -> (r: HashMap<usize, i32>)
    requires
        egraph.wf(),
    ensures
        r@ == durations(*egraph),
        forall|id: usize| #[trigger] r@.contains_key(id) <==> is_needed(*egraph, id),
        forall|c: int, j: int, k: int, id: usize| #[trigger]
            is_first_on(*egraph, c, j, k, id) ==> r@[id]
                == egraph.classes@[c].nodes@[j].edge_data@[k].0,
{
    let ghost g = *egraph;
    let mut duration: HashMap<usize, i32> = HashMap::new();
    let n = egraph.classes.len();
    let mut c: usize = 0;
    assert(duration@ =~= first_of_each(all_edges(g, 0)));
    while c < n
        invariant
            g == *egraph,
            g.wf(),
            n == g.classes@.len(),
            c <= n,
            duration@ == first_of_each(all_edges(g, c as int)),
        decreases n - c,
    {
        let ghost before = all_edges(g, c as int);
        let n_nodes = egraph.classes[c].nodes.len();
        let mut j: usize = 0;
        assert(before + class_edges(g, c as int, 0) =~= before);
        while j < n_nodes
            invariant
                g == *egraph,
                g.wf(),
                c < g.classes@.len(),
                n_nodes == g.nodes(c as int).len(),
                j <= n_nodes,
                duration@ == first_of_each(before + class_edges(g, c as int, j as int)),
            decreases n_nodes - j,
        {
            let node = &egraph.classes[c].nodes[j];
            let edges = node.edges();
            let ghost seen = before + class_edges(g, c as int, j as int);
            let n_edges = edges.len();
            let mut e: usize = 0;
            assert(seen + node_edges(g, *node, 0) =~= seen);
            while e < n_edges
                invariant
                    g == *egraph,
                    g.wf(),
                    c < g.classes@.len(),
                    j < g.nodes(c as int).len(),
                    *node == g.nodes(c as int)[j as int],
                    edges@ == Seq::new(edge_count(*node), |k: int| edge_at(*node, k)),
                    n_edges == edges@.len(),
                    e <= n_edges,
                    duration@ == first_of_each(seen + node_edges(g, *node, e as int)),
                decreases n_edges - e,
            {
                let edge = edges[e];
                assert(edge == edge_at(*node, e as int));
                assert(g.nodes(c as int)[j as int].children@[e as int] < g.leaders@.len());
                let id = egraph.find(edge.id);
                if !duration.contains_key(&id) {
                    duration.insert(id, edge.d);
                }
                proof {
                    let pairs = seen + node_edges(g, *node, e + 1);
                    assert(pairs.drop_last() =~= seen + node_edges(g, *node, e as int));
                    assert(pairs.last() == (id, edge.d));
                }
                e = e + 1;
            }
            proof {
                assert(before + class_edges(g, c as int, j + 1) =~= seen + node_edges(
                    g,
                    *node,
                    n_edges as int,
                ));
            }
            j = j + 1;
        }
        c = c + 1;
    }
    proof {
        assert forall|id: usize| #[trigger] duration@.contains_key(id) <==> is_needed(g, id) by {
            classes_last_as_their_first_dependence_says(g, id);
        }
        assert forall|c: int, j: int, k: int, id: usize| #[trigger] is_first_on(
            g,
            c,
            j,
            k,
            id,
        ) implies duration@[id] == g.classes@[c].nodes@[j].edge_data@[k].0 by {
            classes_last_as_their_first_dependence_says(g, id);
        }
    }
    duration
}

/// A class, the position of the node that is selected of it, and its start cycle.
pub type Entry = (usize, (usize, i32));

/// What the class of an entry is called, and what it occupies.
pub open spec fn entry_node(g: ClassGraph, entry: Entry) -> TileLang<usize> {
    g.nodes(position(g, entry.0))[entry.1.0 as int]
}

/// The position of the class that has the id.
pub open spec fn position(g: ClassGraph, id: usize) -> int {
    choose|c: int| 0 <= c < g.classes@.len() && (#[trigger] g.classes@[c]).id == id
}

/// How long the class of an entry lasts; one that nothing depends on takes no time.
pub open spec fn entry_duration(duration: Map<usize, i32>, entry: Entry) -> i32 {
    if duration.contains_key(entry.0) {
        duration[entry.0]
    } else {
        0
    }
}

/// Some row of the table has something in column `s`.
pub open spec fn uses(rt: Seq<Vec<i32>>, s: int) -> bool {
    exists|i: int| 0 <= i < rt.len() && cell(#[trigger] rt[i]@, s) != 0
}

/// `s` is the first of the first `n` columns in which the table has something, or the first column
/// when there is none.
pub open spec fn is_main_resource(rt: Seq<Vec<i32>>, n: int, s: int) -> bool {
    ||| 0 <= s < n && uses(rt, s) && forall|q: int| 0 <= q < s ==> !#[trigger] uses(rt, q)
    ||| s == 0 && forall|q: int| 0 <= q < n ==> !#[trigger] uses(rt, q)
}

/// The resource that the table mainly uses.
pub open spec fn main_resource(rt: Seq<Vec<i32>>, n: int) -> int {
    choose|s: int| is_main_resource(rt, n, s)
}

/// Row `i` is reached in the search for something in column `s`.
pub open spec fn reached(rt: Seq<Vec<i32>>, s: int, i: int) -> bool {
    &&& forall|q: int| 0 <= q < s ==> !#[trigger] uses(rt, q)
    &&& forall|h: int| 0 <= h < i ==> cell(#[trigger] rt[h]@, s) == 0
}

/// Rows are long enough for the search for the main resource.
pub open spec fn searchable(rt: Seq<Vec<i32>>, n: int) -> bool {
    forall|s: int, i: int|
        0 <= s < n && 0 <= i < rt.len() && #[trigger] reached(rt, s, i) ==> s < rt[i]@.len()
}

/// There is one main resource.
pub proof fn main_resource_is_unique(rt: Seq<Vec<i32>>, n: int, s: int)
    requires
        is_main_resource(rt, n, s),
    ensures
        main_resource(rt, n) == s,
{
    let m = main_resource(rt, n);
    assert(is_main_resource(rt, n, m));
    let _ = (uses(rt, s), uses(rt, m));
}

/// Where there are resources, the main resource is one of them.
pub proof fn main_resource_is_one(rt: Seq<Vec<i32>>, n: int)
    requires
        0 < n,
    ensures
        0 <= main_resource(rt, n) < n,
{
    let s = first_used(rt, n, 0);
    main_resource_is_unique(rt, n, s);
}

proof fn first_used(rt: Seq<Vec<i32>>, n: int, from: int) -> (s: int)
    requires
        0 <= from <= n,
        0 < n,
        forall|q: int| 0 <= q < from ==> !#[trigger] uses(rt, q),
    ensures
        is_main_resource(rt, n, s),
        0 <= s < n,
    decreases n - from,
{
    if from == n {
        0
    } else if uses(rt, from) {
        from
    } else {
        first_used(rt, n, from + 1)
    }
}

/// Finds the first column in which the table has something.
fn find_resource(rt: &Vec<Vec<i32>>, n_resources: usize) -> (r: usize)
    requires
        searchable(rt@, n_resources as int),
    ensures
        r == main_resource(rt@, n_resources as int),
{
    let n_rows = rt.len();
    let mut s: usize = 0;
    while s < n_resources
        invariant
            s <= n_resources,
            n_rows == rt@.len(),
            searchable(rt@, n_resources as int),
            forall|q: int| 0 <= q < s ==> !#[trigger] uses(rt@, q),
        decreases n_resources - s,
    {
        let mut i: usize = 0;
        while i < n_rows
            invariant
                s < n_resources,
                i <= n_rows,
                n_rows == rt@.len(),
                searchable(rt@, n_resources as int),
                forall|q: int| 0 <= q < s ==> !#[trigger] uses(rt@, q),
                forall|h: int| 0 <= h < i ==> cell(#[trigger] rt@[h]@, s as int) == 0,
            decreases n_rows - i,
        {
            assert(reached(rt@, s as int, i as int));
            if rt[i][s] != 0 {
                proof {
                    assert(cell(rt@[i as int]@, s as int) != 0);
                    assert(uses(rt@, s as int));
                    main_resource_is_unique(rt@, n_resources as int, s as int);
                }
                return s;
            }
            i = i + 1;
        }
        s = s + 1;
    }
    proof {
        main_resource_is_unique(rt@, n_resources as int, 0);
    }
    0
}

/// The entry names a node of a class, and what it mainly uses can be found if it takes time.
pub open spec fn entry_is_sound(
    g: ClassGraph,
    n_resources: int,
    duration: Map<usize, i32>,
    entry: Entry,
) -> bool {
    &&& g.is_class(entry.0)
    &&& entry.1.0 < g.nodes(position(g, entry.0)).len()
    &&& entry_duration(duration, entry) != 0 ==> searchable(entry_node(g, entry).rt@, n_resources)
}

/// The operation of an entry.
pub open spec fn entry_op(
    g: ClassGraph,
    n_resources: int,
    duration: Map<usize, i32>,
    entry: Entry,
) -> OpView {
    OpView {
        name: entry_node(g, entry).op@,
        t: entry.1.1 as int,
        d: entry_duration(duration, entry) as int,
        resource: main_resource(entry_node(g, entry).rt@, n_resources),
    }
}

/// The operations of the entries that take time.
pub open spec fn entry_ops(
    g: ClassGraph,
    n_resources: int,
    duration: Map<usize, i32>,
    entries: Seq<Entry>,
) -> Seq<OpView>
    decreases entries.len(),
{
    if entries.len() == 0 {
        seq![]
    } else {
        let rest = entry_ops(g, n_resources, duration, entries.drop_last());
        if entry_duration(duration, entries.last()) == 0 {
            rest
        } else {
            rest.push(entry_op(g, n_resources, duration, entries.last()))
        }
    }
}

/// Lists the operations of the entries, in their order, without those that take no time.
pub fn list_ops(
    egraph: &ClassGraph,
    n_resources: usize,
    entries: &[Entry],
    duration: &HashMap<usize, i32>,
) -> (r: Vec<Op>)
    requires
        egraph.wf(),
        forall|i: int|
            0 <= i < entries@.len() ==> entry_is_sound(
                *egraph,
                n_resources as int,
                duration@,
                #[trigger] entries@[i],
            ),
    ensures
        op_views(r@) == entry_ops(*egraph, n_resources as int, duration@, entries@),
{
    let ghost g = *egraph;
    let mut ops: Vec<Op> = Vec::new();
    let n = entries.len();
    let mut i: usize = 0;
    assert(op_views(ops@) =~= entry_ops(g, n_resources as int, duration@, entries@.take(0)));
    while i < n
        invariant
            i <= n,
            n == entries@.len(),
            g == *egraph,
            g.wf(),
            forall|i: int|
                0 <= i < entries@.len() ==> entry_is_sound(
                    *egraph,
                    n_resources as int,
                    duration@,
                    #[trigger] entries@[i],
                ),
            op_views(ops@) == entry_ops(
                g,
                n_resources as int,
                duration@,
                entries@.take(i as int),
            ),
        decreases n - i,
    {
        let ghost entry = entries@[i as int];
        let ghost before = ops@;
        let (id, (node_idx, t)) = entries[i];
        assert(entry_is_sound(g, n_resources as int, duration@, entry));
        proof {
            let c = position(g, id);
            assert(0 <= c < g.classes@.len() && g.classes@[c].id == id);
            g.class_index_is_unique(id, c);
        }
        let c = egraph.locate(id);
        let node = &egraph.classes[c].nodes[node_idx];
        assert(*node == entry_node(g, entry));
        let d: i32 = match duration.get(&id) {
            Some(d) => *d,
            None => 0,
        };
        proof {
            assert(entries@.take(i + 1).drop_last() =~= entries@.take(i as int));
            assert(entries@.take(i + 1).last() == entry);
        }
        if d != 0 {
            let resource = find_resource(&node.rt, n_resources);
            ops.push(Op { name: node.op.clone(), t, d, resource });
            proof {
                let added = ops@[before.len() as int];
                assert(added@ =~= entry_op(g, n_resources as int, duration@, entry));
                assert(op_views(ops@) =~= op_views(before).push(added@));
            }
        }
        i = i + 1;
    }
    assert(entries@.take(n as int) =~= entries@);
    ops
}

/// `entries` lists the selected classes, each once.
pub open spec fn lists(entries: Seq<Entry>, selected: Map<usize, (usize, i32)>) -> bool {
    &&& forall|i: int|
        0 <= i < entries.len() ==> selected.contains_key((#[trigger] entries[i]).0)
            && selected[entries[i].0] == entries[i].1
    &&& forall|i: int, j: int|
        0 <= i < j < entries.len() ==> (#[trigger] entries[i]).0 != (#[trigger] entries[j]).0
    &&& forall|id: usize| #[trigger]
        selected.contains_key(id) ==> entries.contains((id, selected[id]))
}

/// Lists what is selected, in some order.
fn list_entries(selected: &HashMap<usize, (usize, i32)>) -> (r: Vec<Entry>)
    ensures
        lists(r@, selected@),
{
    broadcast use vstd::std_specs::hash::group_hash_axioms;

    let walk = selected.iter();
    let ghost pairs = IteratorSpec::remaining(&walk);
    let mut entries: Vec<Entry> = Vec::new();
    for pair in it: walk
        invariant
            it.seq() == pairs,
            entries@.len() == it.index(),
            forall|i: int|
                0 <= i < entries@.len() ==> (#[trigger] entries@[i]).0 == *pairs[i].0
                    && entries@[i].1 == *pairs[i].1,
    {
        entries.push((*pair.0, *pair.1));
    }
    proof {
        assert forall|i: int| 0 <= i < entries@.len() implies selected@.contains_key(
            (#[trigger] entries@[i]).0,
        ) && selected@[entries@[i].0] == entries@[i].1 by {
            assert(selected@.contains_key(*pairs[i].0));
        }
        assert forall|i: int, j: int| 0 <= i < j < entries@.len() implies (
        #[trigger] entries@[i]).0 != (#[trigger] entries@[j]).0 by {
            assert(pairs[i] != pairs[j]);
        }
        assert forall|id: usize| #[trigger] selected@.contains_key(id) implies entries@.contains(
            (id, selected@[id]),
        ) by {
            let i = choose|i: int| 0 <= i < pairs.len() && pairs[i] == (&id, &selected@[id]);
            assert(entries@[i] == (id, selected@[id]));
        }
    }
    entries
}

/// The selected classes are sound entries.
pub open spec fn selection_is_sound(
    g: ClassGraph,
    n_resources: int,
    duration: Map<usize, i32>,
    selected: Map<usize, (usize, i32)>,
) -> bool {
    forall|id: usize| #[trigger]
        selected.contains_key(id) ==> entry_is_sound(
            g,
            n_resources,
            duration,
            (id, selected[id]),
        )
}

/// The operations of a schedule that take time, in some order.
pub fn collect_ops(
    egraph: &ClassGraph,
    n_resources: usize,
    sol: &SwpSolution,
    duration: &HashMap<usize, i32>,
) -> (r: Vec<Op>)
    requires
        egraph.wf(),
        selection_is_sound(*egraph, n_resources as int, duration@, sol.selected@),
    ensures
        exists|entries: Seq<Entry>| #[trigger]
            lists(entries, sol.selected@) && op_views(r@) == entry_ops(
                *egraph,
                n_resources as int,
                duration@,
                entries,
            ),
        exists|ids: Seq<usize>|
            are_drawn(
                *egraph,
                n_resources as int,
                duration@,
                sol.selected@,
                ids,
                op_views(r@),
            ),
{
    let entries = list_entries(&sol.selected);
    proof {
        assert forall|i: int| 0 <= i < entries@.len() implies entry_is_sound(
            *egraph,
            n_resources as int,
            duration@,
            #[trigger] entries@[i],
        ) by {
            assert(sol.selected@.contains_key(entries@[i].0));
            assert(entries@[i] == (entries@[i].0, sol.selected@[entries@[i].0]));
        }
        what_lasts_is_drawn(
            *egraph,
            n_resources as int,
            duration@,
            sol.selected@,
            entries@,
        );
    }
    list_ops(egraph, n_resources, &entries, duration)
}

} // verus!
