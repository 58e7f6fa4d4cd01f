//! How long classes last, and which operations are drawn.

use vstd::prelude::*;

use crate::collect::{
    all_edges, class_edges, durations, entry_duration, entry_node, entry_op, entry_ops,
    first_of_each, is_main_resource, lists, main_resource, main_resource_is_unique, node_edges,
    position, uses, Entry,
};
use crate::graph::ClassGraph;
use crate::lanes::OpView;
use crate::tile::{cell, edge_count};

verus! {

/// The dependence at position `k` of node `j` of the class at position `c` is on the class `id`.
pub open spec fn is_on(g: ClassGraph, c: int, j: int, k: int, id: usize) -> bool {
    &&& 0 <= c < g.classes@.len()
    &&& 0 <= j < g.classes@[c].nodes@.len()
    &&& 0 <= k < g.classes@[c].nodes@[j].children@.len()
    &&& k < g.classes@[c].nodes@[j].edge_data@.len()
    &&& g.leaders@[g.classes@[c].nodes@[j].children@[k] as int] == id
}

/// One place comes before another: at an earlier class, at an earlier node of the same class, or at
/// an earlier position of the same node.
pub open spec fn is_earlier(a: (int, int, int), b: (int, int, int)) -> bool {
    a.0 < b.0 || (a.0 == b.0 && (a.1 < b.1 || (a.1 == b.1 && a.2 < b.2)))
}

/// The first dependence on the class `id` is at position `k` of node `j` of the class at position
/// `c`.
pub open spec fn is_first_on(g: ClassGraph, c: int, j: int, k: int, id: usize) -> bool {
    &&& is_on(g, c, j, k, id)
    &&& forall|b: int, i: int, h: int| #[trigger]
        is_on(g, b, i, h, id) ==> !is_earlier((b, i, h), (c, j, k))
}

/// Something depends on the class `id`.
pub open spec fn is_needed(g: ClassGraph, id: usize) -> bool {
    exists|c: int, j: int, k: int| is_on(g, c, j, k, id)
}

proof fn firsts_of_both(a: Seq<(usize, i32)>, b: Seq<(usize, i32)>, id: usize)
    ensures
        first_of_each(a + b).contains_key(id) <==> first_of_each(a).contains_key(id)
            || first_of_each(b).contains_key(id),
        first_of_each(a).contains_key(id) ==> first_of_each(a + b)[id] == first_of_each(a)[id],
        !first_of_each(a).contains_key(id) && first_of_each(b).contains_key(id) ==> first_of_each(
            a + b,
        )[id] == first_of_each(b)[id],
    decreases b.len(),
{
    if b.len() == 0 {
        assert(a + b =~= a);
    } else {
        let front = b.drop_last();
        assert((a + b).drop_last() =~= a + front);
        assert((a + b).last() == b.last());
        firsts_of_both(a, front, id);
        firsts_of_both(a, front, b.last().0);
    }
}

/// The first dependence of the node on the class `id` is at position `k`.
spec fn is_first_of_node(g: ClassGraph, c: int, j: int, k: int, id: usize) -> bool {
    is_on(g, c, j, k, id) && forall|h: int| h < k ==> !#[trigger] is_on(g, c, j, h, id)
}

/// The first dependence of the nodes of a class on the class `id` is at position `k` of node `j`.
spec fn is_first_of_class(g: ClassGraph, c: int, j: int, k: int, id: usize) -> bool {
    &&& is_first_of_node(g, c, j, k, id)
    &&& forall|i: int, h: int| i < j ==> !#[trigger] is_on(g, c, i, h, id)
}

/// The first of the dependences of a node among its first `n` on the class.
proof fn firsts_of_node(g: ClassGraph, c: int, j: int, n: int, id: usize)
    requires
        0 <= c < g.classes@.len(),
        0 <= j < g.nodes(c).len(),
        0 <= n <= edge_count(g.nodes(c)[j]),
    ensures
        ({
            let firsts = first_of_each(node_edges(g, g.nodes(c)[j], n));
            &&& firsts.contains_key(id) <==> exists|k: int| k < n && #[trigger] is_on(g, c, j, k, id)
            &&& forall|k: int|
                k < n && #[trigger] is_first_of_node(g, c, j, k, id) ==> firsts[id]
                    == g.nodes(c)[j].edge_data@[k].0
        }),
    decreases n,
{
    let node = g.nodes(c)[j];
    let pairs = node_edges(g, node, n);
    if n > 0 {
        firsts_of_node(g, c, j, n - 1, id);
        assert(pairs.drop_last() =~= node_edges(g, node, n - 1));
        assert(pairs.last() == (
            g.leaders@[node.children@[n - 1] as int],
            node.edge_data@[n - 1].0,
        ));
        let rest = first_of_each(node_edges(g, node, n - 1));
        let firsts = first_of_each(pairs);
        if is_on(g, c, j, n - 1, id) {
            assert(firsts.contains_key(id));
        }
        assert forall|k: int|
            k < n && #[trigger] is_first_of_node(g, c, j, k, id) implies firsts[id]
            == node.edge_data@[k].0 by {
            assert(is_on(g, c, j, k, id));
            if k < n - 1 {
                assert(rest.contains_key(id));
            } else {
                assert(!rest.contains_key(id));
            }
        }
    }
}

/// The first of the dependences of the first `m` nodes of a class on the class.
proof fn firsts_of_class(g: ClassGraph, c: int, m: int, id: usize)
    requires
        0 <= c < g.classes@.len(),
        0 <= m <= g.nodes(c).len(),
    ensures
        ({
            let firsts = first_of_each(class_edges(g, c, m));
            &&& firsts.contains_key(id) <==> exists|j: int, k: int|
                j < m && #[trigger] is_on(g, c, j, k, id)
            &&& forall|j: int, k: int|
                j < m && #[trigger] is_first_of_class(g, c, j, k, id) ==> firsts[id] == g.nodes(
                    c,
                )[j].edge_data@[k].0
        }),
    decreases m,
{
    if m > 0 {
        firsts_of_class(g, c, m - 1, id);
        let node = g.nodes(c)[m - 1];
        let n = edge_count(node) as int;
        firsts_of_node(g, c, m - 1, n, id);
        let rest = class_edges(g, c, m - 1);
        let own = node_edges(g, node, n);
        firsts_of_both(rest, own, id);
        let firsts = first_of_each(class_edges(g, c, m));
        assert(class_edges(g, c, m) == rest + own);
        if first_of_each(own).contains_key(id) {
            let k = choose|k: int| k < n && #[trigger] is_on(g, c, m - 1, k, id);
            assert(is_on(g, c, m - 1, k, id));
        }
        if first_of_each(rest).contains_key(id) {
            let (j, k) = choose|j: int, k: int| j < m - 1 && #[trigger] is_on(g, c, j, k, id);
            assert(is_on(g, c, j, k, id));
        }
        if exists|j: int, k: int| j < m && #[trigger] is_on(g, c, j, k, id) {
            let (j, k) = choose|j: int, k: int| j < m && #[trigger] is_on(g, c, j, k, id);
            if j == m - 1 {
                assert(k < n && is_on(g, c, m - 1, k, id));
                assert(first_of_each(own).contains_key(id));
            } else {
                assert(first_of_each(rest).contains_key(id));
            }
        }
        assert forall|j: int, k: int|
            j < m && #[trigger] is_first_of_class(g, c, j, k, id) implies firsts[id] == g.nodes(
            c,
        )[j].edge_data@[k].0 by {
            assert(is_on(g, c, j, k, id));
            if j < m - 1 {
                assert(first_of_each(rest).contains_key(id));
            } else {
                assert(!first_of_each(rest).contains_key(id)) by {
                    if first_of_each(rest).contains_key(id) {
                        let (i, h) = choose|i: int, h: int|
                            i < m - 1 && #[trigger] is_on(g, c, i, h, id);
                        assert(is_on(g, c, i, h, id));
                    }
                }
                assert(k < n && is_first_of_node(g, c, m - 1, k, id));
                assert(first_of_each(own).contains_key(id));
            }
        }
    }
}

/// The first of the dependences of the first `n` classes on the class.
proof fn firsts_of_all(g: ClassGraph, n: int, id: usize)
    requires
        0 <= n <= g.classes@.len(),
    ensures
        ({
            let firsts = first_of_each(all_edges(g, n));
            &&& firsts.contains_key(id) <==> exists|c: int, j: int, k: int|
                c < n && #[trigger] is_on(g, c, j, k, id)
            &&& forall|c: int, j: int, k: int|
                c < n && #[trigger] is_first_on(g, c, j, k, id) ==> firsts[id] == g.nodes(
                    c,
                )[j].edge_data@[k].0
        }),
    decreases n,
{
    if n > 0 {
        firsts_of_all(g, n - 1, id);
        let m = g.nodes(n - 1).len() as int;
        firsts_of_class(g, n - 1, m, id);
        let rest = all_edges(g, n - 1);
        let own = class_edges(g, n - 1, m);
        firsts_of_both(rest, own, id);
        let firsts = first_of_each(all_edges(g, n));
        assert(all_edges(g, n) == rest + own);
        if first_of_each(own).contains_key(id) {
            let (j, k) = choose|j: int, k: int| j < m && #[trigger] is_on(g, n - 1, j, k, id);
            assert(is_on(g, n - 1, j, k, id));
        }
        if first_of_each(rest).contains_key(id) {
            let (c, j, k) = choose|c: int, j: int, k: int|
                c < n - 1 && #[trigger] is_on(g, c, j, k, id);
            assert(is_on(g, c, j, k, id));
        }
        if exists|c: int, j: int, k: int| c < n && #[trigger] is_on(g, c, j, k, id) {
            let (c, j, k) = choose|c: int, j: int, k: int|
                c < n && #[trigger] is_on(g, c, j, k, id);
            if c == n - 1 {
                assert(j < m && is_on(g, n - 1, j, k, id));
                assert(first_of_each(own).contains_key(id));
            } else {
                assert(first_of_each(rest).contains_key(id));
            }
        }
        assert forall|c: int, j: int, k: int|
            c < n && #[trigger] is_first_on(g, c, j, k, id) implies firsts[id] == g.nodes(
            c,
        )[j].edge_data@[k].0 by {
            assert(is_on(g, c, j, k, id));
            if c < n - 1 {
                assert(first_of_each(rest).contains_key(id));
            } else {
                assert(!first_of_each(rest).contains_key(id)) by {
                    if first_of_each(rest).contains_key(id) {
                        let (b, i, h) = choose|b: int, i: int, h: int|
                            b < n - 1 && #[trigger] is_on(g, b, i, h, id);
                        assert(is_earlier((b, i, h), (c, j, k)));
                    }
                }
                assert(j < m && is_on(g, n - 1, j, k, id));
                assert(first_of_each(own).contains_key(id));
                assert(is_first_of_class(g, n - 1, j, k, id)) by {
                    assert forall|h: int| h < k implies !#[trigger] is_on(g, n - 1, j, h, id) by {
                        if is_on(g, n - 1, j, h, id) {
                            assert(is_earlier((n - 1, j, h), (c, j, k)));
                        }
                    }
                    assert forall|i: int, h: int| i < j implies !#[trigger] is_on(
                        g,
                        n - 1,
                        i,
                        h,
                        id,
                    ) by {
                        if is_on(g, n - 1, i, h, id) {
                            assert(is_earlier((n - 1, i, h), (c, j, k)));
                        }
                    }
                }
            }
        }
    }
}

/// A class that something depends on lasts as long as the distance of the first dependence on it,
/// whatever the offset of that dependence is; no other class lasts.
pub proof fn classes_last_as_their_first_dependence_says(g: ClassGraph, id: usize)
    ensures
        durations(g).contains_key(id) <==> is_needed(g, id),
        forall|c: int, j: int, k: int| #[trigger]
            is_first_on(g, c, j, k, id) ==> durations(g)[id]
                == g.classes@[c].nodes@[j].edge_data@[k].0,
{
    let n = g.classes@.len() as int;
    firsts_of_all(g, n, id);
    if is_needed(g, id) {
        let (c, j, k) = choose|c: int, j: int, k: int| is_on(g, c, j, k, id);
        assert(c < n && is_on(g, c, j, k, id));
    }
    assert forall|c: int, j: int, k: int| #[trigger] is_first_on(
        g,
        c,
        j,
        k,
        id,
    ) implies durations(g)[id] == g.classes@[c].nodes@[j].edge_data@[k].0 by {
        assert(is_on(g, c, j, k, id));
    }
}

/// Some row has something in column `s`.
pub open spec fn has_units(rows: Seq<Vec<i32>>, s: int) -> bool {
    exists|r: int|
        0 <= r < rows.len() && s < (#[trigger] rows[r])@.len() && rows[r]@[s] != 0
}

/// `s` is the first of the `n` columns in which the rows have something; it is the first column of
/// all where they have nothing in any.
pub open spec fn is_first_with_units(rows: Seq<Vec<i32>>, n: int, s: int) -> bool {
    &&& forall|q: int| 0 <= q < s ==> !#[trigger] has_units(rows, q)
    &&& 0 <= s < n && has_units(rows, s) || s == 0 && forall|q: int|
        0 <= q < n ==> !#[trigger] has_units(rows, q)
}

/// The operation is the selected node of the class `id`: it has its name, starts in the cycle in
/// which the class starts, lasts as long as the class, and is on the first resource that the node
/// uses.
pub open spec fn is_drawn(
    g: ClassGraph,
    n_resources: int,
    duration: Map<usize, i32>,
    selected: Map<usize, (usize, i32)>,
    id: usize,
    op: OpView,
) -> bool {
    &&& selected.contains_key(id)
    &&& duration.contains_key(id)
    &&& duration[id] != 0
    &&& op.t == selected[id].1
    &&& op.d == duration[id]
    &&& forall|c: int|
        0 <= c < g.classes@.len() && (#[trigger] g.classes@[c]).id == id ==> {
            let node = g.classes@[c].nodes@[selected[id].0 as int];
            op.name == node.op@ && is_first_with_units(node.rt@, n_resources, op.resource)
        }
}

/// `ids` are those of the selected classes that last, each once, and the operations are theirs.
pub open spec fn are_drawn(
    g: ClassGraph,
    n_resources: int,
    duration: Map<usize, i32>,
    selected: Map<usize, (usize, i32)>,
    ids: Seq<usize>,
    ops: Seq<OpView>,
) -> bool {
    &&& ids.len() == ops.len()
    &&& ids.no_duplicates()
    &&& forall|x: int|
        0 <= x < ops.len() ==> is_drawn(
            g,
            n_resources,
            duration,
            selected,
            ids[x],
            #[trigger] ops[x],
        )
    &&& forall|id: usize| #[trigger]
        selected.contains_key(id) && duration.contains_key(id) && duration[id] != 0
            ==> ids.contains(id)
}

proof fn main_resource_is_first(rows: Seq<Vec<i32>>, n: int)
    requires
        0 <= n,
    ensures
        is_first_with_units(rows, n, main_resource(rows, n)),
{
    assert forall|s: int| 0 <= s implies #[trigger] has_units(rows, s) == uses(rows, s) by {
        if has_units(rows, s) {
            let r = choose|r: int|
                0 <= r < rows.len() && s < (#[trigger] rows[r])@.len() && rows[r]@[s] != 0;
            assert(cell(rows[r]@, s) != 0);
        }
        if uses(rows, s) {
            let r = choose|r: int| 0 <= r < rows.len() && cell(#[trigger] rows[r]@, s) != 0;
            assert(s < rows[r]@.len() && rows[r]@[s] != 0);
        }
    }
    let s = first_column(rows, n, 0);
    main_resource_is_unique(rows, n, s);
    assert forall|q: int| 0 <= q < s implies !#[trigger] has_units(rows, q) by {
        assert(!uses(rows, q));
    }
    if !uses(rows, s) {
        assert forall|q: int| 0 <= q < n implies !#[trigger] has_units(rows, q) by {
            assert(!uses(rows, q));
        }
    } else if !(0 <= s < n) {
        assert forall|q: int| 0 <= q < n implies !#[trigger] has_units(rows, q) by {
            assert(!uses(rows, q));
        }
    }
}

proof fn first_column(rows: Seq<Vec<i32>>, n: int, from: int) -> (s: int)
    requires
        0 <= from <= n,
        forall|q: int| 0 <= q < from ==> !#[trigger] uses(rows, q),
    ensures
        is_main_resource(rows, n, s),
        0 <= s,
        forall|q: int| 0 <= q < s ==> !#[trigger] uses(rows, q),
    decreases n - from,
{
    if from == n {
        0
    } else if uses(rows, from) {
        from
    } else {
        first_column(rows, n, from + 1)
    }
}

proof fn listed_are_drawn(
    g: ClassGraph,
    n_resources: int,
    duration: Map<usize, i32>,
    selected: Map<usize, (usize, i32)>,
    entries: Seq<Entry>,
) -> (ids: Seq<usize>)
    requires
        g.wf(),
        0 <= n_resources,
        forall|i: int|
            0 <= i < entries.len() ==> selected.contains_key((#[trigger] entries[i]).0)
                && selected[entries[i].0] == entries[i].1,
        forall|i: int, j: int|
            0 <= i < j < entries.len() ==> (#[trigger] entries[i]).0 != (#[trigger] entries[j]).0,
    ensures
        ({
            let ops = entry_ops(g, n_resources, duration, entries);
            &&& ids.len() == ops.len()
            &&& ids.no_duplicates()
            &&& forall|x: int|
                0 <= x < ops.len() ==> is_drawn(
                    g,
                    n_resources,
                    duration,
                    selected,
                    ids[x],
                    #[trigger] ops[x],
                )
            &&& forall|i: int|
                0 <= i < entries.len() && duration.contains_key((#[trigger] entries[i]).0)
                    && duration[entries[i].0] != 0 ==> ids.contains(entries[i].0)
            &&& forall|x: int|
                0 <= x < ids.len() ==> exists|i: int|
                    0 <= i < entries.len() && (#[trigger] entries[i]).0 == #[trigger] ids[x]
        }),
    decreases entries.len(),
{
    if entries.len() == 0 {
        seq![]
    } else {
        let front = entries.drop_last();
        assert forall|i: int| 0 <= i < front.len() implies selected.contains_key(
            (#[trigger] front[i]).0,
        ) && selected[front[i].0] == front[i].1 by {
            assert(front[i] == entries[i]);
        }
        assert forall|i: int, j: int| 0 <= i < j < front.len() implies (#[trigger] front[i]).0 != (
        #[trigger] front[j]).0 by {
            assert(front[i] == entries[i] && front[j] == entries[j]);
        }
        let rest = listed_are_drawn(g, n_resources, duration, selected, front);
        let before = entry_ops(g, n_resources, duration, front);
        let ops = entry_ops(g, n_resources, duration, entries);
        let entry = entries[entries.len() - 1];
        assert(entry == entries.last());
        let id = entry.0;
        let ids = if entry_duration(duration, entry) == 0 {
            rest
        } else {
            rest.push(id)
        };
        assert forall|x: int| 0 <= x < rest.len() implies #[trigger] rest[x] != id by {
            let i = choose|i: int|
                0 <= i < front.len() && (#[trigger] front[i]).0 == rest[x];
            assert(front[i] == entries[i]);
            assert(entries[i].0 != entries[entries.len() - 1].0);
        }
        assert forall|x: int| 0 <= x < ops.len() implies is_drawn(
            g,
            n_resources,
            duration,
            selected,
            ids[x],
            #[trigger] ops[x],
        ) by {
            if x < before.len() {
                assert(ops[x] == before[x]);
                assert(ids[x] == rest[x]);
            } else {
                entry_is_drawn(g, n_resources, duration, selected, entry);
                assert(ops[x] == entry_op(g, n_resources, duration, entry));
            }
        }
        assert forall|i: int|
            0 <= i < entries.len() && duration.contains_key((#[trigger] entries[i]).0)
                && duration[entries[i].0] != 0 implies ids.contains(entries[i].0) by {
            if i < front.len() {
                assert(front[i] == entries[i]);
                assert(rest.contains(front[i].0));
                let x = choose|x: int| 0 <= x < rest.len() && rest[x] == front[i].0;
                assert(ids[x] == front[i].0);
            } else {
                assert(ids[rest.len() as int] == id);
            }
        }
        assert forall|x: int| 0 <= x < ids.len() implies exists|i: int|
            0 <= i < entries.len() && (#[trigger] entries[i]).0 == #[trigger] ids[x] by {
            if x < rest.len() {
                assert(ids[x] == rest[x]);
                let i = choose|i: int|
                    0 <= i < front.len() && (#[trigger] front[i]).0 == rest[x];
                assert(entries[i] == front[i]);
            } else {
                assert(entries[entries.len() - 1].0 == ids[x]);
            }
        }
        ids
    }
}

proof fn entry_is_drawn(
    g: ClassGraph,
    n_resources: int,
    duration: Map<usize, i32>,
    selected: Map<usize, (usize, i32)>,
    entry: Entry,
)
    requires
        g.wf(),
        0 <= n_resources,
        selected.contains_key(entry.0),
        selected[entry.0] == entry.1,
        entry_duration(duration, entry) != 0,
    ensures
        is_drawn(
            g,
            n_resources,
            duration,
            selected,
            entry.0,
            entry_op(g, n_resources, duration, entry),
        ),
{
    let op = entry_op(g, n_resources, duration, entry);
    assert forall|c: int| 0 <= c < g.classes@.len() && (#[trigger] g.classes@[c]).id == entry.0 implies {
        let node = g.classes@[c].nodes@[selected[entry.0].0 as int];
        op.name == node.op@ && is_first_with_units(node.rt@, n_resources, op.resource)
    } by {
        let p = position(g, entry.0);
        assert(g.classes@[p].id == entry.0);
        assert(p == c) by {
            if p < c {
                assert(g.classes@[p].id != g.classes@[c].id);
            }
            if c < p {
                assert(g.classes@[c].id != g.classes@[p].id);
            }
        }
        assert(entry_node(g, entry) == g.classes@[c].nodes@[selected[entry.0].0 as int]);
        main_resource_is_first(entry_node(g, entry).rt@, n_resources);
    }
}

/// Of what is selected everything that lasts is drawn, once, and nothing else.
pub proof fn what_lasts_is_drawn(
    g: ClassGraph,
    n_resources: int,
    duration: Map<usize, i32>,
    selected: Map<usize, (usize, i32)>,
    entries: Seq<Entry>,
)
    requires
        g.wf(),
        0 <= n_resources,
        lists(entries, selected),
    ensures
        exists|ids: Seq<usize>|
            are_drawn(
                g,
                n_resources,
                duration,
                selected,
                ids,
                entry_ops(g, n_resources, duration, entries),
            ),
{
    let ids = listed_are_drawn(g, n_resources, duration, selected, entries);
    let ops = entry_ops(g, n_resources, duration, entries);
    assert forall|id: usize| #[trigger] selected.contains_key(id) && duration.contains_key(id)
        && duration[id] != 0 implies ids.contains(id) by {
        assert(entries.contains((id, selected[id])));
        let i = choose|i: int| 0 <= i < entries.len() && entries[i] == (id, selected[id]);
        assert(entries[i].0 == id);
    }
    assert(are_drawn(g, n_resources, duration, selected, ids, ops));
}

/// Entries are drawn one after the other: those of two lists are those of the first and then those
/// of the second.
pub proof fn entries_are_drawn_in_order(
    g: ClassGraph,
    n_resources: int,
    duration: Map<usize, i32>,
    a: Seq<Entry>,
    b: Seq<Entry>,
)
    ensures
        entry_ops(g, n_resources, duration, a + b) == entry_ops(g, n_resources, duration, a)
            + entry_ops(g, n_resources, duration, b),
    decreases b.len(),
{
    let before = entry_ops(g, n_resources, duration, a);
    if b.len() == 0 {
        assert(a + b =~= a);
        assert(before + entry_ops(g, n_resources, duration, b) =~= before);
    } else {
        assert((a + b).drop_last() =~= a + b.drop_last());
        assert((a + b).last() == b.last());
        entries_are_drawn_in_order(g, n_resources, duration, a, b.drop_last());
        assert(entry_ops(g, n_resources, duration, a + b) =~= before + entry_ops(
            g,
            n_resources,
            duration,
            b,
        ));
    }
}

} // verus!
