//! Which entries of a dependence graph count.

use vstd::prelude::*;

use crate::arrange::{absorbed, arranged, stands_in, stem, unfolded, unfolds_to, Classes};
use crate::dep::{last_entry, DepGraph};
use crate::egraph::TileView;
use crate::text::{is_phantom, unphantom};
use crate::tile::{table_view, EdgeData};

verus! {

/// The names of the operations.
pub open spec fn names(dep: DepGraph) -> Seq<Seq<char>> {
    Seq::new(dep.nodes@.len(), |i: int| dep.name(i))
}

/// The entries that have the name of an operation.
pub open spec fn own_entries<'a, T>(dep: DepGraph, entries: Seq<(&'a str, T)>) -> Seq<
    (&'a str, T),
> {
    entries.filter(|entry: (&str, T)| dep.has(entry.0@))
}

/// The names that the dependences are on, and their distances and iteration offsets.
pub open spec fn edges_view(edges: Seq<EdgeData<&str>>) -> Seq<(Seq<char>, i32, i32)> {
    Seq::new(edges.len(), |k: int| (edges[k].id@, edges[k].d, edges[k].delta))
}

/// The resource tables under the names of operations.
pub open spec fn own_tables(dep: DepGraph) -> Seq<(Seq<char>, Seq<Seq<i32>>)> {
    let own = own_entries(dep, dep.rts@);
    Seq::new(own.len(), |i: int| (own[i].0@, table_view(own[i].1@)))
}

/// The dependences under the names of operations.
pub open spec fn own_edges(dep: DepGraph) -> Seq<(Seq<char>, Seq<(Seq<char>, i32, i32)>)> {
    let own = own_entries(dep, dep.edges@);
    Seq::new(own.len(), |i: int| (own[i].0@, edges_view(own[i].1@)))
}

/// The two have the same operations, and the same entries under their names.
pub open spec fn agree(dep: DepGraph, other: DepGraph) -> bool {
    &&& names(dep) == names(other)
    &&& own_tables(dep) == own_tables(other)
    &&& own_edges(dep) == own_edges(other)
}

proof fn last_entry_of_prefix<T>(a: Seq<(&str, T)>, b: Seq<(&str, T)>, name: Seq<char>, n: nat)
    requires
        n <= a.len(),
        n <= b.len(),
        forall|i: int| 0 <= i < n ==> (#[trigger] a[i]).0@ == (#[trigger] b[i]).0@,
    ensures
        last_entry(a, name, n) == last_entry(b, name, n),
        -1 <= last_entry(a, name, n) < n,
    decreases n,
{
    if n > 0 {
        assert(a[n - 1].0@ == b[n - 1].0@);
        last_entry_of_prefix(a, b, name, (n - 1) as nat);
    }
}

/// The last entry with the name of an operation is the last of those that have such names.
proof fn last_entry_is_own<T>(dep: DepGraph, entries: Seq<(&str, T)>, name: Seq<char>)
    requires
        dep.has(name),
    ensures
        ({
            let own = own_entries(dep, entries);
            let i = last_entry(entries, name, entries.len());
            let k = last_entry(own, name, own.len());
            &&& i < entries.len() && k < own.len()
            &&& i < 0 <==> k < 0
            &&& i >= 0 ==> entries[i] == own[k]
        }),
    decreases entries.len(),
{
    reveal(Seq::filter);
    if entries.len() > 0 {
        let rest = entries.drop_last();
        let own_rest = own_entries(dep, rest);
        let own = own_entries(dep, entries);
        last_entry_is_own(dep, rest, name);
        last_entry_of_prefix(rest, entries, name, rest.len());
        if dep.has(entries.last().0@) {
            assert(own == own_rest.push(entries.last()));
            last_entry_of_prefix(own_rest, own, name, own_rest.len());
        } else {
            assert(own == own_rest);
        }
    }
}

/// What counts of an operation is under its name.
proof fn own_entries_count(dep: DepGraph, other: DepGraph, name: Seq<char>)
    requires
        agree(dep, other),
        dep.has(name),
    ensures
        other.has(name),
        dep.table(name) == other.table(name),
        edges_view(dep.in_edges(name)) == edges_view(other.in_edges(name)),
{
    same_names(dep, other);
    last_entry_is_own(dep, dep.rts@, name);
    last_entry_is_own(other, other.rts@, name);
    last_entry_is_own(dep, dep.edges@, name);
    last_entry_is_own(other, other.edges@, name);
    let a = own_entries(dep, dep.rts@);
    let b = own_entries(other, other.rts@);
    assert(own_tables(dep).len() == a.len() && own_tables(other).len() == b.len());
    assert forall|i: int| 0 <= i < a.len() implies (#[trigger] a[i]).0@ == (#[trigger] b[i]).0@
        && table_view(a[i].1@) == table_view(b[i].1@) by {
        assert(own_tables(dep)[i] == own_tables(other)[i]);
    }
    last_entry_of_prefix(a, b, name, a.len());
    let c = own_entries(dep, dep.edges@);
    let d = own_entries(other, other.edges@);
    assert(own_edges(dep).len() == c.len() && own_edges(other).len() == d.len());
    assert forall|i: int| 0 <= i < c.len() implies (#[trigger] c[i]).0@ == (#[trigger] d[i]).0@
        && edges_view(c[i].1@) == edges_view(d[i].1@) by {
        assert(own_edges(dep)[i] == own_edges(other)[i]);
    }
    last_entry_of_prefix(c, d, name, c.len());
}

proof fn same_names(dep: DepGraph, other: DepGraph)
    requires
        names(dep) == names(other),
    ensures
        dep.nodes@.len() == other.nodes@.len(),
        forall|i: int| 0 <= i < dep.nodes@.len() ==> #[trigger] dep.name(i) == other.name(i),
        forall|i: int| 0 <= i < dep.nodes@.len() ==> dep.name(i) == #[trigger] other.name(i),
        forall|name: Seq<char>| #[trigger] dep.has(name) <==> other.has(name),
{
    assert(names(dep).len() == dep.nodes@.len() && names(other).len() == other.nodes@.len());
    assert forall|i: int| 0 <= i < dep.nodes@.len() implies #[trigger] dep.name(i) == other.name(
        i,
    ) by {
        assert(names(dep)[i] == names(other)[i]);
    }
    assert forall|i: int| 0 <= i < dep.nodes@.len() implies dep.name(i) == #[trigger] other.name(
        i,
    ) by {
        assert(names(dep)[i] == names(other)[i]);
    }
}

/// The dependences of an operation that count are the same.
proof fn same_edges(dep: DepGraph, other: DepGraph, i: int)
    requires
        agree(dep, other),
        0 <= i < dep.nodes@.len(),
    ensures
        dep.in_edges(dep.name(i)).len() == other.in_edges(other.name(i)).len(),
        forall|k: int|
            0 <= k < dep.in_edges(dep.name(i)).len() ==> {
                let edge = #[trigger] dep.in_edges(dep.name(i))[k];
                let same = other.in_edges(other.name(i))[k];
                edge.id@ == same.id@ && edge.d == same.d && edge.delta == same.delta
            },
{
    same_names(dep, other);
    assert(dep.has(dep.name(i)));
    own_entries_count(dep, other, dep.name(i));
    let a = dep.in_edges(dep.name(i));
    let b = other.in_edges(other.name(i));
    assert(edges_view(a).len() == a.len() && edges_view(b).len() == b.len());
    assert forall|k: int| 0 <= k < a.len() implies ({
        let edge = #[trigger] a[k];
        let same = b[k];
        edge.id@ == same.id@ && edge.d == same.d && edge.delta == same.delta
    }) by {
        assert(edges_view(a)[k] == edges_view(b)[k]);
    }
}

proof fn wf_carries(dep: DepGraph, other: DepGraph)
    requires
        agree(dep, other),
        dep.wf(),
    ensures
        other.wf(),
{
    same_names(dep, other);
    assert forall|i: int, j: int| 0 <= i < j < other.nodes@.len() implies (
    #[trigger] other.nodes@[i])@ != (#[trigger] other.nodes@[j])@ by {
        assert(dep.name(i) == other.name(i) && dep.name(j) == other.name(j));
        assert(dep.nodes@[i]@ != dep.nodes@[j]@);
    }
    assert forall|i: int, k: int|
        0 <= i < other.nodes@.len() && 0 <= k < other.in_edges(other.name(i)).len()
            implies other.has((#[trigger] other.in_edges(other.name(i))[k]).id@) by {
        same_edges(dep, other, i);
        assert(dep.has(dep.in_edges(dep.name(i))[k].id@));
    }
}

proof fn absorbed_carries(dep: DepGraph, other: DepGraph, j: int)
    requires
        agree(dep, other),
        0 <= j < dep.nodes@.len(),
    ensures
        absorbed(dep, j) == absorbed(other, j),
{
    same_names(dep, other);
    same_edges(dep, other, j);
}

proof fn stem_carries(dep: DepGraph, other: DepGraph, name: Seq<char>)
    requires
        agree(dep, other),
    ensures
        stem(dep, name, dep.nodes@.len() as int) == stem(other, name, other.nodes@.len() as int),
    decreases name.len(),
{
    let n = dep.nodes@.len() as int;
    same_names(dep, other);
    assert forall|j: int| 0 <= j < n implies #[trigger] absorbed(dep, j) == absorbed(other, j) by {
        absorbed_carries(dep, other, j);
    }
    if stands_in(dep, name, n) {
        let j = choose|j: int|
            0 <= j < n && #[trigger] dep.name(j) == name && absorbed(dep, j);
        assert(other.name(j) == name && absorbed(other, j));
    }
    if stands_in(other, name, n) {
        let j = choose|j: int|
            0 <= j < n && #[trigger] other.name(j) == name && absorbed(other, j);
        assert(dep.name(j) == name && absorbed(dep, j));
    }
    if stands_in(dep, name, n) && unphantom(name).len() < name.len() {
        stem_carries(dep, other, unphantom(name));
    }
}

proof fn unfolded_carries(dep: DepGraph, other: DepGraph, ids: Seq<nat>, j: int)
    requires
        agree(dep, other),
        dep.wf(),
        0 <= j < dep.nodes@.len(),
    ensures
        unfolded(dep, ids, j) == unfolded(other, ids, j),
{
    wf_carries(dep, other);
    same_names(dep, other);
    same_edges(dep, other, j);
    assert(dep.has(dep.name(j)));
    own_entries_count(dep, other, dep.name(j));
    let edges = dep.in_edges(dep.name(j));
    let same = other.in_edges(other.name(j));
    assert forall|k: int| 0 <= k < edges.len() implies dep.place((#[trigger] edges[k]).id@)
        == other.place(same[k].id@) by {
        assert(dep.has(edges[k].id@));
        let p = dep.place(edges[k].id@);
        assert(dep.name(p) == edges[k].id@);
        other.place_is_unique(p);
    }
    assert(unfolded(dep, ids, j).children =~= unfolded(other, ids, j).children);
    assert(unfolded(dep, ids, j).edge_data =~= unfolded(other, ids, j).edge_data);
}

proof fn arranged_carries(dep: DepGraph, other: DepGraph, classes: Classes, ids: Seq<nat>)
    requires
        agree(dep, other),
        dep.wf(),
        arranged(dep, classes, ids),
    ensures
        arranged(other, classes, ids),
{
    let n = dep.nodes@.len();
    same_names(dep, other);
    assert forall|j: int| 0 <= j < n implies #[trigger] unfolded(dep, ids, j) == unfolded(
        other,
        ids,
        j,
    ) by {
        unfolded_carries(dep, other, ids, j);
    }
    assert forall|i: int, j: int| 0 <= i < n && 0 <= j < n implies (#[trigger] ids[i]
        == #[trigger] ids[j] <==> stem(other, other.name(i), n as int) == stem(
        other,
        other.name(j),
        n as int,
    )) by {
        stem_carries(dep, other, dep.name(i));
        stem_carries(dep, other, dep.name(j));
    }
    assert forall|id: nat, x: int|
        classes.contains_key(id) && 0 <= x < classes[id].len() implies unfolds_to(
        other,
        ids,
        id,
        #[trigger] classes[id][x],
    ) by {
        assert(unfolds_to(dep, ids, id, classes[id][x]));
    }
}

/// Entries under names that are not those of operations change nothing: a dependence graph with
/// other such entries unfolds whenever this one does, and into the same classes.
pub proof fn foreign_entries_change_nothing(dep: DepGraph, other: DepGraph)
    requires
        agree(dep, other),
    ensures
        dep.wf() <==> other.wf(),
        dep.wf() ==> forall|classes: Classes, ids: Seq<nat>| #[trigger]
            arranged(dep, classes, ids) <==> arranged(other, classes, ids),
{
    if dep.wf() {
        wf_carries(dep, other);
    }
    if other.wf() {
        wf_carries(other, dep);
        assert forall|classes: Classes, ids: Seq<nat>| #[trigger]
            arranged(dep, classes, ids) <==> arranged(other, classes, ids) by {
            if arranged(dep, classes, ids) {
                arranged_carries(dep, other, classes, ids);
            }
            if arranged(other, classes, ids) {
                arranged_carries(other, dep, classes, ids);
            }
        }
    }
}

/// The operation with other ids: where an operand is in the class `ids[i]`, it is in `others[i]`.
pub open spec fn renamed(ids: Seq<nat>, others: Seq<nat>, tile: TileView) -> TileView {
    TileView {
        children: Seq::new(
            tile.children.len(),
            |k: int|
                others[choose|i: int|
                    0 <= i < ids.len() && #[trigger] ids[i] == tile.children[k]],
        ),
        ..tile
    }
}

/// Dependence graphs that differ in entries under names that are not those of operations unfold
/// into the same classes up to ids: operations share a class in both or in neither, and a class
/// has the same operations in both.
pub proof fn classes_agree_up_to_ids(
    dep: DepGraph,
    other: DepGraph,
    classes: Classes,
    ids: Seq<nat>,
    other_classes: Classes,
    others: Seq<nat>,
)
    requires
        agree(dep, other),
        dep.wf(),
        arranged(dep, classes, ids),
        arranged(other, other_classes, others),
    ensures
        forall|i: int, j: int|
            0 <= i < dep.nodes@.len() && 0 <= j < dep.nodes@.len() ==> (#[trigger] ids[i]
                == #[trigger] ids[j] <==> others[i] == others[j]),
        forall|i: int, tile: TileView|
            0 <= i < dep.nodes@.len() && #[trigger] classes[ids[i]].contains(tile)
                ==> other_classes[others[i]].contains(renamed(ids, others, tile)),
        forall|i: int, tile: TileView|
            0 <= i < dep.nodes@.len() && #[trigger] other_classes[others[i]].contains(tile)
                ==> classes[ids[i]].contains(renamed(others, ids, tile)),
{
    let n = dep.nodes@.len();
    foreign_entries_change_nothing(dep, other);
    assert(arranged(dep, other_classes, others));
    assert forall|i: int, j: int| 0 <= i < n && 0 <= j < n implies (#[trigger] ids[i]
        == #[trigger] ids[j] <==> others[i] == others[j]) by {}
    assert forall|i: int, tile: TileView|
        0 <= i < n && #[trigger] classes[ids[i]].contains(tile)
            implies other_classes[others[i]].contains(renamed(ids, others, tile)) by {
        class_is_renamed(dep, classes, ids, other_classes, others, i, tile);
    }
    assert forall|i: int, tile: TileView|
        0 <= i < n && #[trigger] other_classes[others[i]].contains(tile)
            implies classes[ids[i]].contains(renamed(others, ids, tile)) by {
        class_is_renamed(dep, other_classes, others, classes, ids, i, tile);
    }
}

proof fn class_is_renamed(
    dep: DepGraph,
    classes: Classes,
    ids: Seq<nat>,
    other_classes: Classes,
    others: Seq<nat>,
    i: int,
    tile: TileView,
)
    requires
        dep.wf(),
        arranged(dep, classes, ids),
        arranged(dep, other_classes, others),
        0 <= i < dep.nodes@.len(),
        classes[ids[i]].contains(tile),
    ensures
        other_classes[others[i]].contains(renamed(ids, others, tile)),
{
    let n = dep.nodes@.len();
    let x = choose|x: int| 0 <= x < classes[ids[i]].len() && classes[ids[i]][x] == tile;
    assert(unfolds_to(dep, ids, ids[i], classes[ids[i]][x]));
    let j = choose|j: int|
        0 <= j < n && !is_phantom(dep.name(j)) && #[trigger] ids[j] == ids[i] && tile
            == unfolded(dep, ids, j);
    assert(others[j] == others[i]) by {
        assert(ids[i] == ids[j]);
    }
    let there = unfolded(dep, others, j);
    let here = renamed(ids, others, tile);
    let edges = dep.in_edges(dep.name(j));
    assert forall|k: int| 0 <= k < edges.len() implies here.children[k]
        == #[trigger] there.children[k] by {
        assert(dep.has(edges[k].id@));
        let p = dep.place(edges[k].id@);
        assert(0 <= p < n && dep.name(p) == edges[k].id@);
        assert(ids[p] == tile.children[k]);
        let q = choose|q: int| 0 <= q < ids.len() && #[trigger] ids[q] == tile.children[k];
        assert(ids[q] == ids[p]);
        assert(others[q] == others[p]);
    }
    assert(here.children =~= there.children);
    assert(here == there);
}

} // verus!
