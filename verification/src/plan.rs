//! From a problem to its schedule.

use vstd::prelude::*;

use crate::arrange::arranged;
use crate::demands::{carries, graphs_carry_their_problems};
use crate::dep::{has_op, last_entry, DepGraph};
use crate::egraph::{classes_of, TileGraph};
use crate::extract::{is_outcome, SwpExtractor, SwpFailure, SwpSolution};
use crate::faithful::{classes_are_faithful, is_faithful};
use crate::graph::ClassGraph;
use crate::operations::{is_ordinary, operations_are_found, unfolds_into};
use crate::swp::{is_sound, SwpNodeView, SwpProblem, SwpProblemView};
use crate::tile::{copy_list, table_view, EdgeData, ResourceTable};

verus! {

/// What an operation occupies: one unit of its resource in each of its cycles.
pub open spec fn unit_rows(node: SwpNodeView, s: int) -> Seq<Seq<i32>> {
    Seq::new(
        node.cost as nat,
        |row: int| unit_row(node.kind, s),
    )
}

/// One unit of one of `s` resources.
pub open spec fn unit_row(kind: int, s: int) -> Seq<i32> {
    Seq::new(
        s as nat,
        |col: int|
            if col == kind {
                1i32
            } else {
                0i32
            },
    )
}

/// A dependence: on what, by how many cycles and over how many iterations.
pub type EdgeView = (Seq<char>, int, int);

/// The dependences of a list.
pub open spec fn edge_views(edges: Seq<EdgeData<&str>>) -> Seq<EdgeView> {
    Seq::new(edges.len(), |k: int| (edges[k].id@, edges[k].d as int, edges[k].delta as int))
}

/// The dependences of the operation at position `i` among the first `m`.
pub open spec fn incoming(p: SwpProblemView, i: int, m: int) -> Seq<EdgeView>
    decreases m,
{
    if m <= 0 {
        seq![]
    } else {
        let edge = p.edges[m - 1];
        let rest = incoming(p, i, m - 1);
        if edge.dst == i {
            rest.push((p.nodes[edge.src].name, edge.d, edge.delta))
        } else {
            rest
        }
    }
}

/// The dependence graph has the operations, dependences and resources of the problem.
pub open spec fn represents(p: SwpProblemView, dep: DepGraph) -> bool {
    &&& dep.wf()
    &&& dep.nodes@.len() == p.nodes.len()
    &&& forall|i: int| 0 <= i < p.nodes.len() ==> #[trigger] dep.name(i) == p.nodes[i].name
    &&& dep.rts@.len() == p.nodes.len()
    &&& forall|i: int| 0 <= i < p.nodes.len() ==> (#[trigger] dep.rts@[i]).0@ == p.nodes[i].name
    &&& dep.edges@.len() == p.nodes.len()
    &&& forall|i: int| 0 <= i < p.nodes.len() ==> (#[trigger] dep.edges@[i]).0@ == p.nodes[i].name
    &&& forall|i: int|
        0 <= i < p.nodes.len() ==> dep.table((#[trigger] p.nodes[i]).name) == unit_rows(
            p.nodes[i],
            p.resources.len() as int,
        )
    &&& forall|i: int|
        0 <= i < p.nodes.len() ==> edge_views(
            dep.in_edges((#[trigger] p.nodes[i]).name),
        ) == incoming(p, i, p.edges.len() as int)
    &&& dep.resource_limits@.len() == p.resources.len()
    &&& forall|s: int|
        0 <= s < p.resources.len() ==> #[trigger] dep.resource_limits@[s] == p.resources[s]
}

/// A list with one entry for each name has the entry of a name where the name is.
pub proof fn entry_is_at_its_name<T>(entries: Seq<(&str, T)>, p: SwpProblemView, i: int, n: nat)
    requires
        is_sound(p),
        entries.len() == p.nodes.len(),
        forall|k: int| 0 <= k < entries.len() ==> (#[trigger] entries[k]).0@ == p.nodes[k].name,
        0 <= i < n <= entries.len(),
    ensures
        last_entry(entries, p.nodes[i].name, n) == i,
    decreases n,
{
    assert(entries[n - 1].0@ == p.nodes[n - 1].name);
    if i < n - 1 {
        assert(p.nodes[i].name != p.nodes[n - 1].name);
        entry_is_at_its_name(entries, p, i, (n - 1) as nat);
    }
}

/// What an operation depends on is an operation.
proof fn incoming_is_known(p: SwpProblemView, i: int, m: int, k: int)
    requires
        is_sound(p),
        0 <= m <= p.edges.len(),
        0 <= k < incoming(p, i, m).len(),
    ensures
        exists|j: int| 0 <= j < p.nodes.len() && (#[trigger] p.nodes[j]).name == incoming(p, i, m)[k].0,
    decreases m,
{
    let edge = p.edges[m - 1];
    let rest = incoming(p, i, m - 1);
    if k < rest.len() {
        incoming_is_known(p, i, m - 1, k);
        assert(rest[k] == incoming(p, i, m)[k]);
    } else {
        assert(0 <= edge.src < p.nodes.len());
        assert(p.nodes[edge.src].name == incoming(p, i, m)[k].0);
    }
}

impl SwpProblem {
    /// What the operation at position `i` occupies.
    fn rows_of(&self, i: usize) -> (r: ResourceTable)
        requires
            i < self.nodes@.len(),
            is_sound(self@),
        ensures
            table_view(r@) == unit_rows(self@.nodes[i as int], self.resources@.len() as int),
    {
        let node = &self.nodes[i];
        let s = self.resources.len();
        assert(self@.nodes[i as int] == node@);
        let mut rows: ResourceTable = Vec::new();
        while rows.len() < node.cost
            invariant
                rows@.len() <= node.cost,
                s == self.resources@.len(),
                forall|k: int|
                    0 <= k < rows@.len() ==> (#[trigger] rows@[k])@ == unit_row(
                        node.kind as int,
                        s as int,
                    ),
            decreases node.cost - rows.len(),
        {
            let mut row: Vec<i32> = Vec::new();
            while row.len() < s
                invariant
                    row@.len() <= s,
                    forall|c: int|
                        0 <= c < row@.len() ==> #[trigger] row@[c] == unit_row(
                            node.kind as int,
                            s as int,
                        )[c],
                decreases s - row.len(),
            {
                let units: i32 = if row.len() == node.kind {
                    1
                } else {
                    0
                };
                row.push(units);
            }
            assert(row@ =~= unit_row(node.kind as int, s as int));
            rows.push(row);
        }
        assert(table_view(rows@) =~= unit_rows(node@, s as int));
        rows
    }

    /// The dependences of the operation at position `i`.
    fn edges_of(&self, i: usize) -> (r: Vec<EdgeData<&str>>)
        requires
            i < self.nodes@.len(),
            is_sound(self@),
        ensures
            edge_views(r@) == incoming(self@, i as int, self.edges@.len() as int),
    {
        let ghost p = self@;
        let mut edges: Vec<EdgeData<&str>> = Vec::new();
        let m = self.edges.len();
        let mut k: usize = 0;
        assert(edge_views(edges@) =~= incoming(p, i as int, 0));
        while k < m
            invariant
                k <= m,
                m == self.edges@.len(),
                p == self@,
                is_sound(p),
                edge_views(edges@) == incoming(p, i as int, k as int),
            decreases m - k,
        {
            let edge = &self.edges[k];
            assert(p.edges[k as int] == edge@);
            assert(0 <= p.edges[k as int].src < p.nodes.len());
            if edge.dst == i {
                let ghost before = edges@;
                let id = self.nodes[edge.src].name.as_str();
                edges.push(EdgeData { id, d: edge.d, delta: edge.delta });
                proof {
                    assert(p.nodes[edge.src as int].name == id@);
                    assert(edge_views(edges@) =~= edge_views(before).push(
                        (id@, edge.d as int, edge.delta as int),
                    ));
                }
            }
            k = k + 1;
        }
        edges
    }

    /// The dependence graph of the problem.
    pub fn dep_graph(&self) -> (r: DepGraph<'_>)
        requires
            is_sound(self@),
        ensures
            represents(self@, r),
            carries(*self, r),
    {
        let ghost p = self@;
        let n = self.nodes.len();
        let mut names: Vec<&str> = Vec::new();
        let mut rts: Vec<(&str, ResourceTable)> = Vec::new();
        let mut edges: Vec<(&str, Vec<EdgeData<&str>>)> = Vec::new();
        let mut i: usize = 0;
        while i < n
            invariant
                i <= n,
                n == self.nodes@.len(),
                p == self@,
                is_sound(p),
                names@.len() == i,
                rts@.len() == i,
                edges@.len() == i,
                forall|k: int| 0 <= k < i ==> (#[trigger] names@[k])@ == p.nodes[k].name,
                forall|k: int|
                    0 <= k < i ==> (#[trigger] rts@[k]).0@ == p.nodes[k].name && table_view(
                        rts@[k].1@,
                    ) == unit_rows(p.nodes[k], p.resources.len() as int),
                forall|k: int|
                    0 <= k < i ==> (#[trigger] edges@[k]).0@ == p.nodes[k].name && edge_views(
                        edges@[k].1@,
                    ) == incoming(p, k, p.edges.len() as int),
            decreases n - i,
        {
            let name = self.nodes[i].name.as_str();
            assert(p.nodes[i as int].name == name@);
            names.push(name);
            rts.push((name, self.rows_of(i)));
            edges.push((name, self.edges_of(i)));
            i = i + 1;
        }
        proof {
            assert forall|a: int, b: int| 0 <= a < b < names@.len() implies (
            #[trigger] names@[a])@ != (#[trigger] names@[b])@ by {
                assert(p.nodes[a].name != p.nodes[b].name);
            }
        }
        let r = DepGraph::new(names, rts, edges, copy_list(&self.resources));
        proof {
            assert forall|i: int| 0 <= i < p.nodes.len() implies #[trigger] r.name(i)
                == p.nodes[i].name by {
                assert(names@[i]@ == p.nodes[i].name);
            }
            assert forall|i: int| 0 <= i < p.nodes.len() implies r.table(
                (#[trigger] p.nodes[i]).name,
            ) == unit_rows(p.nodes[i], p.resources.len() as int) by {
                entry_is_at_its_name(rts@, p, i, n as nat);
                assert(rts@[i].0@ == p.nodes[i].name);
            }
            assert forall|i: int| 0 <= i < p.nodes.len() implies edge_views(
                r.in_edges((#[trigger] p.nodes[i]).name),
            ) == incoming(p, i, p.edges.len() as int) by {
                entry_is_at_its_name(edges@, p, i, n as nat);
                assert(edges@[i].0@ == p.nodes[i].name);
            }
            assert forall|i: int, k: int|
                0 <= i < r.nodes@.len() && 0 <= k < r.in_edges(r.name(i)).len() implies r.has(
                (#[trigger] r.in_edges(r.name(i))[k]).id@,
            ) by {
                assert(r.name(i) == p.nodes[i].name);
                let list = r.in_edges(r.name(i));
                assert(edge_views(list)[k].0 == list[k].id@);
                incoming_is_known(p, i, p.edges.len() as int, k);
                let j = choose|j: int|
                    0 <= j < p.nodes.len() && (#[trigger] p.nodes[j]).name == incoming(
                        p,
                        i,
                        p.edges.len() as int,
                    )[k].0;
                assert(r.name(j) == list[k].id@);
            }
            assert forall|s: int| 0 <= s < p.resources.len() implies #[trigger] r.resource_limits@[s]
                == p.resources[s] by {}
            assert(represents(p, r));
            graphs_carry_their_problems(*self, r);
        }
        r
    }
}

/// The classes that the dependence graph unfolds into, and the class of each of its operations.
pub open spec fn unfolds_with_roots(
    dep: DepGraph,
    g: TileGraph,
    ids: Seq<nat>,
    graph: ClassGraph,
    roots: Seq<usize>,
) -> bool {
    &&& unfolds_into(dep, g, ids, graph)
    &&& roots.len() == dep.nodes@.len()
    &&& forall|i: int| 0 <= i < roots.len() ==> #[trigger] roots[i] == ids[i]
}

/// The classes that a dependence graph unfolds into, and the class of each of its operations.
pub fn unfold(dep: &DepGraph) -> (r: (ClassGraph, Vec<usize>))
    requires
        dep.wf(),
        is_ordinary(*dep),
        2 * dep.nodes@.len() < u32::MAX,
    ensures
        r.0.wf(),
        is_faithful(*dep, r.0, r.1@),
        exists|g: TileGraph, ids: Seq<nat>| #[trigger]
            unfolds_with_roots(*dep, g, ids, r.0, r.1@),
{
    let g = dep.to_egraph();
    let graph = g.snapshot();
    let ghost ids = choose|ids: Seq<nat>| #[trigger] arranged(*dep, classes_of(g), ids);
    assert(unfolds_into(*dep, g, ids, graph));
    let n = dep.nodes.len();
    let mut roots: Vec<usize> = Vec::new();
    let mut i: usize = 0;
    while i < n
        invariant
            i <= n,
            n == dep.nodes@.len(),
            unfolds_into(*dep, g, ids, graph),
            roots@.len() == i,
            forall|k: int| 0 <= k < i ==> #[trigger] roots@[k] == ids[k],
        decreases n - i,
    {
        proof {
            operations_are_found(*dep, g, ids, graph, i as int);
            assert(dep.nodes@[i as int]@ == dep.name(i as int));
        }
        let root = dep.class_of(&graph, dep.nodes[i]);
        proof {
            let c = choose|c: int|
                0 <= c < graph.classes@.len() && #[trigger] has_op(graph, c, dep.name(i as int))
                    && graph.classes@[c].id == root;
            assert(graph.classes@[c].id == ids[i as int]);
        }
        roots.push(root);
        i = i + 1;
    }
    let r = (graph, roots);
    assert(unfolds_with_roots(*dep, g, ids, r.0, r.1@));
    proof {
        classes_are_faithful(*dep, g, ids, r.0, r.1@);
    }
    r
}

/// Schedules all operations of a dependence graph.
pub fn schedule_all(dep: &DepGraph) -> (r: Result<SwpSolution, SwpFailure>)
    requires
        dep.wf(),
        is_ordinary(*dep),
        2 * dep.nodes@.len() < u32::MAX,
    ensures
        exists|
            g: TileGraph,
            ids: Seq<nat>,
            graph: ClassGraph,
            roots: Seq<usize>,
            extractor: SwpExtractor,
        |
            #![trigger unfolds_with_roots(*dep, g, ids, graph, roots), is_outcome(extractor, roots, r)]
            unfolds_with_roots(*dep, g, ids, graph, roots) && extractor.graph() == graph
                && extractor.limits() == dep.resource_limits@ && is_outcome(extractor, roots, r),
{
    let (graph, roots) = unfold(dep);
    let extractor = SwpExtractor::new(&graph, &dep.resource_limits);
    let r = extractor.schedule(&roots);
    proof {
        let (g, ids) = choose|g: TileGraph, ids: Seq<nat>| #[trigger]
            unfolds_with_roots(*dep, g, ids, graph, roots@);
        assert(unfolds_with_roots(*dep, g, ids, graph, roots@));
        assert(is_outcome(extractor, roots@, r));
    }
    r
}

} // verus!
