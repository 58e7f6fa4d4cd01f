//! Dependence graphs over named operations.

use vstd::prelude::*;

use crate::arrange::{
    absorbed, absorbed_step, arranged, built, built_is_arranged, built_is_settled, entry_of_next,
    fresh_step, own_children_known, own_ids, placeholder, seed_step, seeded, seeded_is_built,
    unfolded,
};
use crate::egraph::{classes_of, explains, is_valid, joined, leaders_of, memo_of, merged, TileGraph};
use crate::graph::ClassGraph;
use crate::text::{phantom_name, same_text, unphantom};
use crate::tile::{copy_table, table_view, EdgeData, ResourceLimit, ResourceTable, TileLang};

verus! {

/// Named operations, what they occupy, and the dependences of each on others.
#[derive(Debug)]
pub struct DepGraph<'a> {
    pub nodes: Vec<&'a str>,
    /// Resource tables by name; of two with one name the later counts.
    pub rts: Vec<(&'a str, ResourceTable)>,
    /// Dependences by the name of the operation that has them; of two with one name the later
    /// counts.
    pub edges: Vec<(&'a str, Vec<EdgeData<&'a str>>)>,
    pub resource_limits: ResourceLimit,
}

/// No two of the names are the same.
pub open spec fn distinct(names: Seq<&str>) -> bool {
    forall|i: int, j: int|
        0 <= i < j < names.len() ==> (#[trigger] names[i])@ != (#[trigger] names[j])@
}

/// The position of the last of the first `n` entries that has the name, or `-1`.
pub open spec fn last_entry<T>(entries: Seq<(&str, T)>, name: Seq<char>, n: nat) -> int
    decreases n,
{
    if n == 0 {
        -1
    } else if entries[n - 1].0@ == name {
        n - 1
    } else {
        last_entry(entries, name, (n - 1) as nat)
    }
}

/// Finds the last entry that has the name.
fn find_entry<T>(entries: &Vec<(&str, T)>, name: &str) -> (r: Option<usize>)
    ensures
        match r {
            Some(i) => i < entries@.len() && i == last_entry(entries@, name@, entries@.len()),
            None => last_entry(entries@, name@, entries@.len()) == -1,
        },
{
    let mut i: usize = entries.len();
    while i > 0
        invariant
            i <= entries@.len(),
            last_entry(entries@, name@, entries@.len()) == last_entry(entries@, name@, i as nat),
        decreases i,
    {
        if same_text(entries[i - 1].0, name) {
            return Some(i - 1);
        }
        i = i - 1;
    }
    None
}

/// One of the nodes in the class at position `c` has the name.
pub open spec fn names_op(g: ClassGraph, c: int, name: Seq<char>) -> bool {
    exists|j: int|
        0 <= j < g.classes@[c].nodes@.len() && (#[trigger] g.classes@[c].nodes@[j]).op@ == name
}

/// Some node of the class at position `c` has the operator.
pub open spec fn has_op(g: ClassGraph, c: int, op: Seq<char>) -> bool {
    exists|j: int| 0 <= j < g.nodes(c).len() && (#[trigger] g.nodes(c)[j]).op@ == op
}

impl<'a> DepGraph<'a> {
    /// The names of the operations.
    pub open spec fn name(&self, i: int) -> Seq<char> {
        self.nodes@[i]@
    }

    /// An operation has the name.
    pub open spec fn has(&self, name: Seq<char>) -> bool {
        exists|i: int| 0 <= i < self.nodes@.len() && #[trigger] self.name(i) == name
    }

    /// The position of the operation that has the name.
    pub open spec fn place(&self, name: Seq<char>) -> int {
        choose|i: int| 0 <= i < self.nodes@.len() && #[trigger] self.name(i) == name
    }

    /// The dependences of the operation that has the name.
    pub open spec fn in_edges(&self, name: Seq<char>) -> Seq<EdgeData<&'a str>> {
        let i = last_entry(self.edges@, name, self.edges@.len());
        if i < 0 {
            seq![]
        } else {
            self.edges@[i].1@
        }
    }

    /// What the operation that has the name occupies.
    pub open spec fn table(&self, name: Seq<char>) -> Seq<Seq<i32>> {
        let i = last_entry(self.rts@, name, self.rts@.len());
        if i < 0 {
            seq![]
        } else {
            table_view(self.rts@[i].1@)
        }
    }

    /// Names are distinct, and operations depend on operations.
    pub open spec fn wf(&self) -> bool {
        &&& distinct(self.nodes@)
        &&& forall|i: int, k: int|
            0 <= i < self.nodes@.len() && 0 <= k < self.in_edges(self.name(i)).len() ==> self.has(
                (#[trigger] self.in_edges(self.name(i))[k]).id@,
            )
    }

    pub fn new(
        nodes: Vec<&'a str>,
        rts: Vec<(&'a str, ResourceTable)>,
        edges: Vec<(&'a str, Vec<EdgeData<&'a str>>)>,
        resource_limits: ResourceLimit,
    ) -> (r: Self)
        requires
            distinct(nodes@),
        ensures
            r.nodes == nodes,
            r.rts == rts,
            r.edges == edges,
            r.resource_limits == resource_limits,
    {
        DepGraph { nodes, rts, edges, resource_limits }
    }

    /// The id of the first class that has an operation with the operator.
    pub fn class_of(&self, egraph: &ClassGraph, op: &str) -> (r: usize)
        requires
            exists|c: int| 0 <= c < egraph.classes@.len() && #[trigger] has_op(*egraph, c, op@),
        ensures
            exists|c: int|
                0 <= c < egraph.classes@.len() && #[trigger] has_op(*egraph, c, op@)
                    && egraph.classes@[c].id == r && forall|b: int|
                    0 <= b < c ==> !#[trigger] has_op(*egraph, b, op@),
            exists|c: int|
                0 <= c < egraph.classes@.len() && (#[trigger] egraph.classes@[c]).id == r
                    && names_op(*egraph, c, op@) && forall|b: int, j: int|
                    0 <= b < c && 0 <= j < egraph.classes@[b].nodes@.len() ==> (
                    #[trigger] egraph.classes@[b].nodes@[j]).op@ != op@,
    {
        let n_classes = egraph.classes.len();
        let mut c: usize = 0;
        loop
            invariant
                n_classes == egraph.classes@.len(),
                c < n_classes,
                exists|c: int| 0 <= c < egraph.classes@.len() && #[trigger] has_op(*egraph, c, op@),
                forall|b: int| 0 <= b < c ==> !#[trigger] has_op(*egraph, b, op@),
            decreases egraph.classes@.len() - c,
        {
            let n = egraph.classes[c].nodes.len();
            let mut j: usize = 0;
            while j < n
                invariant
                    c < egraph.classes@.len(),
                    n == egraph.nodes(c as int).len(),
                    j <= n,
                    forall|b: int| 0 <= b < c ==> !#[trigger] has_op(*egraph, b, op@),
                    forall|i: int|
                        0 <= i < j ==> (#[trigger] egraph.nodes(c as int)[i]).op@ != op@,
                decreases n - j,
            {
                if same_text(egraph.classes[c].nodes[j].op.as_str(), op) {
                    assert(egraph.nodes(c as int)[j as int].op@ == op@);
                    assert(has_op(*egraph, c as int, op@));
                    proof {
                        assert forall|b: int, i: int|
                            0 <= b < c && 0 <= i < egraph.classes@[b].nodes@.len() implies (
                        #[trigger] egraph.classes@[b].nodes@[i]).op@ != op@ by {
                            assert(!has_op(*egraph, b, op@));
                            assert(egraph.nodes(b)[i].op@ != op@);
                        }
                        assert(egraph.classes@[c as int].nodes@[j as int].op@ == op@);
                        assert(names_op(*egraph, c as int, op@));
                    }
                    return egraph.classes[c].id;
                }
                j = j + 1;
            }
            assert(!has_op(*egraph, c as int, op@));
            c = c + 1;
        }
    }

    /// An e-graph that has a class for every operation, where an operation has the classes of
    /// those that it depends on as operands.
    pub fn to_egraph(&self) -> (r: TileGraph)
        requires
            self.wf(),
            2 * self.nodes@.len() < u32::MAX,
        ensures
            is_valid(r),
            exists|ids: Seq<nat>| #[trigger] arranged(*self, classes_of(r), ids),
    {
        let n = self.nodes.len();
        let mut g = TileGraph::empty();
        assert(leaders_of(g) =~= own_ids(0));
        let mut i: usize = 0;
        while i < n
            invariant
                n == self.nodes@.len(),
                distinct(self.nodes@),
                2 * n < u32::MAX,
                i <= n,
                is_valid(g),
                !explains(g),
                seeded(*self, i as int, classes_of(g), leaders_of(g), memo_of(g)),
            decreases n - i,
        {
            let tile = TileLang::leaf(phantom_name(self.nodes[i]));
            proof {
                assert(tile@ =~= placeholder(*self, i as int));
                seed_step(*self, i as int, classes_of(g), leaders_of(g), memo_of(g));
            }
            let id = g.add(tile);
            assert(id == i);
            i = i + 1;
        }
        proof {
            seeded_is_built(*self, classes_of(g), leaders_of(g), memo_of(g));
        }
        let mut m: usize = 0;
        while m < n
            invariant
                n == self.nodes@.len(),
                self.wf(),
                2 * n < u32::MAX,
                m <= n,
                !explains(g),
                built(*self, m as int, classes_of(g), leaders_of(g), memo_of(g)),
            decreases n - m,
        {
            let ghost before = g;
            let tile = self.tile_of(m);
            proof {
                own_children_known(*self, leaders_of(g), m as int);
                entry_of_next(*self, m as int, classes_of(g), leaders_of(g), memo_of(g));
            }
            let own = g.add(tile);
            let ghost between = g;
            let changed = g.union(m, own);
            proof {
                let p = leaders_of(between)[m as int];
                let q = leaders_of(between)[own as int];
                assert(classes_of(before).contains_key(leaders_of(before)[m as int]));
                if absorbed(*self, m as int) {
                    let t = self.place(unphantom(self.name(m as int)));
                    assert(classes_of(before).contains_key(leaders_of(before)[t]));
                    assert(q == leaders_of(before)[t]);
                }
                assert(changed);
                let (root, other) = if leaders_of(g) == merged(leaders_of(between), p, q) && joined(
                    classes_of(between),
                    classes_of(g),
                    p,
                    q,
                ) {
                    (p, q)
                } else {
                    (q, p)
                };
                if absorbed(*self, m as int) {
                    absorbed_step(
                        *self,
                        m as int,
                        classes_of(before),
                        leaders_of(before),
                        memo_of(before),
                        root,
                        other,
                        classes_of(g),
                    );
                } else {
                    fresh_step(
                        *self,
                        m as int,
                        classes_of(before),
                        leaders_of(before),
                        memo_of(before),
                        root,
                        other,
                        classes_of(g),
                    );
                }
            }
            m = m + 1;
        }
        let ghost whole = g;
        proof {
            built_is_settled(*self, n as int, classes_of(g), leaders_of(g), memo_of(g));
        }
        g.rebuild();
        let ghost tidy = g;
        g.drop_phantoms();
        proof {
            built_is_arranged(
                *self,
                classes_of(whole),
                leaders_of(whole),
                memo_of(whole),
                classes_of(tidy),
                classes_of(g),
            );
        }
        g
    }

    /// The operation at position `m` over the positions of the operations that it depends on.
    fn tile_of(&self, m: usize) -> (r: TileLang<usize>)
        requires
            self.wf(),
            m < self.nodes@.len(),
        ensures
            r@ == unfolded(*self, own_ids(self.nodes@.len()), m as int),
    {
        let name = self.nodes[m];
        let mut children: Vec<usize> = Vec::new();
        let mut edge_data: Vec<(i32, i32)> = Vec::new();
        if let Some(at) = find_entry(&self.edges, name) {
            let edges = &self.edges[at].1;
            let n = edges.len();
            let mut k: usize = 0;
            while k < n
                invariant
                    self.wf(),
                    m < self.nodes@.len(),
                    edges@ == self.in_edges(self.name(m as int)),
                    n == edges@.len(),
                    k <= n,
                    children@.len() == k,
                    edge_data@.len() == k,
                    forall|i: int|
                        0 <= i < k ==> #[trigger] children@[i] == self.place(edges@[i].id@),
                    forall|i: int|
                        0 <= i < k ==> #[trigger] edge_data@[i] == (edges@[i].d, edges@[i].delta),
                decreases n - k,
            {
                assert(self.has(self.in_edges(self.name(m as int))[k as int].id@));
                children.push(self.index_of(edges[k].id));
                edge_data.push((edges[k].d, edges[k].delta));
                k = k + 1;
            }
        }
        let mut rt: ResourceTable = Vec::new();
        if let Some(at) = find_entry(&self.rts, name) {
            rt = copy_table(&self.rts[at].1);
        }
        let r = TileLang::new(name.to_owned(), children, edge_data, rt);
        proof {
            let target = unfolded(*self, own_ids(self.nodes@.len()), m as int);
            let edges = self.in_edges(self.name(m as int));
            assert forall|k: int| 0 <= k < edges.len() implies r@.children[k]
                == #[trigger] target.children[k] by {
                assert(self.has(edges[k].id@));
                assert(children@[k] == self.place(edges[k].id@));
            }
            assert(r@.children =~= target.children);
            assert(r@.edge_data =~= target.edge_data);
            assert(r@.rt =~= target.rt);
            assert(r@ =~= target);
        }
        r
    }

    /// The position of the operation that has the name.
    fn index_of(&self, name: &str) -> (r: usize)
        requires
            distinct(self.nodes@),
            self.has(name@),
        ensures
            r == self.place(name@),
            r < self.nodes@.len(),
            self.name(r as int) == name@,
    {
        let n = self.nodes.len();
        let mut i: usize = 0;
        while !same_text(self.nodes[i], name)
            invariant
                n == self.nodes@.len(),
                i <= self.place(name@) < n,
                self.name(self.place(name@)) == name@,
            decreases n - i,
        {
            i = i + 1;
        }
        proof {
            self.place_is_unique(i as int);
        }
        i
    }

    /// A name has one position.
    pub proof fn place_is_unique(&self, i: int)
        requires
            distinct(self.nodes@),
            0 <= i < self.nodes@.len(),
        ensures
            self.has(self.name(i)),
            self.place(self.name(i)) == i,
    {
        let p = self.place(self.name(i));
        assert(self.name(i) == self.name(i));
        assert(self.has(self.name(i)));
        assert(self.nodes@[p]@ == self.nodes@[i]@);
    }
}

} // verus!
