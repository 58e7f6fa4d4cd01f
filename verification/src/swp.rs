//! Scheduling problems in the `.swp` format.

use vstd::prelude::*;

use crate::number::in_i32;
use crate::spelling::{all_spelled, tokens, what_is_read_is_what_is_written};
use crate::text::same_text;
use crate::words::{integer, read_number, split_words, text_views, words};

verus! {

/// An operation that takes `cost` cycles on a resource.
#[derive(Debug)]
pub struct SwpNode {
    pub name: String,
    pub cost: usize,
    pub kind: usize,
}

/// A dependence of the operation at position `dst` on the one at position `src`.
#[derive(Debug)]
pub struct SwpEdge {
    pub src: usize,
    pub dst: usize,
    pub d: i32,
    pub delta: i32,
}

/// Operations, their dependences, and how many units the machine has of each resource.
#[derive(Debug)]
pub struct SwpProblem {
    pub resources: Vec<i32>,
    pub nodes: Vec<SwpNode>,
    pub edges: Vec<SwpEdge>,
}

/// An operation as mathematical values.
#[verifier::ext_equal]
pub struct SwpNodeView {
    pub name: Seq<char>,
    pub cost: int,
    pub kind: int,
}

/// A dependence as mathematical values.
#[verifier::ext_equal]
pub struct SwpEdgeView {
    pub src: int,
    pub dst: int,
    pub d: int,
    pub delta: int,
}

/// A problem as mathematical values.
#[verifier::ext_equal]
pub struct SwpProblemView {
    pub resources: Seq<int>,
    pub nodes: Seq<SwpNodeView>,
    pub edges: Seq<SwpEdgeView>,
}

impl View for SwpNode {
    type V = SwpNodeView;

    open spec fn view(&self) -> SwpNodeView {
        SwpNodeView { name: self.name@, cost: self.cost as int, kind: self.kind as int }
    }
}

impl View for SwpEdge {
    type V = SwpEdgeView;

    open spec fn view(&self) -> SwpEdgeView {
        SwpEdgeView {
            src: self.src as int,
            dst: self.dst as int,
            d: self.d as int,
            delta: self.delta as int,
        }
    }
}

impl View for SwpProblem {
    type V = SwpProblemView;

    open spec fn view(&self) -> SwpProblemView {
        SwpProblemView {
            resources: Seq::new(self.resources@.len(), |i: int| self.resources@[i] as int),
            nodes: Seq::new(self.nodes@.len(), |i: int| self.nodes@[i]@),
            edges: Seq::new(self.edges@.len(), |i: int| self.edges@[i]@),
        }
    }
}

/// The word stands for the number.
pub open spec fn reads(word: Seq<char>, value: int) -> bool {
    integer(word) == Some(value)
}

/// Where the operations start, of a problem with `s` resources.
pub open spec fn nodes_at(s: int) -> int {
    s + 4
}

/// Where the dependences start, of a problem with `s` resources and `n` operations.
pub open spec fn edges_at(s: int, n: int) -> int {
    s + 3 * n + 6
}

/// The words from position `at` on are those of an operation.
pub open spec fn reads_node(w: Seq<Seq<char>>, at: int, node: SwpNodeView) -> bool {
    &&& w[at] == node.name
    &&& reads(w[at + 1], node.cost)
    &&& reads(w[at + 2], node.kind)
}

/// The words from position `at` on are those of a dependence.
pub open spec fn reads_edge(w: Seq<Seq<char>>, at: int, edge: SwpEdgeView) -> bool {
    &&& reads(w[at], edge.src)
    &&& reads(w[at + 1], edge.dst)
    &&& reads(w[at + 2], edge.d)
    &&& reads(w[at + 3], edge.delta)
}

/// The words describe the problem: `R`, the number of resources and their units; `N`, the number
/// of operations and the name, the cost and the resource of each; `E`, the number of dependences
/// and the two operations, the distance and the iteration offset of each.
pub open spec fn describes(w: Seq<Seq<char>>, p: SwpProblemView) -> bool {
    let s = p.resources.len() as int;
    let n = p.nodes.len() as int;
    let m = p.edges.len() as int;
    &&& w.len() == edges_at(s, n) + 4 * m
    &&& w[0] == "R"@
    &&& reads(w[1], s)
    &&& forall|i: int| 0 <= i < s ==> reads(w[2 + i], #[trigger] p.resources[i])
    &&& w[s + 2] == "N"@
    &&& reads(w[s + 3], n)
    &&& forall|i: int| 0 <= i < n ==> reads_node(w, nodes_at(s) + 3 * i, #[trigger] p.nodes[i])
    &&& w[edges_at(s, n) - 2] == "E"@
    &&& reads(w[edges_at(s, n) - 1], m)
    &&& forall|i: int| 0 <= i < m ==> reads_edge(w, edges_at(s, n) + 4 * i, #[trigger] p.edges[i])
}

/// An operation takes no negative number of cycles, on a resource that there is.
pub open spec fn node_is_sound(node: SwpNodeView, s: int) -> bool {
    0 <= node.cost <= i32::MAX && 0 <= node.kind < s
}

/// A dependence is between operations that there are.
pub open spec fn edge_is_sound(edge: SwpEdgeView, n: int) -> bool {
    0 <= edge.src < n && 0 <= edge.dst < n && in_i32(edge.d) && in_i32(edge.delta)
}

/// Resources, operations and dependences are sound, and no two operations have the same name.
pub open spec fn is_sound(p: SwpProblemView) -> bool {
    &&& forall|i: int| 0 <= i < p.resources.len() ==> in_i32(#[trigger] p.resources[i])
    &&& forall|i: int|
        0 <= i < p.nodes.len() ==> node_is_sound(
            #[trigger] p.nodes[i],
            p.resources.len() as int,
        )
    &&& forall|i: int|
        0 <= i < p.edges.len() ==> edge_is_sound(#[trigger] p.edges[i], p.nodes.len() as int)
    &&& forall|i: int, j: int|
        0 <= i < j < p.nodes.len() ==> (#[trigger] p.nodes[i]).name != (#[trigger] p.nodes[j]).name
}

/// Words describe one problem at most.
pub proof fn description_is_unique(w: Seq<Seq<char>>, p: SwpProblemView, q: SwpProblemView)
    requires
        describes(w, p),
        describes(w, q),
    ensures
        p == q,
{
    assert(p.resources.len() == q.resources.len());
    assert(p.nodes.len() == q.nodes.len());
    assert(p.edges.len() == q.edges.len());
    let s = p.resources.len() as int;
    let n = p.nodes.len() as int;
    assert forall|i: int| 0 <= i < s implies p.resources[i] == q.resources[i] by {
        assert(reads(w[2 + i], p.resources[i]) && reads(w[2 + i], q.resources[i]));
    }
    assert forall|i: int| 0 <= i < n implies p.nodes[i] == q.nodes[i] by {
        let at = nodes_at(s) + 3 * i;
        assert(reads_node(w, at, p.nodes[i]) && reads_node(w, at, q.nodes[i]));
        assert(p.nodes[i] =~= q.nodes[i]);
    }
    assert forall|i: int| 0 <= i < p.edges.len() implies p.edges[i] == q.edges[i] by {
        let at = edges_at(s, n) + 4 * i;
        assert(reads_edge(w, at, p.edges[i]) && reads_edge(w, at, q.edges[i]));
        assert(p.edges[i] =~= q.edges[i]);
    }
    assert(p.resources =~= q.resources);
    assert(p.nodes =~= q.nodes);
    assert(p.edges =~= q.edges);
    assert(p =~= q);
}

/// Reads a number that is not negative and no larger than `most`.
fn read_count(word: &String, most: usize) -> (r: Option<usize>)
    ensures
        match r {
            Some(v) => reads(word@, v as int) && v <= most,
            None => forall|v: int| #[trigger] reads(word@, v) ==> !(0 <= v <= most),
        },
{
    match read_number(word.as_str(), most as u64) {
        Some(v) => if v >= 0 {
            Some(v as usize)
        } else {
            None
        },
        None => None,
    }
}

/// Reads a number in the range of `i32`.
fn read_i32(word: &String) -> (r: Option<i32>)
    ensures
        match r {
            Some(v) => reads(word@, v as int),
            None => forall|v: int| #[trigger] reads(word@, v) ==> !in_i32(v),
        },
{
    match read_number(word.as_str(), 0x8000_0000) {
        Some(v) => if v <= i32::MAX as i128 {
            Some(v as i32)
        } else {
            None
        },
        None => None,
    }
}

/// The words describe no sound problem.
pub open spec fn describes_none(w: Seq<Seq<char>>) -> bool {
    forall|q: SwpProblemView| #[trigger] describes(w, q) ==> !is_sound(q)
}

/// A problem that the words describe has `s` resources, `n` operations and `m` dependences.
spec fn sized(w: Seq<Seq<char>>, s: int, n: int, m: int) -> bool {
    &&& w.len() == edges_at(s, n) + 4 * m
    &&& 0 <= s
    &&& 0 <= n
    &&& 0 <= m
    &&& reads(w[1], s)
    &&& reads(w[s + 3], n)
    &&& reads(w[edges_at(s, n) - 1], m)
}

/// A problem has the sizes that the words give.
proof fn sizes_agree(w: Seq<Seq<char>>, s: int, n: int, m: int, q: SwpProblemView)
    requires
        sized(w, s, n, m),
        describes(w, q),
    ensures
        q.resources.len() == s,
        q.nodes.len() == n,
        q.edges.len() == m,
{
}

/// Reads the units of the resources.
fn read_resources(list: &Vec<String>, s: usize, n: Ghost<int>, m: Ghost<int>) -> (r: Option<
    Vec<i32>,
>)
    requires
        sized(text_views(list@), s as int, n@, m@),
    ensures
        match r {
            Some(v) => v@.len() == s && forall|i: int|
                0 <= i < s ==> reads(text_views(list@)[2 + i], (#[trigger] v@[i]) as int),
            None => describes_none(text_views(list@)),
        },
{
    let ghost w = text_views(list@);
    let length = list.len();
    let mut resources: Vec<i32> = Vec::new();
    let mut i: usize = 0;
    while i < s
        invariant
            i <= s,
            length == list@.len(),
            w == text_views(list@),
            sized(w, s as int, n@, m@),
            resources@.len() == i,
            forall|k: int| 0 <= k < i ==> reads(w[2 + k], (#[trigger] resources@[k]) as int),
        decreases s - i,
    {
        match read_i32(&list[i + 2]) {
            Some(v) => {
                resources.push(v);
            },
            None => {
                proof {
                    assert(w[2 + i] == list@[i + 2]@);
                    assert forall|q: SwpProblemView| #[trigger] describes(w, q) implies !is_sound(
                        q,
                    ) by {
                        sizes_agree(w, s as int, n@, m@, q);
                        assert(reads(w[2 + i], q.resources[i as int]));
                        assert(!in_i32(q.resources[i as int]));
                    }
                }
                return None;
            },
        }
        i = i + 1;
    }
    Some(resources)
}

/// Reads the operation at position `i`.
fn read_node(list: &Vec<String>, s: usize, n: usize, m: Ghost<int>, i: usize) -> (r: Option<SwpNode>)
    requires
        sized(text_views(list@), s as int, n as int, m@),
        i < n,
    ensures
        match r {
            Some(v) => reads_node(text_views(list@), nodes_at(s as int) + 3 * i, v@)
                && node_is_sound(v@, s as int),
            None => describes_none(text_views(list@)),
        },
{
    let ghost w = text_views(list@);
    let length = list.len();
    let at: usize = s + 4 + 3 * i;
    proof {
        assert(w[at as int] == list@[at as int]@);
        assert(w[at + 1] == list@[at + 1]@);
        assert(w[at + 2] == list@[at + 2]@);
        assert forall|q: SwpProblemView| #[trigger] describes(w, q) implies reads_node(
            w,
            at as int,
            q.nodes[i as int],
        ) && q.resources.len() == s && i < q.nodes.len() by {
            sizes_agree(w, s as int, n as int, m@, q);
        }
    }
    match (read_count(&list[at + 1], i32::MAX as usize), read_count(&list[at + 2], length)) {
        (Some(cost), Some(kind)) => {
            if kind >= s {
                proof {
                    assert forall|q: SwpProblemView| #[trigger] describes(w, q) implies !is_sound(
                        q,
                    ) by {
                        assert(!node_is_sound(q.nodes[i as int], s as int));
                    }
                }
                return None;
            }
            Some(SwpNode { name: list[at].clone(), cost, kind })
        },
        _ => {
            proof {
                assert forall|q: SwpProblemView| #[trigger] describes(w, q) implies !is_sound(
                    q,
                ) by {
                    let node = q.nodes[i as int];
                    assert(reads(w[at + 1], node.cost) && reads(w[at + 2], node.kind));
                    assert(!node_is_sound(node, s as int));
                }
            }
            None
        },
    }
}

/// Reads the operations.
fn read_nodes(list: &Vec<String>, s: usize, n: usize, m: Ghost<int>) -> (r: Option<Vec<SwpNode>>)
    requires
        sized(text_views(list@), s as int, n as int, m@),
    ensures
        match r {
            Some(v) => v@.len() == n && forall|i: int|
                0 <= i < n ==> reads_node(
                    text_views(list@),
                    nodes_at(s as int) + 3 * i,
                    (#[trigger] v@[i])@,
                ) && node_is_sound(v@[i]@, s as int),
            None => describes_none(text_views(list@)),
        },
{
    let ghost w = text_views(list@);
    let mut nodes: Vec<SwpNode> = Vec::new();
    let mut i: usize = 0;
    while i < n
        invariant
            i <= n,
            w == text_views(list@),
            sized(w, s as int, n as int, m@),
            nodes@.len() == i,
            forall|k: int|
                0 <= k < i ==> reads_node(w, nodes_at(s as int) + 3 * k, (#[trigger] nodes@[k])@)
                    && node_is_sound(nodes@[k]@, s as int),
        decreases n - i,
    {
        match read_node(list, s, n, m, i) {
            Some(node) => {
                nodes.push(node);
            },
            None => {
                return None;
            },
        }
        i = i + 1;
    }
    Some(nodes)
}

/// Reads the dependence at position `i`.
fn read_edge(list: &Vec<String>, s: usize, n: usize, m: usize, i: usize) -> (r: Option<SwpEdge>)
    requires
        sized(text_views(list@), s as int, n as int, m as int),
        i < m,
    ensures
        match r {
            Some(v) => reads_edge(text_views(list@), edges_at(s as int, n as int) + 4 * i, v@)
                && edge_is_sound(v@, n as int),
            None => describes_none(text_views(list@)),
        },
{
    let ghost w = text_views(list@);
    let length = list.len();
    let at: usize = s + 3 * n + 6 + 4 * i;
    proof {
        assert(w[at as int] == list@[at as int]@);
        assert(w[at + 1] == list@[at + 1]@);
        assert(w[at + 2] == list@[at + 2]@);
        assert(w[at + 3] == list@[at + 3]@);
        assert forall|q: SwpProblemView| #[trigger] describes(w, q) implies reads_edge(
            w,
            at as int,
            q.edges[i as int],
        ) && q.nodes.len() == n && i < q.edges.len() by {
            sizes_agree(w, s as int, n as int, m as int, q);
        }
    }
    let ends = (read_count(&list[at], length), read_count(&list[at + 1], length));
    let shifts = (read_i32(&list[at + 2]), read_i32(&list[at + 3]));
    if let ((Some(src), Some(dst)), (Some(d), Some(delta))) = (ends, shifts) {
        if src < n && dst < n {
            return Some(SwpEdge { src, dst, d, delta });
        }
    }
    proof {
        assert forall|q: SwpProblemView| #[trigger] describes(w, q) implies !is_sound(q) by {
            let edge = q.edges[i as int];
            assert(reads(w[at as int], edge.src) && reads(w[at + 1], edge.dst));
            assert(reads(w[at + 2], edge.d) && reads(w[at + 3], edge.delta));
            assert(!edge_is_sound(edge, n as int));
        }
    }
    None
}

/// Reads the dependences.
fn read_edges(list: &Vec<String>, s: usize, n: usize, m: usize) -> (r: Option<Vec<SwpEdge>>)
    requires
        sized(text_views(list@), s as int, n as int, m as int),
    ensures
        match r {
            Some(v) => v@.len() == m && forall|i: int|
                0 <= i < m ==> reads_edge(
                    text_views(list@),
                    edges_at(s as int, n as int) + 4 * i,
                    (#[trigger] v@[i])@,
                ) && edge_is_sound(v@[i]@, n as int),
            None => describes_none(text_views(list@)),
        },
{
    let ghost w = text_views(list@);
    let mut edges: Vec<SwpEdge> = Vec::new();
    let mut i: usize = 0;
    while i < m
        invariant
            i <= m,
            w == text_views(list@),
            sized(w, s as int, n as int, m as int),
            edges@.len() == i,
            forall|k: int|
                0 <= k < i ==> reads_edge(
                    w,
                    edges_at(s as int, n as int) + 4 * k,
                    (#[trigger] edges@[k])@,
                ) && edge_is_sound(edges@[k]@, n as int),
        decreases m - i,
    {
        match read_edge(list, s, n, m, i) {
            Some(edge) => {
                edges.push(edge);
            },
            None => {
                return None;
            },
        }
        i = i + 1;
    }
    Some(edges)
}

/// Whether no two operations have the same name.
fn have_distinct_names(nodes: &Vec<SwpNode>) -> (r: bool)
    ensures
        r == forall|i: int, j: int|
            0 <= i < j < nodes@.len() ==> (#[trigger] nodes@[i]).name@ != (
            #[trigger] nodes@[j]).name@,
{
    let n = nodes.len();
    let mut j: usize = 0;
    while j < n
        invariant
            j <= n,
            n == nodes@.len(),
            forall|a: int, b: int|
                0 <= a < b < j ==> (#[trigger] nodes@[a]).name@ != (#[trigger] nodes@[b]).name@,
        decreases n - j,
    {
        let mut i: usize = 0;
        while i < j
            invariant
                i <= j < n,
                n == nodes@.len(),
                forall|a: int, b: int|
                    0 <= a < b < j ==> (#[trigger] nodes@[a]).name@ != (
                    #[trigger] nodes@[b]).name@,
                forall|a: int|
                    0 <= a < i ==> (#[trigger] nodes@[a]).name@ != nodes@[j as int].name@,
            decreases j - i,
        {
            if nodes[i].name == nodes[j].name {
                assert(nodes@[i as int].name@ == nodes@[j as int].name@);
                return false;
            }
            i = i + 1;
        }
        j = j + 1;
    }
    true
}

/// The sizes that the words of a problem give, and its headings.
fn read_sizes(list: &Vec<String>) -> (r: Option<(usize, usize, usize)>)
    ensures
        match r {
            Some((s, n, m)) => {
                let w = text_views(list@);
                &&& sized(w, s as int, n as int, m as int)
                &&& w[0] == "R"@
                &&& w[s + 2] == "N"@
                &&& w[edges_at(s as int, n as int) - 2] == "E"@
            },
            None => describes_none(text_views(list@)),
        },
{
    let ghost w = text_views(list@);
    let length = list.len();
    if length < 6 || !same_text(list[0].as_str(), "R") {
        assert(length >= 6 ==> w[0] == list@[0]@);
        return None;
    }
    assert(w[0] == list@[0]@ && w[1] == list@[1]@);
    let s = match read_count(&list[1], length) {
        Some(s) => s,
        None => {
            assert forall|q: SwpProblemView| #[trigger] describes(w, q) implies !is_sound(q) by {
                assert(reads(w[1], q.resources.len() as int));
            }
            return None;
        },
    };
    if s > length - 6 {
        return None;
    }
    assert(w[s + 2] == list@[s + 2]@ && w[s + 3] == list@[s + 3]@);
    if !same_text(list[s + 2].as_str(), "N") {
        return None;
    }
    let n = match read_count(&list[s + 3], length) {
        Some(n) => n,
        None => {
            assert forall|q: SwpProblemView| #[trigger] describes(w, q) implies !is_sound(q) by {
                assert(q.resources.len() == s);
                assert(reads(w[s + 3], q.nodes.len() as int));
            }
            return None;
        },
    };
    if n > (length - 6 - s) / 3 {
        return None;
    }
    let at: usize = s + 3 * n + 6;
    assert(w[at - 2] == list@[at - 2]@ && w[at - 1] == list@[at - 1]@);
    if !same_text(list[at - 2].as_str(), "E") {
        return None;
    }
    let m = match read_count(&list[at - 1], length) {
        Some(m) => m,
        None => {
            assert forall|q: SwpProblemView| #[trigger] describes(w, q) implies !is_sound(q) by {
                assert(q.resources.len() == s);
                assert(q.nodes.len() == n);
                assert(reads(w[at - 1], q.edges.len() as int));
            }
            return None;
        },
    };
    let rest: usize = length - at;
    if rest % 4 != 0 || rest / 4 != m {
        return None;
    }
    Some((s, n, m))
}

/// Reads the words of a problem, or gives `None` when they describe none that is sound.
fn read_problem(list: &Vec<String>) -> (r: Option<SwpProblem>)
    ensures
        match r {
            Some(p) => describes(text_views(list@), p@) && is_sound(p@),
            None => describes_none(text_views(list@)),
        },
{
    let ghost w = text_views(list@);
    let (s, n, m) = match read_sizes(list) {
        Some(sizes) => sizes,
        None => {
            return None;
        },
    };
    let resources = match read_resources(list, s, Ghost(n as int), Ghost(m as int)) {
        Some(resources) => resources,
        None => {
            return None;
        },
    };
    let nodes = match read_nodes(list, s, n, Ghost(m as int)) {
        Some(nodes) => nodes,
        None => {
            return None;
        },
    };
    let edges = match read_edges(list, s, n, m) {
        Some(edges) => edges,
        None => {
            return None;
        },
    };
    let named = have_distinct_names(&nodes);
    let p = SwpProblem { resources, nodes, edges };
    proof {
        assert(describes(w, p@));
        if !named {
            assert forall|q: SwpProblemView| #[trigger] describes(w, q) implies !is_sound(q) by {
                description_is_unique(w, p@, q);
                let (i, j) = choose|i: int, j: int|
                    0 <= i < j < p.nodes@.len() && (#[trigger] p.nodes@[i]).name@ == (
                    #[trigger] p.nodes@[j]).name@;
                assert(q.nodes[i].name == q.nodes[j].name);
            }
        }
    }
    if named {
        Some(p)
    } else {
        None
    }
}

/// Reads a problem, or gives `None` when the text describes none that is sound: the words of the
/// text spell, one after the other, what is written of the problem.
pub fn parse(text: &str) -> (r: Option<SwpProblem>)
    ensures
        match r {
            Some(p) => describes(words(text@), p@) && is_sound(p@),
            None => describes_none(words(text@)),
        },
        match r {
            Some(p) => all_spelled(words(text@), tokens(p@)),
            None => forall|q: SwpProblemView| #[trigger]
                all_spelled(words(text@), tokens(q)) ==> !is_sound(q),
        },
{
    let list = split_words(text);
    let r = read_problem(&list);
    proof {
        let w = words(text@);
        match &r {
            Some(p) => {
                what_is_read_is_what_is_written(w, p@);
            },
            None => {
                assert forall|q: SwpProblemView| #[trigger]
                    all_spelled(w, tokens(q)) implies !is_sound(q) by {
                    what_is_read_is_what_is_written(w, q);
                }
            },
        }
    }
    r
}

} // verus!
