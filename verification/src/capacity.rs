//! Whether the numbers of a graph fit the machine.

use vstd::prelude::*;

use crate::graph::ClassGraph;
use crate::model::{fits, has_columns, lag_fits, node_fits};
use crate::number::is_i32;
use crate::tile::{edge_at, edge_count, folded, folds, ResourceTable, TileLang};

verus! {

/// Whether one slot of one column of a folded table stays within the range of `i32`.
fn slot_folds(rt: &ResourceTable, ii: usize, slot: usize, col: usize) -> (r: bool)
    requires
        0 < ii,
    ensures
        r == forall|n: nat|
            n <= rt@.len() ==> i32::MIN <= #[trigger] folded(
                rt@,
                ii as int,
                slot as int,
                col as int,
                n,
            ) <= i32::MAX,
{
    let n = rt.len();
    let mut sum: i64 = 0;
    let mut row: usize = 0;
    while row < n
        invariant
            0 < ii,
            row <= n,
            n == rt@.len(),
            i32::MIN <= sum <= i32::MAX,
            sum == folded(rt@, ii as int, slot as int, col as int, row as nat),
            forall|m: nat|
                m <= row ==> i32::MIN <= #[trigger] folded(
                    rt@,
                    ii as int,
                    slot as int,
                    col as int,
                    m,
                ) <= i32::MAX,
        decreases n - row,
    {
        if row % ii == slot && col < rt[row].len() {
            sum = sum + rt[row][col] as i64;
        }
        row = row + 1;
        assert(sum == folded(rt@, ii as int, slot as int, col as int, row as nat));
        if !is_i32(sum) {
            return false;
        }
    }
    true
}

/// Whether folding a table stays within the range of `i32`.
fn table_folds(rt: &ResourceTable, ii: usize, n_resources: usize) -> (r: bool)
    requires
        0 < ii,
    ensures
        r == folds(rt@, ii as int, n_resources as int),
{
    let mut slot: usize = 0;
    while slot < ii
        invariant
            0 < ii,
            slot <= ii,
            forall|n: nat, q: int, col: int|
                n <= rt@.len() && 0 <= q < slot && 0 <= col < n_resources ==> i32::MIN
                    <= #[trigger] folded(rt@, ii as int, q, col, n) <= i32::MAX,
        decreases ii - slot,
    {
        let mut col: usize = 0;
        while col < n_resources
            invariant
                0 < ii,
                slot < ii,
                col <= n_resources,
                forall|n: nat, q: int, col: int|
                    n <= rt@.len() && 0 <= q < slot && 0 <= col < n_resources ==> i32::MIN
                        <= #[trigger] folded(rt@, ii as int, q, col, n) <= i32::MAX,
                forall|n: nat, p: int|
                    n <= rt@.len() && 0 <= p < col ==> i32::MIN <= #[trigger] folded(
                        rt@,
                        ii as int,
                        slot as int,
                        p,
                        n,
                    ) <= i32::MAX,
            decreases n_resources - col,
        {
            if !slot_folds(rt, ii, slot, col) {
                return false;
            }
            col = col + 1;
        }
        slot = slot + 1;
    }
    true
}

/// Whether the numbers of a node fit the machine.
fn fits_node(tile: &TileLang<usize>, n_resources: usize, ii: usize) -> (r: bool)
    requires
        0 < ii <= i32::MAX,
    ensures
        r == node_fits(*tile, n_resources as int, ii as int),
{
    if tile.rt.len() > i32::MAX as usize {
        return false;
    }
    let edges = tile.edges();
    let n = edges.len();
    let mut k: usize = 0;
    while k < n
        invariant
            0 < ii <= i32::MAX,
            n == edge_count(*tile),
            edges@ == Seq::new(edge_count(*tile), |k: int| edge_at(*tile, k)),
            k <= n,
            forall|i: int|
                0 <= i < k ==> lag_fits(#[trigger] edge_at(*tile, i), ii as int),
        decreases n - k,
    {
        let edge = edges[k];
        assert(edge == edge_at(*tile, k as int));
        assert(-0x8000_0000 * 0x8000_0000 <= ii * edge.delta <= 0x8000_0000 * 0x8000_0000)
            by (nonlinear_arith)
            requires
                0 <= ii <= 0x7fff_ffff,
                -0x8000_0000 <= edge.delta <= 0x7fff_ffff,
        ;
        let shift: i64 = ii as i64 * edge.delta as i64;
        assert(shift == (ii as int) * (edge.delta as int));
        if !is_i32(shift) || !is_i32(edge.d as i64 - shift) {
            assert(!lag_fits(edge_at(*tile, k as int), ii as int));
            return false;
        }
        k = k + 1;
    }
    table_folds(&tile.rt, ii, n_resources)
}

/// Whether there is a column for everything.
fn fits_columns(graph: &ClassGraph, ii: usize) -> (r: bool)
    requires
        0 < ii <= i32::MAX,
    ensures
        r == has_columns(*graph, ii as int),
{
    let n = graph.classes.len();
    let mut nodes: u128 = 0;
    let mut c: usize = 0;
    while c < n
        invariant
            c <= n,
            n == graph.classes@.len(),
            nodes == graph.nodes_before(c as int),
            nodes <= usize::MAX,
        decreases n - c,
    {
        nodes = nodes + graph.classes[c].nodes.len() as u128;
        c = c + 1;
        if nodes > usize::MAX as u128 {
            proof {
                nodes_only_grow(*graph, c as int, n as int);
                assert(graph.nodes_before(n as int) * (ii + 1) >= graph.nodes_before(n as int))
                    by (nonlinear_arith)
                    requires
                        0 <= ii,
                ;
            }
            return false;
        }
    }
    assert(0 <= nodes * (ii + 1) <= 0xffff_ffff_ffff_ffff * 0x8000_0000) by (nonlinear_arith)
        requires
            0 <= nodes <= 0xffff_ffff_ffff_ffff,
            0 <= ii + 1 <= 0x8000_0000,
    ;
    3 * n as u128 + nodes * (ii as u128 + 1) < usize::MAX as u128
}

proof fn nodes_only_grow(g: ClassGraph, c: int, n: int)
    requires
        0 <= c <= n,
    ensures
        g.nodes_before(c) <= g.nodes_before(n),
    decreases n,
{
    if c < n {
        nodes_only_grow(g, c, n - 1);
    }
}

/// Whether the numbers of a graph fit the machine for an initiation interval of `ii` cycles.
pub fn fits_machine(graph: &ClassGraph, n_resources: usize, ii: usize) -> (r: bool)
    ensures
        r == fits(*graph, n_resources as int, ii as int),
{
    if ii == 0 || ii > i32::MAX as usize || !fits_columns(graph, ii) {
        return false;
    }
    let n = graph.classes.len();
    let mut c: usize = 0;
    while c < n
        invariant
            0 < ii <= i32::MAX,
            c <= n,
            n == graph.classes@.len(),
            forall|b: int, j: int|
                0 <= b < c && 0 <= j < graph.nodes(b).len() ==> node_fits(
                    #[trigger] graph.nodes(b)[j],
                    n_resources as int,
                    ii as int,
                ),
        decreases n - c,
    {
        let n_nodes = graph.classes[c].nodes.len();
        let mut j: usize = 0;
        while j < n_nodes
            invariant
                0 < ii <= i32::MAX,
                c < graph.classes@.len(),
                n_nodes == graph.nodes(c as int).len(),
                j <= n_nodes,
                forall|b: int, j: int|
                    0 <= b < c && 0 <= j < graph.nodes(b).len() ==> node_fits(
                        #[trigger] graph.nodes(b)[j],
                        n_resources as int,
                        ii as int,
                    ),
                forall|i: int|
                    0 <= i < j ==> node_fits(
                        #[trigger] graph.nodes(c as int)[i],
                        n_resources as int,
                        ii as int,
                    ),
            decreases n_nodes - j,
        {
            if !fits_node(&graph.classes[c].nodes[j], n_resources, ii) {
                assert(!node_fits(
                    graph.nodes(c as int)[j as int],
                    n_resources as int,
                    ii as int,
                ));
                return false;
            }
            j = j + 1;
        }
        c = c + 1;
    }
    true
}

} // verus!
