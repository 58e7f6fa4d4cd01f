//! Operations, their dependence edges and the machine resources they occupy.

use vstd::arithmetic::div_mod::{lemma_mod_bound, lemma_mod_mod};
use vstd::prelude::*;

verus! {

/// What an operation occupies: row `r` holds the units of each resource that it uses `r` cycles
/// after it starts.
pub type ResourceTable = Vec<Vec<i32>>;

/// How many units the machine has of each resource.
pub type ResourceLimit = Vec<i32>;

/// A dependence on the operation `id`: `d` cycles later, `delta` iterations on.
#[derive(Debug, Clone, Copy)]
pub struct EdgeData<T> {
    pub id: T,
    pub d: i32,
    pub delta: i32,
}

/// An operation over operands that are named by a `T`.
#[derive(Debug)]
pub struct TileLang<T> {
    pub op: String,
    pub children: Vec<T>,
    /// Distance and iteration offset of each dependence, in the order of `children`.
    pub edge_data: Vec<(i32, i32)>,
    pub rt: ResourceTable,
}

/// The number of dependences that have both an operand and edge data.
pub open spec fn edge_count<T>(tile: TileLang<T>) -> nat {
    if tile.children@.len() <= tile.edge_data@.len() {
        tile.children@.len()
    } else {
        tile.edge_data@.len()
    }
}

/// The `k`th dependence of `tile`.
pub open spec fn edge_at<T>(tile: TileLang<T>, k: int) -> EdgeData<T> {
    EdgeData { id: tile.children@[k], d: tile.edge_data@[k].0, delta: tile.edge_data@[k].1 }
}

impl<T> TileLang<T> {
    pub fn new(op: String, children: Vec<T>, edge_data: Vec<(i32, i32)>, rt: ResourceTable) -> (r:
        Self)
        ensures
            r.op == op,
            r.children == children,
            r.edge_data == edge_data,
            r.rt == rt,
    {
        TileLang { op, children, edge_data, rt }
    }

    pub fn leaf(op: String) -> (r: Self)
        ensures
            r.op == op,
            r.children@.len() == 0,
            r.edge_data@.len() == 0,
            r.rt@.len() == 0,
    {
        Self::new(op, vec![], vec![], vec![])
    }

    /// How the operation is written: by its operator.
    pub fn to_text(&self) -> (r: String)
        ensures
            r@ == self.op@,
    {
        self.op.clone()
    }
}

/// Copies a list.
pub fn copy_list<T: Copy>(list: &Vec<T>) -> (r: Vec<T>)
    ensures
        r@ == list@,
{
    let mut copy: Vec<T> = Vec::new();
    let mut i: usize = 0;
    while i < list.len()
        invariant
            i <= list@.len(),
            copy@ == list@.take(i as int),
        decreases list.len() - i,
    {
        copy.push(list[i]);
        proof {
            assert(list@.take(i + 1) =~= list@.take(i as int).push(list@[i as int]));
        }
        i = i + 1;
    }
    proof {
        assert(list@.take(i as int) =~= list@);
    }
    copy
}

/// The rows of a resource table.
pub open spec fn table_view(rt: Seq<Vec<i32>>) -> Seq<Seq<i32>> {
    Seq::new(rt.len(), |i: int| rt[i]@)
}

/// Copies a resource table.
pub fn copy_table(rt: &ResourceTable) -> (r: ResourceTable)
    ensures
        table_view(r@) == table_view(rt@),
{
    let mut copy: ResourceTable = Vec::new();
    let mut i: usize = 0;
    while i < rt.len()
        invariant
            i <= rt@.len(),
            copy@.len() == i,
            forall|k: int| 0 <= k < i ==> (#[trigger] copy@[k])@ == rt@[k]@,
        decreases rt.len() - i,
    {
        copy.push(copy_list(&rt[i]));
        i = i + 1;
    }
    proof {
        assert(table_view(copy@) =~= table_view(rt@));
    }
    copy
}

impl<T: Copy> Clone for TileLang<T> {
    fn clone(&self) -> (r: Self)
        ensures
            r.op@ == self.op@,
            r.children@ == self.children@,
            r.edge_data@ == self.edge_data@,
            table_view(r.rt@) == table_view(self.rt@),
    {
        TileLang {
            op: self.op.clone(),
            children: copy_list(&self.children),
            edge_data: copy_list(&self.edge_data),
            rt: copy_table(&self.rt),
        }
    }
}

impl<T: Copy> TileLang<T> {
    /// The dependences of this operation: operand and edge data side by side, up to the shorter
    /// of the two lists.
    pub fn edges(&self) -> (r: Vec<EdgeData<T>>)
        ensures
            r@ == Seq::new(edge_count(*self), |k: int| edge_at(*self, k)),
            r@.len() <= self.children@.len(),
            r@.len() <= self.edge_data@.len(),
            r@.len() == self.children@.len() || r@.len() == self.edge_data@.len(),
            forall|k: int|
                0 <= k < r@.len() ==> (#[trigger] r@[k]).id == self.children@[k] && r@[k].d
                    == self.edge_data@[k].0 && r@[k].delta == self.edge_data@[k].1,
    {
        let mut edges: Vec<EdgeData<T>> = Vec::new();
        let mut k: usize = 0;
        while k < self.children.len() && k < self.edge_data.len()
            invariant
                k <= edge_count(*self),
                edges@ == Seq::new(k as nat, |i: int| edge_at(*self, i)),
            decreases self.children.len() - k,
        {
            let (d, delta) = self.edge_data[k];
            edges.push(EdgeData { id: self.children[k], d, delta });
            k = k + 1;
        }
        edges
    }
}

/// What `row` holds in column `col`; a short row holds nothing there.
pub open spec fn cell(row: Seq<i32>, col: int) -> int {
    if col < row.len() {
        row[col] as int
    } else {
        0
    }
}

/// The units of resource `col` that the first `n` rows of `rt` use in slot `slot` of an
/// initiation interval of `ii` cycles.
pub open spec fn folded(rt: Seq<Vec<i32>>, ii: int, slot: int, col: int, n: nat) -> int
    decreases n,
{
    if n == 0 {
        0
    } else {
        let rest = folded(rt, ii, slot, col, (n - 1) as nat);
        if (n - 1) % ii == slot {
            rest + cell(rt[n - 1]@, col)
        } else {
            rest
        }
    }
}

/// Folding `rt` row by row into `ii` slots stays within the range of `i32`.
pub open spec fn folds(rt: Seq<Vec<i32>>, ii: int, n_resources: int) -> bool {
    forall|n: nat, slot: int, col: int|
        n <= rt.len() && 0 <= slot < ii && 0 <= col < n_resources ==> i32::MIN <= #[trigger] folded(
            rt,
            ii,
            slot,
            col,
            n,
        ) <= i32::MAX
}

/// Folds a resource table into the `ii` slots of an initiation interval: row `r` lands in slot
/// `r % ii`, and only the first `n_resources` columns are kept.
pub fn modulo_rt(rt: &ResourceTable, ii: usize, n_resources: usize) -> (mrt: ResourceTable)
    requires
        ii > 0 || rt@.len() == 0,
        folds(rt@, ii as int, n_resources as int),
    ensures
        mrt@.len() == ii,
        forall|slot: int|
            0 <= slot < ii ==> (#[trigger] mrt@[slot])@.len() == n_resources,
        forall|slot: int, col: int|
            0 <= slot < ii && 0 <= col < n_resources ==> #[trigger] mrt@[slot]@[col] == folded(
                rt@,
                ii as int,
                slot,
                col,
                rt@.len(),
            ),
{
    let mut mrt: ResourceTable = Vec::new();
    let mut i: usize = 0;
    while i < ii
        invariant
            i <= ii,
            mrt@.len() == i,
            forall|slot: int|
                0 <= slot < i ==> (#[trigger] mrt@[slot])@.len() == n_resources && (forall|col: int|
                    0 <= col < n_resources ==> mrt@[slot]@[col] == 0),
        decreases ii - i,
    {
        let row: Vec<i32> = vec![0; n_resources];
        mrt.push(row);
        i = i + 1;
    }
    let mut row_idx: usize = 0;
    while row_idx < rt.len()
        invariant
            row_idx <= rt@.len(),
            ii > 0 || rt@.len() == 0,
            folds(rt@, ii as int, n_resources as int),
            mrt@.len() == ii,
            forall|slot: int| 0 <= slot < ii ==> (#[trigger] mrt@[slot])@.len() == n_resources,
            forall|slot: int, col: int|
                0 <= slot < ii && 0 <= col < n_resources ==> #[trigger] mrt@[slot]@[col] == folded(
                    rt@,
                    ii as int,
                    slot,
                    col,
                    row_idx as nat,
                ),
        decreases rt.len() - row_idx,
    {
        let target = row_idx % ii;
        let row = &rt[row_idx];
        let mut col_idx: usize = 0;
        while col_idx < row.len()
            invariant
                col_idx <= row@.len(),
                row_idx < rt@.len(),
                row@ == rt@[row_idx as int]@,
                0 < ii,
                target == row_idx % ii,
                folds(rt@, ii as int, n_resources as int),
                mrt@.len() == ii,
                forall|slot: int| 0 <= slot < ii ==> (#[trigger] mrt@[slot])@.len() == n_resources,
                forall|slot: int, col: int|
                    0 <= slot < ii && 0 <= col < n_resources ==> #[trigger] mrt@[slot]@[col]
                        == folded(
                        rt@,
                        ii as int,
                        slot,
                        col,
                        if col < col_idx {
                            (row_idx + 1) as nat
                        } else {
                            row_idx as nat
                        },
                    ),
            decreases row.len() - col_idx,
        {
            if col_idx < n_resources {
                let val = row[col_idx];
                proof {
                    assert(i32::MIN <= folded(
                        rt@,
                        ii as int,
                        target as int,
                        col_idx as int,
                        (row_idx + 1) as nat,
                    ) <= i32::MAX);
                }
                let sum: i32 = mrt[target][col_idx] + val;
                mrt[target][col_idx] = sum;
            }
            col_idx = col_idx + 1;
        }
        row_idx = row_idx + 1;
    }
    mrt
}

/// The units of resource `col` that the first `n` rows of `rt` use.
pub open spec fn column_total(rt: Seq<Vec<i32>>, col: int, n: nat) -> int
    decreases n,
{
    if n == 0 {
        0
    } else {
        column_total(rt, col, (n - 1) as nat) + cell(rt[n - 1]@, col)
    }
}

/// The units of resource `col` that the first `n` rows of `rt` use in the first `slots` slots.
pub open spec fn slots_total(rt: Seq<Vec<i32>>, ii: int, slots: nat, col: int, n: nat) -> int
    decreases slots,
{
    if slots == 0 {
        0
    } else {
        slots_total(rt, ii, (slots - 1) as nat, col, n) + folded(rt, ii, slots - 1, col, n)
    }
}

/// Folding a resource table moves units to other slots and loses none.
pub proof fn folding_keeps_units(rt: Seq<Vec<i32>>, ii: nat, col: int, n: nat)
    requires
        0 < ii,
        n <= rt.len(),
    ensures
        slots_total(rt, ii as int, ii, col, n) == column_total(rt, col, n),
    decreases n,
{
    if n > 0 {
        folding_keeps_units(rt, ii, col, (n - 1) as nat);
        row_goes_to_one_slot(rt, ii as int, ii, col, n);
    } else {
        nothing_in_no_rows(rt, ii as int, ii, col);
    }
}

proof fn row_goes_to_one_slot(rt: Seq<Vec<i32>>, ii: int, slots: nat, col: int, n: nat)
    requires
        0 < ii,
        slots <= ii,
        0 < n <= rt.len(),
    ensures
        slots_total(rt, ii, slots, col, n) == slots_total(rt, ii, slots, col, (n - 1) as nat) + if (
        n - 1) % ii < slots {
            cell(rt[n - 1]@, col)
        } else {
            0
        },
    decreases slots,
{
    if slots > 0 {
        row_goes_to_one_slot(rt, ii, (slots - 1) as nat, col, n);
    } else {
        assert((n - 1) % ii >= 0) by (nonlinear_arith)
            requires
                0 < ii,
        ;
    }
}

proof fn nothing_in_no_rows(rt: Seq<Vec<i32>>, ii: int, slots: nat, col: int)
    ensures
        slots_total(rt, ii, slots, col, 0) == 0,
    decreases slots,
{
    if slots > 0 {
        nothing_in_no_rows(rt, ii, (slots - 1) as nat, col);
    }
}

/// What those of the first `slots` slots that are `slot` modulo `ii` hold of the first `n` rows of
/// `rt`, folded into `wide` slots.
spec fn coarse_total(
    rt: Seq<Vec<i32>>,
    wide: int,
    ii: int,
    slot: int,
    col: int,
    n: nat,
    slots: nat,
) -> int
    decreases slots,
{
    if slots == 0 {
        0
    } else {
        coarse_total(rt, wide, ii, slot, col, n, (slots - 1) as nat) + if (slots - 1) % ii == slot {
            folded(rt, wide, slots - 1, col, n)
        } else {
            0
        }
    }
}

proof fn coarse_total_of_row(
    rt: Seq<Vec<i32>>,
    wide: int,
    ii: int,
    slot: int,
    col: int,
    n: nat,
    slots: nat,
)
    requires
        0 < n,
        0 < wide,
    ensures
        coarse_total(rt, wide, ii, slot, col, n, slots) == coarse_total(
            rt,
            wide,
            ii,
            slot,
            col,
            (n - 1) as nat,
            slots,
        ) + if (n - 1) % wide < slots && ((n - 1) % wide) % ii == slot {
            cell(rt[n - 1]@, col)
        } else {
            0
        },
    decreases slots,
{
    if slots > 0 {
        coarse_total_of_row(rt, wide, ii, slot, col, n, (slots - 1) as nat);
    } else {
        lemma_mod_bound(n - 1, wide);
    }
}

proof fn coarse_total_of_nothing(
    rt: Seq<Vec<i32>>,
    wide: int,
    ii: int,
    slot: int,
    col: int,
    slots: nat,
)
    ensures
        coarse_total(rt, wide, ii, slot, col, 0, slots) == 0,
    decreases slots,
{
    if slots > 0 {
        coarse_total_of_nothing(rt, wide, ii, slot, col, (slots - 1) as nat);
    }
}

proof fn coarse_total_is_folded(
    rt: Seq<Vec<i32>>,
    wide: int,
    ii: int,
    times: int,
    slot: int,
    col: int,
    n: nat,
)
    requires
        0 < ii,
        0 < times,
        wide == ii * times,
        0 < wide,
    ensures
        coarse_total(rt, wide, ii, slot, col, n, wide as nat) == folded(rt, ii, slot, col, n),
    decreases n,
{
    if n == 0 {
        coarse_total_of_nothing(rt, wide, ii, slot, col, wide as nat);
    } else {
        coarse_total_is_folded(rt, wide, ii, times, slot, col, (n - 1) as nat);
        coarse_total_of_row(rt, wide, ii, slot, col, n, wide as nat);
        lemma_mod_bound(n - 1, wide);
        lemma_mod_mod(n - 1, ii, times);
    }
}

proof fn folding_adds_up_coarsely(
    rt: Seq<Vec<i32>>,
    mid: Seq<Vec<i32>>,
    wide: int,
    ii: int,
    slot: int,
    col: int,
    n: nat,
    slots: nat,
)
    requires
        slots <= mid.len(),
        forall|s: int|
            0 <= s < mid.len() ==> cell(#[trigger] mid[s]@, col) == folded(rt, wide, s, col, n),
    ensures
        folded(mid, ii, slot, col, slots) == coarse_total(rt, wide, ii, slot, col, n, slots),
    decreases slots,
{
    if slots > 0 {
        folding_adds_up_coarsely(rt, mid, wide, ii, slot, col, n, (slots - 1) as nat);
        assert(cell(mid[slots - 1]@, col) == folded(rt, wide, slots - 1, col, n));
    }
}

/// Folding a table into a multiple of `ii` slots and what comes out into `ii` slots is folding the
/// table into `ii` slots.
pub proof fn folding_twice_is_folding_once(
    rt: Seq<Vec<i32>>,
    mid: Seq<Vec<i32>>,
    ii: int,
    times: int,
    slot: int,
    col: int,
    n: nat,
)
    requires
        0 < ii,
        0 < times,
        n <= rt.len(),
        mid.len() == ii * times,
        forall|s: int|
            0 <= s < mid.len() ==> cell(#[trigger] mid[s]@, col) == folded(
                rt,
                ii * times,
                s,
                col,
                n,
            ),
    ensures
        folded(mid, ii, slot, col, mid.len()) == folded(rt, ii, slot, col, n),
{
    let wide = ii * times;
    assert(0 < wide) by (nonlinear_arith)
        requires
            0 < ii,
            0 < times,
            wide == ii * times,
    ;
    folding_adds_up_coarsely(rt, mid, wide, ii, slot, col, n, mid.len());
    coarse_total_is_folded(rt, wide, ii, times, slot, col, n);
}

} // verus!
