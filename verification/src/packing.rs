//! Laws of the packing of operations into lanes.

use vstd::arithmetic::div_mod::lemma_fundamental_div_mod_converse;
use vstd::prelude::*;

use crate::lanes::{
    comes_before, counts_fit, event_fits, event_source, events, events_len, follows,
    in_first_free_lane, in_order, is_packing, iterations, lane_count, lane_end, lane_is_counted,
    lanes_do_not_overlap, lower_lanes_are_busy, op_views, packed, packing_is_unique, placed_views,
    places, starts_fit, timeline_fits, unit_lanes, EventView, Op, OpView, Placed, PlacedView,
};

verus! {

/// The operations with every start moved by `c` cycles.
pub open spec fn later_ops(ops: Seq<OpView>, c: int) -> Seq<OpView> {
    Seq::new(ops.len(), |i: int| OpView { t: ops[i].t + c, ..ops[i] })
}

/// The placed operations with every start moved by `c` cycles.
pub open spec fn later_placed(placed: Seq<PlacedView>, c: int) -> Seq<PlacedView> {
    Seq::new(placed.len(), |k: int| PlacedView { start: placed[k].start + c, ..placed[k] })
}

proof fn later_events(ops: Seq<OpView>, ii: int, n: nat, c: int)
    ensures
        events(later_ops(ops, c), ii, n).len() == events(ops, ii, n).len(),
        forall|q: int|
            0 <= q < events(ops, ii, n).len() ==> #[trigger] events(later_ops(ops, c), ii, n)[q]
                == (EventView { start: events(ops, ii, n)[q].start + c, ..events(ops, ii, n)[q] }),
    decreases n,
{
    if n > 0 {
        later_events(ops, ii, (n - 1) as nat, c);
        let before = events(ops, ii, (n - 1) as nat);
        assert forall|q: int| 0 <= q < events(ops, ii, n).len() implies #[trigger] events(
            later_ops(ops, c),
            ii,
            n,
        )[q] == (EventView { start: events(ops, ii, n)[q].start + c, ..events(ops, ii, n)[q] }) by {
            if q < before.len() {
                assert(events(later_ops(ops, c), ii, (n - 1) as nat)[q] == events(
                    later_ops(ops, c),
                    ii,
                    n,
                )[q]);
            } else {
                let i = q - before.len();
                assert(later_ops(ops, c)[i].t == ops[i].t + c);
            }
        }
    }
}

proof fn later_lane_end(placed: Seq<PlacedView>, c: int, k: int, resource: int, lane: int)
    requires
        0 <= k <= placed.len(),
    ensures
        lane_end(later_placed(placed, c), k, resource, lane) == lane_end(placed, k, resource, lane)
            + c || (lane_end(placed, k, resource, lane) == i32::MIN && lane_end(
            later_placed(placed, c),
            k,
            resource,
            lane,
        ) == i32::MIN),
    decreases k,
{
    if k > 0 {
        later_lane_end(placed, c, k - 1, resource, lane);
    }
}

proof fn later_lane_count(limit: int, placed: Seq<PlacedView>, c: int, resource: int, k: int)
    requires
        0 <= k <= placed.len(),
    ensures
        lane_count(limit, later_placed(placed, c), resource, k) == lane_count(
            limit,
            placed,
            resource,
            k,
        ),
    decreases k,
{
    if k > 0 {
        later_lane_count(limit, placed, c, resource, k - 1);
    }
}

/// Where every start moves by the same number of cycles, the packing moves with them, and neither
/// lanes nor their numbers change.
pub proof fn packing_moves_with_the_starts(
    ops: Seq<OpView>,
    limits: Seq<i32>,
    ii: int,
    n_iters: int,
    c: int,
    placed: Seq<PlacedView>,
    lanes: Seq<i32>,
)
    requires
        timeline_fits(ops, ii, n_iters),
        timeline_fits(later_ops(ops, c), ii, n_iters),
        packed(ops, limits, ii, n_iters, placed, lanes),
    ensures
        packed(later_ops(ops, c), limits, ii, n_iters, later_placed(placed, c), lanes),
        forall|later: (Seq<PlacedView>, Seq<i32>)| #[trigger]
            packed(later_ops(ops, c), limits, ii, n_iters, later.0, later.1) ==> later.0
                == later_placed(placed, c) && later.1 == lanes,
{
    let moved = later_placed(placed, c);
    let n = iterations(n_iters);
    let all = events(ops, ii, n);
    let all_later = events(later_ops(ops, c), ii, n);
    later_events(ops, ii, n, c);
    let order = choose|order: Seq<int>| #[trigger]
        in_order(all, order) && follows(all, order, placed);
    assert(in_order(all_later, order)) by {
        assert forall|a: int, b: int| 0 <= a < b < order.len() implies comes_before(
            all_later,
            #[trigger] order[a],
            #[trigger] order[b],
        ) by {
            assert(comes_before(all, order[a], order[b]));
            assert(all_later[order[a]].start == all[order[a]].start + c);
            assert(all_later[order[b]].start == all[order[b]].start + c);
        }
    }
    assert(follows(all_later, order, moved)) by {
        assert forall|k: int| 0 <= k < moved.len() implies places(
            all_later[order[k]],
            #[trigger] moved[k],
        ) by {
            assert(places(all[order[k]], placed[k]));
            assert(all_later[order[k]].start == all[order[k]].start + c);
        }
    }
    assert forall|k: int| 0 <= k < moved.len() implies #[trigger] in_first_free_lane(moved, k) by {
        first_free_lane_moves(ops, ii, n_iters, c, placed, k);
    }
    assert(is_packing(later_ops(ops, c), ii, n_iters, moved));
    assert forall|r: int| 0 <= r < lanes.len() implies #[trigger] lanes[r] == lane_count(
        limits[r] as int,
        moved,
        r,
        moved.len() as int,
    ) by {
        later_lane_count(limits[r] as int, placed, c, r, placed.len() as int);
    }
    assert forall|later: (Seq<PlacedView>, Seq<i32>)| #[trigger]
        packed(later_ops(ops, c), limits, ii, n_iters, later.0, later.1) implies later.0 == moved
        && later.1 == lanes by {
        packing_is_unique(later_ops(ops, c), limits, ii, n_iters, later, (moved, lanes));
    }
}

proof fn first_free_lane_moves(
    ops: Seq<OpView>,
    ii: int,
    n_iters: int,
    c: int,
    placed: Seq<PlacedView>,
    k: int,
)
    requires
        timeline_fits(ops, ii, n_iters),
        timeline_fits(later_ops(ops, c), ii, n_iters),
        is_packing(ops, ii, n_iters, placed),
        0 <= k < placed.len(),
    ensures
        in_first_free_lane(later_placed(placed, c), k),
{
    let moved = later_placed(placed, c);
    let p = placed[k];
    assert(in_first_free_lane(placed, k));
    later_start_fits(ops, ii, n_iters, c, placed, k);
    later_lane_end(placed, c, k, p.resource, p.lane);
    assert forall|lane: int| 0 <= lane < moved[k].lane implies #[trigger] lane_end(
        moved,
        k,
        moved[k].resource,
        lane,
    ) > moved[k].start by {
        assert(lane_end(placed, k, p.resource, lane) > p.start);
        later_lane_end(placed, c, k, p.resource, lane);
        starts_fit(ops, ii, n_iters, placed, k);
    }
}

proof fn later_start_fits(
    ops: Seq<OpView>,
    ii: int,
    n_iters: int,
    c: int,
    placed: Seq<PlacedView>,
    k: int,
)
    requires
        timeline_fits(later_ops(ops, c), ii, n_iters),
        is_packing(ops, ii, n_iters, placed),
        0 <= k < placed.len(),
    ensures
        i32::MIN <= placed[k].start + c,
{
    let n = iterations(n_iters);
    let all = events(ops, ii, n);
    let order = choose|order: Seq<int>| #[trigger]
        in_order(all, order) && follows(all, order, placed);
    assert(places(all[order[k]], placed[k]));
    let (i, iter) = event_source(ops, ii, n, order[k]);
    assert(event_fits(later_ops(ops, c)[i], ii, iter));
}

/// The operation is on the resource and runs in the cycle.
pub open spec fn is_running(p: PlacedView, resource: int, cycle: int) -> bool {
    p.resource == resource && p.start <= cycle < p.start + p.dur
}

/// How many of the first `n` operations on the resource run in the cycle.
pub open spec fn running(placed: Seq<PlacedView>, resource: int, cycle: int, n: int) -> int
    decreases n,
{
    if n <= 0 {
        0
    } else {
        running(placed, resource, cycle, n - 1) + if is_running(placed[n - 1], resource, cycle) {
            1int
        } else {
            0
        }
    }
}

/// The lanes of those of the first `n` operations on the resource that run in the cycle.
spec fn busy(placed: Seq<PlacedView>, resource: int, cycle: int, n: int) -> Set<int>
    decreases n,
{
    if n <= 0 {
        Set::empty()
    } else {
        let rest = busy(placed, resource, cycle, n - 1);
        if is_running(placed[n - 1], resource, cycle) {
            rest.insert(placed[n - 1].lane)
        } else {
            rest
        }
    }
}

/// What runs at once is in different lanes.
proof fn busy_lanes_are_counted(
    ops: Seq<OpView>,
    limits: Seq<i32>,
    ii: int,
    n_iters: int,
    placed: Seq<PlacedView>,
    lanes: Seq<i32>,
    resource: int,
    cycle: int,
    n: int,
)
    requires
        packed(ops, limits, ii, n_iters, placed, lanes),
        0 <= n <= placed.len(),
    ensures
        busy(placed, resource, cycle, n).finite(),
        busy(placed, resource, cycle, n).len() == running(placed, resource, cycle, n),
        forall|lane: int| #[trigger]
            busy(placed, resource, cycle, n).contains(lane) <==> exists|a: int|
                0 <= a < n && is_running(#[trigger] placed[a], resource, cycle) && placed[a].lane
                    == lane,
    decreases n,
{
    if n > 0 {
        busy_lanes_are_counted(
            ops,
            limits,
            ii,
            n_iters,
            placed,
            lanes,
            resource,
            cycle,
            n - 1,
        );
        let rest = busy(placed, resource, cycle, n - 1);
        let p = placed[n - 1];
        if is_running(p, resource, cycle) && rest.contains(p.lane) {
            let a = choose|a: int|
                0 <= a < n - 1 && is_running(#[trigger] placed[a], resource, cycle)
                    && placed[a].lane == p.lane;
            lanes_do_not_overlap(ops, limits, ii, n_iters, placed, lanes, a, n - 1);
        }
        assert forall|lane: int| #[trigger] busy(placed, resource, cycle, n).contains(
            lane,
        ) implies exists|a: int|
            0 <= a < n && is_running(#[trigger] placed[a], resource, cycle) && placed[a].lane
                == lane by {
            if rest.contains(lane) {
                let a = choose|a: int|
                    0 <= a < n - 1 && is_running(#[trigger] placed[a], resource, cycle)
                        && placed[a].lane == lane;
                assert(is_running(placed[a], resource, cycle));
            } else {
                assert(is_running(placed[n - 1], resource, cycle));
            }
        }
        assert forall|a: int|
            0 <= a < n && is_running(#[trigger] placed[a], resource, cycle) implies busy(
            placed,
            resource,
            cycle,
            n,
        ).contains(placed[a].lane) by {
            if a < n - 1 {
                assert(rest.contains(placed[a].lane));
            }
        }
    }
}

/// There are never more operations running on a resource than it has lanes.
pub proof fn running_operations_have_lanes(
    ops: Seq<OpView>,
    limits: Seq<i32>,
    ii: int,
    n_iters: int,
    placed: Seq<PlacedView>,
    lanes: Seq<i32>,
    r: int,
    cycle: int,
)
    requires
        packed(ops, limits, ii, n_iters, placed, lanes),
        0 <= r < limits.len(),
    ensures
        running(placed, r, cycle, placed.len() as int) <= lanes[r],
        unit_lanes(limits[r] as int) <= lanes[r],
{
    let n = placed.len() as int;
    busy_lanes_are_counted(ops, limits, ii, n_iters, placed, lanes, r, cycle, n);
    assert forall|i: int| 0 <= i < n implies 0 <= (#[trigger] placed[i]).lane by {
        assert(in_first_free_lane(placed, i));
    }
    lane_is_counted(limits[r] as int, placed, r, n);
    assert(lanes[r] == lane_count(limits[r] as int, placed, r, n));
    let range = vstd::set_lib::set_int_range(0, lanes[r] as int);
    vstd::set_lib::lemma_int_range(0, lanes[r] as int);
    let taken = busy(placed, r, cycle, n);
    assert forall|lane: int| taken.contains(lane) implies range.contains(lane) by {
        let a = choose|a: int|
            0 <= a < n && is_running(#[trigger] placed[a], r, cycle) && placed[a].lane == lane;
        assert(placed[a].resource == r);
    }
    vstd::set_lib::lemma_len_subset(taken, range);
}

/// Where operations take at least a cycle, a resource has as many lanes as it has units, at least
/// one, and as many as operations ever run on it at once: where it has more lanes than units, in
/// some cycle every lane has an operation.
pub proof fn lanes_are_as_many_as_run_at_once(
    ops: Seq<OpView>,
    limits: Seq<i32>,
    ii: int,
    n_iters: int,
    placed: Seq<PlacedView>,
    lanes: Seq<i32>,
    r: int,
)
    requires
        timeline_fits(ops, ii, n_iters),
        packed(ops, limits, ii, n_iters, placed, lanes),
        forall|i: int| 0 <= i < ops.len() ==> (#[trigger] ops[i]).d >= 1,
        0 <= r < limits.len(),
    ensures
        unit_lanes(limits[r] as int) <= lanes[r],
        forall|cycle: int| #[trigger]
            running(placed, r, cycle, placed.len() as int) <= lanes[r],
        lanes[r] == unit_lanes(limits[r] as int) || exists|cycle: int| #[trigger]
            running(placed, r, cycle, placed.len() as int) == lanes[r],
{
    let n = placed.len() as int;
    running_operations_have_lanes(ops, limits, ii, n_iters, placed, lanes, r, 0);
    assert forall|cycle: int| #[trigger] running(placed, r, cycle, n) <= lanes[r] by {
        running_operations_have_lanes(ops, limits, ii, n_iters, placed, lanes, r, cycle);
    }
    let count = lane_count(limits[r] as int, placed, r, n);
    assert(lanes[r] == count);
    if count != unit_lanes(limits[r] as int) {
        let k = highest_lane(limits[r] as int, placed, r, n);
        let cycle = placed[k].start;
        all_events_take_time(ops, ii, n_iters, placed, k);
        starts_fit(ops, ii, n_iters, placed, k);
        busy_lanes_are_counted(ops, limits, ii, n_iters, placed, lanes, r, cycle, n);
        let taken = busy(placed, r, cycle, n);
        let range = vstd::set_lib::set_int_range(0, count);
        vstd::set_lib::lemma_int_range(0, count);
        assert forall|lane: int| range.contains(lane) implies taken.contains(lane) by {
            if lane < placed[k].lane {
                lower_lanes_are_busy(ops, limits, ii, n_iters, placed, lanes, k, lane);
                let a = choose|a: int|
                    0 <= a < k && (#[trigger] placed[a]).resource == r && placed[a].lane == lane
                        && placed[a].start <= cycle < placed[a].start + placed[a].dur;
                assert(is_running(placed[a], r, cycle));
            } else {
                assert(is_running(placed[k], r, cycle));
            }
        }
        vstd::set_lib::lemma_len_subset(range, taken);
        assert(running(placed, r, cycle, n) == lanes[r]);
    }
}

/// The operation that is in the highest lane, where that is not one of a unit.
proof fn highest_lane(limit: int, placed: Seq<PlacedView>, resource: int, k: int) -> (top: int)
    requires
        0 <= k <= placed.len(),
        lane_count(limit, placed, resource, k) != unit_lanes(limit),
    ensures
        0 <= top < k,
        placed[top].resource == resource,
        placed[top].lane == lane_count(limit, placed, resource, k) - 1,
    decreases k,
{
    if placed[k - 1].resource == resource && placed[k - 1].lane >= lane_count(
        limit,
        placed,
        resource,
        k - 1,
    ) {
        k - 1
    } else {
        highest_lane(limit, placed, resource, k - 1)
    }
}

proof fn all_events_take_time(
    ops: Seq<OpView>,
    ii: int,
    n_iters: int,
    placed: Seq<PlacedView>,
    k: int,
)
    requires
        is_packing(ops, ii, n_iters, placed),
        forall|i: int| 0 <= i < ops.len() ==> (#[trigger] ops[i]).d >= 1,
        0 <= k < placed.len(),
    ensures
        placed[k].dur >= 1,
{
    let n = iterations(n_iters);
    let all = events(ops, ii, n);
    let order = choose|order: Seq<int>| #[trigger]
        in_order(all, order) && follows(all, order, placed);
    assert(places(all[order[k]], placed[k]));
    let (i, iter) = event_source(ops, ii, n, order[k]);
    assert(ops[i].d >= 1);
}

/// Operations are seen as what their fields hold.
pub proof fn operations_are_seen_field_by_field(ops: Seq<Op>, placed: Seq<Placed>)
    ensures
        op_views(ops).len() == ops.len(),
        forall|i: int|
            0 <= i < ops.len() ==> (#[trigger] op_views(ops)[i]).name == ops[i].name@ && op_views(
                ops,
            )[i].t == ops[i].t && op_views(ops)[i].d == ops[i].d && op_views(ops)[i].resource
                == ops[i].resource,
        placed_views(placed).len() == placed.len(),
        forall|k: int|
            0 <= k < placed.len() ==> (#[trigger] placed_views(placed)[k]).op == placed[k].op@
                && placed_views(placed)[k].iter == placed[k].iter && placed_views(placed)[k].start
                == placed[k].start && placed_views(placed)[k].dur == placed[k].dur && placed_views(
                placed,
            )[k].lane == placed[k].lane && placed_views(placed)[k].resource == placed[k].resource,
{
}

/// `order` lists the operations of `n` iterations, each once, where the operation at position `i` of
/// iteration `iter` has the number `iter * ops.len() + i`. The placed operations are these, in this
/// order, which is that of their start cycles and, in one cycle, of their numbers.
pub open spec fn is_placement(
    ops: Seq<OpView>,
    ii: int,
    n: int,
    placed: Seq<PlacedView>,
    order: Seq<int>,
) -> bool {
    &&& placed.len() == n * ops.len()
    &&& order.len() == placed.len()
    &&& order.no_duplicates()
    &&& forall|k: int|
        0 <= k < placed.len() ==> {
            let op = ops[order[k] % (ops.len() as int)];
            let iter = order[k] / (ops.len() as int);
            &&& 0 <= order[k] < placed.len()
            &&& (#[trigger] placed[k]).iter == iter
            &&& placed[k].start == op.t + iter * ii
            &&& placed[k].dur == op.d
            &&& placed[k].op == op.name
            &&& placed[k].resource == op.resource
        }
    &&& forall|k: int, m: int|
        0 <= k < m < placed.len() ==> (#[trigger] placed[k]).start < (#[trigger] placed[m]).start
            || (placed[k].start == placed[m].start && order[k] < order[m])
}

/// Every operation of every iteration is placed once, an interval after that of the iteration before,
/// and in the order of start cycles.
pub proof fn packings_place_everything(
    ops: Seq<OpView>,
    ii: int,
    n_iters: int,
    placed: Seq<PlacedView>,
)
    requires
        is_packing(ops, ii, n_iters, placed),
        0 <= n_iters,
    ensures
        exists|order: Seq<int>| is_placement(ops, ii, n_iters, placed, order),
{
    let n = iterations(n_iters);
    let all = events(ops, ii, n);
    let len = ops.len() as int;
    events_len(ops, ii, n);
    let order = choose|order: Seq<int>| #[trigger]
        in_order(all, order) && follows(all, order, placed);
    assert forall|a: int, b: int|
        0 <= a < order.len() && 0 <= b < order.len() && a != b implies order[a] != order[b] by {
        if a < b {
            assert(comes_before(all, order[a], order[b]));
        } else {
            assert(comes_before(all, order[b], order[a]));
        }
    }
    assert forall|k: int| 0 <= k < placed.len() implies {
        let op = ops[order[k] % len];
        let iter = order[k] / len;
        &&& 0 <= order[k] < placed.len()
        &&& (#[trigger] placed[k]).iter == iter
        &&& placed[k].start == op.t + iter * ii
        &&& placed[k].dur == op.d
        &&& placed[k].op == op.name
        &&& placed[k].resource == op.resource
    } by {
        assert(places(all[order[k]], placed[k]));
        let (i, iter) = event_source(ops, ii, n, order[k]);
        lemma_fundamental_div_mod_converse(order[k], len, iter, i);
    }
    assert forall|k: int, m: int| 0 <= k < m < placed.len() implies (#[trigger] placed[k]).start < (
    #[trigger] placed[m]).start || (placed[k].start == placed[m].start && order[k] < order[m]) by {
        assert(comes_before(all, order[k], order[m]));
        assert(places(all[order[k]], placed[k]) && places(all[order[m]], placed[m]));
    }
    assert(is_placement(ops, ii, n_iters, placed, order));
}

/// A resource has a lane for every unit that the machine has of it, and at least one; where it has
/// more, an operation is in the last one. No operation is in a lane that is not there.
pub proof fn lanes_are_there_for_units_and_operations(
    ops: Seq<OpView>,
    limits: Seq<i32>,
    ii: int,
    n_iters: int,
    placed: Seq<PlacedView>,
    lanes: Seq<i32>,
    r: int,
)
    requires
        packed(ops, limits, ii, n_iters, placed, lanes),
        0 <= r < limits.len(),
    ensures
        lanes.len() == limits.len(),
        1 <= lanes[r],
        limits[r] <= lanes[r],
        forall|k: int|
            0 <= k < placed.len() && (#[trigger] placed[k]).resource == r ==> 0 <= placed[k].lane
                < lanes[r],
        lanes[r] == 1 || lanes[r] == limits[r] || exists|k: int|
            0 <= k < placed.len() && (#[trigger] placed[k]).resource == r && placed[k].lane
                == lanes[r] - 1,
{
    let n = placed.len() as int;
    assert forall|i: int| 0 <= i < n implies 0 <= (#[trigger] placed[i]).lane by {
        assert(in_first_free_lane(placed, i));
    }
    lane_is_counted(limits[r] as int, placed, r, n);
    assert(lanes[r] == lane_count(limits[r] as int, placed, r, n));
    if lanes[r] != 1 && lanes[r] != limits[r] {
        let k = highest_lane(limits[r] as int, placed, r, n);
        assert(placed[k].resource == r);
    }
}

/// The operation of iteration `iter` starts and ends in the range of `i32`.
pub open spec fn is_on_the_timeline(op: OpView, ii: int, iter: int) -> bool {
    &&& -0x8000_0000 <= iter * ii <= 0x7fff_ffff
    &&& -0x8000_0000 <= op.t + iter * ii <= 0x7fff_ffff
    &&& -0x8000_0000 <= op.t + iter * ii + op.d <= 0x7fff_ffff
}

/// What it takes for the operations of all iterations to be placed: their starts and ends are in the
/// range of `i32`.
pub proof fn what_fits_a_timeline(ops: Seq<OpView>, ii: int, n_iters: int)
    ensures
        timeline_fits(ops, ii, n_iters) <==> forall|i: int, iter: int|
            0 <= i < ops.len() && 0 <= iter < n_iters ==> #[trigger] is_on_the_timeline(
                ops[i],
                ii,
                iter,
            ),
{
    assert forall|op: OpView, iter: int| #[trigger] is_on_the_timeline(op, ii, iter) <==> event_fits(
        op,
        ii,
        iter,
    ) by {}
    if timeline_fits(ops, ii, n_iters) {
        assert forall|i: int, iter: int|
            0 <= i < ops.len() && 0 <= iter < n_iters implies #[trigger] is_on_the_timeline(
            ops[i],
            ii,
            iter,
        ) by {
            assert(event_fits(ops[i], ii, iter));
        }
    } else {
        let (i, iter) = choose|i: int, iter: int|
            0 <= i < ops.len() && 0 <= iter < n_iters && !#[trigger] event_fits(ops[i], ii, iter);
        assert(!is_on_the_timeline(ops[i], ii, iter));
    }
}

/// Lanes can be counted where no operation is in a lane beyond the range of `i32`.
pub proof fn what_can_be_counted(limits: Seq<i32>, placed: Seq<PlacedView>)
    requires
        forall|k: int| 0 <= k < placed.len() ==> 0 <= (#[trigger] placed[k]).lane,
    ensures
        counts_fit(limits, placed) <==> forall|k: int|
            0 <= k < placed.len() && 0 <= (#[trigger] placed[k]).resource < limits.len()
                ==> placed[k].lane < 0x7fff_ffff,
{
    let n = placed.len() as int;
    if counts_fit(limits, placed) {
        assert forall|k: int|
            0 <= k < placed.len() && 0 <= (#[trigger] placed[k]).resource
                < limits.len() implies placed[k].lane < 0x7fff_ffff by {
            let r = placed[k].resource;
            lane_is_counted(limits[r] as int, placed, r, n);
            assert(lane_count(limits[r] as int, placed, r, n) <= i32::MAX);
        }
    } else {
        let r = choose|r: int|
            0 <= r < limits.len() && #[trigger] lane_count(limits[r] as int, placed, r, n)
                > i32::MAX;
        let k = highest_lane(limits[r] as int, placed, r, n);
        assert(placed[k].resource == r);
    }
}

} // verus!
