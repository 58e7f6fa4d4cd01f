//! Packing the operations of overlapping iterations into lanes.

use vstd::prelude::*;

use crate::number::in_i32;
use crate::packing::{is_placement, packings_place_everything};

verus! {

/// A scheduled operation: its name, start cycle, duration and resource.
#[derive(Debug)]
pub struct Op {
    pub name: String,
    pub t: i32,
    pub d: i32,
    pub resource: usize,
}

/// An operation of one iteration in a lane of its resource.
#[derive(Debug)]
pub struct Placed {
    pub resource: usize,
    pub lane: usize,
    pub start: i32,
    pub dur: i32,
    pub op: String,
    pub iter: i32,
}

/// A scheduled operation as mathematical values.
#[verifier::ext_equal]
pub struct OpView {
    pub name: Seq<char>,
    pub t: int,
    pub d: int,
    pub resource: int,
}

/// A placed operation as mathematical values.
#[verifier::ext_equal]
pub struct PlacedView {
    pub resource: int,
    pub lane: int,
    pub start: int,
    pub dur: int,
    pub op: Seq<char>,
    pub iter: int,
}

impl View for Op {
    type V = OpView;

    open spec fn view(&self) -> OpView {
        OpView {
            name: self.name@,
            t: self.t as int,
            d: self.d as int,
            resource: self.resource as int,
        }
    }
}

impl View for Placed {
    type V = PlacedView;

    open spec fn view(&self) -> PlacedView {
        PlacedView {
            resource: self.resource as int,
            lane: self.lane as int,
            start: self.start as int,
            dur: self.dur as int,
            op: self.op@,
            iter: self.iter as int,
        }
    }
}

/// The operations of a list.
pub open spec fn op_views(ops: Seq<Op>) -> Seq<OpView> {
    Seq::new(ops.len(), |i: int| ops[i]@)
}

/// The placed operations of a list.
pub open spec fn placed_views(placed: Seq<Placed>) -> Seq<PlacedView> {
    Seq::new(placed.len(), |k: int| placed[k]@)
}

/// An operation of one iteration, before it has a lane.
#[verifier::ext_equal]
pub struct EventView {
    pub start: int,
    pub dur: int,
    pub name: Seq<char>,
    pub resource: int,
    pub iter: int,
}

struct Event {
    start: i32,
    dur: i32,
    name: String,
    resource: usize,
    iter: i32,
}

impl View for Event {
    type V = EventView;

    closed spec fn view(&self) -> EventView {
        EventView {
            start: self.start as int,
            dur: self.dur as int,
            name: self.name@,
            resource: self.resource as int,
            iter: self.iter as int,
        }
    }
}

spec fn event_views(events: Seq<Event>) -> Seq<EventView> {
    Seq::new(events.len(), |q: int| events[q]@)
}

/// The operation in iteration `iter`, which starts `ii` cycles after the one before.
pub open spec fn event(op: OpView, ii: int, iter: int) -> EventView {
    EventView {
        start: op.t + iter * ii,
        dur: op.d,
        name: op.name,
        resource: op.resource,
        iter,
    }
}

/// All operations of the first `n` iterations, iteration by iteration.
pub open spec fn events(ops: Seq<OpView>, ii: int, n: nat) -> Seq<EventView>
    decreases n,
{
    if n == 0 {
        seq![]
    } else {
        events(ops, ii, (n - 1) as nat) + Seq::new(ops.len(), |i: int| event(ops[i], ii, n - 1))
    }
}

/// `order` lists every event, by start cycle; those with the same start cycle stay as they were.
pub open spec fn in_order(events: Seq<EventView>, order: Seq<int>) -> bool {
    &&& order.len() == events.len()
    &&& forall|a: int| 0 <= a < order.len() ==> 0 <= #[trigger] order[a] < events.len()
    &&& forall|a: int, b: int|
        0 <= a < b < order.len() ==> comes_before(events, #[trigger] order[a], #[trigger] order[b])
}

/// The event at position `p` starts before the one at position `q`, or in the same cycle and
/// comes first.
pub open spec fn comes_before(events: Seq<EventView>, p: int, q: int) -> bool {
    events[p].start < events[q].start || (events[p].start == events[q].start && p < q)
}

/// The placed operation is the event, in some lane.
pub open spec fn places(event: EventView, placed: PlacedView) -> bool {
    &&& placed.start == event.start
    &&& placed.dur == event.dur
    &&& placed.op == event.name
    &&& placed.resource == event.resource
    &&& placed.iter == event.iter
}

/// The placed operations are the events in this order.
pub open spec fn follows(events: Seq<EventView>, order: Seq<int>, placed: Seq<PlacedView>) -> bool {
    &&& placed.len() == order.len()
    &&& forall|k: int| 0 <= k < placed.len() ==> places(events[order[k]], #[trigger] placed[k])
}

/// The cycle in which the last of the first `k` operations in the lane ends; a lane that none of
/// them is in has always been free.
pub open spec fn lane_end(placed: Seq<PlacedView>, k: int, resource: int, lane: int) -> int
    decreases k,
{
    if k <= 0 {
        i32::MIN as int
    } else if placed[k - 1].resource == resource && placed[k - 1].lane == lane {
        placed[k - 1].start + placed[k - 1].dur
    } else {
        lane_end(placed, k - 1, resource, lane)
    }
}

/// The operation at position `k` is in the first lane of its resource that is free by the time it
/// starts.
pub open spec fn in_first_free_lane(placed: Seq<PlacedView>, k: int) -> bool {
    let p = placed[k];
    &&& 0 <= p.lane
    &&& lane_end(placed, k, p.resource, p.lane) <= p.start
    &&& forall|lane: int|
        0 <= lane < p.lane ==> #[trigger] lane_end(placed, k, p.resource, lane) > p.start
}

/// The lanes that a resource has before anything is placed: one for each unit, and at least one.
pub open spec fn unit_lanes(limit: int) -> int {
    if limit < 1 {
        1
    } else {
        limit
    }
}

/// The lanes of a resource: one for each unit that the machine has, at least one, and as many as
/// the first `k` operations take.
pub open spec fn lane_count(limit: int, placed: Seq<PlacedView>, resource: int, k: int) -> int
    decreases k,
{
    if k <= 0 {
        unit_lanes(limit)
    } else {
        let rest = lane_count(limit, placed, resource, k - 1);
        if placed[k - 1].resource == resource && placed[k - 1].lane >= rest {
            placed[k - 1].lane + 1
        } else {
            rest
        }
    }
}

/// The number of iterations; there are none when `n_iters` is negative.
pub open spec fn iterations(n_iters: int) -> nat {
    if n_iters < 0 {
        0
    } else {
        n_iters as nat
    }
}

/// The operations of `n_iters` iterations are placed by start cycle, each in the first lane that
/// is free.
pub open spec fn is_packing(
    ops: Seq<OpView>,
    ii: int,
    n_iters: int,
    placed: Seq<PlacedView>,
) -> bool {
    let all = events(ops, ii, iterations(n_iters));
    &&& exists|order: Seq<int>| #[trigger] in_order(all, order) && follows(all, order, placed)
    &&& forall|k: int| 0 <= k < placed.len() ==> #[trigger] in_first_free_lane(placed, k)
}

/// The operations of `n_iters` iterations are placed by start cycle, each in the first lane that
/// is free, and `lanes` counts the lanes of each resource.
pub open spec fn packed(
    ops: Seq<OpView>,
    limits: Seq<i32>,
    ii: int,
    n_iters: int,
    placed: Seq<PlacedView>,
    lanes: Seq<i32>,
) -> bool {
    &&& is_packing(ops, ii, n_iters, placed)
    &&& lanes.len() == limits.len()
    &&& forall|r: int|
        0 <= r < lanes.len() ==> #[trigger] lanes[r] == lane_count(
            limits[r] as int,
            placed,
            r,
            placed.len() as int,
        )
}

/// The lanes of each resource can be counted in the range of `i32`.
pub open spec fn counts_fit(limits: Seq<i32>, placed: Seq<PlacedView>) -> bool {
    forall|r: int|
        0 <= r < limits.len() ==> #[trigger] lane_count(
            limits[r] as int,
            placed,
            r,
            placed.len() as int,
        ) <= i32::MAX
}

/// Start and end of the operation in iteration `iter` are in the range of `i32`.
pub open spec fn event_fits(op: OpView, ii: int, iter: int) -> bool {
    &&& in_i32(iter * ii)
    &&& in_i32(op.t + iter * ii)
    &&& in_i32(op.t + iter * ii + op.d)
}

/// Every operation of every iteration has its cycles in the range of `i32`.
pub open spec fn timeline_fits(ops: Seq<OpView>, ii: int, n_iters: int) -> bool {
    forall|i: int, iter: int|
        0 <= i < ops.len() && 0 <= iter < n_iters ==> #[trigger] event_fits(ops[i], ii, iter)
}

/// The number of events.
pub proof fn events_len(ops: Seq<OpView>, ii: int, n: nat)
    ensures
        events(ops, ii, n).len() == n * ops.len(),
    decreases n,
{
    if n > 0 {
        events_len(ops, ii, (n - 1) as nat);
        assert(n * ops.len() == (n - 1) * ops.len() + ops.len()) by (nonlinear_arith)
            requires
                n > 0,
        ;
    } else {
        assert(n * ops.len() == 0) by (nonlinear_arith)
            requires
                n == 0,
        ;
    }
}

/// Lists the operations of every iteration.
fn list_events(ops: &[Op], ii: i32, n_iters: i32) -> (r: Vec<Event>)
    requires
        timeline_fits(op_views(ops@), ii as int, n_iters as int),
    ensures
        event_views(r@) == events(op_views(ops@), ii as int, iterations(n_iters as int)),
{
    let ghost views = op_views(ops@);
    let n = ops.len();
    let mut list: Vec<Event> = Vec::new();
    let mut iter: i32 = 0;
    assert(event_views(list@) =~= events(views, ii as int, 0));
    while iter < n_iters
        invariant
            0 <= iter <= iterations(n_iters as int),
            n == ops@.len(),
            views == op_views(ops@),
            timeline_fits(views, ii as int, n_iters as int),
            event_views(list@) == events(views, ii as int, iter as nat),
        decreases n_iters - iter,
    {
        let ghost before = event_views(list@);
        let ghost round = Seq::new(views.len(), |i: int| event(views[i], ii as int, iter as int));
        let mut i: usize = 0;
        assert(event_views(list@) =~= before + round.take(0));
        while i < n
            invariant
                0 <= iter < n_iters,
                i <= n,
                n == ops@.len(),
                views == op_views(ops@),
                timeline_fits(views, ii as int, n_iters as int),
                round == Seq::new(views.len(), |i: int| event(views[i], ii as int, iter as int)),
                event_views(list@) == before + round.take(i as int),
            decreases n - i,
        {
            let op = &ops[i];
            let ghost earlier = list@;
            proof {
                assert(event_fits(views[i as int], ii as int, iter as int));
            }
            let offset: i32 = iter * ii;
            list.push(
                Event {
                    start: op.t + offset,
                    dur: op.d,
                    name: op.name.clone(),
                    resource: op.resource,
                    iter,
                },
            );
            proof {
                let added = list@[earlier.len() as int];
                assert(added@ =~= round[i as int]);
                assert(event_views(list@) =~= event_views(earlier).push(added@));
                assert(round.take(i + 1) =~= round.take(i as int).push(round[i as int]));
                assert(event_views(list@) =~= before + round.take(i + 1));
            }
            i = i + 1;
        }
        proof {
            assert(round.take(n as int) =~= round);
            assert(events(views, ii as int, (iter + 1) as nat) =~= before + round);
        }
        iter = iter + 1;
    }
    list
}

/// The positions in `order` as numbers.
spec fn positions(order: Seq<usize>) -> Seq<int> {
    Seq::new(order.len(), |a: int| order[a] as int)
}

/// Puts events in order: each goes behind those before it that do not start later.
fn sort_events(list: &Vec<Event>) -> (r: Vec<usize>)
    ensures
        in_order(event_views(list@), positions(r@)),
{
    let ghost all = event_views(list@);
    let n = list.len();
    let mut order: Vec<usize> = Vec::new();
    let mut q: usize = 0;
    while q < n
        invariant
            n == list@.len(),
            all == event_views(list@),
            q <= n,
            order@.len() == q,
            forall|a: int| 0 <= a < q ==> (#[trigger] order@[a]) < q,
            forall|a: int, b: int|
                0 <= a < b < q ==> comes_before(
                    all,
                    #[trigger] order@[a] as int,
                    #[trigger] order@[b] as int,
                ),
        decreases n - q,
    {
        let mut at: usize = q;
        while at > 0 && list[order[at - 1]].start > list[q].start
            invariant
                n == list@.len(),
                all == event_views(list@),
                at <= q < n,
                order@.len() == q,
                forall|a: int| 0 <= a < q ==> (#[trigger] order@[a]) < q,
                forall|b: int|
                    at <= b < q ==> all[#[trigger] order@[b] as int].start > all[q as int].start,
            decreases at,
        {
            assert(all[order@[at - 1] as int].start == list@[order@[at - 1] as int].start);
            at = at - 1;
        }
        let ghost before = order@;
        proof {
            if at > 0 {
                assert(all[before[at - 1] as int].start <= all[q as int].start);
            }
            assert forall|a: int| 0 <= a < at implies all[#[trigger] before[a] as int].start <= all[
                q as int
            ].start by {
                if a < at - 1 {
                    assert(comes_before(all, before[a] as int, before[at - 1] as int));
                }
            }
        }
        order.insert(at, q);
        proof {
            assert forall|a: int| 0 <= a < q + 1 implies (#[trigger] order@[a]) < q + 1 by {
                if a < at {
                    assert(order@[a] == before[a]);
                } else if a > at {
                    assert(order@[a] == before[a - 1]);
                }
            }
            assert forall|a: int, b: int| 0 <= a < b < q + 1 implies comes_before(
                all,
                #[trigger] order@[a] as int,
                #[trigger] order@[b] as int,
            ) by {
                if a < at {
                    assert(order@[a] == before[a]);
                } else if a > at {
                    assert(order@[a] == before[a - 1]);
                }
                if b < at {
                    assert(order@[b] == before[b]);
                } else if b > at {
                    assert(order@[b] == before[b - 1]);
                }
            }
        }
        q = q + 1;
    }
    order
}

/// The lanes of a resource that the first `k` operations are in.
spec fn used(placed: Seq<PlacedView>, k: int, resource: int) -> Set<int>
    decreases k,
{
    if k <= 0 {
        Set::empty()
    } else if placed[k - 1].resource == resource {
        used(placed, k - 1, resource).insert(placed[k - 1].lane)
    } else {
        used(placed, k - 1, resource)
    }
}

proof fn used_is_small(placed: Seq<PlacedView>, k: int, resource: int)
    requires
        0 <= k,
    ensures
        used(placed, k, resource).finite(),
        used(placed, k, resource).len() <= k,
    decreases k,
{
    if k > 0 {
        used_is_small(placed, k - 1, resource);
    }
}

proof fn unused_is_free(placed: Seq<PlacedView>, k: int, resource: int, lane: int)
    requires
        !used(placed, k, resource).contains(lane),
    ensures
        lane_end(placed, k, resource, lane) == i32::MIN,
    decreases k,
{
    if k > 0 {
        unused_is_free(placed, k - 1, resource, lane);
    }
}

/// An operation is in a lane that is no higher than the number of operations before it.
proof fn lane_is_low(placed: Seq<PlacedView>, k: int)
    requires
        0 <= k,
        in_first_free_lane(placed, k),
        i32::MIN <= placed[k].start,
    ensures
        placed[k].lane <= k,
{
    let p = placed[k];
    let taken = used(placed, k, p.resource);
    used_is_small(placed, k, p.resource);
    assert forall|lane: int| vstd::set_lib::set_int_range(0, p.lane).contains(
        lane,
    ) implies taken.contains(lane) by {
        if !taken.contains(lane) {
            unused_is_free(placed, k, p.resource, lane);
        }
    }
    vstd::set_lib::lemma_int_range(0, p.lane);
    vstd::set_lib::lemma_len_subset(vstd::set_lib::set_int_range(0, p.lane), taken);
}

/// What is said of the first `k` placed operations stays true when more are placed.
proof fn earlier_stay(placed: Seq<PlacedView>, more: PlacedView, k: int, resource: int, lane: int)
    requires
        0 <= k <= placed.len(),
    ensures
        lane_end(placed.push(more), k, resource, lane) == lane_end(placed, k, resource, lane),
    decreases k,
{
    if k > 0 {
        earlier_stay(placed, more, k - 1, resource, lane);
    }
}

proof fn earlier_count_stays(
    limit: int,
    placed: Seq<PlacedView>,
    more: PlacedView,
    resource: int,
    k: int,
)
    requires
        0 <= k <= placed.len(),
    ensures
        lane_count(limit, placed.push(more), resource, k) == lane_count(limit, placed, resource, k),
    decreases k,
{
    if k > 0 {
        earlier_count_stays(limit, placed, more, resource, k - 1);
    }
}

/// Each machine unit's lane, all of them free.
fn free_lanes(resource_limits: &[i32]) -> (r: Vec<Vec<i32>>)
    ensures
        r@.len() == resource_limits@.len(),
        forall|s: int|
            0 <= s < r@.len() ==> (#[trigger] r@[s])@.len() == lane_count(
                resource_limits@[s] as int,
                seq![],
                s,
                0,
            ),
        forall|s: int, lane: int|
            0 <= s < r@.len() && 0 <= lane < r@[s]@.len() ==> #[trigger] r@[s]@[lane] == i32::MIN,
{
    let n = resource_limits.len();
    let mut lanes: Vec<Vec<i32>> = Vec::new();
    let mut s: usize = 0;
    while s < n
        invariant
            s <= n,
            n == resource_limits@.len(),
            lanes@.len() == s,
            forall|q: int|
                0 <= q < s ==> (#[trigger] lanes@[q])@.len() == lane_count(
                    resource_limits@[q] as int,
                    seq![],
                    q,
                    0,
                ),
            forall|q: int, lane: int|
                0 <= q < s && 0 <= lane < lanes@[q]@.len() ==> #[trigger] lanes@[q]@[lane]
                    == i32::MIN,
        decreases n - s,
    {
        let limit = resource_limits[s];
        let units: usize = if limit < 1 {
            1
        } else {
            limit as usize
        };
        let row: Vec<i32> = vec![i32::MIN; units];
        lanes.push(row);
        s = s + 1;
    }
    lanes
}

/// The first lane that is free by `start`, or the number of lanes.
fn first_free(ends: &Vec<i32>, start: i32) -> (r: usize)
    ensures
        r <= ends@.len(),
        r < ends@.len() ==> ends@[r as int] <= start,
        forall|lane: int| 0 <= lane < r ==> #[trigger] ends@[lane] > start,
{
    let n = ends.len();
    let mut lane: usize = 0;
    while lane < n && ends[lane] > start
        invariant
            lane <= n,
            n == ends@.len(),
            forall|l: int| 0 <= l < lane ==> #[trigger] ends@[l] > start,
        decreases n - lane,
    {
        lane = lane + 1;
    }
    lane
}

/// The ends of the lanes when the operations are placed.
spec fn tracks(lane_ends: Seq<Vec<i32>>, limits: Seq<i32>, placed: Seq<PlacedView>) -> bool {
    &&& lane_ends.len() == limits.len()
    &&& forall|r: int|
        0 <= r < lane_ends.len() ==> (#[trigger] lane_ends[r])@.len() == lane_count(
            limits[r] as int,
            placed,
            r,
            placed.len() as int,
        )
    &&& forall|r: int, lane: int|
        0 <= r < lane_ends.len() && 0 <= lane < lane_ends[r]@.len()
            ==> #[trigger] lane_ends[r]@[lane] == lane_end(placed, placed.len() as int, r, lane)
    &&& forall|r: int, lane: int|
        0 <= r < lane_ends.len() && lane >= lane_ends[r]@.len() ==> #[trigger] lane_end(
            placed,
            placed.len() as int,
            r,
            lane,
        ) == i32::MIN
}

/// One more operation is placed.
proof fn track_step(
    before: Seq<Vec<i32>>,
    after: Seq<Vec<i32>>,
    limits: Seq<i32>,
    placed: Seq<PlacedView>,
    p: PlacedView,
)
    requires
        tracks(before, limits, placed),
        0 <= p.resource < limits.len(),
        0 <= p.lane <= before[p.resource]@.len(),
        in_i32(p.start + p.dur),
        after.len() == before.len(),
        forall|r: int| 0 <= r < before.len() && r != p.resource ==> after[r] == before[r],
        ({
            let ends = before[p.resource]@;
            let grown = if p.lane < ends.len() {
                ends
            } else {
                ends.push(i32::MIN)
            };
            after[p.resource]@ == grown.update(p.lane, (p.start + p.dur) as i32)
        }),
    ensures
        tracks(after, limits, placed.push(p)),
{
    let more = placed.push(p);
    let n = placed.len() as int;
    assert forall|r: int| 0 <= r < after.len() implies (#[trigger] after[r])@.len() == lane_count(
        limits[r] as int,
        more,
        r,
        n + 1,
    ) by {
        earlier_count_stays(limits[r] as int, placed, p, r, n);
        assert(before[r]@.len() == lane_count(limits[r] as int, placed, r, n));
    }
    assert forall|r: int, lane: int| 0 <= r < after.len() && 0 <= lane < after[r]@.len() implies (
    #[trigger] after[r]@[lane]) == lane_end(more, n + 1, r, lane) by {
        earlier_stay(placed, p, n, r, lane);
        if lane < before[r]@.len() {
            assert(before[r]@[lane] == lane_end(placed, n, r, lane));
        }
    }
    assert forall|r: int, lane: int|
        0 <= r < after.len() && lane >= after[r]@.len() implies #[trigger] lane_end(
        more,
        n + 1,
        r,
        lane,
    ) == i32::MIN by {
        earlier_stay(placed, p, n, r, lane);
        assert(lane_end(placed, n, r, lane) == i32::MIN);
    }
}

/// An operation that was in the first free lane still is when one more is placed.
proof fn stays_in_first_free_lane(placed: Seq<PlacedView>, more: PlacedView, i: int)
    requires
        0 <= i < placed.len(),
        in_first_free_lane(placed, i),
    ensures
        in_first_free_lane(placed.push(more), i),
{
    let p = placed[i];
    assert(placed.push(more)[i] == p);
    earlier_stay(placed, more, i, p.resource, p.lane);
    assert forall|lane: int| 0 <= lane < p.lane implies #[trigger] lane_end(
        placed.push(more),
        i,
        p.resource,
        lane,
    ) > p.start by {
        earlier_stay(placed, more, i, p.resource, lane);
    }
}

/// An operation that goes into the first lane whose end is not after its start is in the first free
/// lane.
proof fn takes_first_free_lane(
    lane_ends: Seq<Vec<i32>>,
    limits: Seq<i32>,
    placed: Seq<PlacedView>,
    p: PlacedView,
)
    requires
        tracks(lane_ends, limits, placed),
        0 <= p.resource < limits.len(),
        0 <= p.lane <= lane_ends[p.resource]@.len(),
        i32::MIN <= p.start,
        p.lane < lane_ends[p.resource]@.len() ==> lane_ends[p.resource]@[p.lane] <= p.start,
        forall|lane: int|
            0 <= lane < p.lane ==> #[trigger] lane_ends[p.resource]@[lane] > p.start,
    ensures
        in_first_free_lane(placed.push(p), placed.len() as int),
{
    let n = placed.len() as int;
    earlier_stay(placed, p, n, p.resource, p.lane);
    assert(lane_end(placed, n, p.resource, p.lane) <= p.start);
    assert forall|lane: int| 0 <= lane < p.lane implies #[trigger] lane_end(
        placed.push(p),
        n,
        p.resource,
        lane,
    ) > p.start by {
        earlier_stay(placed, p, n, p.resource, lane);
        assert(lane_ends[p.resource]@[lane] > p.start);
    }
}

/// There are no more lanes than machine units or placed operations.
proof fn lane_count_is_small(limit: int, placed: Seq<PlacedView>, resource: int, k: int)
    requires
        0 <= k <= placed.len(),
        forall|i: int| 0 <= i < k ==> (#[trigger] placed[i]).lane <= i,
    ensures
        1 <= lane_count(limit, placed, resource, k),
        limit <= lane_count(limit, placed, resource, k),
        lane_count(limit, placed, resource, k) <= limit || lane_count(limit, placed, resource, k)
            <= k || lane_count(limit, placed, resource, k) <= 1,
    decreases k,
{
    if k > 0 {
        lane_count_is_small(limit, placed, resource, k - 1);
    }
}

/// Places the operations of `n_iters` iterations, which start `ii` cycles apart, in lanes, and
/// counts the lanes of each resource.
pub fn place_in_lanes(ops: &[Op], resource_limits: &[i32], ii: i32, n_iters: i32) -> (r: (
    Vec<Placed>,
    Vec<usize>,
))
    requires
        timeline_fits(op_views(ops@), ii as int, n_iters as int),
        n_iters > 0 ==> forall|i: int|
            0 <= i < ops@.len() ==> (#[trigger] ops@[i]).resource < resource_limits@.len(),
    ensures
        is_packing(op_views(ops@), ii as int, n_iters as int, placed_views(r.0@)),
        r.1@.len() == resource_limits@.len(),
        forall|s: int|
            0 <= s < r.1@.len() ==> #[trigger] r.1@[s] == lane_count(
                resource_limits@[s] as int,
                placed_views(r.0@),
                s,
                r.0@.len() as int,
            ),
        n_iters >= 0 ==> exists|order: Seq<int>|
            is_placement(
                op_views(ops@),
                ii as int,
                n_iters as int,
                placed_views(r.0@),
                order,
            ),
{
    let ghost views = op_views(ops@);
    let list = list_events(ops, ii, n_iters);
    let ghost all = event_views(list@);
    let order = sort_events(&list);
    let ghost positions = positions(order@);
    let n = order.len();
    proof {
        assert forall|q: int| 0 <= q < all.len() implies event_in_range(
            #[trigger] all[q],
            resource_limits@.len() as int,
        ) by {
            events_in_range(
                views,
                ii as int,
                n_iters as int,
                iterations(n_iters as int),
                resource_limits@.len() as int,
                q,
            );
        }
    }
    let mut lane_ends = free_lanes(resource_limits);
    let mut placed: Vec<Placed> = Vec::new();
    let mut k: usize = 0;
    assert(placed_views(placed@) =~= seq![]);
    while k < n
        invariant
            all == event_views(list@),
            in_order(all, positions),
            positions == crate::lanes::positions(order@),
            n == order@.len(),
            k <= n,
            placed@.len() == k,
            tracks(lane_ends@, resource_limits@, placed_views(placed@)),
            forall|q: int|
                0 <= q < all.len() ==> event_in_range(
                    #[trigger] all[q],
                    resource_limits@.len() as int,
                ),
            forall|i: int|
                0 <= i < k ==> places(all[positions[i]], #[trigger] placed_views(placed@)[i]),
            forall|i: int|
                0 <= i < k ==> #[trigger] in_first_free_lane(placed_views(placed@), i),
        decreases n - k,
    {
        let ghost before = placed_views(placed@);
        let ghost ends_before = lane_ends@;
        assert(0 <= positions[k as int] < all.len());
        let event = &list[order[k]];
        proof {
            assert(event_in_range(all[positions[k as int]], resource_limits@.len() as int));
            assert(all[positions[k as int]] == event@);
        }
        let resource = event.resource;
        let start = event.start;
        let dur = event.dur;
        let lane = first_free(&lane_ends[resource], start);
        if lane == lane_ends[resource].len() {
            lane_ends[resource].push(i32::MIN);
        }
        lane_ends[resource][lane] = start + dur;
        placed.push(
            Placed { resource, lane, start, dur, op: event.name.clone(), iter: event.iter },
        );
        proof {
            let p = placed@[k as int]@;
            let after = placed_views(placed@);
            assert(after =~= before.push(p));
            track_step(ends_before, lane_ends@, resource_limits@, before, p);
            takes_first_free_lane(ends_before, resource_limits@, before, p);
            assert forall|i: int| 0 <= i < k + 1 implies #[trigger] in_first_free_lane(
                after,
                i,
            ) by {
                if i < k {
                    stays_in_first_free_lane(before, p, i);
                }
            }
            assert forall|i: int| 0 <= i < k + 1 implies places(
                all[positions[i]],
                #[trigger] after[i],
            ) by {
                if i < k {
                    assert(after[i] == before[i]);
                }
            }
        }
        k = k + 1;
    }
    let ghost views_placed = placed_views(placed@);
    assert(follows(all, positions, views_placed));
    let n_resources = resource_limits.len();
    let mut counts: Vec<usize> = Vec::new();
    let mut s: usize = 0;
    while s < n_resources
        invariant
            s <= n_resources,
            n_resources == resource_limits@.len(),
            tracks(lane_ends@, resource_limits@, views_placed),
            counts@.len() == s,
            forall|q: int|
                0 <= q < s ==> #[trigger] counts@[q] == lane_count(
                    resource_limits@[q] as int,
                    views_placed,
                    q,
                    views_placed.len() as int,
                ),
        decreases n_resources - s,
    {
        counts.push(lane_ends[s].len());
        s = s + 1;
    }
    proof {
        if n_iters >= 0 {
            assert(is_packing(views, ii as int, n_iters as int, views_placed));
            packings_place_everything(views, ii as int, n_iters as int, views_placed);
        }
    }
    let r = (placed, counts);
    assert(placed_views(r.0@) == views_placed);
    r
}

/// Whether all counts are in the range of `i32`.
pub fn fit_counts(counts: &Vec<usize>) -> (r: bool)
    ensures
        r == forall|s: int| 0 <= s < counts@.len() ==> #[trigger] counts@[s] <= i32::MAX,
{
    let n = counts.len();
    let mut s: usize = 0;
    while s < n
        invariant
            s <= n,
            n == counts@.len(),
            forall|q: int| 0 <= q < s ==> #[trigger] counts@[q] <= i32::MAX,
        decreases n - s,
    {
        if counts[s] > i32::MAX as usize {
            return false;
        }
        s = s + 1;
    }
    true
}

/// The same counts in a narrower type.
pub fn narrow_counts(counts: &Vec<usize>) -> (r: Vec<i32>)
    requires
        forall|s: int| 0 <= s < counts@.len() ==> #[trigger] counts@[s] <= i32::MAX,
    ensures
        r@.len() == counts@.len(),
        forall|s: int| 0 <= s < r@.len() ==> #[trigger] r@[s] == counts@[s],
{
    let n = counts.len();
    let mut narrow: Vec<i32> = Vec::new();
    let mut s: usize = 0;
    while s < n
        invariant
            s <= n,
            n == counts@.len(),
            forall|q: int| 0 <= q < n ==> #[trigger] counts@[q] <= i32::MAX,
            narrow@.len() == s,
            forall|q: int| 0 <= q < s ==> #[trigger] narrow@[q] == counts@[q],
        decreases n - s,
    {
        assert(counts@[s as int] <= i32::MAX);
        narrow.push(counts[s] as i32);
        s = s + 1;
    }
    narrow
}

/// Places the operations of `n_iters` iterations, which start `ii` cycles apart, in lanes, and
/// counts the lanes of each resource.
pub fn pack_lanes(ops: &[Op], resource_limits: &[i32], ii: i32, n_iters: i32) -> (r: (
    Vec<Placed>,
    Vec<i32>,
))
    requires
        timeline_fits(op_views(ops@), ii as int, n_iters as int),
        forall|placed: Seq<PlacedView>| #[trigger]
            is_packing(op_views(ops@), ii as int, n_iters as int, placed) ==> counts_fit(
                resource_limits@,
                placed,
            ),
        n_iters > 0 ==> forall|i: int|
            0 <= i < ops@.len() ==> (#[trigger] ops@[i]).resource < resource_limits@.len(),
    ensures
        packed(
            op_views(ops@),
            resource_limits@,
            ii as int,
            n_iters as int,
            placed_views(r.0@),
            r.1@,
        ),
        n_iters >= 0 ==> exists|order: Seq<int>|
            is_placement(
                op_views(ops@),
                ii as int,
                n_iters as int,
                placed_views(r.0@),
                order,
            ),
{
    let (placed, counts) = place_in_lanes(ops, resource_limits, ii, n_iters);
    proof {
        let views = placed_views(placed@);
        assert(counts_fit(resource_limits@, views));
        assert forall|s: int| 0 <= s < counts@.len() implies #[trigger] counts@[s] <= i32::MAX by {
            assert(counts@[s] == lane_count(
                resource_limits@[s] as int,
                views,
                s,
                views.len() as int,
            ));
        }
    }
    let lanes = narrow_counts(&counts);
    (placed, lanes)
}

/// Where the operations of all iterations can be counted in the range of `i32`, so can the lanes.
pub proof fn few_operations_need_few_lanes(
    ops: Seq<OpView>,
    limits: Seq<i32>,
    ii: int,
    n_iters: int,
    placed: Seq<PlacedView>,
)
    requires
        is_packing(ops, ii, n_iters, placed),
        timeline_fits(ops, ii, n_iters),
        iterations(n_iters) * ops.len() <= i32::MAX,
    ensures
        counts_fit(limits, placed),
{
    let n = iterations(n_iters);
    let all = events(ops, ii, n);
    events_len(ops, ii, n);
    let order = choose|order: Seq<int>| #[trigger]
        in_order(all, order) && follows(all, order, placed);
    assert forall|i: int| 0 <= i < placed.len() implies (#[trigger] placed[i]).lane <= i by {
        assert(in_first_free_lane(placed, i));
        starts_fit(ops, ii, n_iters, placed, i);
        lane_is_low(placed, i);
    }
    assert forall|r: int| 0 <= r < limits.len() implies #[trigger] lane_count(
        limits[r] as int,
        placed,
        r,
        placed.len() as int,
    ) <= i32::MAX by {
        lane_count_is_small(limits[r] as int, placed, r, placed.len() as int);
    }
}

/// Placed operations start and end in the range of `i32`.
pub proof fn starts_fit(
    ops: Seq<OpView>,
    ii: int,
    n_iters: int,
    placed: Seq<PlacedView>,
    k: int,
)
    requires
        is_packing(ops, ii, n_iters, placed),
        timeline_fits(ops, ii, n_iters),
        0 <= k < placed.len(),
    ensures
        in_i32(placed[k].start),
        in_i32(placed[k].start + placed[k].dur),
{
    let n = iterations(n_iters);
    let all = events(ops, ii, n);
    let order = choose|order: Seq<int>| #[trigger]
        in_order(all, order) && follows(all, order, placed);
    assert(places(all[order[k]], placed[k]));
    let (i, iter) = event_source(ops, ii, n, order[k]);
    assert(event_fits(ops[i], ii, iter));
}

/// The event has its cycles in the range of `i32` and a resource that there is.
spec fn event_in_range(event: EventView, n_resources: int) -> bool {
    &&& in_i32(event.start)
    &&& in_i32(event.start + event.dur)
    &&& 0 <= event.resource < n_resources
}

proof fn events_in_range(
    ops: Seq<OpView>,
    ii: int,
    n_iters: int,
    n: nat,
    n_resources: int,
    q: int,
)
    requires
        timeline_fits(ops, ii, n_iters),
        n <= iterations(n_iters),
        forall|i: int| 0 <= i < ops.len() ==> 0 <= (#[trigger] ops[i]).resource < n_resources,
        0 <= q < events(ops, ii, n).len(),
    ensures
        event_in_range(events(ops, ii, n)[q], n_resources),
    decreases n,
{
    if n > 0 {
        let before = events(ops, ii, (n - 1) as nat);
        if q < before.len() {
            events_in_range(ops, ii, n_iters, (n - 1) as nat, n_resources, q);
        } else {
            let i = q - before.len();
            assert(event_fits(ops[i], ii, n - 1));
        }
    }
}

/// The last of the first `k` operations in a lane, where there is one.
proof fn lane_end_is_last(placed: Seq<PlacedView>, k: int, resource: int, lane: int) -> (last: int)
    requires
        0 <= k <= placed.len(),
    ensures
        last == -1 ==> lane_end(placed, k, resource, lane) == i32::MIN,
        last == -1 ==> forall|i: int|
            0 <= i < k ==> (#[trigger] placed[i]).resource != resource || placed[i].lane != lane,
        last != -1 ==> 0 <= last < k && placed[last].resource == resource && placed[last].lane
            == lane && lane_end(placed, k, resource, lane) == placed[last].start
            + placed[last].dur,
        last != -1 ==> forall|i: int|
            last < i < k ==> (#[trigger] placed[i]).resource != resource || placed[i].lane != lane,
    decreases k,
{
    if k <= 0 {
        -1
    } else if placed[k - 1].resource == resource && placed[k - 1].lane == lane {
        k - 1
    } else {
        lane_end_is_last(placed, k - 1, resource, lane)
    }
}

/// Placed operations come by start cycle.
proof fn starts_ascend(events: Seq<EventView>, order: Seq<int>, placed: Seq<PlacedView>)
    requires
        in_order(events, order),
        follows(events, order, placed),
    ensures
        forall|i: int, k: int|
            0 <= i < k < placed.len() ==> (#[trigger] placed[i]).start <= (
            #[trigger] placed[k]).start,
{
    assert forall|i: int, k: int| 0 <= i < k < placed.len() implies (#[trigger] placed[i]).start
        <= (#[trigger] placed[k]).start by {
        assert(comes_before(events, order[i], order[k]));
    }
}

/// Of two operations in one lane, the one that is placed first has ended when the other starts.
pub proof fn lanes_do_not_overlap(
    ops: Seq<OpView>,
    limits: Seq<i32>,
    ii: int,
    n_iters: int,
    placed: Seq<PlacedView>,
    lanes: Seq<i32>,
    i: int,
    j: int,
)
    requires
        packed(ops, limits, ii, n_iters, placed, lanes),
        0 <= i < j < placed.len(),
        placed[i].resource == placed[j].resource,
        placed[i].lane == placed[j].lane,
    ensures
        placed[i].start + placed[i].dur <= placed[j].start,
    decreases j,
{
    let all = events(ops, ii, iterations(n_iters));
    let order = choose|order: Seq<int>| #[trigger]
        in_order(all, order) && follows(all, order, placed);
    starts_ascend(all, order, placed);
    assert(in_first_free_lane(placed, j));
    let last = lane_end_is_last(placed, j, placed[j].resource, placed[j].lane);
    if last != i {
        assert(i < last);
        lanes_do_not_overlap(ops, limits, ii, n_iters, placed, lanes, i, last);
        assert(placed[last].start <= placed[j].start);
    }
}

/// An operation is in a lane only if in every lower lane of its resource an operation is running
/// when it starts.
pub proof fn lower_lanes_are_busy(
    ops: Seq<OpView>,
    limits: Seq<i32>,
    ii: int,
    n_iters: int,
    placed: Seq<PlacedView>,
    lanes: Seq<i32>,
    k: int,
    lane: int,
)
    requires
        packed(ops, limits, ii, n_iters, placed, lanes),
        0 <= k < placed.len(),
        i32::MIN <= placed[k].start,
        0 <= lane < placed[k].lane,
    ensures
        exists|i: int|
            0 <= i < k && (#[trigger] placed[i]).resource == placed[k].resource && placed[i].lane
                == lane && placed[i].start <= placed[k].start < placed[i].start + placed[i].dur,
{
    let all = events(ops, ii, iterations(n_iters));
    let order = choose|order: Seq<int>| #[trigger]
        in_order(all, order) && follows(all, order, placed);
    starts_ascend(all, order, placed);
    assert(in_first_free_lane(placed, k));
    assert(lane_end(placed, k, placed[k].resource, lane) > placed[k].start);
    let last = lane_end_is_last(placed, k, placed[k].resource, lane);
    assert(placed[last].start <= placed[k].start);
}

/// Every operation of every iteration is placed exactly once.
pub proof fn every_event_is_placed(
    ops: Seq<OpView>,
    limits: Seq<i32>,
    ii: int,
    n_iters: int,
    placed: Seq<PlacedView>,
    lanes: Seq<i32>,
    q: int,
)
    requires
        packed(ops, limits, ii, n_iters, placed, lanes),
        0 <= q < events(ops, ii, iterations(n_iters)).len(),
    ensures
        placed.len() == iterations(n_iters) * ops.len(),
        exists|k: int|
            0 <= k < placed.len() && places(
                events(ops, ii, iterations(n_iters))[q],
                #[trigger] placed[k],
            ),
{
    let all = events(ops, ii, iterations(n_iters));
    events_len(ops, ii, iterations(n_iters));
    let order = choose|order: Seq<int>| #[trigger]
        in_order(all, order) && follows(all, order, placed);
    let k = position_of(all, order, q);
    assert(places(all[order[k]], placed[k]));
}

/// An order lists every event.
proof fn position_of(events: Seq<EventView>, order: Seq<int>, q: int) -> (k: int)
    requires
        in_order(events, order),
        0 <= q < events.len(),
    ensures
        0 <= k < order.len(),
        order[k] == q,
{
    if !order.contains(q) {
        assert(order.no_duplicates()) by {
            assert forall|a: int, b: int|
                0 <= a < order.len() && 0 <= b < order.len() && a != b implies order[a]
                != order[b] by {
                if a < b {
                    assert(comes_before(events, order[a], order[b]));
                } else {
                    assert(comes_before(events, order[b], order[a]));
                }
            }
        }
        order.unique_seq_to_set();
        let range = vstd::set_lib::set_int_range(0, events.len() as int);
        vstd::set_lib::lemma_int_range(0, events.len() as int);
        let rest = range.remove(q);
        assert forall|p: int| order.to_set().contains(p) implies rest.contains(p) by {
            let a = choose|a: int| 0 <= a < order.len() && order[a] == p;
            assert(0 <= order[a] < events.len());
        }
        vstd::set_lib::lemma_len_subset(order.to_set(), rest);
    }
    choose|k: int| 0 <= k < order.len() && order[k] == q
}

/// The operation and the iteration that an event is of.
pub proof fn event_source(ops: Seq<OpView>, ii: int, n: nat, q: int) -> (r: (int, int))
    requires
        0 <= q < events(ops, ii, n).len(),
    ensures
        0 <= r.0 < ops.len(),
        0 <= r.1 < n,
        q == r.1 * ops.len() + r.0,
        events(ops, ii, n)[q] == event(ops[r.0], ii, r.1),
    decreases n,
{
    if n == 0 {
        (0, 0)
    } else {
        let before = events(ops, ii, (n - 1) as nat);
        events_len(ops, ii, (n - 1) as nat);
        if q < before.len() {
            event_source(ops, ii, (n - 1) as nat, q)
        } else {
            (q - before.len(), n - 1)
        }
    }
}

/// A lane that an operation is in is counted.
pub proof fn lane_is_counted(limit: int, placed: Seq<PlacedView>, resource: int, k: int)
    requires
        0 <= k <= placed.len(),
        forall|i: int| 0 <= i < k ==> 0 <= (#[trigger] placed[i]).lane,
    ensures
        1 <= lane_count(limit, placed, resource, k),
        limit <= lane_count(limit, placed, resource, k),
        forall|i: int|
            0 <= i < k && (#[trigger] placed[i]).resource == resource ==> placed[i].lane
                < lane_count(limit, placed, resource, k),
    decreases k,
{
    if k > 0 {
        lane_is_counted(limit, placed, resource, k - 1);
    }
}

/// Every resource has a lane for each unit and at least one, every operation is in a lane that is
/// counted, and it is one of the operations that were to be placed.
pub proof fn placed_operations_are_sound(
    ops: Seq<OpView>,
    limits: Seq<i32>,
    ii: int,
    n_iters: int,
    placed: Seq<PlacedView>,
    lanes: Seq<i32>,
)
    requires
        packed(ops, limits, ii, n_iters, placed, lanes),
        forall|i: int| 0 <= i < ops.len() ==> 0 <= (#[trigger] ops[i]).resource < limits.len(),
    ensures
        forall|r: int| 0 <= r < lanes.len() ==> #[trigger] lanes[r] >= 1 && lanes[r] >= limits[r],
        forall|k: int|
            0 <= k < placed.len() ==> 0 <= (#[trigger] placed[k]).resource < lanes.len() && 0
                <= placed[k].lane < lanes[placed[k].resource] && names_an_operation(
                ops,
                placed[k].op,
            ),
{
    let all = events(ops, ii, iterations(n_iters));
    let order = choose|order: Seq<int>| #[trigger]
        in_order(all, order) && follows(all, order, placed);
    let n = placed.len() as int;
    assert forall|i: int| 0 <= i < n implies 0 <= (#[trigger] placed[i]).lane by {
        assert(in_first_free_lane(placed, i));
    }
    assert forall|r: int| 0 <= r < lanes.len() implies #[trigger] lanes[r] >= 1 && lanes[r]
        >= limits[r] by {
        lane_is_counted(limits[r] as int, placed, r, n);
    }
    assert forall|k: int| 0 <= k < n implies 0 <= (#[trigger] placed[k]).resource < lanes.len()
        && 0 <= placed[k].lane < lanes[placed[k].resource] && names_an_operation(
        ops,
        placed[k].op,
    ) by {
        assert(places(all[order[k]], placed[k]));
        let (i, iter) = event_source(ops, ii, iterations(n_iters), order[k]);
        assert(ops[i].name == placed[k].op);
        let r = placed[k].resource;
        lane_is_counted(limits[r] as int, placed, r, n);
    }
}

/// An operation has the name.
pub open spec fn names_an_operation(ops: Seq<OpView>, name: Seq<char>) -> bool {
    exists|i: int| 0 <= i < ops.len() && (#[trigger] ops[i]).name == name
}

/// Two orders of the same events are the same.
proof fn order_is_unique(events: Seq<EventView>, a: Seq<int>, b: Seq<int>, k: int)
    requires
        in_order(events, a),
        in_order(events, b),
        0 <= k < events.len(),
    ensures
        a[k] == b[k],
    decreases k,
{
    assert forall|i: int| 0 <= i < k implies a[i] == b[i] by {
        order_is_unique(events, a, b, i);
    }
    if a[k] != b[k] {
        let i = position_of(events, b, a[k]);
        let j = position_of(events, a, b[k]);
        if i < k {
            assert(a[i] == b[i]);
            assert(comes_before(events, a[i], a[k]));
        }
        if j < k {
            assert(a[j] == b[j]);
            assert(comes_before(events, b[j], b[k]));
        }
        assert(comes_before(events, b[k], b[i]));
        assert(comes_before(events, a[k], a[j]));
    }
}

proof fn lane_end_of_same(
    a: Seq<PlacedView>,
    b: Seq<PlacedView>,
    k: int,
    resource: int,
    lane: int,
)
    requires
        forall|i: int| 0 <= i < k ==> #[trigger] a[i] == b[i],
    ensures
        lane_end(a, k, resource, lane) == lane_end(b, k, resource, lane),
    decreases k,
{
    if k > 0 {
        assert(a[k - 1] == b[k - 1]);
        lane_end_of_same(a, b, k - 1, resource, lane);
    }
}

/// The same operations are always packed in the same way.
pub proof fn packing_is_unique(
    ops: Seq<OpView>,
    limits: Seq<i32>,
    ii: int,
    n_iters: int,
    a: (Seq<PlacedView>, Seq<i32>),
    b: (Seq<PlacedView>, Seq<i32>),
)
    requires
        packed(ops, limits, ii, n_iters, a.0, a.1),
        packed(ops, limits, ii, n_iters, b.0, b.1),
    ensures
        a == b,
{
    let all = events(ops, ii, iterations(n_iters));
    let order_a = choose|order: Seq<int>| #[trigger]
        in_order(all, order) && follows(all, order, a.0);
    let order_b = choose|order: Seq<int>| #[trigger]
        in_order(all, order) && follows(all, order, b.0);
    assert forall|k: int| 0 <= k < all.len() implies order_a[k] == order_b[k] by {
        order_is_unique(all, order_a, order_b, k);
    }
    assert(order_a =~= order_b);
    assert forall|k: int| 0 <= k < a.0.len() implies #[trigger] a.0[k] == b.0[k] by {
        placed_is_unique(all, order_a, a.0, b.0, k);
    }
    assert(a.0 =~= b.0);
    assert(a.1 =~= b.1);
}

proof fn placed_is_unique(
    events: Seq<EventView>,
    order: Seq<int>,
    a: Seq<PlacedView>,
    b: Seq<PlacedView>,
    k: int,
)
    requires
        follows(events, order, a),
        follows(events, order, b),
        forall|k: int| 0 <= k < a.len() ==> #[trigger] in_first_free_lane(a, k),
        forall|k: int| 0 <= k < b.len() ==> #[trigger] in_first_free_lane(b, k),
        0 <= k < a.len(),
    ensures
        a[k] == b[k],
    decreases k,
{
    assert forall|i: int| 0 <= i < k implies #[trigger] a[i] == b[i] by {
        placed_is_unique(events, order, a, b, i);
    }
    assert(places(events[order[k]], a[k]) && places(events[order[k]], b[k]));
    assert(in_first_free_lane(a, k) && in_first_free_lane(b, k));
    lane_end_of_same(a, b, k, a[k].resource, a[k].lane);
    lane_end_of_same(a, b, k, b[k].resource, b[k].lane);
    assert(!(a[k].lane < b[k].lane)) by {
        if a[k].lane < b[k].lane {
            assert(lane_end(b, k, b[k].resource, a[k].lane) > b[k].start);
        }
    }
    assert(!(b[k].lane < a[k].lane)) by {
        if b[k].lane < a[k].lane {
            assert(lane_end(a, k, a[k].resource, b[k].lane) > a[k].start);
        }
    }
    assert(a[k] =~= b[k]);
}

/// The first `n` cycles of an operation that are `m` modulo `ii`.
pub open spec fn slot_count(op: OpView, ii: int, m: int, n: int) -> int
    decreases n,
{
    if n <= 0 {
        0
    } else {
        slot_count(op, ii, m, n - 1) + if (op.t + n - 1) % ii == m {
            1int
        } else {
            0
        }
    }
}

/// The cycles of the first `n` operations on the resource that are `m` modulo `ii`.
pub open spec fn slot_load(ops: Seq<OpView>, resource: int, ii: int, m: int, n: int) -> int
    decreases n,
{
    if n <= 0 {
        0
    } else {
        slot_load(ops, resource, ii, m, n - 1) + if ops[n - 1].resource == resource {
            slot_count(ops[n - 1], ii, m, ops[n - 1].d)
        } else {
            0
        }
    }
}

/// In no slot of the initiation interval there are more operations on a resource than it has
/// lanes.
pub open spec fn keeps_lanes(ops: Seq<OpView>, limits: Seq<i32>, ii: int) -> bool {
    forall|r: int, m: int|
        0 <= r < limits.len() && 0 <= m < ii ==> #[trigger] slot_load(
            ops,
            r,
            ii,
            m,
            ops.len() as int,
        ) <= unit_lanes(limits[r] as int)
}

/// The pairs in `base`, and the operation at position `i` with each of its first `n` cycles that
/// are `m` modulo `ii`.
spec fn with_cycles(
    base: Set<(int, int)>,
    op: OpView,
    i: int,
    ii: int,
    m: int,
    n: int,
) -> Set<(int, int)>
    decreases n,
{
    if n <= 0 {
        base
    } else {
        let rest = with_cycles(base, op, i, ii, m, n - 1);
        if (op.t + n - 1) % ii == m {
            rest.insert((i, n - 1))
        } else {
            rest
        }
    }
}

proof fn cycles_are_counted(
    base: Set<(int, int)>,
    op: OpView,
    i: int,
    ii: int,
    m: int,
    n: int,
)
    requires
        base.finite(),
        forall|q: int| !#[trigger] base.contains((i, q)),
    ensures
        with_cycles(base, op, i, ii, m, n).finite(),
        with_cycles(base, op, i, ii, m, n).len() == base.len() + slot_count(op, ii, m, n),
        forall|j: int, q: int| #[trigger]
            with_cycles(base, op, i, ii, m, n).contains((j, q)) <==> base.contains((j, q)) || (j
                == i && 0 <= q < n && (op.t + q) % ii == m),
    decreases n,
{
    if n > 0 {
        cycles_are_counted(base, op, i, ii, m, n - 1);
    }
}

/// The pairs of one of the first `n` operations on the resource and one of its cycles that are `m`
/// modulo `ii`.
spec fn cycle_pairs(ops: Seq<OpView>, resource: int, ii: int, m: int, n: int) -> Set<(int, int)>
    decreases n,
{
    if n <= 0 {
        Set::empty()
    } else {
        let rest = cycle_pairs(ops, resource, ii, m, n - 1);
        if ops[n - 1].resource == resource {
            with_cycles(rest, ops[n - 1], n - 1, ii, m, ops[n - 1].d)
        } else {
            rest
        }
    }
}

proof fn pairs_are_counted(ops: Seq<OpView>, resource: int, ii: int, m: int, n: int)
    requires
        n <= ops.len(),
    ensures
        cycle_pairs(ops, resource, ii, m, n).finite(),
        cycle_pairs(ops, resource, ii, m, n).len() == slot_load(ops, resource, ii, m, n),
        forall|j: int, q: int| #[trigger]
            cycle_pairs(ops, resource, ii, m, n).contains((j, q)) <==> 0 <= j < n
                && ops[j].resource == resource && 0 <= q < ops[j].d && (ops[j].t + q) % ii == m,
    decreases n,
{
    if n > 0 {
        pairs_are_counted(ops, resource, ii, m, n - 1);
        if ops[n - 1].resource == resource {
            cycles_are_counted(
                cycle_pairs(ops, resource, ii, m, n - 1),
                ops[n - 1],
                n - 1,
                ii,
                m,
                ops[n - 1].d,
            );
        }
    }
}

/// The operation that is placed at position `a` is that at position `pair.0`, in some iteration,
/// and `cycle` is its cycle number `pair.1`.
spec fn runs_at(
    ops: Seq<OpView>,
    ii: int,
    order: Seq<int>,
    placed: Seq<PlacedView>,
    a: int,
    cycle: int,
    pair: (int, int),
) -> bool {
    &&& 0 <= a < placed.len()
    &&& 0 <= pair.0 < ops.len()
    &&& placed[a].resource == ops[pair.0].resource
    &&& placed[a].start + pair.1 == cycle
    &&& 0 <= pair.1 < ops[pair.0].d
    &&& exists|iter: int|
        #![trigger iter * ii]
        placed[a].start == ops[pair.0].t + iter * ii && order[a] == iter * ops.len() + pair.0
}

/// An operation in the lane runs in the cycle.
spec fn lane_runs(
    ops: Seq<OpView>,
    ii: int,
    order: Seq<int>,
    placed: Seq<PlacedView>,
    resource: int,
    lane: int,
    cycle: int,
    pair: (int, int),
) -> bool {
    exists|a: int| #[trigger]
        runs_at(ops, ii, order, placed, a, cycle, pair) && placed[a].resource == resource
            && placed[a].lane == lane
}

/// What runs when an operation is placed.
proof fn placed_runs_at(
    ops: Seq<OpView>,
    ii: int,
    n: nat,
    order: Seq<int>,
    placed: Seq<PlacedView>,
    a: int,
    cycle: int,
) -> (pair: (int, int))
    requires
        in_order(events(ops, ii, n), order),
        follows(events(ops, ii, n), order, placed),
        0 <= a < placed.len(),
        placed[a].start <= cycle < placed[a].start + placed[a].dur,
    ensures
        runs_at(ops, ii, order, placed, a, cycle, pair),
{
    let all = events(ops, ii, n);
    assert(places(all[order[a]], placed[a]));
    let (i, iter) = event_source(ops, ii, n, order[a]);
    let _ = iter * ii;
    (i, cycle - placed[a].start)
}

/// What runs in different lanes differs.
proof fn lanes_run_apart(
    ops: Seq<OpView>,
    ii: int,
    n: nat,
    order: Seq<int>,
    placed: Seq<PlacedView>,
    a: int,
    b: int,
    cycle: int,
    pair: (int, int),
)
    requires
        1 <= ii,
        in_order(events(ops, ii, n), order),
        follows(events(ops, ii, n), order, placed),
        runs_at(ops, ii, order, placed, a, cycle, pair),
        runs_at(ops, ii, order, placed, b, cycle, pair),
    ensures
        a == b,
{
    let t = ops[pair.0].t;
    let x = choose|iter: int|
        #![trigger iter * ii]
        placed[a].start == t + iter * ii && order[a] == iter * ops.len() + pair.0;
    let y = choose|iter: int|
        #![trigger iter * ii]
        placed[b].start == t + iter * ii && order[b] == iter * ops.len() + pair.0;
    assert(x == y) by (nonlinear_arith)
        requires
            x * ii == y * ii,
            1 <= ii,
    ;
    if a < b {
        assert(comes_before(events(ops, ii, n), order[a], order[b]));
    }
    if b < a {
        assert(comes_before(events(ops, ii, n), order[b], order[a]));
    }
}

/// A cycle of an iteration is the same slot as that cycle of the first.
proof fn same_slot(t: int, q: int, iter: int, ii: int)
    requires
        1 <= ii,
    ensures
        (t + q) % ii == (t + iter * ii + q) % ii,
{
    vstd::arithmetic::div_mod::lemma_mod_multiples_vanish(iter, t + q, ii);
    assert(ii * iter == iter * ii) by (nonlinear_arith);
}

/// Where the operations keep the lanes of their resources in each slot of the initiation interval,
/// an operation is in one of those.
proof fn lane_is_of_a_unit(
    ops: Seq<OpView>,
    limits: Seq<i32>,
    ii: int,
    n_iters: int,
    placed: Seq<PlacedView>,
    lanes: Seq<i32>,
    k: int,
)
    requires
        1 <= ii,
        packed(ops, limits, ii, n_iters, placed, lanes),
        keeps_lanes(ops, limits, ii),
        forall|i: int| 0 <= i < ops.len() ==> (#[trigger] ops[i]).d >= 1,
        0 <= k < placed.len(),
        0 <= placed[k].resource < limits.len(),
        i32::MIN <= placed[k].start,
    ensures
        placed[k].lane < unit_lanes(limits[placed[k].resource] as int),
{
    let n = iterations(n_iters);
    let all = events(ops, ii, n);
    let order = choose|order: Seq<int>| #[trigger]
        in_order(all, order) && follows(all, order, placed);
    let r = placed[k].resource;
    let cycle = placed[k].start;
    let top = placed[k].lane;
    let m = cycle % ii;
    vstd::arithmetic::div_mod::lemma_mod_bound(cycle, ii);
    assert(in_first_free_lane(placed, k));
    let found = Seq::new(
        (top + 1) as nat,
        |lane: int|
            choose|pair: (int, int)| #[trigger]
                lane_runs(ops, ii, order, placed, r, lane, cycle, pair),
    );
    let pairs = cycle_pairs(ops, r, ii, m, ops.len() as int);
    pairs_are_counted(ops, r, ii, m, ops.len() as int);
    assert forall|lane: int| 0 <= lane <= top implies lane_runs(
        ops,
        ii,
        order,
        placed,
        r,
        lane,
        cycle,
        #[trigger] found[lane],
    ) by {
        if lane < top {
            lower_lanes_are_busy(ops, limits, ii, n_iters, placed, lanes, k, lane);
            let a = choose|a: int|
                0 <= a < k && (#[trigger] placed[a]).resource == r && placed[a].lane == lane
                    && placed[a].start <= cycle < placed[a].start + placed[a].dur;
            let pair = placed_runs_at(ops, ii, n, order, placed, a, cycle);
            assert(lane_runs(ops, ii, order, placed, r, lane, cycle, pair));
        } else {
            assert(places(all[order[k]], placed[k]));
            let (i, iter) = event_source(ops, ii, n, order[k]);
            assert(ops[i].d >= 1);
            let pair = placed_runs_at(ops, ii, n, order, placed, k, cycle);
            assert(lane_runs(ops, ii, order, placed, r, lane, cycle, pair));
        }
    }
    assert(found.no_duplicates()) by {
        assert forall|c: int, d: int|
            0 <= c < found.len() && 0 <= d < found.len() && c != d implies found[c] != found[d] by {
            if found[c] == found[d] {
                let pair = found[c];
                assert(lane_runs(ops, ii, order, placed, r, c, cycle, pair));
                assert(lane_runs(ops, ii, order, placed, r, d, cycle, found[d]));
                let a = choose|a: int| #[trigger]
                    runs_at(ops, ii, order, placed, a, cycle, pair) && placed[a].resource == r
                        && placed[a].lane == c;
                let b = choose|b: int| #[trigger]
                    runs_at(ops, ii, order, placed, b, cycle, pair) && placed[b].resource == r
                        && placed[b].lane == d;
                lanes_run_apart(ops, ii, n, order, placed, a, b, cycle, pair);
            }
        }
    }
    assert forall|pair: (int, int)| found.to_set().contains(pair) implies pairs.contains(pair) by {
        let lane = choose|lane: int| 0 <= lane < found.len() && found[lane] == pair;
        assert(lane_runs(ops, ii, order, placed, r, lane, cycle, found[lane]));
        let a = choose|a: int| #[trigger]
            runs_at(ops, ii, order, placed, a, cycle, pair) && placed[a].resource == r
                && placed[a].lane == lane;
        let iter = choose|iter: int|
            #![trigger iter * ii]
            placed[a].start == ops[pair.0].t + iter * ii && order[a] == iter * ops.len() + pair.0;
        same_slot(ops[pair.0].t, pair.1, iter, ii);
        assert(pairs.contains((pair.0, pair.1)));
    }
    found.unique_seq_to_set();
    vstd::set_lib::lemma_len_subset(found.to_set(), pairs);
    assert(slot_load(ops, r, ii, m, ops.len() as int) <= unit_lanes(limits[r] as int));
}

/// Operations that keep the lanes of their resources in each slot of the initiation interval need
/// no others, however many iterations there are.
pub proof fn no_lanes_beyond_the_units(
    ops: Seq<OpView>,
    limits: Seq<i32>,
    ii: int,
    n_iters: int,
    placed: Seq<PlacedView>,
    lanes: Seq<i32>,
    r: int,
)
    requires
        1 <= ii,
        packed(ops, limits, ii, n_iters, placed, lanes),
        timeline_fits(ops, ii, n_iters),
        keeps_lanes(ops, limits, ii),
        forall|i: int|
            0 <= i < ops.len() ==> (#[trigger] ops[i]).d >= 1 && 0 <= ops[i].resource
                < limits.len(),
        0 <= r < limits.len(),
    ensures
        lanes[r] == unit_lanes(limits[r] as int),
{
    let n = iterations(n_iters);
    let all = events(ops, ii, n);
    let order = choose|order: Seq<int>| #[trigger]
        in_order(all, order) && follows(all, order, placed);
    assert forall|k: int| 0 <= k < placed.len() && (#[trigger] placed[k]).resource
        == r implies placed[k].lane < unit_lanes(limits[r] as int) by {
        assert(places(all[order[k]], placed[k]));
        let (i, iter) = event_source(ops, ii, n, order[k]);
        assert(event_fits(ops[i], ii, iter));
        lane_is_of_a_unit(ops, limits, ii, n_iters, placed, lanes, k);
    }
    count_of_units(limits[r] as int, placed, r, placed.len() as int);
}

proof fn count_of_units(limit: int, placed: Seq<PlacedView>, resource: int, k: int)
    requires
        0 <= k <= placed.len(),
        forall|i: int|
            0 <= i < k && (#[trigger] placed[i]).resource == resource ==> placed[i].lane
                < unit_lanes(limit),
    ensures
        lane_count(limit, placed, resource, k) == unit_lanes(limit),
    decreases k,
{
    if k > 0 {
        count_of_units(limit, placed, resource, k - 1);
    }
}

} // verus!
