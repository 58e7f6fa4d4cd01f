//! Rendering the schedule of a graph.

use vstd::prelude::*;

use crate::boxes::{is_drawing, pictures_show_everything};
use crate::canvas::{markup, write_picture, Attributes, Shape};
use crate::collect::{
    class_durations, collect_ops, durations, entry_duration, entry_is_sound, entry_node, entry_op,
    entry_ops, lists, main_resource_is_one, position, reached, selection_is_sound, Entry,
};
use crate::extract::{decodes, picks, SwpSolution};
use crate::graph::ClassGraph;
use crate::lanes::{
    counts_fit, event_fits, fit_counts, is_packing, lane_count, narrow_counts, op_views, packed,
    packing_is_unique, place_in_lanes, placed_operations_are_sound, placed_views, timeline_fits, Op,
    OpView, Placed, PlacedView,
};
use crate::lasting::are_drawn;
use crate::number::{in_i32, is_i32};
use crate::packing::{is_placement, packings_place_everything};
use crate::palette::{assign_colors, coloring, every_operation_has_a_color};
use crate::phases::{iteration_count, iterations_cover, n_iterations, total_cycles};
use crate::picture::{
    box_fits, draw_pipeline, frame, half, height, is_drawable, picture_fits, pipeline_shapes,
    row_top, width, AXIS_H, CYCLE_W, GROUP_PAD, LABEL_W, LANE_H, PAD,
};

verus! {

/// Whether every operation of every iteration has its cycles in the range of `i32`.
pub fn fits_timeline(ops: &[Op], ii: i32, n_iters: i32) -> (r: bool)
    ensures
        r == timeline_fits(op_views(ops@), ii as int, n_iters as int),
{
    let ghost views = op_views(ops@);
    let n = ops.len();
    let mut i: usize = 0;
    while i < n
        invariant
            i <= n,
            n == ops@.len(),
            views == op_views(ops@),
            forall|j: int, iter: int|
                0 <= j < i && 0 <= iter < n_iters ==> #[trigger] event_fits(
                    views[j],
                    ii as int,
                    iter,
                ),
        decreases n - i,
    {
        let mut iter: i32 = 0;
        while iter < n_iters
            invariant
                0 <= iter,
                iter <= n_iters || iter == 0,
                i < n,
                n == ops@.len(),
                views == op_views(ops@),
                forall|j: int, iter: int|
                    0 <= j < i && 0 <= iter < n_iters ==> #[trigger] event_fits(
                        views[j],
                        ii as int,
                        iter,
                    ),
                forall|q: int|
                    0 <= q < iter ==> #[trigger] event_fits(views[i as int], ii as int, q),
            decreases n_iters - iter,
        {
            assert(-0x8000_0000 * 0x8000_0000 <= iter * ii <= 0x8000_0000 * 0x8000_0000)
                by (nonlinear_arith)
                requires
                    0 <= iter <= 0x7fff_ffff,
                    -0x8000_0000 <= ii <= 0x7fff_ffff,
            ;
            let offset: i64 = iter as i64 * ii as i64;
            let start: i64 = ops[i].t as i64 + offset;
            let end: i64 = start + ops[i].d as i64;
            if !(is_i32(offset) && is_i32(start) && is_i32(end)) {
                assert(!event_fits(views[i as int], ii as int, iter as int));
                return false;
            }
            iter = iter + 1;
        }
        i = i + 1;
    }
    true
}

/// Whether the box of an operation has its coordinates in the range of `i32`.
fn fits_box(p: &Placed) -> (r: bool)
    ensures
        r == box_fits(p@),
{
    let offset: i64 = p.start as i64 * CYCLE_W as i64;
    let x: i64 = PAD as i64 + LABEL_W as i64 + offset;
    let w: i64 = p.dur as i64 * CYCLE_W as i64;
    let middle: i64 = if w < 0 {
        -((-w) / 2)
    } else {
        w / 2
    };
    assert(middle == half(w as int));
    is_i32(offset) && is_i32(x) && is_i32(w) && is_i32(x + middle)
}

/// The heights of the first resources are part of the whole.
proof fn rows_add_up(lanes: Seq<i32>, r: int)
    requires
        0 <= r <= lanes.len(),
        forall|s: int| 0 <= s < lanes.len() ==> #[trigger] lanes[s] >= 1,
    ensures
        row_top(lanes, r) + PAD <= height(lanes),
    decreases lanes.len() - r,
{
    if r < lanes.len() {
        rows_add_up(lanes, r + 1);
        assert(lanes[r] >= 1);
    }
}

/// Whether the picture's height is in the range of `i32`.
fn fits_height(lanes: &[i32]) -> (r: bool)
    requires
        forall|s: int| 0 <= s < lanes@.len() ==> #[trigger] lanes@[s] >= 1,
    ensures
        r == in_i32(height(lanes@)),
{
    let n = lanes.len();
    let mut y: i64 = PAD as i64 + AXIS_H as i64;
    let mut r: usize = 0;
    while r < n
        invariant
            r <= n,
            n == lanes@.len(),
            forall|s: int| 0 <= s < lanes@.len() ==> #[trigger] lanes@[s] >= 1,
            y == row_top(lanes@, r as int),
            0 <= y <= i32::MAX,
        decreases n - r,
    {
        assert(lanes@[r as int] >= 1);
        y = y + (lanes[r] as i64 * LANE_H as i64 + GROUP_PAD as i64);
        r = r + 1;
        if y > i32::MAX as i64 {
            proof {
                rows_add_up(lanes@, r as int);
            }
            return false;
        }
    }
    is_i32(y + PAD as i64)
}

/// Whether the picture has its coordinates in the range of `i32`.
pub fn fits_picture(ii: i32, l: i32, placed: &[Placed], lanes: &[i32]) -> (r: bool)
    requires
        1 <= ii <= l,
        forall|s: int| 0 <= s < lanes@.len() ==> #[trigger] lanes@[s] >= 1,
    ensures
        r == picture_fits(ii as int, l as int, placed_views(placed@), lanes@),
{
    if !is_i32(l as i64 + ii as i64) {
        return false;
    }
    let n_iters = iteration_count(ii, l);
    proof {
        iterations_cover(ii as int, l as int);
    }
    let prologue: i64 = (n_iters as i64 - 1) * ii as i64;
    let epilogue: i64 = if l < ii {
        0
    } else {
        l as i64 - ii as i64
    };
    let total: i64 = prologue + ii as i64 + epilogue;
    assert(total == total_cycles(ii as int, l as int));
    assert(0 <= total <= l + ii + l);
    let cycle: i64 = CYCLE_W as i64;
    assert(cycle == 60 && total * cycle == 60 * total);
    if !is_i32(LABEL_W as i64 + total * cycle + PAD as i64 * 2) {
        return false;
    }
    if !fits_height(lanes) {
        return false;
    }
    let ghost views = placed_views(placed@);
    let n = placed.len();
    let mut k: usize = 0;
    while k < n
        invariant
            k <= n,
            n == placed@.len(),
            views == placed_views(placed@),
            forall|i: int| 0 <= i < k ==> box_fits(#[trigger] views[i]),
        decreases n - k,
    {
        if !fits_box(&placed[k]) {
            assert(!box_fits(views[k as int]));
            return false;
        }
        assert(box_fits(views[k as int]));
        k = k + 1;
    }
    true
}

/// `r` is the picture of a pipeline of the operations, or nothing where its coordinates are not in
/// the range of `i32`.
pub open spec fn shows(
    ops: Seq<OpView>,
    limits: Seq<i32>,
    ii: int,
    l: int,
    r: Option<Seq<char>>,
) -> bool {
    if !in_i32(l + ii) || !timeline_fits(ops, ii, n_iterations(ii, l)) {
        r is None
    } else {
        exists|placed: Seq<PlacedView>| #[trigger]
            is_packing(ops, ii, n_iterations(ii, l), placed) && shows_placed(
                ops,
                limits,
                ii,
                l,
                placed,
                r,
            )
    }
}

/// `r` is the picture of the placed operations, or nothing where its coordinates are not in the
/// range of `i32`.
pub open spec fn shows_placed(
    ops: Seq<OpView>,
    limits: Seq<i32>,
    ii: int,
    l: int,
    placed: Seq<PlacedView>,
    r: Option<Seq<char>>,
) -> bool {
    if !counts_fit(limits, placed) {
        r is None
    } else {
        exists|lanes: Seq<i32>| #[trigger]
            packed(ops, limits, ii, n_iterations(ii, l), placed, lanes) && r == (if picture_fits(
                ii,
                l,
                placed,
                lanes,
            ) {
                Some(
                    markup(
                        frame(width(total_cycles(ii, l)), height(lanes)),
                        pipeline_shapes(ii, l, placed, lanes, coloring(ops)),
                    ),
                )
            } else {
                None
            })
    }
}

/// `text` is the picture of a pipeline of `n` iterations of the operations: all of them are placed,
/// and everything is drawn.
pub open spec fn is_rendering(
    ops: Seq<OpView>,
    limits: Seq<i32>,
    ii: int,
    l: int,
    n: int,
    placed: Seq<PlacedView>,
    lanes: Seq<i32>,
    attributes: Attributes,
    shapes: Seq<Shape>,
    text: Seq<char>,
) -> bool {
    &&& packed(ops, limits, ii, n, placed, lanes)
    &&& exists|order: Seq<int>| is_placement(ops, ii, n, placed, order)
    &&& is_drawing(ii, l, n, placed, lanes, coloring(ops), attributes, shapes)
    &&& text == markup(attributes, shapes)
}

/// `text` is the picture of a pipeline of the operations.
pub open spec fn is_rendered(
    ops: Seq<OpView>,
    limits: Seq<i32>,
    ii: int,
    l: int,
    text: Seq<char>,
) -> bool {
    exists|
        n: int,
        placed: Seq<PlacedView>,
        lanes: Seq<i32>,
        attributes: Attributes,
        shapes: Seq<Shape>,
    |
        is_rendering(ops, limits, ii, l, n, placed, lanes, attributes, shapes, text)
}

/// `text` is the picture of a pipeline of the operations, which are those of the classes `ids`.
pub open spec fn is_rendered_of(
    ids: Seq<usize>,
    ops: Seq<OpView>,
    limits: Seq<i32>,
    ii: int,
    l: int,
    text: Seq<char>,
) -> bool {
    ids.len() == ops.len() && is_rendered(ops, limits, ii, l, text)
}

/// What is shown of operations is a picture that has all of them, in every iteration.
pub proof fn pictures_have_every_operation(
    ops: Seq<OpView>,
    limits: Seq<i32>,
    ii: int,
    l: int,
    text: Seq<char>,
)
    requires
        1 <= ii <= l,
        forall|i: int| 0 <= i < ops.len() ==> 0 <= (#[trigger] ops[i]).resource < limits.len(),
        shows(ops, limits, ii, l, Some(text)),
    ensures
        is_rendered(ops, limits, ii, l, text),
{
    let n = n_iterations(ii, l);
    let placed = choose|placed: Seq<PlacedView>| #[trigger]
        is_packing(ops, ii, n, placed) && shows_placed(ops, limits, ii, l, placed, Some(text));
    let lanes = choose|lanes: Seq<i32>| #[trigger]
        packed(ops, limits, ii, n, placed, lanes) && Some(text) == (if picture_fits(
            ii,
            l,
            placed,
            lanes,
        ) {
            Some(
                markup(
                    frame(width(total_cycles(ii, l)), height(lanes)),
                    pipeline_shapes(ii, l, placed, lanes, coloring(ops)),
                ),
            )
        } else {
            None
        });
    iterations_cover(ii, l);
    placed_operations_are_sound(ops, limits, ii, n, placed, lanes);
    packings_place_everything(ops, ii, n, placed);
    pictures_show_everything(ii, l, placed, lanes, coloring(ops));
    assert(is_rendering(
        ops,
        limits,
        ii,
        l,
        n,
        placed,
        lanes,
        frame(width(total_cycles(ii, l)), height(lanes)),
        pipeline_shapes(ii, l, placed, lanes, coloring(ops)),
        text,
    ));
}

/// What a text is, where there is one.
pub open spec fn text_view(text: Option<String>) -> Option<Seq<char>> {
    match text {
        Some(text) => Some(text@),
        None => None,
    }
}

/// Renders a pipeline of the operations, of which `l` cycles are one iteration and one iteration
/// starts every `ii` cycles.
pub fn render_ops(ops: &[Op], resource_limits: &[i32], ii: i32, l: i32) -> (r: Option<String>)
    requires
        1 <= ii <= l,
        forall|i: int|
            0 <= i < ops@.len() ==> (#[trigger] ops@[i]).resource < resource_limits@.len(),
    ensures
        shows(op_views(ops@), resource_limits@, ii as int, l as int, text_view(r)),
        r matches Some(text) ==> is_rendered(
            op_views(ops@),
            resource_limits@,
            ii as int,
            l as int,
            text@,
        ),
{
    let ghost views = op_views(ops@);
    if !is_i32(l as i64 + ii as i64) {
        return None;
    }
    let n_iters = iteration_count(ii, l);
    if !fits_timeline(ops, ii, n_iters) {
        return None;
    }
    let colors = assign_colors(ops);
    let (placed, counts) = place_in_lanes(ops, resource_limits, ii, n_iters);
    let ghost placed_seq = placed_views(placed@);
    proof {
        assert(is_packing(views, ii as int, n_iters as int, placed_seq));
        assert forall|s: int| 0 <= s < counts@.len() implies #[trigger] counts@[s] == lane_count(
            resource_limits@[s] as int,
            placed_seq,
            s,
            placed_seq.len() as int,
        ) by {}
    }
    if !fit_counts(&counts) {
        proof {
            let s = choose|s: int| 0 <= s < counts@.len() && #[trigger] counts@[s] > i32::MAX;
            assert(!counts_fit(resource_limits@, placed_seq));
        }
        return None;
    }
    let lanes = narrow_counts(&counts);
    assert(counts_fit(resource_limits@, placed_seq)) by {
        assert forall|s: int| 0 <= s < resource_limits@.len() implies #[trigger] lane_count(
            resource_limits@[s] as int,
            placed_seq,
            s,
            placed_seq.len() as int,
        ) <= i32::MAX by {
            assert(counts@[s] <= i32::MAX);
        }
    }
    proof {
        assert(packed(
            views,
            resource_limits@,
            ii as int,
            n_iters as int,
            placed_seq,
            lanes@,
        ));
        placed_operations_are_sound(
            views,
            resource_limits@,
            ii as int,
            n_iters as int,
            placed_seq,
            lanes@,
        );
    }
    if !fits_picture(ii, l, &placed, &lanes) {
        return None;
    }
    proof {
        assert forall|k: int| 0 <= k < placed@.len() implies is_drawable(
            (#[trigger] placed@[k])@,
            lanes@,
            coloring(views),
        ) by {
            assert(placed_seq[k] == placed@[k]@);
            let i = choose|i: int|
                0 <= i < views.len() && (#[trigger] views[i]).name == placed_seq[k].op;
            every_operation_has_a_color(views, i);
        }
    }
    let picture = draw_pipeline(ii, l, &placed, &lanes, &colors);
    let text = write_picture(&picture);
    proof {
        assert(shows_placed(
            views,
            resource_limits@,
            ii as int,
            l as int,
            placed_seq,
            Some(text@),
        ));
        assert forall|i: int| 0 <= i < views.len() implies 0 <= (#[trigger] views[i]).resource
            < resource_limits@.len() by {
            assert(views[i] == ops@[i]@);
        }
        pictures_have_every_operation(views, resource_limits@, ii as int, l as int, text@);
    }
    Some(text)
}

/// The resources of the operations of entries are ones that there are.
proof fn resources_are_known(
    g: ClassGraph,
    n_resources: int,
    duration: Map<usize, i32>,
    entries: Seq<Entry>,
)
    requires
        n_resources > 0 || forall|i: int|
            0 <= i < entries.len() ==> entry_duration(duration, #[trigger] entries[i]) == 0,
    ensures
        forall|i: int|
            0 <= i < entry_ops(g, n_resources, duration, entries).len() ==> 0 <= (
            #[trigger] entry_ops(g, n_resources, duration, entries)[i]).resource < n_resources,
    decreases entries.len(),
{
    if entries.len() > 0 {
        let front = entries.drop_last();
        assert forall|i: int| 0 <= i < front.len() && n_resources <= 0 implies entry_duration(
            duration,
            #[trigger] front[i],
        ) == 0 by {
            assert(front[i] == entries[i]);
        }
        resources_are_known(g, n_resources, duration, front);
        let entry = entries.last();
        assert(entry == entries[entries.len() - 1]);
        if entry_duration(duration, entry) != 0 {
            main_resource_is_one(entry_node(g, entry).rt@, n_resources);
        }
        let before = entry_ops(g, n_resources, duration, front);
        let ops = entry_ops(g, n_resources, duration, entries);
        assert forall|i: int| 0 <= i < ops.len() implies 0 <= (#[trigger] ops[i]).resource
            < n_resources by {
            if i < before.len() {
                assert(ops[i] == before[i]);
            } else {
                assert(ops[i] == entry_op(g, n_resources, duration, entry));
            }
        }
    }
}

/// The schedule can be drawn: it lasts at least one interval, its numbers are in the range of `i32`,
/// it selects nodes of classes, and there are resources if something takes time.
pub open spec fn is_renderable(g: ClassGraph, limits: Seq<i32>, sol: SwpSolution) -> bool {
    &&& 1 <= sol.ii <= sol.end <= i32::MAX
    &&& selection_is_sound(g, limits.len() as int, durations(g), sol.selected@)
    &&& limits.len() > 0 || forall|id: usize| #[trigger]
        sol.selected@.contains_key(id) ==> entry_duration(
            durations(g),
            (id, sol.selected@[id]),
        ) == 0
}

/// Renders the schedule of a graph as a pipeline, with its operations in some order.
pub fn render_pipeline(
    egraph: &ClassGraph,
    resource_limits: &[i32],
    sol: &SwpSolution,
) -> (r: Option<String>)
    requires
        egraph.wf(),
        is_renderable(*egraph, resource_limits@, *sol),
    ensures
        exists|entries: Seq<Entry>| #[trigger]
            lists(entries, sol.selected@) && shows(
                entry_ops(
                    *egraph,
                    resource_limits@.len() as int,
                    durations(*egraph),
                    entries,
                ),
                resource_limits@,
                sol.ii as int,
                sol.end as int,
                text_view(r),
            ),
        r matches Some(text) ==> exists|ids: Seq<usize>, ops: Seq<OpView>|
            are_drawn(
                *egraph,
                resource_limits@.len() as int,
                durations(*egraph),
                sol.selected@,
                ids,
                ops,
            ) && #[trigger] is_rendered_of(
                ids,
                ops,
                resource_limits@,
                sol.ii as int,
                sol.end as int,
                text@,
            ),
{
    let n_resources = resource_limits.len();
    let duration = class_durations(egraph);
    let ops = collect_ops(egraph, n_resources, sol, &duration);
    let ghost views = op_views(ops@);
    proof {
        let entries = choose|entries: Seq<Entry>| #[trigger]
            lists(entries, sol.selected@) && views == entry_ops(
                *egraph,
                n_resources as int,
                duration@,
                entries,
            );
        assert forall|i: int| 0 <= i < entries.len() && n_resources == 0 implies entry_duration(
            duration@,
            #[trigger] entries[i],
        ) == 0 by {
            assert(sol.selected@.contains_key(entries[i].0));
            assert(entries[i] == (entries[i].0, sol.selected@[entries[i].0]));
        }
        resources_are_known(*egraph, n_resources as int, duration@, entries);
        assert forall|i: int| 0 <= i < ops@.len() implies (#[trigger] ops@[i]).resource
            < resource_limits@.len() by {
            assert(views[i] == ops@[i]@);
        }
    }
    let r = render_ops(&ops, resource_limits, sol.ii as i32, sol.end as i32);
    proof {
        let ids = choose|ids: Seq<usize>|
            are_drawn(
                *egraph,
                n_resources as int,
                duration@,
                sol.selected@,
                ids,
                views,
            );
        if let Some(text) = &r {
            assert(is_rendered_of(
                ids,
                views,
                resource_limits@,
                sol.ii as int,
                sol.end as int,
                text@,
            ));
        }
    }
    r
}

/// A schedule that was read off the values of a program's columns can be rendered, where it lasts at
/// least one interval, its numbers are in the range of `i32`, and every row has something for every
/// resource, of which there is one.
pub proof fn decoded_schedules_are_renderable(
    g: ClassGraph,
    limits: Seq<i32>,
    ii: int,
    values: Seq<int>,
    sol: SwpSolution,
)
    requires
        g.wf(),
        decodes(g, ii, values, sol),
        1 <= ii <= sol.end <= i32::MAX,
        limits.len() > 0,
        forall|c: int, j: int, row: int|
            0 <= c < g.classes@.len() && 0 <= j < g.nodes(c).len() && 0 <= row < g.nodes(
                c,
            )[j].rt@.len() ==> (#[trigger] g.nodes(c)[j].rt@[row])@.len() >= limits.len(),
    ensures
        is_renderable(g, limits, sol),
{
    assert forall|id: usize| #[trigger] sol.selected@.contains_key(id) implies entry_is_sound(
        g,
        limits.len() as int,
        durations(g),
        (id, sol.selected@[id]),
    ) by {
        let entry = (id, sol.selected@[id]);
        let (c, j) = choose|c: int, j: int| #[trigger]
            picks(g, ii, values, c, j) && g.classes@[c].id == id;
        let p = position(g, id);
        assert(g.classes@[p].id == id);
        assert(p == c) by {
            if p < c {
                assert(g.classes@[p].id != g.classes@[c].id);
            }
            if c < p {
                assert(g.classes@[c].id != g.classes@[p].id);
            }
        }
        let rt = entry_node(g, entry).rt@;
        assert(rt == g.nodes(c)[j].rt@);
        assert forall|s: int, i: int|
            0 <= s < limits.len() && 0 <= i < rt.len() && #[trigger] reached(rt, s, i) implies s
            < rt[i]@.len() by {
            assert(g.nodes(c)[j].rt@[i]@.len() >= limits.len());
        }
    }
}

/// Nothing is shown only where something is out of range: wherever the operations can be placed and
/// their lanes counted, and the picture is in range, it is shown.
pub proof fn what_is_in_range_is_shown(
    ops: Seq<OpView>,
    limits: Seq<i32>,
    ii: int,
    l: int,
    n: int,
    placed: Seq<PlacedView>,
    lanes: Seq<i32>,
)
    requires
        1 <= ii <= l,
        1 <= n,
        (n - 1) * ii < l,
        l <= n * ii,
        timeline_fits(ops, ii, n),
        packed(ops, limits, ii, n, placed, lanes),
        picture_fits(ii, l, placed, lanes),
    ensures
        !shows(ops, limits, ii, l, None),
{
    let m = n_iterations(ii, l);
    iterations_cover(ii, l);
    assert(m == n) by {
        if m < n {
            assert(m * ii <= (n - 1) * ii) by (nonlinear_arith)
                requires
                    m <= n - 1,
                    1 <= ii,
            ;
        }
        if n < m {
            assert(n * ii <= (m - 1) * ii) by (nonlinear_arith)
                requires
                    n <= m - 1,
                    1 <= ii,
            ;
        }
    }
    if shows(ops, limits, ii, l, None) {
        let other = choose|other: Seq<PlacedView>| #[trigger]
            is_packing(ops, ii, n, other) && shows_placed(ops, limits, ii, l, other, None);
        let none = Seq::<i32>::empty();
        assert(packed(ops, none, ii, n, other, none));
        assert(packed(ops, none, ii, n, placed, none));
        packing_is_unique(ops, none, ii, n, (other, none), (placed, none));
        assert(counts_fit(limits, placed)) by {
            assert forall|r: int| 0 <= r < limits.len() implies #[trigger] lane_count(
                limits[r] as int,
                placed,
                r,
                placed.len() as int,
            ) <= i32::MAX by {
                assert(lanes[r] == lane_count(limits[r] as int, placed, r, placed.len() as int));
            }
        }
        let counted = choose|counted: Seq<i32>| #[trigger]
            packed(ops, limits, ii, n, placed, counted) && None::<Seq<char>> == (if picture_fits(
                ii,
                l,
                placed,
                counted,
            ) {
                Some(
                    markup(
                        frame(width(total_cycles(ii, l)), height(counted)),
                        pipeline_shapes(ii, l, placed, counted, coloring(ops)),
                    ),
                )
            } else {
                None
            });
        packing_is_unique(ops, limits, ii, n, (placed, counted), (placed, lanes));
    }
}

} // verus!
