//! What is where in the picture of a pipeline.

use vstd::prelude::*;

use crate::canvas::{Attributes, Shape};
use crate::faithful::added;
use crate::lanes::{lanes_do_not_overlap, packed, placed_operations_are_sound, OpView, PlacedView};
use crate::number::decimal;
use crate::palette::{color_of_name, Coloring};
use crate::phases::{iterations_cover, n_iterations, total_cycles};
use crate::picture::{
    background, band, box_fits, box_y, cycle_label, cycle_x, frame, grid_line, half, height, op_box,
    op_label, picture_fits, pipeline_shapes, resource_label, row_top, width, with_bands, with_boxes,
    with_grid, with_resources,
};
use crate::spelling::numbers_are_read_as_written;

verus! {

/// The attribute has the value.
pub open spec fn is_set(attributes: Attributes, name: Seq<char>, value: Seq<char>) -> bool {
    attributes.contains_key(name) && attributes[name] == value
}

/// The shape is a rectangle with its upper left corner at `x` and `y`, `w` wide and `h` high.
pub open spec fn covers(shape: Shape, x: int, y: int, w: int, h: int) -> bool {
    &&& shape is Rect
    &&& is_set(shape->Rect_0, "x"@, decimal(x))
    &&& is_set(shape->Rect_0, "y"@, decimal(y))
    &&& is_set(shape->Rect_0, "width"@, decimal(w))
    &&& is_set(shape->Rect_0, "height"@, decimal(h))
}

/// The shape is a rectangle of the colour.
pub open spec fn is_filled(shape: Shape, color: Seq<char>) -> bool {
    shape is Rect && is_set(shape->Rect_0, "fill"@, color)
}

/// The shape is a line from `x1` and `y1` to `x2` and `y2`.
pub open spec fn connects(shape: Shape, x1: int, y1: int, x2: int, y2: int) -> bool {
    &&& shape is Segment
    &&& is_set(shape->Segment_0, "x1"@, decimal(x1))
    &&& is_set(shape->Segment_0, "y1"@, decimal(y1))
    &&& is_set(shape->Segment_0, "x2"@, decimal(x2))
    &&& is_set(shape->Segment_0, "y2"@, decimal(y2))
}

/// The shape is the text with its reference point at `x` and `y`.
pub open spec fn says(shape: Shape, x: int, y: int, content: Seq<char>) -> bool {
    &&& shape is Label
    &&& is_set(shape->Label_0, "x"@, decimal(x))
    &&& is_set(shape->Label_0, "y"@, decimal(y))
    &&& shape->Label_1.flatten() == content
}

/// The text has the size and the colour.
pub open spec fn is_written(shape: Shape, size: int, color: Seq<char>) -> bool {
    &&& shape is Label
    &&& is_set(shape->Label_0, "font-size"@, decimal(size))
    &&& is_set(shape->Label_0, "fill"@, color)
}

/// The rectangle has a border of the colour and the width.
pub open spec fn is_bordered(shape: Shape, color: Seq<char>, w: int) -> bool {
    &&& shape is Rect
    &&& is_set(shape->Rect_0, "stroke"@, color)
    &&& is_set(shape->Rect_0, "stroke-width"@, decimal(w))
}

/// The reference point of the text is its middle from left to right.
pub open spec fn is_centered(shape: Shape) -> bool {
    shape is Label && is_set(shape->Label_0, "text-anchor"@, "middle"@)
}

proof fn names_differ()
    ensures
        "x"@ != "y"@,
        "x"@ != "width"@,
        "x"@ != "height"@,
        "x"@ != "fill"@,
        "x"@ != "stroke"@,
        "x"@ != "stroke-width"@,
        "x"@ != "font-size"@,
        "x"@ != "text-anchor"@,
        "x"@ != "font-weight"@,
        "x"@ != "dominant-baseline"@,
        "y"@ != "width"@,
        "y"@ != "height"@,
        "y"@ != "fill"@,
        "y"@ != "stroke"@,
        "y"@ != "stroke-width"@,
        "y"@ != "font-size"@,
        "y"@ != "text-anchor"@,
        "y"@ != "font-weight"@,
        "y"@ != "dominant-baseline"@,
        "width"@ != "height"@,
        "width"@ != "fill"@,
        "width"@ != "stroke"@,
        "width"@ != "stroke-width"@,
        "width"@ != "font-family"@,
        "height"@ != "fill"@,
        "height"@ != "stroke"@,
        "height"@ != "stroke-width"@,
        "height"@ != "font-family"@,
        "fill"@ != "stroke"@,
        "fill"@ != "stroke-width"@,
        "stroke"@ != "stroke-width"@,
        "font-size"@ != "fill"@,
        "font-size"@ != "text-anchor"@,
        "font-size"@ != "font-weight"@,
        "font-size"@ != "dominant-baseline"@,
        "fill"@ != "font-weight"@,
        "fill"@ != "dominant-baseline"@,
        "text-anchor"@ != "fill"@,
        "text-anchor"@ != "dominant-baseline"@,
        "x1"@ != "y1"@,
        "x1"@ != "x2"@,
        "x1"@ != "y2"@,
        "x1"@ != "stroke"@,
        "y1"@ != "x2"@,
        "y1"@ != "y2"@,
        "y1"@ != "stroke"@,
        "x2"@ != "y2"@,
        "x2"@ != "stroke"@,
        "y2"@ != "stroke"@,
{
    reveal_strlit("x");
    reveal_strlit("y");
    reveal_strlit("width");
    reveal_strlit("height");
    reveal_strlit("fill");
    reveal_strlit("stroke");
    reveal_strlit("stroke-width");
    reveal_strlit("font-size");
    reveal_strlit("font-family");
    reveal_strlit("text-anchor");
    reveal_strlit("font-weight");
    reveal_strlit("dominant-baseline");
    reveal_strlit("x1");
    reveal_strlit("y1");
    reveal_strlit("x2");
    reveal_strlit("y2");
    assert("x"@.len() == 1 && "y"@.len() == 1);
    assert("x"@[0] == 'x' && "y"@[0] == 'y');
    assert("width"@.len() == 5 && "width"@[0] == 'w');
    assert("height"@.len() == 6 && "height"@[0] == 'h');
    assert("fill"@.len() == 4 && "fill"@[0] == 'f');
    assert("stroke"@.len() == 6 && "stroke"@[0] == 's');
    assert("stroke-width"@.len() == 12 && "stroke-width"@[0] == 's');
    assert("font-size"@.len() == 9 && "font-size"@[0] == 'f');
    assert("font-family"@.len() == 11 && "font-family"@[0] == 'f');
    assert("text-anchor"@.len() == 11 && "text-anchor"@[0] == 't');
    assert("font-weight"@.len() == 11 && "font-weight"@[0] == 'f');
    assert("dominant-baseline"@.len() == 17 && "dominant-baseline"@[0] == 'd');
    assert("x1"@[0] == 'x' && "x2"@[0] == 'x' && "y1"@[0] == 'y' && "y2"@[0] == 'y');
    assert("x1"@[1] == '1' && "x2"@[1] == '2' && "y1"@[1] == '1' && "y2"@[1] == '2');
}

/// Where the lanes of resource `r` start: below those of the resources before it, each lane being
/// 36 high and with 10 between resources.
pub open spec fn top_of(lanes: Seq<i32>, r: int) -> int {
    38 + added(Seq::new(r as nat, |q: int| lanes[q] * 36 + 10))
}

proof fn row_top_is_top(lanes: Seq<i32>, r: int)
    requires
        0 <= r,
    ensures
        row_top(lanes, r) == top_of(lanes, r),
    decreases r,
{
    let heights = Seq::new(r as nat, |q: int| lanes[q] * 36 + 10);
    reveal_with_fuel(Seq::fold_left, 2);
    if r > 0 {
        row_top_is_top(lanes, r - 1);
        assert(heights.drop_last() =~= Seq::new((r - 1) as nat, |q: int| lanes[q] * 36 + 10));
        assert(heights.last() == lanes[r - 1] * 36 + 10);
    }
}

/// The shape is the box of an operation: as wide as its cycles, in its lane of its resource, and in
/// the colour of its name.
pub open spec fn is_box(
    shape: Shape,
    lanes: Seq<i32>,
    colors: Coloring,
    p: PlacedView,
) -> bool {
    &&& covers(
        shape,
        86 + 60 * p.start,
        top_of(lanes, p.resource) + 36 * p.lane + 3,
        60 * p.dur,
        30,
    )
    &&& is_filled(shape, color_of_name(colors, p.op))
    &&& is_bordered(shape, "#222"@, 1)
}

proof fn op_box_is_box(lanes: Seq<i32>, colors: Coloring, p: PlacedView)
    requires
        0 <= p.resource,
    ensures
        is_box(op_box(lanes, colors, p), lanes, colors, p),
{
    names_differ();
    row_top_is_top(lanes, p.resource);
    assert(cycle_x(p.start) == 86 + 60 * p.start);
    assert(box_y(lanes, p) == top_of(lanes, p.resource) + 36 * p.lane + 3);
    assert(p.dur * 60 == 60 * p.dur);
}

/// A rectangle is at one place and of one size.
pub proof fn rectangles_cover_one_place(
    shape: Shape,
    a: (int, int, int, int),
    b: (int, int, int, int),
)
    requires
        covers(shape, a.0, a.1, a.2, a.3),
        covers(shape, b.0, b.1, b.2, b.3),
    ensures
        a == b,
{
    numbers_are_read_as_written(a.0);
    numbers_are_read_as_written(a.1);
    numbers_are_read_as_written(a.2);
    numbers_are_read_as_written(a.3);
    numbers_are_read_as_written(b.0);
    numbers_are_read_as_written(b.1);
    numbers_are_read_as_written(b.2);
    numbers_are_read_as_written(b.3);
}

/// The places have no point of both inside.
pub open spec fn are_apart(a: (int, int, int, int), b: (int, int, int, int)) -> bool {
    a.0 + a.2 <= b.0 || b.0 + b.2 <= a.0 || a.1 + a.3 <= b.1 || b.1 + b.3 <= a.1
}

proof fn tops_descend(lanes: Seq<i32>, q: int, r: int)
    requires
        0 <= q < r <= lanes.len(),
        forall|s: int| 0 <= s < lanes.len() ==> #[trigger] lanes[s] >= 1,
    ensures
        top_of(lanes, q) + lanes[q] * 36 + 10 <= top_of(lanes, r),
    decreases r,
{
    row_top_is_top(lanes, r);
    row_top_is_top(lanes, r - 1);
    row_top_is_top(lanes, q);
    assert(row_top(lanes, r) == row_top(lanes, r - 1) + lanes[r - 1] * 36 + 10);
    if q < r - 1 {
        tops_descend(lanes, q, r - 1);
        assert(lanes[r - 1] >= 1);
    }
}

/// Resources are drawn below each other: the lanes of one end before those of the next start.
pub proof fn resources_are_apart(lanes: Seq<i32>, q: int, r: int)
    requires
        0 <= q < r <= lanes.len(),
        forall|s: int| 0 <= s < lanes.len() ==> #[trigger] lanes[s] >= 1,
    ensures
        row_top(lanes, q) >= 38,
        row_top(lanes, q) + 36 * lanes[q] < row_top(lanes, r),
        height(lanes) == row_top(lanes, lanes.len() as int) + 16,
{
    tops_descend(lanes, q, r);
    row_top_is_top(lanes, q);
    row_top_is_top(lanes, r);
    if q > 0 {
        tops_descend(lanes, 0, q);
        assert(lanes[0] >= 1);
    }
    row_top_is_top(lanes, 0);
    reveal_with_fuel(Seq::fold_left, 2);
    assert(Seq::new(0, |q: int| lanes[q] * 36 + 10) =~= seq![]);
}

/// The box of an operation is in the rows of its lane and in the columns of its cycles.
pub proof fn boxes_are_in_their_lanes(
    lanes: Seq<i32>,
    colors: Coloring,
    p: PlacedView,
    x: int,
    y: int,
    w: int,
    h: int,
)
    requires
        0 <= p.resource,
        covers(op_box(lanes, colors, p), x, y, w, h),
    ensures
        row_top(lanes, p.resource) + 36 * p.lane < y,
        y + h < row_top(lanes, p.resource) + 36 * (p.lane + 1),
        h > 0,
        x == 86 + 60 * p.start,
        x + w == 86 + 60 * (p.start + p.dur),
{
    op_box_is_box(lanes, colors, p);
    row_top_is_top(lanes, p.resource);
    rectangles_cover_one_place(
        op_box(lanes, colors, p),
        (x, y, w, h),
        (86 + 60 * p.start, top_of(lanes, p.resource) + 36 * p.lane + 3, 60 * p.dur, 30int),
    );
}

/// The boxes of different operations do not overlap.
pub proof fn boxes_are_apart(
    ops: Seq<OpView>,
    limits: Seq<i32>,
    ii: int,
    n_iters: int,
    placed: Seq<PlacedView>,
    lanes: Seq<i32>,
    colors: Coloring,
    k: int,
    m: int,
    a: (int, int, int, int),
    b: (int, int, int, int),
)
    requires
        packed(ops, limits, ii, n_iters, placed, lanes),
        forall|i: int| 0 <= i < ops.len() ==> 0 <= (#[trigger] ops[i]).resource < limits.len(),
        0 <= k < placed.len(),
        0 <= m < placed.len(),
        k != m,
        covers(op_box(lanes, colors, placed[k]), a.0, a.1, a.2, a.3),
        covers(op_box(lanes, colors, placed[m]), b.0, b.1, b.2, b.3),
    ensures
        are_apart(a, b),
{
    placed_operations_are_sound(ops, limits, ii, n_iters, placed, lanes);
    let (p, q) = (placed[k], placed[m]);
    boxes_are_in_their_lanes(lanes, colors, p, a.0, a.1, a.2, a.3);
    boxes_are_in_their_lanes(lanes, colors, q, b.0, b.1, b.2, b.3);
    if p.resource == q.resource {
        if p.lane == q.lane {
            if k < m {
                lanes_do_not_overlap(ops, limits, ii, n_iters, placed, lanes, k, m);
            } else {
                lanes_do_not_overlap(ops, limits, ii, n_iters, placed, lanes, m, k);
            }
        }
    } else if p.resource < q.resource {
        tops_descend(lanes, p.resource, q.resource);
        row_top_is_top(lanes, p.resource);
        row_top_is_top(lanes, q.resource);
    } else {
        tops_descend(lanes, q.resource, p.resource);
        row_top_is_top(lanes, p.resource);
        row_top_is_top(lanes, q.resource);
    }
}

/// The line has the colour.
pub open spec fn is_drawn_in(shape: Shape, color: Seq<char>) -> bool {
    shape is Segment && is_set(shape->Segment_0, "stroke"@, color)
}

/// What is in a picture of `n` iterations of `l` cycles, one every `ii` cycles: a white background; a
/// band for each iteration, as wide as the interval and next to the one before; a line for each
/// cycle and for the end of the last, with the number of the cycle above it; the name of each
/// resource at its first lane; and for each operation its box, with its name and the number of its
/// iteration in the middle.
pub open spec fn is_drawing(
    ii: int,
    l: int,
    n: int,
    placed: Seq<PlacedView>,
    lanes: Seq<i32>,
    colors: Coloring,
    attributes: Attributes,
    shapes: Seq<Shape>,
) -> bool {
    let total = l + (n - 1) * ii;
    let w = 102 + 60 * total;
    let h = top_of(lanes, lanes.len() as int) + 16;
    let lines = 1 + n;
    let names = lines + 2 * (total + 1);
    let boxes = names + lanes.len();
    &&& 1 <= n
    &&& (n - 1) * ii < l
    &&& l <= n * ii
    &&& is_set(attributes, "width"@, decimal(w))
    &&& is_set(attributes, "height"@, decimal(h))
    &&& shapes.len() == boxes + 2 * placed.len()
    &&& covers(shapes[0], 0, 0, w, h)
    &&& is_filled(shapes[0], "white"@)
    &&& shows_bands(shapes, 1, ii, h, n)
    &&& shows_cycles(shapes, lines, ii, h, total)
    &&& shows_resources(shapes, names, lanes)
    &&& shows_boxes(shapes, boxes, lanes, colors, placed)
}

/// From position `at` on there is a band for each of the `n` iterations, as wide as the interval and
/// next to the one before, every second one darker.
pub open spec fn shows_bands(shapes: Seq<Shape>, at: int, ii: int, h: int, n: int) -> bool {
    forall|i: int|
        0 <= i < n ==> covers(
            #[trigger] shapes[at + i],
            86 + 60 * (i * ii),
            38,
            60 * ii,
            h - 54,
        ) && is_filled(
            shapes[at + i],
            if i % 2 == 0 {
                "#fafafa"@
            } else {
                "#eef2f7"@
            },
        )
}

/// From position `at` on there is a line for each cycle and the end of the last, darker where an
/// iteration starts, each with the number of the cycle above it.
pub open spec fn shows_cycles(shapes: Seq<Shape>, at: int, ii: int, h: int, total: int) -> bool {
    &&& forall|c: int|
        0 <= c <= total ==> connects(
            #[trigger] shapes[at + 2 * c],
            86 + 60 * c,
            38,
            86 + 60 * c,
            h - 16,
        ) && is_drawn_in(
            shapes[at + 2 * c],
            if c % ii == 0 {
                "#aaa"@
            } else {
                "#e8e8e8"@
            },
        )
    &&& forall|c: int|
        0 <= c <= total ==> says(
            #[trigger] shapes[at + 2 * c + 1],
            86 + 60 * c,
            32,
            decimal(c),
        ) && is_centered(shapes[at + 2 * c + 1]) && is_written(
            shapes[at + 2 * c + 1],
            10,
            "#555"@,
        )
}

/// From position `at` on there is the name of each resource, at its first lane.
pub open spec fn shows_resources(shapes: Seq<Shape>, at: int, lanes: Seq<i32>) -> bool {
    forall|r: int|
        0 <= r < lanes.len() ==> says(
            #[trigger] shapes[at + r],
            16,
            top_of(lanes, r) + 22,
            seq!['R'] + decimal(r),
        ) && is_written(shapes[at + r], 12, "#000"@)
}

/// From position `at` on there is for each operation its box, with its name and the number of its
/// iteration in the middle.
pub open spec fn shows_boxes(
    shapes: Seq<Shape>,
    at: int,
    lanes: Seq<i32>,
    colors: Coloring,
    placed: Seq<PlacedView>,
) -> bool {
    &&& forall|k: int|
        0 <= k < placed.len() ==> is_box(#[trigger] shapes[at + 2 * k], lanes, colors, placed[k])
    &&& forall|k: int|
        0 <= k < placed.len() ==> says(
            #[trigger] shapes[at + 2 * k + 1],
            86 + 60 * placed[k].start + 30 * placed[k].dur,
            top_of(lanes, placed[k].resource) + 36 * placed[k].lane + 18,
            placed[k].op + seq!['#'] + decimal(placed[k].iter),
        ) && is_centered(shapes[at + 2 * k + 1]) && is_written(
            shapes[at + 2 * k + 1],
            11,
            "white"@,
        )
}

proof fn bands_in_place(shapes: Seq<Shape>, ii: int, h: int, n: int)
    requires
        0 <= n,
    ensures
        with_bands(shapes, ii, h, n).len() == shapes.len() + n,
        forall|i: int| 0 <= i < shapes.len() ==> with_bands(shapes, ii, h, n)[i] == shapes[i],
        forall|i: int|
            0 <= i < n ==> #[trigger] with_bands(shapes, ii, h, n)[shapes.len() + i] == band(
                ii,
                h,
                i,
            ),
    decreases n,
{
    if n > 0 {
        bands_in_place(shapes, ii, h, n - 1);
        let rest = with_bands(shapes, ii, h, n - 1);
        assert forall|i: int| 0 <= i < n implies #[trigger] with_bands(
            shapes,
            ii,
            h,
            n,
        )[shapes.len() + i] == band(ii, h, i) by {
            if i < n - 1 {
                assert(rest[shapes.len() + i] == band(ii, h, i));
            }
        }
    }
}

proof fn grid_in_place(shapes: Seq<Shape>, ii: int, h: int, n: int)
    requires
        0 <= n,
    ensures
        with_grid(shapes, ii, h, n).len() == shapes.len() + 2 * n,
        forall|i: int| 0 <= i < shapes.len() ==> with_grid(shapes, ii, h, n)[i] == shapes[i],
        forall|c: int|
            0 <= c < n ==> #[trigger] with_grid(shapes, ii, h, n)[shapes.len() + 2 * c]
                == grid_line(ii, h, c),
        forall|c: int|
            0 <= c < n ==> #[trigger] with_grid(shapes, ii, h, n)[shapes.len() + 2 * c + 1]
                == cycle_label(c),
    decreases n,
{
    if n > 0 {
        grid_in_place(shapes, ii, h, n - 1);
        let rest = with_grid(shapes, ii, h, n - 1);
        let all = with_grid(shapes, ii, h, n);
        assert forall|c: int| 0 <= c < n implies #[trigger] all[shapes.len() + 2 * c] == grid_line(
            ii,
            h,
            c,
        ) by {
            if c < n - 1 {
                assert(rest[shapes.len() + 2 * c] == grid_line(ii, h, c));
            }
        }
        assert forall|c: int| 0 <= c < n implies #[trigger] all[shapes.len() + 2 * c + 1]
            == cycle_label(c) by {
            if c < n - 1 {
                assert(rest[shapes.len() + 2 * c + 1] == cycle_label(c));
            }
        }
    }
}

proof fn resources_in_place(shapes: Seq<Shape>, lanes: Seq<i32>, n: int)
    requires
        0 <= n,
    ensures
        with_resources(shapes, lanes, n).len() == shapes.len() + n,
        forall|i: int| 0 <= i < shapes.len() ==> with_resources(shapes, lanes, n)[i] == shapes[i],
        forall|r: int|
            0 <= r < n ==> #[trigger] with_resources(shapes, lanes, n)[shapes.len() + r]
                == resource_label(lanes, r),
    decreases n,
{
    if n > 0 {
        resources_in_place(shapes, lanes, n - 1);
        let rest = with_resources(shapes, lanes, n - 1);
        assert forall|r: int| 0 <= r < n implies #[trigger] with_resources(
            shapes,
            lanes,
            n,
        )[shapes.len() + r] == resource_label(lanes, r) by {
            if r < n - 1 {
                assert(rest[shapes.len() + r] == resource_label(lanes, r));
            }
        }
    }
}

proof fn boxes_in_place(
    shapes: Seq<Shape>,
    lanes: Seq<i32>,
    colors: Coloring,
    placed: Seq<PlacedView>,
    n: int,
)
    requires
        0 <= n,
    ensures
        with_boxes(shapes, lanes, colors, placed, n).len() == shapes.len() + 2 * n,
        forall|i: int|
            0 <= i < shapes.len() ==> with_boxes(shapes, lanes, colors, placed, n)[i] == shapes[i],
        forall|k: int|
            0 <= k < n ==> #[trigger] with_boxes(
                shapes,
                lanes,
                colors,
                placed,
                n,
            )[shapes.len() + 2 * k] == op_box(lanes, colors, placed[k]),
        forall|k: int|
            0 <= k < n ==> #[trigger] with_boxes(
                shapes,
                lanes,
                colors,
                placed,
                n,
            )[shapes.len() + 2 * k + 1] == op_label(lanes, placed[k]),
    decreases n,
{
    if n > 0 {
        boxes_in_place(shapes, lanes, colors, placed, n - 1);
        let rest = with_boxes(shapes, lanes, colors, placed, n - 1);
        let all = with_boxes(shapes, lanes, colors, placed, n);
        assert forall|k: int| 0 <= k < n implies #[trigger] all[shapes.len() + 2 * k] == op_box(
            lanes,
            colors,
            placed[k],
        ) by {
            if k < n - 1 {
                assert(rest[shapes.len() + 2 * k] == op_box(lanes, colors, placed[k]));
            }
        }
        assert forall|k: int| 0 <= k < n implies #[trigger] all[shapes.len() + 2 * k + 1]
            == op_label(lanes, placed[k]) by {
            if k < n - 1 {
                assert(rest[shapes.len() + 2 * k + 1] == op_label(lanes, placed[k]));
            }
        }
    }
}

proof fn parts_together(content: Seq<char>)
    ensures
        seq![""@, content].flatten() == content,
{
    reveal_strlit("");
    reveal_with_fuel(Seq::flatten, 3);
    let parts = seq![""@, content];
    assert(parts.drop_first() =~= seq![content]);
    assert(seq![content].drop_first() =~= Seq::<Seq<char>>::empty());
    assert(parts.flatten() =~= content);
}

proof fn band_is_in_place(ii: int, h: int, i: int)
    ensures
        covers(band(ii, h, i), 86 + 60 * (i * ii), 38, 60 * ii, h - 54),
        is_filled(
            band(ii, h, i),
            if i % 2 == 0 {
                "#fafafa"@
            } else {
                "#eef2f7"@
            },
        ),
{
    names_differ();
    assert(cycle_x(i * ii) == 86 + 60 * (i * ii));
    assert(ii * 60 == 60 * ii);
}

proof fn cycle_is_in_place(ii: int, h: int, c: int)
    ensures
        connects(grid_line(ii, h, c), 86 + 60 * c, 38, 86 + 60 * c, h - 16),
        is_drawn_in(
            grid_line(ii, h, c),
            if c % ii == 0 {
                "#aaa"@
            } else {
                "#e8e8e8"@
            },
        ),
        says(cycle_label(c), 86 + 60 * c, 32, decimal(c)),
        is_centered(cycle_label(c)),
        is_written(cycle_label(c), 10, "#555"@),
{
    names_differ();
    assert(cycle_x(c) == 86 + 60 * c);
    parts_together(decimal(c));
}

proof fn resource_is_in_place(lanes: Seq<i32>, r: int)
    requires
        0 <= r,
    ensures
        says(resource_label(lanes, r), 16, top_of(lanes, r) + 22, seq!['R'] + decimal(r)),
        is_written(resource_label(lanes, r), 12, "#000"@),
{
    names_differ();
    row_top_is_top(lanes, r);
    reveal_strlit("R");
    assert("R"@ =~= seq!['R']);
    parts_together("R"@ + decimal(r));
}

proof fn label_is_in_place(lanes: Seq<i32>, p: PlacedView)
    requires
        0 <= p.resource,
    ensures
        says(
            op_label(lanes, p),
            86 + 60 * p.start + 30 * p.dur,
            top_of(lanes, p.resource) + 36 * p.lane + 18,
            p.op + seq!['#'] + decimal(p.iter),
        ),
        is_centered(op_label(lanes, p)),
        is_written(op_label(lanes, p), 11, "white"@),
{
    names_differ();
    row_top_is_top(lanes, p.resource);
    reveal_strlit("#");
    assert("#"@ =~= seq!['#']);
    parts_together(p.op + "#"@ + decimal(p.iter));
    assert(half(p.dur * 60) == 30 * p.dur);
    assert(cycle_x(p.start) == 86 + 60 * p.start);
}

/// The picture of a pipeline has everything where it belongs.
pub proof fn pictures_show_everything(
    ii: int,
    l: int,
    placed: Seq<PlacedView>,
    lanes: Seq<i32>,
    colors: Coloring,
)
    requires
        1 <= ii <= l,
        forall|k: int| 0 <= k < placed.len() ==> 0 <= (#[trigger] placed[k]).resource,
    ensures
        is_drawing(
            ii,
            l,
            n_iterations(ii, l),
            placed,
            lanes,
            colors,
            frame(width(total_cycles(ii, l)), height(lanes)),
            pipeline_shapes(ii, l, placed, lanes, colors),
        ),
{
    let n = n_iterations(ii, l);
    let total = l + (n - 1) * ii;
    iterations_cover(ii, l);
    assert((1 - 1) * ii == 0) by (nonlinear_arith);
    assert(total_cycles(ii, l) == total);
    assert(0 <= (n - 1) * ii) by (nonlinear_arith)
        requires
            1 <= n,
            1 <= ii,
    ;
    let h = height(lanes);
    let w = width(total);
    row_top_is_top(lanes, lanes.len() as int);
    assert(w == 102 + 60 * total);
    let behind = seq![background(w, h)];
    let banded = with_bands(behind, ii, h, n);
    let gridded = with_grid(banded, ii, h, total + 1);
    let named = with_resources(gridded, lanes, lanes.len() as int);
    let shapes = with_boxes(named, lanes, colors, placed, placed.len() as int);
    assert(shapes == pipeline_shapes(ii, l, placed, lanes, colors));
    bands_in_place(behind, ii, h, n);
    grid_in_place(banded, ii, h, total + 1);
    resources_in_place(gridded, lanes, lanes.len() as int);
    boxes_in_place(named, lanes, colors, placed, placed.len() as int);
    let lines = 1 + n;
    let names = lines + 2 * (total + 1);
    let boxes = names + lanes.len();
    assert(banded.len() == lines && gridded.len() == names && named.len() == boxes);
    assert(behind[0] == background(w, h));
    assert(banded[0] == behind[0]);
    assert(gridded[0] == banded[0]);
    assert(named[0] == gridded[0]);
    assert(shapes[0] == named[0]);
    assert(shows_bands(shapes, 1, ii, h, n)) by {
        assert forall|i: int| 0 <= i < n implies #[trigger] shapes[1 + i] == band(ii, h, i) by {
            assert(banded[behind.len() + i] == band(ii, h, i));
        }
        bands_are_shown(shapes, 1, ii, h, n);
    }
    assert(shows_cycles(shapes, lines, ii, h, total)) by {
        assert forall|c: int| 0 <= c <= total implies #[trigger] shapes[lines + 2 * c]
            == grid_line(ii, h, c) by {
            assert(gridded[banded.len() + 2 * c] == grid_line(ii, h, c));
        }
        assert forall|c: int| 0 <= c <= total implies #[trigger] shapes[lines + 2 * c + 1]
            == cycle_label(c) by {
            assert(gridded[banded.len() + 2 * c + 1] == cycle_label(c));
        }
        cycles_are_shown(shapes, lines, ii, h, total);
    }
    assert(shows_resources(shapes, names, lanes)) by {
        assert forall|r: int| 0 <= r < lanes.len() implies #[trigger] shapes[names + r]
            == resource_label(lanes, r) by {
            assert(named[gridded.len() + r] == resource_label(lanes, r));
        }
        resources_are_shown(shapes, names, lanes);
    }
    assert(shows_boxes(shapes, boxes, lanes, colors, placed)) by {
        assert forall|k: int| 0 <= k < placed.len() implies #[trigger] shapes[boxes + 2 * k]
            == op_box(lanes, colors, placed[k]) by {
            assert(shapes[named.len() + 2 * k] == op_box(lanes, colors, placed[k]));
        }
        assert forall|k: int| 0 <= k < placed.len() implies #[trigger] shapes[boxes + 2 * k + 1]
            == op_label(lanes, placed[k]) by {
            assert(shapes[named.len() + 2 * k + 1] == op_label(lanes, placed[k]));
        }
        boxes_are_shown(shapes, boxes, lanes, colors, placed);
    }
    names_differ();
}

proof fn bands_are_shown(shapes: Seq<Shape>, at: int, ii: int, h: int, n: int)
    requires
        forall|i: int| 0 <= i < n ==> #[trigger] shapes[at + i] == band(ii, h, i),
    ensures
        shows_bands(shapes, at, ii, h, n),
{
    assert forall|i: int| 0 <= i < n implies covers(
        #[trigger] shapes[at + i],
        86 + 60 * (i * ii),
        38,
        60 * ii,
        h - 54,
    ) && is_filled(
        shapes[at + i],
        if i % 2 == 0 {
            "#fafafa"@
        } else {
            "#eef2f7"@
        },
    ) by {
        band_is_in_place(ii, h, i);
    }
}

proof fn cycles_are_shown(shapes: Seq<Shape>, at: int, ii: int, h: int, total: int)
    requires
        forall|c: int| 0 <= c <= total ==> #[trigger] shapes[at + 2 * c] == grid_line(ii, h, c),
        forall|c: int| 0 <= c <= total ==> #[trigger] shapes[at + 2 * c + 1] == cycle_label(c),
    ensures
        shows_cycles(shapes, at, ii, h, total),
{
    assert forall|c: int| 0 <= c <= total implies connects(
        #[trigger] shapes[at + 2 * c],
        86 + 60 * c,
        38,
        86 + 60 * c,
        h - 16,
    ) && is_drawn_in(
        shapes[at + 2 * c],
        if c % ii == 0 {
            "#aaa"@
        } else {
            "#e8e8e8"@
        },
    ) by {
        cycle_is_in_place(ii, h, c);
    }
    assert forall|c: int| 0 <= c <= total implies says(
        #[trigger] shapes[at + 2 * c + 1],
        86 + 60 * c,
        32,
        decimal(c),
    ) && is_centered(shapes[at + 2 * c + 1]) && is_written(
        shapes[at + 2 * c + 1],
        10,
        "#555"@,
    ) by {
        cycle_is_in_place(ii, h, c);
    }
}

proof fn resources_are_shown(shapes: Seq<Shape>, at: int, lanes: Seq<i32>)
    requires
        forall|r: int|
            0 <= r < lanes.len() ==> #[trigger] shapes[at + r] == resource_label(lanes, r),
    ensures
        shows_resources(shapes, at, lanes),
{
    assert forall|r: int| 0 <= r < lanes.len() implies says(
        #[trigger] shapes[at + r],
        16,
        top_of(lanes, r) + 22,
        seq!['R'] + decimal(r),
    ) && is_written(shapes[at + r], 12, "#000"@) by {
        resource_is_in_place(lanes, r);
    }
}

proof fn boxes_are_shown(
    shapes: Seq<Shape>,
    at: int,
    lanes: Seq<i32>,
    colors: Coloring,
    placed: Seq<PlacedView>,
)
    requires
        forall|k: int| 0 <= k < placed.len() ==> 0 <= (#[trigger] placed[k]).resource,
        forall|k: int|
            0 <= k < placed.len() ==> #[trigger] shapes[at + 2 * k] == op_box(
                lanes,
                colors,
                placed[k],
            ),
        forall|k: int|
            0 <= k < placed.len() ==> #[trigger] shapes[at + 2 * k + 1] == op_label(
                lanes,
                placed[k],
            ),
    ensures
        shows_boxes(shapes, at, lanes, colors, placed),
{
    assert forall|k: int| 0 <= k < placed.len() implies is_box(
        #[trigger] shapes[at + 2 * k],
        lanes,
        colors,
        placed[k],
    ) by {
        op_box_is_box(lanes, colors, placed[k]);
    }
    assert forall|k: int| 0 <= k < placed.len() implies says(
        #[trigger] shapes[at + 2 * k + 1],
        86 + 60 * placed[k].start + 30 * placed[k].dur,
        top_of(lanes, placed[k].resource) + 36 * placed[k].lane + 18,
        placed[k].op + seq!['#'] + decimal(placed[k].iter),
    ) && is_centered(shapes[at + 2 * k + 1]) && is_written(
        shapes[at + 2 * k + 1],
        11,
        "white"@,
    ) by {
        label_is_in_place(lanes, placed[k]);
    }
}

/// The number is in the range of `i32`.
pub open spec fn is_small(v: int) -> bool {
    -0x8000_0000 <= v <= 0x7fff_ffff
}

/// What it takes for a picture to be drawn: its size and the coordinates of its boxes are in the
/// range of `i32`.
pub proof fn what_fits_a_picture(
    ii: int,
    l: int,
    placed: Seq<PlacedView>,
    lanes: Seq<i32>,
    n: int,
)
    requires
        1 <= ii <= l,
        1 <= n,
        (n - 1) * ii < l,
        l <= n * ii,
    ensures
        picture_fits(ii, l, placed, lanes) <==> {
            &&& is_small(l + ii)
            &&& is_small(102 + 60 * (l + (n - 1) * ii))
            &&& is_small(top_of(lanes, lanes.len() as int) + 16)
            &&& forall|k: int|
                0 <= k < placed.len() ==> {
                    let p = #[trigger] placed[k];
                    &&& is_small(60 * p.start)
                    &&& is_small(86 + 60 * p.start)
                    &&& is_small(60 * p.dur)
                    &&& is_small(86 + 60 * p.start + 30 * p.dur)
                }
        },
{
    let m = n_iterations(ii, l);
    iterations_cover(ii, l);
    assert(m == n) by {
        if m < n {
            assert(m * ii <= (n - 1) * ii) by (nonlinear_arith)
                requires
                    m <= n - 1,
                    1 <= ii,
            ;
        }
        if n < m {
            assert(n * ii <= (m - 1) * ii) by (nonlinear_arith)
                requires
                    n <= m - 1,
                    1 <= ii,
            ;
        }
    }
    assert(total_cycles(ii, l) == l + (n - 1) * ii);
    row_top_is_top(lanes, lanes.len() as int);
    assert forall|p: PlacedView| #[trigger] box_fits(p) <==> {
        &&& is_small(60 * p.start)
        &&& is_small(86 + 60 * p.start)
        &&& is_small(60 * p.dur)
        &&& is_small(86 + 60 * p.start + 30 * p.dur)
    } by {
        assert(half(p.dur * 60) == 30 * p.dur);
    }
    if picture_fits(ii, l, placed, lanes) {
        assert forall|k: int| 0 <= k < placed.len() implies {
            let p = #[trigger] placed[k];
            &&& is_small(60 * p.start)
            &&& is_small(86 + 60 * p.start)
            &&& is_small(60 * p.dur)
            &&& is_small(86 + 60 * p.start + 30 * p.dur)
        } by {
            assert(box_fits(placed[k]));
        }
    }
}

} // verus!
