//! Drawing a software pipeline.

use svg::node::element::SVG;
use vstd::prelude::*;

use crate::boxes::{is_drawing, pictures_show_everything};
use crate::canvas::{
    add_line, add_rectangle, add_text, picture_attributes, picture_shapes, plain, rect, rect_at,
    set_on_picture, set_on_rectangle, set_on_text, text, text_at, vline, vline_at, Attributes,
    Shape,
};
use crate::lanes::{placed_views, Placed, PlacedView};
use crate::number::{append_digits, decimal, decimal_text, digits, in_i32};
use crate::palette::{color_of, color_of_name, color_views, has_color, Coloring};
use crate::phases::{iterations_cover, n_iterations, phases, total_cycles};

verus! {

/// How wide a cycle is drawn.
pub const CYCLE_W: i32 = 60;

/// How high a lane is drawn.
pub const LANE_H: i32 = 36;

/// The room for the names of the resources.
pub const LABEL_W: i32 = 70;

/// The room around the picture.
pub const PAD: i32 = 16;

/// The room for the numbers of the cycles.
pub const AXIS_H: i32 = 22;

/// The room between resources.
pub const GROUP_PAD: i32 = 10;

/// Where the lanes of resource `r` start.
pub open spec fn row_top(lanes: Seq<i32>, r: int) -> int
    decreases r,
{
    if r <= 0 {
        PAD + AXIS_H
    } else {
        row_top(lanes, r - 1) + lanes[r - 1] * LANE_H + GROUP_PAD
    }
}

/// How high the picture is.
pub open spec fn height(lanes: Seq<i32>) -> int {
    row_top(lanes, lanes.len() as int) + PAD
}

/// How wide a picture of so many cycles is.
pub open spec fn width(cycles: int) -> int {
    LABEL_W + cycles * CYCLE_W + PAD * 2
}

/// Where a cycle starts.
pub open spec fn cycle_x(cycle: int) -> int {
    PAD + LABEL_W + cycle * CYCLE_W
}

/// The attributes of the picture.
pub open spec fn frame(w: int, h: int) -> Attributes {
    plain().insert("xmlns"@, "http://www.w3.org/2000/svg"@).insert("width"@, decimal(w)).insert(
        "height"@,
        decimal(h),
    ).insert("font-family"@, "monospace"@)
}

/// What is behind everything.
pub open spec fn background(w: int, h: int) -> Shape {
    Shape::Rect(rect_at(0, 0, w, h).insert("fill"@, "white"@))
}

/// What is behind the cycles from the start of an iteration to that of the next.
pub open spec fn band(ii: int, h: int, iter: int) -> Shape {
    let fill = if iter % 2 == 0 {
        "#fafafa"@
    } else {
        "#eef2f7"@
    };
    Shape::Rect(
        rect_at(
            cycle_x(iter * ii),
            PAD + AXIS_H,
            ii * CYCLE_W,
            h - PAD * 2 - AXIS_H,
        ).insert("fill"@, fill),
    )
}

/// The shapes with the bands of `n` iterations.
pub open spec fn with_bands(shapes: Seq<Shape>, ii: int, h: int, n: int) -> Seq<Shape>
    decreases n,
{
    if n <= 0 {
        shapes
    } else {
        with_bands(shapes, ii, h, n - 1).push(band(ii, h, n - 1))
    }
}

/// The line at the start of a cycle, darker where an iteration starts.
pub open spec fn grid_line(ii: int, h: int, c: int) -> Shape {
    let stroke = if c % ii == 0 {
        "#aaa"@
    } else {
        "#e8e8e8"@
    };
    Shape::Segment(vline_at(cycle_x(c), PAD + AXIS_H, h - PAD, stroke))
}

/// The number of a cycle.
pub open spec fn cycle_label(c: int) -> Shape {
    Shape::Label(
        text_at(cycle_x(c), PAD + AXIS_H - 6, 10).insert("text-anchor"@, "middle"@).insert(
            "fill"@,
            "#555"@,
        ),
        seq![""@, decimal(c)],
    )
}

/// The shapes with the lines and numbers of `n` cycles.
pub open spec fn with_grid(shapes: Seq<Shape>, ii: int, h: int, n: int) -> Seq<Shape>
    decreases n,
{
    if n <= 0 {
        shapes
    } else {
        with_grid(shapes, ii, h, n - 1).push(grid_line(ii, h, n - 1)).push(cycle_label(n - 1))
    }
}

/// The name of resource `r`.
pub open spec fn resource_label(lanes: Seq<i32>, r: int) -> Shape {
    Shape::Label(
        text_at(PAD as int, row_top(lanes, r) + LANE_H as int / 2 + 4, 12).insert(
            "font-weight"@,
            "bold"@,
        ).insert("fill"@, "#000"@),
        seq![""@, "R"@ + decimal(r)],
    )
}

/// The shapes with the names of `n` resources.
pub open spec fn with_resources(shapes: Seq<Shape>, lanes: Seq<i32>, n: int) -> Seq<Shape>
    decreases n,
{
    if n <= 0 {
        shapes
    } else {
        with_resources(shapes, lanes, n - 1).push(resource_label(lanes, n - 1))
    }
}

/// Half of a length, towards zero.
pub open spec fn half(w: int) -> int {
    if w < 0 {
        -((-w) / 2)
    } else {
        w / 2
    }
}

/// Where an operation is drawn, downwards.
pub open spec fn box_y(lanes: Seq<i32>, p: PlacedView) -> int {
    row_top(lanes, p.resource) + p.lane * LANE_H + 3
}

/// The box of an operation.
pub open spec fn op_box(lanes: Seq<i32>, colors: Coloring, p: PlacedView) -> Shape {
    Shape::Rect(
        rect_at(cycle_x(p.start), box_y(lanes, p), p.dur * CYCLE_W, LANE_H - 6).insert(
            "fill"@,
            color_of_name(colors, p.op),
        ).insert("stroke"@, "#222"@).insert("stroke-width"@, decimal(1)),
    )
}

/// The name of an operation and the number of its iteration.
pub open spec fn op_label(lanes: Seq<i32>, p: PlacedView) -> Shape {
    Shape::Label(
        text_at(
            cycle_x(p.start) + half(p.dur * CYCLE_W),
            box_y(lanes, p) + (LANE_H - 6) / 2,
            11,
        ).insert("fill"@, "white"@).insert("font-weight"@, "bold"@).insert(
            "text-anchor"@,
            "middle"@,
        ).insert("dominant-baseline"@, "middle"@),
        seq![""@, p.op + "#"@ + decimal(p.iter)],
    )
}

/// The shapes with the boxes and names of the first `n` operations.
pub open spec fn with_boxes(
    shapes: Seq<Shape>,
    lanes: Seq<i32>,
    colors: Coloring,
    placed: Seq<PlacedView>,
    n: int,
) -> Seq<Shape>
    decreases n,
{
    if n <= 0 {
        shapes
    } else {
        with_boxes(shapes, lanes, colors, placed, n - 1).push(
            op_box(lanes, colors, placed[n - 1]),
        ).push(op_label(lanes, placed[n - 1]))
    }
}

/// What a picture of a pipeline is made of: a background, a band for each iteration, a line and a
/// number for each cycle and the end of the last, the names of the resources, and for each
/// operation a box with its name.
pub open spec fn pipeline_shapes(
    ii: int,
    l: int,
    placed: Seq<PlacedView>,
    lanes: Seq<i32>,
    colors: Coloring,
) -> Seq<Shape> {
    let total = total_cycles(ii, l);
    let h = height(lanes);
    let behind = seq![background(width(total), h)];
    let banded = with_bands(behind, ii, h, n_iterations(ii, l));
    let gridded = with_grid(banded, ii, h, total + 1);
    let named = with_resources(gridded, lanes, lanes.len() as int);
    with_boxes(named, lanes, colors, placed, placed.len() as int)
}

/// The box of an operation has its coordinates in the range of `i32`.
pub open spec fn box_fits(p: PlacedView) -> bool {
    &&& in_i32(p.start * CYCLE_W)
    &&& in_i32(cycle_x(p.start))
    &&& in_i32(p.dur * CYCLE_W)
    &&& in_i32(cycle_x(p.start) + half(p.dur * CYCLE_W))
}

/// The picture has its coordinates in the range of `i32`.
pub open spec fn picture_fits(ii: int, l: int, placed: Seq<PlacedView>, lanes: Seq<i32>) -> bool {
    &&& in_i32(l + ii)
    &&& in_i32(width(total_cycles(ii, l)))
    &&& in_i32(height(lanes))
    &&& forall|k: int| 0 <= k < placed.len() ==> box_fits(#[trigger] placed[k])
}

/// The operation is in a lane that there is, and its name has a colour.
pub open spec fn is_drawable(p: PlacedView, lanes: Seq<i32>, colors: Coloring) -> bool {
    &&& 0 <= p.resource < lanes.len()
    &&& 0 <= p.lane < lanes[p.resource]
    &&& has_color(colors, p.op)
}

/// Resources are below each other.
proof fn rows_descend(lanes: Seq<i32>, q: int, r: int)
    requires
        0 <= q <= r <= lanes.len(),
        forall|s: int| 0 <= s < lanes.len() ==> #[trigger] lanes[s] >= 1,
    ensures
        PAD + AXIS_H <= row_top(lanes, q) <= row_top(lanes, r),
        q < r ==> row_top(lanes, q) + lanes[q] * LANE_H + GROUP_PAD <= row_top(lanes, r),
    decreases r,
{
    if 0 < r {
        assert(lanes[r - 1] >= 1);
        if q < r {
            rows_descend(lanes, q, r - 1);
        } else {
            rows_descend(lanes, r - 1, r - 1);
        }
    }
}

/// Where the lanes of each resource start.
fn row_tops(lanes: &[i32]) -> (r: Vec<i32>)
    requires
        forall|s: int| 0 <= s < lanes@.len() ==> #[trigger] lanes@[s] >= 1,
        in_i32(height(lanes@)),
    ensures
        r@.len() == lanes@.len() + 1,
        forall|s: int| 0 <= s <= lanes@.len() ==> #[trigger] r@[s] == row_top(lanes@, s),
{
    let n = lanes.len();
    let mut tops: Vec<i32> = Vec::new();
    let mut y: i32 = PAD + AXIS_H;
    tops.push(y);
    let mut r: usize = 0;
    while r < n
        invariant
            r <= n,
            n == lanes@.len(),
            forall|s: int| 0 <= s < lanes@.len() ==> #[trigger] lanes@[s] >= 1,
            in_i32(height(lanes@)),
            y == row_top(lanes@, r as int),
            tops@.len() == r + 1,
            forall|s: int| 0 <= s <= r ==> #[trigger] tops@[s] == row_top(lanes@, s),
        decreases n - r,
    {
        proof {
            rows_descend(lanes@, r as int, n as int);
            assert(lanes@[r as int] >= 1);
        }
        y = y + (lanes[r] * LANE_H + GROUP_PAD);
        tops.push(y);
        r = r + 1;
    }
    tops
}

/// Draws the bands behind the iterations.
fn draw_bands(picture: SVG, ii: i32, h: i32, n_iters: i32) -> (r: SVG)
    requires
        1 <= ii,
        PAD * 2 + AXIS_H <= h,
        forall|iter: int|
            0 <= iter < n_iters ==> 0 <= #[trigger] (iter * ii) && in_i32(cycle_x(iter * ii)),
        in_i32(ii * CYCLE_W),
    ensures
        picture_attributes(r) == picture_attributes(picture),
        picture_shapes(r) == with_bands(
            picture_shapes(picture),
            ii as int,
            h as int,
            n_iters as int,
        ),
{
    let ghost before = picture_shapes(picture);
    let ghost attributes = picture_attributes(picture);
    let mut r = picture;
    let mut iter: i32 = 0;
    while iter < n_iters
        invariant
            0 <= iter,
            iter <= n_iters || iter == 0,
            1 <= ii,
            PAD * 2 + AXIS_H <= h,
            forall|iter: int|
                0 <= iter < n_iters ==> 0 <= #[trigger] (iter * ii) && in_i32(cycle_x(iter * ii)),
            in_i32(ii * CYCLE_W),
            picture_attributes(r) == attributes,
            picture_shapes(r) == with_bands(before, ii as int, h as int, iter as int),
        decreases n_iters - iter,
    {
        assert(0 <= (iter as int) * (ii as int));
        let start: i32 = iter * ii;
        let x0: i32 = PAD + LABEL_W + start * CYCLE_W;
        let fill = if iter % 2 == 0 {
            "#fafafa"
        } else {
            "#eef2f7"
        };
        let shape = rect(x0, PAD + AXIS_H, ii * CYCLE_W, h - PAD * 2 - AXIS_H);
        r = add_rectangle(r, set_on_rectangle(shape, "fill", fill));
        iter = iter + 1;
    }
    r
}

/// Draws the lines and numbers of the cycles up to and with `total`.
fn draw_grid(picture: SVG, ii: i32, h: i32, total: i32) -> (r: SVG)
    requires
        1 <= ii,
        0 <= h,
        0 <= total < i32::MAX,
        in_i32(width(total as int)),
    ensures
        picture_attributes(r) == picture_attributes(picture),
        picture_shapes(r) == with_grid(
            picture_shapes(picture),
            ii as int,
            h as int,
            total + 1,
        ),
{
    let ghost before = picture_shapes(picture);
    let ghost attributes = picture_attributes(picture);
    let mut r = picture;
    let mut c: i32 = 0;
    while c <= total
        invariant
            0 <= c <= total + 1,
            1 <= ii,
            0 <= h,
            0 <= total < i32::MAX,
            in_i32(width(total as int)),
            picture_attributes(r) == attributes,
            picture_shapes(r) == with_grid(before, ii as int, h as int, c as int),
        decreases total + 1 - c,
    {
        let x: i32 = PAD + LABEL_W + c * CYCLE_W;
        let stroke = if c % ii == 0 {
            "#aaa"
        } else {
            "#e8e8e8"
        };
        r = add_line(r, vline(x, PAD + AXIS_H, h - PAD, stroke));
        let label = text(x, PAD + AXIS_H - 6, 10, decimal_text(c).as_str());
        let label = set_on_text(label, "text-anchor", "middle");
        r = add_text(r, set_on_text(label, "fill", "#555"));
        c = c + 1;
    }
    r
}

/// Draws the names of the resources.
fn draw_resources(picture: SVG, lanes: &[i32], tops: &Vec<i32>) -> (r: SVG)
    requires
        forall|s: int| 0 <= s < lanes@.len() ==> #[trigger] lanes@[s] >= 1,
        in_i32(height(lanes@)),
        tops@.len() == lanes@.len() + 1,
        forall|s: int| 0 <= s <= lanes@.len() ==> #[trigger] tops@[s] == row_top(lanes@, s),
    ensures
        picture_attributes(r) == picture_attributes(picture),
        picture_shapes(r) == with_resources(
            picture_shapes(picture),
            lanes@,
            lanes@.len() as int,
        ),
{
    let ghost before = picture_shapes(picture);
    let ghost attributes = picture_attributes(picture);
    let n = lanes.len();
    let mut r = picture;
    let mut s: usize = 0;
    while s < n
        invariant
            s <= n,
            n == lanes@.len(),
            forall|s: int| 0 <= s < lanes@.len() ==> #[trigger] lanes@[s] >= 1,
            in_i32(height(lanes@)),
            tops@.len() == lanes@.len() + 1,
            forall|s: int| 0 <= s <= lanes@.len() ==> #[trigger] tops@[s] == row_top(lanes@, s),
            picture_attributes(r) == attributes,
            picture_shapes(r) == with_resources(before, lanes@, s as int),
        decreases n - s,
    {
        let mut name = "R".to_owned();
        append_digits(&mut name, s as u64);
        proof {
            rows_descend(lanes@, s as int, n as int);
            assert(lanes@[s as int] >= 1);
            assert(tops@[s as int] == row_top(lanes@, s as int));
            assert(digits(s as nat) == decimal(s as int));
        }
        let label = text(PAD, tops[s] + LANE_H / 2 + 4, 12, name.as_str());
        let label = set_on_text(label, "font-weight", "bold");
        r = add_text(r, set_on_text(label, "fill", "#000"));
        s = s + 1;
    }
    r
}

/// The half of a length, towards zero.
fn half_of(w: i32) -> (r: i32)
    ensures
        r == half(w as int),
{
    if w < 0 {
        if w == i32::MIN {
            -1_073_741_824
        } else {
            -((-w) / 2)
        }
    } else {
        w / 2
    }
}

/// Draws the box and the name of an operation.
fn draw_box(
    picture: SVG,
    lanes: &[i32],
    tops: &Vec<i32>,
    colors: &Vec<(String, &'static str)>,
    p: &Placed,
) -> (r: SVG)
    requires
        forall|s: int| 0 <= s < lanes@.len() ==> #[trigger] lanes@[s] >= 1,
        in_i32(height(lanes@)),
        tops@.len() == lanes@.len() + 1,
        forall|s: int| 0 <= s <= lanes@.len() ==> #[trigger] tops@[s] == row_top(lanes@, s),
        is_drawable(p@, lanes@, color_views(colors@)),
        box_fits(p@),
    ensures
        picture_attributes(r) == picture_attributes(picture),
        picture_shapes(r) == picture_shapes(picture).push(
            op_box(lanes@, color_views(colors@), p@),
        ).push(op_label(lanes@, p@)),
{
    proof {
        rows_descend(lanes@, p.resource as int, lanes@.len() as int);
        assert(tops@[p.resource as int] == row_top(lanes@, p.resource as int));
        assert(p.lane < lanes@[p.resource as int]);
    }
    let x: i32 = PAD + LABEL_W + p.start * CYCLE_W;
    let y: i32 = tops[p.resource] + p.lane as i32 * LANE_H + 3;
    let w: i32 = p.dur * CYCLE_W;
    let h: i32 = LANE_H - 6;
    let fill = match color_of(colors, &p.op) {
        Some(color) => color,
        None => "",
    };
    let shape = set_on_rectangle(rect(x, y, w, h), "fill", fill);
    let shape = set_on_rectangle(shape, "stroke", "#222");
    let shape = set_on_rectangle(shape, "stroke-width", decimal_text(1).as_str());
    let picture = add_rectangle(picture, shape);
    let mut name = p.op.clone();
    name.append("#");
    name.append(decimal_text(p.iter).as_str());
    let label = text(x + half_of(w), y + h / 2, 11, name.as_str());
    let label = set_on_text(label, "fill", "white");
    let label = set_on_text(label, "font-weight", "bold");
    let label = set_on_text(label, "text-anchor", "middle");
    let label = set_on_text(label, "dominant-baseline", "middle");
    add_text(picture, label)
}

/// Draws the boxes and the names of the operations.
fn draw_boxes(
    picture: SVG,
    lanes: &[i32],
    tops: &Vec<i32>,
    colors: &Vec<(String, &'static str)>,
    placed: &[Placed],
) -> (r: SVG)
    requires
        forall|s: int| 0 <= s < lanes@.len() ==> #[trigger] lanes@[s] >= 1,
        in_i32(height(lanes@)),
        tops@.len() == lanes@.len() + 1,
        forall|s: int| 0 <= s <= lanes@.len() ==> #[trigger] tops@[s] == row_top(lanes@, s),
        forall|k: int|
            0 <= k < placed@.len() ==> is_drawable(
                (#[trigger] placed@[k])@,
                lanes@,
                color_views(colors@),
            ) && box_fits(placed@[k]@),
    ensures
        picture_attributes(r) == picture_attributes(picture),
        picture_shapes(r) == with_boxes(
            picture_shapes(picture),
            lanes@,
            color_views(colors@),
            placed_views(placed@),
            placed@.len() as int,
        ),
{
    let ghost before = picture_shapes(picture);
    let ghost attributes = picture_attributes(picture);
    let n = placed.len();
    let mut r = picture;
    let mut k: usize = 0;
    while k < n
        invariant
            k <= n,
            n == placed@.len(),
            forall|s: int| 0 <= s < lanes@.len() ==> #[trigger] lanes@[s] >= 1,
            in_i32(height(lanes@)),
            tops@.len() == lanes@.len() + 1,
            forall|s: int| 0 <= s <= lanes@.len() ==> #[trigger] tops@[s] == row_top(lanes@, s),
            forall|k: int|
                0 <= k < placed@.len() ==> is_drawable(
                    (#[trigger] placed@[k])@,
                    lanes@,
                    color_views(colors@),
                ) && box_fits(placed@[k]@),
            picture_attributes(r) == attributes,
            picture_shapes(r) == with_boxes(
                before,
                lanes@,
                color_views(colors@),
                placed_views(placed@),
                k as int,
            ),
        decreases n - k,
    {
        r = draw_box(r, lanes, tops, colors, &placed[k]);
        assert(placed_views(placed@)[k as int] == placed@[k as int]@);
        k = k + 1;
    }
    r
}

/// Draws a pipeline of iterations of `l` cycles of which one starts every `ii` cycles.
pub fn draw_pipeline(
    ii: i32,
    l: i32,
    placed: &[Placed],
    lanes: &[i32],
    colors: &Vec<(String, &'static str)>,
) -> (r: SVG)
    requires
        1 <= ii <= l,
        forall|s: int| 0 <= s < lanes@.len() ==> #[trigger] lanes@[s] >= 1,
        forall|k: int|
            0 <= k < placed@.len() ==> is_drawable(
                (#[trigger] placed@[k])@,
                lanes@,
                color_views(colors@),
            ),
        picture_fits(ii as int, l as int, placed_views(placed@), lanes@),
    ensures
        picture_attributes(r) == frame(
            width(total_cycles(ii as int, l as int)),
            height(lanes@),
        ),
        picture_shapes(r) == pipeline_shapes(
            ii as int,
            l as int,
            placed_views(placed@),
            lanes@,
            color_views(colors@),
        ),
        exists|n: int| #[trigger]
            is_drawing(
                ii as int,
                l as int,
                n,
                placed_views(placed@),
                lanes@,
                color_views(colors@),
                picture_attributes(r),
                picture_shapes(r),
            ),
{
    proof {
        assert forall|k: int| 0 <= k < placed@.len() implies 0 <= (#[trigger] placed_views(
            placed@,
        )[k]).resource by {}
        pictures_show_everything(
            ii as int,
            l as int,
            placed_views(placed@),
            lanes@,
            color_views(colors@),
        );
        iterations_cover(ii as int, l as int);
        rows_descend(lanes@, 0, lanes@.len() as int);
    }
    let phases = phases(ii, l);
    let tops = row_tops(lanes);
    assert(tops@[lanes@.len() as int] == row_top(lanes@, lanes@.len() as int));
    let h: i32 = tops[lanes.len()] + PAD;
    let w: i32 = LABEL_W + phases.total_cycles * CYCLE_W + PAD * 2;
    let picture = set_on_picture(SVG::new(), "width", decimal_text(w).as_str());
    let picture = set_on_picture(picture, "height", decimal_text(h).as_str());
    let picture = set_on_picture(picture, "font-family", "monospace");
    assert(picture_shapes(picture) =~= seq![]);
    let picture = add_rectangle(
        picture,
        set_on_rectangle(rect(0, 0, w, h), "fill", "white"),
    );
    proof {
        let n = n_iterations(ii as int, l as int);
        assert(picture_shapes(picture) =~= seq![background(w as int, h as int)]);
        assert forall|iter: int| 0 <= iter < n implies 0 <= #[trigger] (iter * ii) && in_i32(
            cycle_x(iter * ii),
        ) by {
            assert(0 <= iter * ii <= (n - 1) * ii) by (nonlinear_arith)
                requires
                    0 <= iter <= n - 1,
                    1 <= ii,
            ;
        }
    }
    let picture = draw_bands(picture, ii, h, phases.n_iters);
    let picture = draw_grid(picture, ii, h, phases.total_cycles);
    let picture = draw_resources(picture, lanes, &tops);
    proof {
        assert forall|k: int| 0 <= k < placed@.len() implies box_fits((#[trigger] placed@[k])@) by {
            assert(placed_views(placed@)[k] == placed@[k]@);
        }
    }
    draw_boxes(picture, lanes, &tops, colors, placed)
}

} // verus!
