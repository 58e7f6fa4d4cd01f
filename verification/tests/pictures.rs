use std::collections::HashMap;

use sme_swp::collect::{class_durations, collect_ops, list_ops};
use sme_swp::extract::SwpSolution;
use sme_swp::graph::{ClassGraph, TileClass};
use sme_swp::lanes::{fit_counts, narrow_counts, pack_lanes, place_in_lanes, Op, Placed};
use sme_swp::number::decimal_text;
use sme_swp::palette::{assign_colors, color_of};
use sme_swp::phases::phases;
use sme_swp::render::{fits_picture, fits_timeline, render_ops, render_pipeline};
use sme_swp::tile::{ResourceTable, TileLang};
use svg::parser::Event;

fn op(name: &str, t: i32, d: i32, resource: usize) -> Op {
    Op { name: name.to_string(), t, d, resource }
}

fn places(placed: &[Placed]) -> Vec<(&str, i32, i32, usize)> {
    placed.iter().map(|p| (p.op.as_str(), p.iter, p.start, p.lane)).collect()
}

fn node(op: &str, children: Vec<usize>, data: Vec<(i32, i32)>, rt: ResourceTable) -> TileLang<usize> {
    TileLang::new(op.to_string(), children, data, rt)
}

/// A product of two loads, of which the second is used again.
fn product() -> ClassGraph {
    ClassGraph {
        classes: vec![
            TileClass { id: 0, nodes: vec![node("x", vec![], vec![], vec![vec![1, 0]])] },
            TileClass { id: 1, nodes: vec![node("y", vec![], vec![], vec![vec![0, 0], vec![0, 1]])] },
            TileClass {
                id: 2,
                nodes: vec![
                    node("mul", vec![0, 1, 1], vec![(2, 0), (3, 0), (9, 1)], vec![vec![0, 1]]),
                    node("alt", vec![3], vec![(7, 0)], vec![]),
                ],
            },
        ],
        leaders: vec![0, 1, 2, 0],
    }
}

#[test]
fn durations_come_from_the_first_dependence() {
    let durations = class_durations(&product());
    assert_eq!(durations, HashMap::from([(0, 2), (1, 3)]));
}

#[test]
fn operations_that_nothing_depends_on_are_left_out() {
    let graph = product();
    let sol = SwpSolution {
        ii: 2,
        end: 4,
        selected: HashMap::from([(0, (0, 5)), (1, (0, 6)), (2, (0, 8))]),
    };
    let mut ops = collect_ops(&graph, 2, &sol, &class_durations(&graph));
    ops.sort_by_key(|op| op.t);
    let seen: Vec<(&str, i32, i32, usize)> =
        ops.iter().map(|op| (op.name.as_str(), op.t, op.d, op.resource)).collect();
    assert_eq!(seen, vec![("x", 5, 2, 0), ("y", 6, 3, 1)]);
}

#[test]
fn operations_are_listed_in_the_order_of_the_entries() {
    let graph = product();
    let duration = HashMap::from([(0, 2), (1, 3), (2, 0)]);
    let entries = [(1, (0, 6)), (2, (1, 8)), (0, (0, 5))];
    let ops = list_ops(&graph, 2, &entries, &duration);
    let seen: Vec<&str> = ops.iter().map(|op| op.name.as_str()).collect();
    assert_eq!(seen, vec!["y", "x"]);
    // An operation that uses nothing is drawn with the first resource.
    let ops = list_ops(&graph, 2, &[(2, (1, 8))], &HashMap::from([(2, 1)]));
    assert_eq!((ops[0].name.as_str(), ops[0].resource), ("alt", 0));
    // Columns beyond the resources are not looked at.
    let ops = list_ops(&graph, 1, &[(2, (0, 8))], &HashMap::from([(2, 1)]));
    assert_eq!((ops[0].name.as_str(), ops[0].resource), ("mul", 0));
}

#[test]
fn colors_follow_the_names() {
    let ops = [op("a", 0, 1, 0), op("b", 0, 1, 0), op("a", 3, 1, 0), op("c", 0, 1, 0)];
    let colors = assign_colors(&ops);
    let seen: Vec<(&str, &str)> = colors.iter().map(|(n, c)| (n.as_str(), *c)).collect();
    assert_eq!(seen, vec![("a", "#e76f51"), ("b", "#2a9d8f"), ("c", "#f4a261")]);
    assert_eq!(color_of(&colors, &"b".to_string()), Some("#2a9d8f"));
    assert_eq!(color_of(&colors, &"d".to_string()), None);
    assert!(assign_colors(&[]).is_empty());
}

#[test]
fn colors_start_again_after_eight() {
    let ops: Vec<Op> = (0..9).map(|i| op(&format!("n{i}"), 0, 1, 0)).collect();
    let colors = assign_colors(&ops);
    let first: Vec<&str> = colors.iter().map(|(_, c)| *c).collect();
    assert_eq!(
        first,
        vec![
            "#e76f51", "#2a9d8f", "#f4a261", "#264653", "#e9c46a", "#8ecae6", "#bb9457", "#c77dff",
            "#e76f51",
        ],
    );
    for i in 0..8 {
        for j in 0..i {
            assert_ne!(first[i], first[j]);
        }
    }
}

#[test]
fn lanes_are_reused_when_they_are_free() {
    let ops = [op("a", 0, 2, 0), op("b", 1, 1, 0)];
    let (placed, lanes) = pack_lanes(&ops, &[1], 2, 3);
    assert_eq!(
        places(&placed),
        vec![
            ("a", 0, 0, 0),
            ("b", 0, 1, 1),
            ("a", 1, 2, 0),
            ("b", 1, 3, 1),
            ("a", 2, 4, 0),
            ("b", 2, 5, 1),
        ],
    );
    assert_eq!(lanes, vec![2]);
}

#[test]
fn events_with_one_start_stay_in_order() {
    let ops = [op("b", 2, 1, 0), op("a", 0, 1, 0), op("c", 0, 1, 1)];
    let (placed, lanes) = pack_lanes(&ops, &[3, 0, -4], 2, 2);
    assert_eq!(
        places(&placed),
        vec![
            ("a", 0, 0, 0),
            ("c", 0, 0, 0),
            ("b", 0, 2, 0),
            ("a", 1, 2, 1),
            ("c", 1, 2, 0),
            ("b", 1, 4, 0),
        ],
    );
    assert_eq!(lanes, vec![3, 1, 1]);
}

#[test]
fn operations_in_one_lane_do_not_overlap() {
    let ops = [op("a", 0, 5, 0), op("b", 1, 3, 0), op("c", 2, 4, 0), op("d", 0, 1, 1)];
    let (placed, lanes) = pack_lanes(&ops, &[2, 1], 3, 4);
    assert_eq!(placed.len(), 16);
    for (j, q) in placed.iter().enumerate() {
        assert!((q.lane as i32) < lanes[q.resource]);
        for p in &placed[..j] {
            assert!(p.start <= q.start);
            if p.resource == q.resource && p.lane == q.lane {
                assert!(p.start + p.dur <= q.start);
            }
        }
        // Every lower lane is busy when the operation starts.
        for lane in 0..q.lane {
            assert!(placed[..j].iter().any(|p| p.resource == q.resource
                && p.lane == lane
                && p.start <= q.start
                && q.start < p.start + p.dur));
        }
    }
}

#[test]
fn no_iterations_place_nothing() {
    let ops = [op("a", 0, 5, 7)];
    let (placed, lanes) = pack_lanes(&ops, &[2], 3, 0);
    assert!(placed.is_empty());
    assert_eq!(lanes, vec![2]);
    let (placed, lanes) = pack_lanes(&ops, &[], 3, -1);
    assert!(placed.is_empty());
    assert!(lanes.is_empty());
}

#[test]
fn phases_cover_an_iteration() {
    let p = phases(2, 5);
    assert_eq!((p.n_iters, p.prologue, p.steady, p.epilogue, p.total_cycles), (3, 4, 2, 3, 9));
    assert_eq!(p.total_cycles, 5 + (p.n_iters - 1) * 2);
    let p = phases(3, 3);
    assert_eq!((p.n_iters, p.prologue, p.steady, p.epilogue, p.total_cycles), (1, 0, 3, 0, 3));
    let p = phases(3, 4);
    assert_eq!((p.n_iters, p.prologue, p.steady, p.epilogue, p.total_cycles), (2, 3, 3, 1, 7));
}

#[test]
fn numbers_are_written_in_decimal() {
    assert_eq!(decimal_text(0), "0");
    assert_eq!(decimal_text(907), "907");
    assert_eq!(decimal_text(-10), "-10");
    assert_eq!(decimal_text(i32::MIN), i32::MIN.to_string());
    assert_eq!(decimal_text(i32::MAX), i32::MAX.to_string());
}

#[test]
fn a_picture_has_its_shapes() {
    let ops = [op("a&b", 0, 1, 0)];
    let text = render_ops(&ops, &[1], 1, 1).unwrap();
    let lines: Vec<&str> = text.lines().collect();
    assert_eq!(
        lines[0],
        "<svg font-family=\"monospace\" height=\"100\" width=\"162\" xmlns=\"http://www.w3.org/2000/svg\">",
    );
    let expected = [
        // Background and band.
        "<rect fill=\"white\" height=\"100\" width=\"162\" x=\"0\" y=\"0\"/>",
        "<rect fill=\"#fafafa\" height=\"46\" width=\"60\" x=\"86\" y=\"38\"/>",
        // The start and the end of the only cycle.
        "<line stroke=\"#aaa\" x1=\"86\" x2=\"86\" y1=\"38\" y2=\"84\"/>",
        "<text fill=\"#555\" font-size=\"10\" text-anchor=\"middle\" x=\"86\" y=\"32\">",
        "<line stroke=\"#aaa\" x1=\"146\" x2=\"146\" y1=\"38\" y2=\"84\"/>",
        "<text fill=\"#555\" font-size=\"10\" text-anchor=\"middle\" x=\"146\" y=\"32\">",
        // The resource.
        "<text fill=\"#000\" font-size=\"12\" font-weight=\"bold\" x=\"16\" y=\"60\">",
        // The operation.
        "<rect fill=\"#e76f51\" height=\"30\" stroke=\"#222\" stroke-width=\"1\" width=\"60\" x=\"86\" y=\"41\"/>",
        "<text dominant-baseline=\"middle\" fill=\"white\" font-size=\"11\" font-weight=\"bold\" text-anchor=\"middle\" x=\"116\" y=\"56\">",
    ];
    let mut rest = lines.iter();
    for line in expected {
        assert!(rest.any(|l| *l == line), "{line}");
    }
    let words: Vec<&str> = text.lines().filter(|l| !l.is_empty() && !l.starts_with('<')).collect();
    assert_eq!(words, vec!["0", "1", "R0", "a&amp;b#0"]);
}

#[test]
fn a_picture_counts_its_shapes() {
    // Three iterations over nine cycles, two resources, two operations each.
    let ops = [op("a", 0, 2, 0), op("b", 3, 2, 1)];
    let text = render_ops(&ops, &[1, 1], 2, 5).unwrap();
    let mut counts: HashMap<String, usize> = HashMap::new();
    for event in svg::read(&text).unwrap() {
        if let Event::Tag(name, kind, _) = event {
            if !matches!(kind, svg::node::element::tag::Type::End) {
                *counts.entry(name.to_string()).or_insert(0) += 1;
            }
        }
    }
    assert_eq!(counts["rect"], 1 + 3 + 6);
    assert_eq!(counts["line"], 10);
    assert_eq!(counts["text"], 10 + 2 + 6);
    // Every second band is darker, and every second line.
    assert_eq!(text.matches("#eef2f7").count(), 1);
    assert_eq!(text.matches("stroke=\"#aaa\"").count(), 5);
    assert_eq!(text.matches("stroke=\"#e8e8e8\"").count(), 5);
    assert_eq!(text.matches("#e76f51").count(), 3);
    assert_eq!(text.matches("#2a9d8f").count(), 3);
    assert!(text.contains("a#2"));
    assert!(text.contains("R1"));
}

#[test]
fn a_schedule_is_rendered() {
    let graph = product();
    let sol = SwpSolution { ii: 2, end: 2, selected: HashMap::from([(0, (0, 0)), (2, (0, 8))]) };
    let text = render_pipeline(&graph, &[1, 1], &sol).unwrap();
    // Only the load takes time, in the one iteration there is.
    assert_eq!(text.matches("stroke-width").count(), 1);
    assert!(text.contains("x#0"));
    assert_eq!(Some(text), render_ops(&[op("x", 0, 2, 0)], &[1, 1], 2, 2));
}

#[test]
fn pictures_beyond_the_range_are_not_drawn() {
    let ops = [op("a", 0, 1, 0)];
    assert!(fits_timeline(&ops, 1, 1));
    assert!(!fits_timeline(&[op("a", i32::MAX, 1, 0)], 1, 1));
    assert!(!fits_timeline(&ops, i32::MAX, 3));
    assert!(fits_picture(1, 1, &[], &[1]));
    assert!(!fits_picture(1, i32::MAX, &[], &[1]));
    assert!(!fits_picture(1, 1, &[], &[i32::MAX]));
    assert!(render_ops(&[op("a", i32::MAX, 1, 0)], &[1], 1, 1).is_none());
    assert!(render_ops(&ops, &[i32::MAX / 30], 1, 1).is_none());
    assert!(render_ops(&ops, &[1], 1, i32::MAX).is_none());
    assert!(render_ops(&ops, &[1], i32::MAX / 2, i32::MAX / 2).is_none());
    // The box of a far operation does not fit, though its cycles do.
    assert!(render_ops(&[op("a", i32::MAX / 10, 1, 0)], &[1], 1, 1).is_none());
}

#[test]
fn the_same_operations_are_packed_in_the_same_way() {
    let ops = [op("a", 0, 5, 0), op("b", 1, 3, 0), op("c", 2, 4, 0)];
    let (first, lanes) = pack_lanes(&ops, &[1], 2, 3);
    let (second, again) = pack_lanes(&ops, &[1], 2, 3);
    assert_eq!(places(&first), places(&second));
    assert_eq!(lanes, again);
    assert_eq!(lanes, vec![6]);
}

#[test]
fn operations_that_keep_the_limits_need_no_more_lanes() {
    // Two units: one operation runs in both slots of the interval, the other two in one each.
    let ops = [op("a", 1, 2, 0), op("b", 0, 1, 0), op("c", 3, 1, 0), op("d", 5, 2, 1)];
    for n_iters in 0..20 {
        let (_, lanes) = pack_lanes(&ops, &[2, 0], 2, n_iters);
        assert_eq!(lanes, vec![2, 1]);
    }
    // One more operation in the first slot, and a third lane is needed.
    let ops = [op("a", 1, 2, 0), op("b", 0, 1, 0), op("c", 3, 1, 0), op("e", 4, 1, 0)];
    let (_, lanes) = pack_lanes(&ops, &[2, 0], 2, 5);
    assert_eq!(lanes, vec![3, 1]);
}

#[test]
fn operations_that_end_before_they_start_do_not_overlap() {
    let ops = [op("a", 0, -3, 0), op("b", 1, 4, 0), op("c", 2, -1, 0)];
    let (placed, _) = pack_lanes(&ops, &[1], 2, 4);
    for (j, q) in placed.iter().enumerate() {
        for p in &placed[..j] {
            if p.lane == q.lane {
                assert!(p.start + p.dur <= q.start);
            }
        }
    }
}

#[test]
fn later_operations_are_packed_in_the_same_lanes() {
    let ops = [op("a", 0, 5, 0), op("b", 1, 3, 0), op("c", 2, -1, 0), op("d", 0, 1, 1)];
    let (placed, lanes) = pack_lanes(&ops, &[1, 2], 2, 3);
    for c in [-100, -1, 1, 7, 1000] {
        let later: Vec<Op> = ops.iter().map(|o| op(&o.name, o.t + c, o.d, o.resource)).collect();
        let (moved, same) = pack_lanes(&later, &[1, 2], 2, 3);
        assert_eq!(lanes, same);
        assert_eq!(placed.len(), moved.len());
        for (p, q) in placed.iter().zip(&moved) {
            assert_eq!((&p.op, p.iter, p.resource, p.lane), (&q.op, q.iter, q.resource, q.lane));
            assert_eq!((p.start + c, p.dur), (q.start, q.dur));
        }
    }
}

#[test]
fn lanes_are_as_many_as_units_or_as_run_at_once() {
    let ops = [op("a", 0, 5, 0), op("b", 1, 3, 0), op("c", 2, 4, 0), op("d", 0, 1, 1)];
    for limit in -1..10 {
        let (placed, lanes) = pack_lanes(&ops, &[limit, 1], 3, 4);
        for r in 0..2 {
            let most = (0..30)
                .map(|cycle| {
                    placed
                        .iter()
                        .filter(|p| {
                            p.resource == r && p.start <= cycle && cycle < p.start + p.dur
                        })
                        .count() as i32
                })
                .max()
                .unwrap();
            let units = if r == 0 { limit } else { 1 };
            assert_eq!(lanes[r], most.max(units).max(1));
        }
    }
    // In cycle 3 "a", "b" and "c" of the first iteration and "a" of the second run.
    assert_eq!(pack_lanes(&ops, &[0, 0], 3, 4).1, vec![4, 1]);
}

#[test]
fn lanes_are_counted_before_they_are_narrowed() {
    let ops = [op("a", 0, 2, 0), op("b", 1, 1, 0)];
    let (placed, counts) = place_in_lanes(&ops, &[1, 4], 2, 1);
    assert_eq!(places(&placed), vec![("a", 0, 0, 0), ("b", 0, 1, 1)]);
    assert_eq!(counts, vec![2, 4]);
    assert!(fit_counts(&counts));
    assert_eq!(narrow_counts(&counts), vec![2, 4]);
    assert!(fit_counts(&vec![]));
    assert!(fit_counts(&vec![0, i32::MAX as usize]));
    assert!(!fit_counts(&vec![0, i32::MAX as usize + 1]));
}
