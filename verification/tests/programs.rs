use std::collections::HashMap;

use sme_swp::assemble::build_model;
use sme_swp::extract::decode;
use sme_swp::graph::{ClassGraph, TileClass};
use sme_swp::program::{Column, LinearProgram, Relation, Row};
use sme_swp::solver::optimise;
use sme_swp::tile::TileLang;

fn row(terms: Vec<(usize, i32)>, constant: i32, relation: Relation, bound: i32) -> Row {
    Row { terms, constant, relation, bound }
}

/// Two classes of one node each, of which the second depends on the first.
fn pair() -> ClassGraph {
    let first = TileLang::new("a".to_string(), vec![], vec![], vec![vec![1]]);
    let second = TileLang::new("b".to_string(), vec![4], vec![(1, 0)], vec![vec![1], vec![0]]);
    ClassGraph {
        classes: vec![
            TileClass { id: 4, nodes: vec![first] },
            TileClass { id: 1, nodes: vec![second] },
        ],
        leaders: vec![4, 1, 4, 1, 4],
    }
}

#[test]
fn the_smallest_value_is_found() {
    // x + y >= 5, y <= 3, minimise x.
    let program = LinearProgram {
        columns: vec![Column::Natural, Column::Natural],
        objective: 0,
        rows: vec![
            row(vec![(0, 1), (1, 1)], 0, Relation::AtLeast, 5),
            row(vec![(1, 1)], 0, Relation::AtMost, 3),
        ],
    };
    assert_eq!(optimise(&program), Some(vec![2, 3]));
}

#[test]
fn equalities_and_constants_count() {
    // 2 x + 3 = y + 10 with y binary.
    let program = LinearProgram {
        columns: vec![Column::Natural, Column::Binary],
        objective: 0,
        rows: vec![row(vec![(0, 2), (1, -1)], 3, Relation::Equal, 10)],
    };
    assert_eq!(optimise(&program), Some(vec![4, 1]));
}

#[test]
fn repeated_terms_add_up() {
    let program = LinearProgram {
        columns: vec![Column::Natural],
        objective: 0,
        rows: vec![row(vec![(0, 1), (0, 1), (0, 1)], 0, Relation::AtLeast, 7)],
    };
    assert_eq!(optimise(&program), Some(vec![3]));
}

#[test]
fn a_binary_column_is_at_most_one() {
    let program = LinearProgram {
        columns: vec![Column::Binary],
        objective: 0,
        rows: vec![row(vec![(0, 1)], 0, Relation::AtLeast, 2)],
    };
    assert_eq!(optimise(&program), None);
}

#[test]
fn a_natural_column_is_not_negative() {
    let program = LinearProgram {
        columns: vec![Column::Natural],
        objective: 0,
        rows: vec![row(vec![(0, 1)], 0, Relation::AtMost, -1)],
    };
    assert_eq!(optimise(&program), None);
}

#[test]
fn a_model_has_a_column_for_everything() {
    let graph = pair();
    let program = build_model(&graph, &vec![1], 2, &[1]);
    // Three per class, one and a slot count per node, and the end.
    assert_eq!(program.columns.len(), 2 * 3 + 2 * 3 + 1);
    assert_eq!(program.objective, 12);
    let binary = program.columns.iter().filter(|c| **c == Column::Binary).count();
    assert_eq!(binary, 2 + 6);
    // Three per class; one, an operand and a dependence per node; a root; a limit per slot.
    assert_eq!(program.rows.len(), 2 * 3 + 1 + 3 + 1 + 2);
}

#[test]
fn a_dependence_is_a_row() {
    let graph = pair();
    let program = build_model(&graph, &vec![1], 2, &[1]);
    // The second class starts a cycle after the first, if its node is selected.
    let found = program.rows.iter().any(|r| {
        r.terms == vec![(3, 1), (0, -1), (9, -1000)]
            && r.constant == 1000
            && r.relation == Relation::AtLeast
            && r.bound == 1
    });
    assert!(found);
}

#[test]
fn values_are_read_as_a_schedule() {
    let graph = pair();
    // Start, interval and selection of each class; node and slots of each; the end.
    let values: Vec<i64> = vec![0, 0, 1, 3, 1, 1, 1, 1, 0, 1, 0, 1, 5];
    let sol = decode(&graph, 2, &values);
    assert_eq!(sol.ii, 2);
    assert_eq!(sol.end, 5);
    assert_eq!(sol.selected, HashMap::from([(4, (0, 0)), (1, (0, 3))]));
}

#[test]
fn unselected_classes_are_left_out() {
    let graph = pair();
    let values: Vec<i64> = vec![7, 0, 0, 3, 1, 1, 1, 0, 0, 1, 0, 1, -1];
    let sol = decode(&graph, 2, &values);
    assert_eq!(sol.end, 0);
    assert_eq!(sol.selected, HashMap::from([(1, (0, 3))]));
    // A selected class without a selected node is left out too.
    let values: Vec<i64> = vec![0, 0, 1, 3, 1, 1, 0, 0, 0, 1, 0, 1, 5];
    assert_eq!(decode(&graph, 2, &values).selected, HashMap::from([(1, (0, 3))]));
}

#[test]
fn values_out_of_range_are_clamped() {
    let graph = pair();
    let values: Vec<i64> = vec![i64::MAX, 0, 1, i64::MIN, 1, 1, 1, 1, 0, 1, 0, 1, 5];
    let sol = decode(&graph, 2, &values);
    assert_eq!(sol.selected, HashMap::from([(4, (0, i32::MAX)), (1, (0, i32::MIN))]));
}

#[test]
fn the_first_selected_node_counts() {
    let node = |name: &str| TileLang::new(name.to_string(), vec![], vec![], vec![]);
    let graph = ClassGraph {
        classes: vec![TileClass { id: 0, nodes: vec![node("a"), node("b"), node("c")] }],
        leaders: vec![0],
    };
    // Each node has its own column and one slot.
    let values: Vec<i64> = vec![4, 0, 1, 0, 0, 1, 1, 1, 1, 9];
    assert_eq!(decode(&graph, 1, &values).selected, HashMap::from([(0, (1, 4))]));
}

/// Whether the values meet a row.
fn meets(row: &Row, values: &[i64]) -> bool {
    let left: i64 = row.terms.iter().map(|&(column, k)| values[column] * k as i64).sum();
    let left = left + row.constant as i64;
    match row.relation {
        Relation::Equal => left == row.bound as i64,
        Relation::AtMost => left <= row.bound as i64,
        Relation::AtLeast => left >= row.bound as i64,
    }
}

#[test]
fn a_schedule_is_a_feasible_point() {
    let program = build_model(&pair(), &vec![1], 2, &[1]);
    // The first class starts in cycle zero, the second in cycle one, and ends in cycle three.
    let values = [0, 0, 1, 1, 0, 1, 1, 1, 0, 1, 0, 1, 3];
    assert!(program.rows.iter().all(|r| meets(r, &values)));
    // Three cycles later, in the next slot but one, it starts late enough as well.
    let values = [0, 0, 1, 3, 1, 1, 1, 1, 0, 1, 0, 1, 5];
    assert!(program.rows.iter().all(|r| meets(r, &values)));
}

#[test]
fn what_is_no_schedule_is_no_feasible_point() {
    let program = build_model(&pair(), &vec![1], 2, &[1]);
    let refused = [
        // Too early for the dependence.
        [1, 0, 1, 1, 0, 1, 1, 0, 1, 1, 0, 1, 3],
        // Both in the same slot.
        [0, 0, 1, 2, 1, 1, 1, 1, 0, 1, 1, 0, 4],
        // Without the operand.
        [0, 0, 0, 1, 0, 1, 0, 0, 0, 1, 0, 1, 3],
        // Without the root.
        [0, 0, 1, 0, 0, 0, 1, 1, 0, 0, 0, 0, 1],
        // Not finished at the end.
        [0, 0, 1, 1, 0, 1, 1, 1, 0, 1, 0, 1, 2],
    ];
    for values in refused {
        assert!(!program.rows.iter().all(|r| meets(r, &values)), "{values:?}");
    }
}
