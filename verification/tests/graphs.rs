use std::cmp::Ordering;
use std::collections::{BTreeSet, HashSet};

use egg::{FromOp, Id, Language};
use sme_swp::dep::DepGraph;
use sme_swp::graph::{ClassGraph, TileClass};
use sme_swp::tile::{modulo_rt, EdgeData, TileLang};

fn edge(id: &str, d: i32, delta: i32) -> EdgeData<&str> {
    EdgeData { id, d, delta }
}

fn tile(op: &str, children: &[usize]) -> TileLang<Id> {
    let children: Vec<Id> = children.iter().map(|&c| Id::from(c)).collect();
    TileLang::new(op.to_string(), children, vec![], vec![])
}

fn names(class: &TileClass) -> Vec<String> {
    class.nodes.iter().map(|n| n.to_text()).collect()
}

fn class_named<'a>(graph: &'a ClassGraph, name: &str) -> &'a TileClass {
    graph.classes.iter().find(|c| names(c).contains(&name.to_string())).unwrap()
}

#[test]
fn folds_rows() {
    let rt = vec![vec![1, 0], vec![0, 2], vec![4, 0, 9]];
    assert_eq!(modulo_rt(&rt, 2, 2), vec![vec![5, 0], vec![0, 2]]);
    assert_eq!(modulo_rt(&rt, 1, 2), vec![vec![5, 2]]);
    assert_eq!(modulo_rt(&rt, 4, 3), vec![vec![1, 0, 0], vec![0, 2, 0], vec![4, 0, 9], vec![0, 0, 0]]);
    assert_eq!(modulo_rt(&rt, 2, 0), vec![vec![], vec![]] as Vec<Vec<i32>>);
    assert_eq!(modulo_rt(&vec![], 0, 3), Vec::<Vec<i32>>::new());
}

#[test]
fn folding_keeps_the_units_of_each_column() {
    let rt = vec![vec![3, -1], vec![2, 5], vec![7, 1], vec![1, 1], vec![0, 4]];
    for ii in 1..8 {
        let folded = modulo_rt(&rt, ii, 2);
        for col in 0..2 {
            let before: i32 = rt.iter().map(|row| row[col]).sum();
            let after: i32 = folded.iter().map(|row| row[col]).sum();
            assert_eq!(before, after);
        }
    }
}

#[test]
fn folding_in_two_steps_is_folding_in_one() {
    let rt = vec![vec![3, -1], vec![2, 5, 8], vec![7], vec![1, 1], vec![0, 4], vec![6, 2], vec![9]];
    assert_eq!(modulo_rt(&rt, 2, 2), vec![vec![19, 3], vec![9, 8]]);
    for ii in 1..5 {
        for times in 1..4 {
            let wide = modulo_rt(&rt, ii * times, 2);
            assert_eq!(modulo_rt(&wide, ii, 2), modulo_rt(&rt, ii, 2));
        }
    }
}

#[test]
fn edges_pair_operands_with_their_data() {
    let tile = TileLang::new("f".to_string(), vec![7, 8, 9], vec![(1, 0), (2, 1)], vec![]);
    let edges = tile.edges();
    assert_eq!(edges.len(), 2);
    assert_eq!((edges[0].id, edges[0].d, edges[0].delta), (7, 1, 0));
    assert_eq!((edges[1].id, edges[1].d, edges[1].delta), (8, 2, 1));
    assert!(TileLang::<usize>::leaf("f".to_string()).edges().is_empty());
}

#[test]
fn clones_have_everything() {
    let tile = TileLang::new("f".to_string(), vec![7], vec![(1, 0)], vec![vec![1, 2], vec![3]]);
    let copy = tile.clone();
    assert_eq!(copy.op, "f");
    assert_eq!(copy.children, vec![7]);
    assert_eq!(copy.edge_data, vec![(1, 0)]);
    assert_eq!(copy.rt, vec![vec![1, 2], vec![3]]);
}

#[test]
fn operations_are_told_apart_by_operator_and_operands() {
    let plain = tile("f", &[1, 2]);
    let mut heavy = tile("f", &[1, 2]);
    heavy.edge_data = vec![(3, 1)];
    heavy.rt = vec![vec![1]];
    assert!(plain == heavy);
    assert!(heavy == plain);
    assert!(plain.matches(&heavy));
    assert!(plain != tile("g", &[1, 2]));
    assert!(plain != tile("f", &[1, 3]));
    assert!(plain != tile("f", &[1]));
    assert!(plain.matches(&tile("f", &[5, 6])));
    assert!(!plain.matches(&tile("f", &[1])));
    assert!(!plain.matches(&tile("g", &[1, 2])));
    assert_eq!(plain.discriminant(), "f");
    assert_eq!(plain.to_text(), "f");
}

#[test]
fn operations_are_ordered_and_hashed_as_they_are_told_apart() {
    assert!(tile("f", &[9]) < tile("g", &[1]));
    assert!(tile("f", &[1, 2]) < tile("f", &[1, 3]));
    assert!(tile("f", &[]) < tile("f", &[0]));
    let mut heavy = tile("f", &[1]);
    heavy.rt = vec![vec![1]];
    let hashed: HashSet<TileLang<Id>> =
        [tile("f", &[1]), heavy.clone(), tile("g", &[1])].into_iter().collect();
    assert_eq!(hashed.len(), 2);
    let ordered: BTreeSet<TileLang<Id>> =
        [tile("f", &[1]), heavy, tile("g", &[1])].into_iter().collect();
    assert_eq!(ordered.len(), 2);
}

#[test]
fn operations_are_ordered_by_operator_and_then_by_operands() {
    // In ascending order, characters by their code points.
    let tiles = [
        tile("", &[]),
        tile("", &[7]),
        tile("Z", &[9, 9]),
        tile("a", &[]),
        tile("a", &[0, 5]),
        tile("a", &[1]),
        tile("a", &[1, 0]),
        tile("a", &[10]),
        tile("ab", &[]),
        tile("b", &[3]),
        tile("\u{e9}", &[0]),
        tile("\u{ffff}", &[0]),
        tile("\u{10000}", &[0]),
    ];
    for (i, a) in tiles.iter().enumerate() {
        for (j, b) in tiles.iter().enumerate() {
            assert_eq!(a.cmp(b), i.cmp(&j));
            assert_eq!(a.partial_cmp(b), Some(a.cmp(b)));
            assert_eq!(b.cmp(a), a.cmp(b).reverse());
            assert_eq!(a.cmp(b) == Ordering::Equal, a == b);
        }
    }
    let mut heavy = tile("a", &[1]);
    heavy.edge_data = vec![(3, 1)];
    heavy.rt = vec![vec![1]];
    for b in &tiles {
        assert_eq!(heavy.cmp(b), tile("a", &[1]).cmp(b));
    }
}

#[test]
fn operands_can_be_replaced() {
    let mut tile = tile("f", &[1, 2]);
    assert_eq!(tile.children(), &[Id::from(1), Id::from(2)]);
    tile.children_mut()[1] = Id::from(5);
    assert_eq!(tile.children(), &[Id::from(1), Id::from(5)]);
}

#[test]
fn operations_from_patterns_carry_nothing() {
    let tile = TileLang::from_op("f", vec![Id::from(3), Id::from(4)]).unwrap();
    assert_eq!(tile.op, "f");
    assert_eq!(tile.children, vec![Id::from(3), Id::from(4)]);
    assert_eq!(tile.edge_data, vec![(0, 0), (0, 0)]);
    assert!(tile.rt.is_empty());
}

#[test]
fn every_operation_has_its_own_class() {
    let rts = vec![("a", vec![vec![1, 0]]), ("b", vec![vec![0, 1], vec![0, 1]])];
    let edges = vec![("b", vec![edge("a", 3, 1), edge("b", 1, 2)])];
    let dep = DepGraph::new(vec!["a", "b"], rts, edges, vec![1, 1]);
    let graph = dep.to_egraph().snapshot();
    assert_eq!(graph.classes.len(), 2);

    let a = class_named(&graph, "a");
    let b = class_named(&graph, "b");
    assert_eq!(dep.class_of(&graph, "a"), a.id);
    assert_eq!(dep.class_of(&graph, "b"), b.id);
    assert_eq!(names(a), vec!["a"]);
    assert_eq!(names(b), vec!["b"]);
    assert!(a.nodes[0].children.is_empty());
    assert_eq!(a.nodes[0].rt, vec![vec![1, 0]]);
    assert_eq!(b.nodes[0].children, vec![a.id, b.id]);
    assert_eq!(b.nodes[0].edge_data, vec![(3, 1), (1, 2)]);
    assert_eq!(b.nodes[0].rt, vec![vec![0, 1], vec![0, 1]]);
}

#[test]
fn later_entries_count() {
    let rts = vec![("a", vec![vec![1]]), ("a", vec![vec![2]])];
    let edges = vec![("a", vec![edge("a", 1, 1)]), ("a", vec![])];
    let dep = DepGraph::new(vec!["a"], rts, edges, vec![3]);
    let graph = dep.to_egraph().snapshot();
    let a = class_named(&graph, "a");
    assert_eq!(a.nodes[0].rt, vec![vec![2]]);
    assert!(a.nodes[0].children.is_empty());
}

#[test]
fn an_operation_without_entries_takes_nothing() {
    let dep = DepGraph::new(vec!["a"], vec![], vec![], vec![]);
    let graph = dep.to_egraph().snapshot();
    let a = class_named(&graph, "a");
    assert!(a.nodes[0].rt.is_empty());
    assert!(a.nodes[0].edge_data.is_empty());
}

#[test]
fn no_operations_have_no_classes() {
    let dep = DepGraph::new(vec![], vec![], vec![], vec![1]);
    let graph = dep.to_egraph().snapshot();
    assert!(graph.classes.is_empty());
    assert!(graph.leaders.is_empty());
}

#[test]
fn the_name_of_a_placeholder_stands_for_its_operation() {
    let dep = DepGraph::new(vec!["a", "__phantom_a"], vec![], vec![], vec![]);
    let graph = dep.to_egraph().snapshot();
    assert_eq!(graph.classes.len(), 1);
    assert_eq!(names(&graph.classes[0]), vec!["a"]);
}

#[test]
fn a_placeholder_name_with_operands_is_dropped() {
    let edges = vec![("__phantom_a", vec![edge("a", 1, 0)])];
    let dep = DepGraph::new(vec!["a", "__phantom_a"], vec![], edges, vec![]);
    let graph = dep.to_egraph().snapshot();
    assert_eq!(graph.classes.len(), 2);
    let mut sizes: Vec<usize> = graph.classes.iter().map(|c| c.nodes.len()).collect();
    sizes.sort();
    assert_eq!(sizes, vec![0, 1]);
}

#[test]
fn ids_lead_to_their_classes() {
    let dep = DepGraph::new(vec!["a", "b"], vec![], vec![("b", vec![edge("a", 1, 0)])], vec![]);
    let graph = dep.to_egraph().snapshot();
    // A placeholder and an operation for each name.
    assert_eq!(graph.leaders.len(), 4);
    for class in &graph.classes {
        assert_eq!(graph.find(class.id), class.id);
        assert_eq!(graph.classes[graph.locate(class.id)].id, class.id);
        let led = (0..4).filter(|&id| graph.find(id) == class.id).count();
        assert_eq!(led, 2);
    }
}

#[test]
fn entries_under_names_that_are_not_operations_change_nothing() {
    let rts = vec![("a", vec![vec![1, 0]]), ("b", vec![vec![0, 1], vec![0, 1]])];
    let edges = vec![("b", vec![edge("a", 3, 1), edge("b", 1, 2)])];
    let plain = DepGraph::new(vec!["a", "b"], rts, edges, vec![1, 1]);

    let rts = vec![
        ("z", vec![vec![9]]),
        ("a", vec![vec![1, 0]]),
        ("__phantom_a", vec![vec![8]]),
        ("b", vec![vec![0, 1], vec![0, 1]]),
        ("", vec![]),
    ];
    let edges = vec![
        ("__phantom_b", vec![edge("nowhere", 1, 1)]),
        ("b", vec![edge("a", 3, 1), edge("b", 1, 2)]),
        ("z", vec![edge("z", 1, 1), edge("y", 2, 0)]),
    ];
    let more = DepGraph::new(vec!["a", "b"], rts, edges, vec![1, 1]);

    let graph = plain.to_egraph().snapshot();
    let other = more.to_egraph().snapshot();
    assert_eq!(graph.classes.len(), 2);
    assert_eq!(other.classes.len(), 2);
    for name in ["a", "b"] {
        let class = class_named(&graph, name);
        let same = class_named(&other, name);
        assert_eq!(names(class), names(same));
        assert_eq!(class.nodes[0].edge_data, same.nodes[0].edge_data);
        assert_eq!(class.nodes[0].rt, same.nodes[0].rt);
        let operands = |graph: &ClassGraph, class: &TileClass| -> Vec<Vec<String>> {
            class.nodes[0]
                .children
                .iter()
                .map(|&id| names(graph.classes.iter().find(|c| c.id == id).unwrap()))
                .collect()
        };
        assert_eq!(operands(&graph, class), operands(&other, same));
    }
}
