use egg::{Id, Pattern, Rewrite, Runner};
use sme_swp::dep::DepGraph;
use sme_swp::egraph::TileGraph;
use sme_swp::extract::{SwpExtractor, SwpFailure, SwpSolution, MAX_II};
use sme_swp::graph::{ClassGraph, TileClass};
use sme_swp::render::render_pipeline;
use sme_swp::tile::{EdgeData, ResourceTable, TileLang};

fn edge(id: &str, d: i32, delta: i32) -> EdgeData<&str> {
    EdgeData { id, d, delta }
}

fn pattern(text: &str) -> Pattern<TileLang<Id>> {
    text.parse().unwrap()
}

/// The start cycle of the operation, which must be selected.
fn start(dep: &DepGraph, graph: &ClassGraph, sol: &SwpSolution, op: &str) -> i32 {
    sol.selected[&dep.class_of(graph, op)].1
}

fn flash_attention<'a>() -> DepGraph<'a> {
    // Resources: [TMA, SIMT, TC]
    let rts: Vec<(&str, ResourceTable)> = vec![
        ("q", vec![]),
        ("k", vec![vec![1, 0, 0]]),
        ("v", vec![vec![1, 0, 0]]),
        ("s", vec![vec![0, 0, 1]]),
        ("p", vec![vec![0, 1, 0], vec![0, 1, 0]]),
        ("o", vec![vec![0, 0, 1]]),
    ];
    let edges = vec![
        ("s", vec![edge("q", 0, 0), edge("k", 1, 0)]),
        ("p", vec![edge("s", 1, 0)]),
        ("o", vec![edge("o", 1, 1), edge("v", 1, 0), edge("p", 2, 0)]),
    ];
    DepGraph::new(vec!["q", "k", "v", "s", "p", "o"], rts, edges, vec![1, 1, 1])
}

fn chain_of_three<'a>() -> DepGraph<'a> {
    let rts = vec![("a", vec![vec![1]]), ("b", vec![vec![1]]), ("c", vec![vec![1]])];
    let edges = vec![("b", vec![edge("a", 1, 0)]), ("c", vec![edge("b", 1, 0)])];
    DepGraph::new(vec!["a", "b", "c"], rts, edges, vec![1])
}

#[test]
fn flash_attn() {
    // for ... { k = load; v = load; s = matmul(q, k); p = softmax(s); o += matmul(v, p) }
    let dep = flash_attention();
    let graph = dep.to_egraph().snapshot();

    let root = dep.class_of(&graph, "o");
    let sol = SwpExtractor::new(&graph, &dep.resource_limits).solve(&[root]);
    assert_eq!(sol.ii, 2);

    render_pipeline(&graph, &dep.resource_limits, &sol)
        .expect("failed to render pipeline diagram");
}

#[test]
fn chain() {
    let dep = chain_of_three();
    let egraph = dep.to_egraph();
    let graph = egraph.snapshot();

    let sol = SwpExtractor::new(&graph, &dep.resource_limits).solve(&[dep.class_of(&graph, "c")]);
    assert_eq!(sol.ii, 3);

    let rule: Rewrite<TileLang<Id>, ()> =
        Rewrite::new("ax", pattern("(b ?x)"), pattern("(x y)")).unwrap();
    let runner = Runner::default().with_egraph(egraph.egraph).run(&[rule]);
    let egraph = TileGraph { egraph: runner.egraph };
    let graph = egraph.snapshot();

    let sol = SwpExtractor::new(&graph, &dep.resource_limits).solve(&[dep.class_of(&graph, "c")]);
    assert!(!sol.selected.contains_key(&dep.class_of(&graph, "a")));
    assert_eq!(sol.ii, 1);
}

#[test]
fn flash_attention_keeps_dependences_and_limits() {
    let dep = flash_attention();
    let graph = dep.to_egraph().snapshot();
    let root = dep.class_of(&graph, "o");
    let sol = SwpExtractor::new(&graph, &dep.resource_limits).solve(&[root]);

    assert_eq!(sol.selected.len(), 6);
    let t = |op: &str| start(&dep, &graph, &sol, op);
    assert!(t("s") >= t("q"));
    assert!(t("s") >= t("k") + 1);
    assert!(t("p") >= t("s") + 1);
    assert!(t("o") >= t("v") + 1);
    assert!(t("o") >= t("p") + 2);
    // Both loads share one unit, and so do both products.
    assert_ne!(t("k") % 2, t("v") % 2);
    assert_ne!(t("s") % 2, t("o") % 2);
    // Load, product, softmax of two cycles, product.
    assert_eq!(sol.end, 5);
}

#[test]
fn chain_starts_one_operation_per_cycle() {
    let dep = chain_of_three();
    let graph = dep.to_egraph().snapshot();
    let sol = SwpExtractor::new(&graph, &dep.resource_limits).solve(&[dep.class_of(&graph, "c")]);
    assert_eq!(start(&dep, &graph, &sol, "a"), 0);
    assert_eq!(start(&dep, &graph, &sol, "b"), 1);
    assert_eq!(start(&dep, &graph, &sol, "c"), 2);
    assert_eq!(sol.end, 3);
}

#[test]
fn only_what_a_root_needs_is_selected() {
    let dep = chain_of_three();
    let graph = dep.to_egraph().snapshot();
    let sol = SwpExtractor::new(&graph, &dep.resource_limits).solve(&[dep.class_of(&graph, "b")]);
    assert_eq!(sol.ii, 2);
    assert!(sol.selected.contains_key(&dep.class_of(&graph, "a")));
    assert!(!sol.selected.contains_key(&dep.class_of(&graph, "c")));
}

#[test]
fn no_roots_need_nothing() {
    let dep = chain_of_three();
    let graph = dep.to_egraph().snapshot();
    let sol = SwpExtractor::new(&graph, &dep.resource_limits).solve(&[]);
    assert_eq!(sol.ii, 1);
    assert_eq!(sol.end, 0);
    assert!(sol.selected.is_empty());
}

#[test]
fn shorter_intervals_have_no_answer() {
    let dep = chain_of_three();
    let graph = dep.to_egraph().snapshot();
    let extractor = SwpExtractor::new(&graph, &dep.resource_limits);
    let root = dep.class_of(&graph, "c");
    assert!(extractor.solve_at(1, &[root]).is_none());
    assert!(extractor.solve_at(2, &[root]).is_none());
    assert_eq!(extractor.solve_at(3, &[root]).unwrap().ii, 3);
    assert_eq!(extractor.solve_at(4, &[root]).unwrap().ii, 4);
    assert_eq!(extractor.schedule(&[root]).unwrap().ii, 3);
}

#[test]
fn a_recurrence_bounds_the_interval() {
    // The operation needs its own result of the last iteration after five cycles.
    let rts = vec![("a", vec![vec![1]])];
    let edges = vec![("a", vec![edge("a", 5, 1)])];
    let dep = DepGraph::new(vec!["a"], rts, edges, vec![1]);
    let graph = dep.to_egraph().snapshot();
    let sol = SwpExtractor::new(&graph, &dep.resource_limits).solve(&[dep.class_of(&graph, "a")]);
    assert_eq!(sol.ii, 5);
    assert_eq!(sol.end, 1);
}

#[test]
fn no_unit_means_no_schedule() {
    let rts = vec![("a", vec![vec![1]])];
    let dep = DepGraph::new(vec!["a"], rts, vec![], vec![0]);
    let graph = dep.to_egraph().snapshot();
    let extractor = SwpExtractor::new(&graph, &dep.resource_limits);
    let root = dep.class_of(&graph, "a");
    assert_eq!(extractor.schedule(&[root]).unwrap_err(), SwpFailure::Infeasible);
}

#[test]
fn numbers_of_intervals_that_are_not_reached_do_not_matter() {
    // The lag of this dependence leaves the range for intervals above one, but one will do.
    let rts = vec![("a", vec![vec![1]])];
    let edges = vec![("a", vec![edge("a", 1, i32::MAX)])];
    let dep = DepGraph::new(vec!["a"], rts, edges, vec![1]);
    let graph = dep.to_egraph().snapshot();
    let extractor = SwpExtractor::new(&graph, &dep.resource_limits);
    let root = dep.class_of(&graph, "a");
    assert!(extractor.admits(1, &[root]));
    assert!(!extractor.admits(2, &[root]));
    assert!(!extractor.admits(0, &[root]));
    assert!(!extractor.admits(1, &[1000]));
    assert_eq!(extractor.schedule(&[root]).unwrap().ii, 1);
    assert_eq!(extractor.solve(&[root]).ii, 1);
}

#[test]
fn numbers_beyond_the_machine_are_refused_when_they_are_reached() {
    // Interval one is too short for two operations on one unit, and the lag of the dependence
    // leaves the range at interval two.
    let rts = vec![("a", vec![vec![1]]), ("b", vec![vec![1]])];
    let edges = vec![("a", vec![edge("a", 1, i32::MAX), edge("b", 1, 0)])];
    let dep = DepGraph::new(vec!["a", "b"], rts, edges, vec![1]);
    let graph = dep.to_egraph().snapshot();
    let extractor = SwpExtractor::new(&graph, &dep.resource_limits);
    let root = dep.class_of(&graph, "a");
    assert!(extractor.solve_at(1, &[root]).is_none());
    assert_eq!(extractor.schedule(&[root]).unwrap_err(), SwpFailure::OutOfRange);
}

#[test]
fn the_longest_interval_is_tried() {
    // As many units in one cycle as an interval of that length has.
    let rows: ResourceTable = (0..MAX_II).map(|_| vec![1]).collect();
    let dep = DepGraph::new(vec!["a"], vec![("a", rows)], vec![], vec![1]);
    let graph = dep.to_egraph().snapshot();
    let sol = SwpExtractor::new(&graph, &dep.resource_limits).solve(&[dep.class_of(&graph, "a")]);
    assert_eq!(sol.ii, MAX_II);
    assert_eq!(sol.end, MAX_II);
}

#[test]
fn a_dependence_beyond_its_relaxation_counts_even_when_not_selected() {
    let class = |d: i32| {
        let plain = TileLang::new("a".to_string(), vec![], vec![], vec![vec![1]]);
        let other = TileLang::new("b".to_string(), vec![0], vec![(d, 0)], vec![vec![1]]);
        ClassGraph {
            classes: vec![TileClass { id: 0, nodes: vec![plain, other] }],
            leaders: vec![0],
        }
    };
    let limits = vec![1];
    // The second node cannot wait for itself; the first one can be chosen.
    let graph = class(1000);
    let sol = SwpExtractor::new(&graph, &limits).solve(&[0]);
    assert_eq!((sol.ii, sol.end, sol.selected[&0]), (1, 1, (0, 0)));
    let graph = class(1001);
    let failure = SwpExtractor::new(&graph, &limits).schedule(&[0]).unwrap_err();
    assert_eq!(failure, SwpFailure::Infeasible);
}

#[test]
fn roots_of_the_same_classes_are_alike() {
    let dep = chain_of_three();
    let graph = dep.to_egraph().snapshot();
    let extractor = SwpExtractor::new(&graph, &dep.resource_limits);
    let (b, c) = (dep.class_of(&graph, "b"), dep.class_of(&graph, "c"));
    // Every id that leads to a class is as good as the class itself.
    let other = (0..graph.leaders.len()).find(|&id| id != c && graph.find(id) == c).unwrap();
    let roots: [&[usize]; 4] = [&[b, c], &[c, b], &[c, b, c], &[b, other]];
    for ii in 1..6 {
        let ends: Vec<Option<usize>> =
            roots.iter().map(|r| extractor.solve_at(ii, r).map(|sol| sol.end)).collect();
        assert!(ends.iter().all(|end| *end == ends[0]));
        assert_eq!(ends[0].is_some(), ii >= 3);
    }
}

#[test]
fn more_units_and_fewer_roots_end_no_later() {
    let dep = flash_attention();
    let graph = dep.to_egraph().snapshot();
    let (s, o) = (dep.class_of(&graph, "s"), dep.class_of(&graph, "o"));
    let more = vec![2, 1, 3];
    for ii in 1..5 {
        let tight = SwpExtractor::new(&graph, &dep.resource_limits).solve_at(ii, &[s, o]);
        let loose = SwpExtractor::new(&graph, &more).solve_at(ii, &[s]);
        if let Some(tight) = tight {
            assert!(loose.unwrap().end <= tight.end);
        }
    }
}
