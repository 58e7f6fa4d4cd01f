use sme_swp::plan::schedule_all;
use sme_swp::swp::{parse, SwpProblem};
use sme_swp::words::{read_number, split_words};

const CHAIN: &str = "R 1 1\nN 3\nN0 1 0\nN1 1 0\nN2 1 0\nE 2\n0 1 1 0\n1 2 1 0\n";

const RECURRENCE: &str = "R 2 1 1\nN 2\nA 2 0\nB 3 1\nE 2\n0 1 2 0\n1 0 3 1\n";

const SELF_LOOP: &str = "R 1 1\nN 1\nN0 2 0\nE 1\n0 0 2 1\n";

fn interval(problem: &SwpProblem) -> usize {
    schedule_all(&problem.dep_graph()).unwrap().ii
}

#[test]
fn words_are_split_at_space() {
    assert_eq!(split_words(" ab\t c\r\n\ndé "), vec!["ab", "c", "dé"]);
    assert_eq!(split_words("x"), vec!["x"]);
    assert!(split_words(" \n").is_empty());
    assert!(split_words("").is_empty());
}

#[test]
fn numbers_are_read() {
    assert_eq!(read_number("0", 100), Some(0));
    assert_eq!(read_number("042", 100), Some(42));
    assert_eq!(read_number("-100", 100), Some(-100));
    assert_eq!(read_number("101", 100), None);
    assert_eq!(read_number("", 100), None);
    assert_eq!(read_number("-", 100), None);
    assert_eq!(read_number("4x", 100), None);
    assert_eq!(read_number("99999999999999999999999", u64::MAX), None);
    assert_eq!(read_number("18446744073709551615", u64::MAX), Some(u64::MAX as i128));
}

#[test]
fn a_chain_is_read() {
    let problem = parse(CHAIN).unwrap();
    assert_eq!(problem.resources, vec![1]);
    let nodes: Vec<(&str, usize, usize)> =
        problem.nodes.iter().map(|n| (n.name.as_str(), n.cost, n.kind)).collect();
    assert_eq!(nodes, vec![("N0", 1, 0), ("N1", 1, 0), ("N2", 1, 0)]);
    let edges: Vec<(usize, usize, i32, i32)> =
        problem.edges.iter().map(|e| (e.src, e.dst, e.d, e.delta)).collect();
    assert_eq!(edges, vec![(0, 1, 1, 0), (1, 2, 1, 0)]);
}

#[test]
fn a_problem_becomes_a_graph() {
    let problem = parse(RECURRENCE).unwrap();
    let dep = problem.dep_graph();
    assert_eq!(dep.nodes, vec!["A", "B"]);
    assert_eq!(dep.resource_limits, vec![1, 1]);
    assert_eq!(dep.rts[0], ("A", vec![vec![1, 0], vec![1, 0]]));
    assert_eq!(dep.rts[1], ("B", vec![vec![0, 1], vec![0, 1], vec![0, 1]]));
    let into_b = &dep.edges[1].1;
    assert_eq!((dep.edges[1].0, into_b.len()), ("B", 1));
    assert_eq!((into_b[0].id, into_b[0].d, into_b[0].delta), ("A", 2, 0));
    let into_a = &dep.edges[0].1;
    assert_eq!((into_a[0].id, into_a[0].d, into_a[0].delta), ("B", 3, 1));
}

#[test]
fn a_chain_needs_its_resource_three_times() {
    assert_eq!(interval(&parse(CHAIN).unwrap()), 3);
}

#[test]
fn a_back_edge_bounds_the_interval() {
    assert_eq!(interval(&parse(RECURRENCE).unwrap()), 5);
}

#[test]
fn a_self_loop_bounds_the_interval() {
    assert_eq!(interval(&parse(SELF_LOOP).unwrap()), 2);
}

#[test]
fn an_empty_problem_is_read() {
    let problem = parse("R 0 N 0 E 0").unwrap();
    assert!(problem.resources.is_empty() && problem.nodes.is_empty() && problem.edges.is_empty());
    assert_eq!(interval(&problem), 1);
}

#[test]
fn other_texts_are_refused() {
    let refused = [
        "",
        "R 1 1",
        "X 1 1 N 0 E 0",
        "R x 1 N 0 E 0",
        "R 2 1 N 0 E 0",
        "R 1 1 M 0 E 0",
        "R 1 1 N -1 E 0",
        "R 1 1 N 1 E 0",
        "R 1 1 N 0 F 0",
        "R 1 1 N 0 E 1",
        "R 1 1 N 0 E 0 0",
        "R 1 9999999999 N 0 E 0",
        "R 1 1 N 1 a -1 0 E 0",
        "R 1 1 N 1 a 1 1 E 0",
        "R 1 1 N 2 a 1 0 a 1 0 E 0",
        "R 1 1 N 1 a 1 0 E 1 0 1 1 0",
        "R 1 1 N 1 a 1 0 E 1 1 0 1 0",
        "R 1 1 N 1 a 1 0 E 1 0 0 1.5 0",
        "R 1 1 N 1 a 1 0 E 1 0 0 1 z",
        "R 18446744073709551616 N 0 E 0",
    ];
    for text in refused {
        assert!(parse(text).is_none(), "{text}");
    }
    assert!(parse("R 1 1 N 1 a 1 0 E 1 0 0 -1 2").is_some());
}
