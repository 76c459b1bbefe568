use graph_metrics::assortativity::degree_assortativity;
use graph_metrics::assortativity::Assortativity;
use graph_metrics::assortativity::MAX_ASSORTATIVITY_NODES;
use graph_metrics::graph::build_graph;
use graph_metrics::graph::build_graph_with_nodes;

#[test]
fn cycle_of_four_is_undefined() {
    let graph = build_graph(&vec![(1, 2), (2, 3), (3, 4), (4, 1)]);
    assert_eq!(degree_assortativity(&graph), Assortativity::Undefined);
}

#[test]
fn regular_graphs_are_undefined() {
    let triangle = build_graph(&vec![(1, 2), (2, 3), (1, 3)]);
    assert_eq!(degree_assortativity(&triangle), Assortativity::Undefined);
    let pairs = build_graph(&vec![(1, 2), (3, 4), (5, 6)]);
    assert_eq!(degree_assortativity(&pairs), Assortativity::Undefined);
}

#[test]
fn graphs_without_edges_are_undefined() {
    assert_eq!(degree_assortativity(&build_graph(&vec![])), Assortativity::Undefined);
    let lonely = build_graph_with_nodes(&vec![1, 2], &vec![]);
    assert_eq!(degree_assortativity(&lonely), Assortativity::Undefined);
}

#[test]
fn star_is_disassortative() {
    // n = 4, degree sum 6: centre 4 * 3 - 6 = 6, leaf 4 * 1 - 6 = -2.
    let graph = build_graph(&vec![(0, 1), (0, 2), (0, 3)]);
    let r = degree_assortativity(&graph);
    assert_eq!(r, Assortativity::Value { num: -72, den: 120 });
    match r {
        Assortativity::Value { num, den } => assert_eq!(num as f64 / den as f64, -0.6),
        Assortativity::Undefined => panic!("defined for a star"),
    }
}

#[test]
fn assortativity_of_a_path_of_four_nodes() {
    // Centred degrees -2, 2, 2, -2: products -4, -4, 4, 4, -4, -4 and squares 4 six times.
    let graph = build_graph(&vec![(1, 2), (2, 3), (3, 4)]);
    assert_eq!(degree_assortativity(&graph), Assortativity::Value { num: -8, den: 24 });
}

#[test]
fn an_isolated_node_shifts_the_mean() {
    // Triangle and one isolated node: n = 4, degree sum 6, centred degree 4 * 2 - 6 = 2.
    let graph = build_graph_with_nodes(&vec![9], &vec![(1, 2), (2, 3), (1, 3)]);
    assert_eq!(degree_assortativity(&graph), Assortativity::Value { num: 24, den: 24 });
}

#[test]
fn the_limit_on_the_nodes_is_two_to_the_twentieth() {
    assert_eq!(MAX_ASSORTATIVITY_NODES, 1 << 20);
}
