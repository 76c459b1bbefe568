use graph_metrics::clustering::global_clustering_coefficient;
use graph_metrics::graph::build_graph;
use graph_metrics::graph::build_graph_with_nodes;
use graph_metrics::ratio::Fraction;

fn value(r: Fraction) -> f64 {
    r.num as f64 / r.den as f64
}

#[test]
fn triangle_is_fully_clustered() {
    let graph = build_graph(&vec![(1, 2), (2, 3), (1, 3)]);
    let r = global_clustering_coefficient(&graph);
    assert_eq!(r, Fraction { num: 3, den: 3 });
    assert_eq!(value(r), 1.0);
}

#[test]
fn single_isolated_node_has_coefficient_zero() {
    let graph = build_graph_with_nodes(&vec![7], &vec![]);
    let r = global_clustering_coefficient(&graph);
    assert_eq!(r, Fraction { num: 0, den: 1 });
    assert_eq!(value(r), 0.0);
}

#[test]
fn no_node_of_degree_two_gives_zero() {
    let r = global_clustering_coefficient(&build_graph(&vec![(1, 2), (3, 4)]));
    assert_eq!(r, Fraction { num: 0, den: 1 });
    let r = global_clustering_coefficient(&build_graph(&vec![]));
    assert_eq!(r, Fraction { num: 0, den: 1 });
}

#[test]
fn triangle_free_graph_has_coefficient_zero() {
    let r = global_clustering_coefficient(&build_graph(&vec![(1, 2), (2, 3)]));
    assert_eq!(r, Fraction { num: 0, den: 1 });
    let r = global_clustering_coefficient(&build_graph(&vec![(1, 2), (2, 3), (3, 4), (4, 1)]));
    assert_eq!(r, Fraction { num: 0, den: 4 });
    assert_eq!(value(r), 0.0);
}

#[test]
fn triangle_with_a_pendant() {
    // Node 3 has the neighbours 1, 2, 4: one of its three pairs is closed.
    let graph = build_graph(&vec![(1, 2), (2, 3), (1, 3), (3, 4)]);
    let r = global_clustering_coefficient(&graph);
    assert_eq!(r, Fraction { num: 3, den: 5 });
    assert_eq!(value(r), 0.6);
}

#[test]
fn complete_graph_on_five_nodes() {
    let mut edges = Vec::new();
    for a in 0..5 {
        for b in (a + 1)..5 {
            edges.push((a, b));
        }
    }
    let r = global_clustering_coefficient(&build_graph(&edges));
    assert_eq!(r, Fraction { num: 30, den: 30 });
}

#[test]
fn coefficient_is_between_zero_and_one() {
    let graph = build_graph(&vec![
        (1, 2),
        (1, 3),
        (2, 3),
        (3, 4),
        (4, 5),
        (5, 3),
        (6, 1),
        (6, 2),
        (7, 8),
    ]);
    let r = global_clustering_coefficient(&graph);
    assert!(r.den > 0);
    assert!(r.num <= r.den);
    assert!((0.0..=1.0).contains(&value(r)));
}
