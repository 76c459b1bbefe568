use graph_metrics::graph::build_graph;
use graph_metrics::sampling::sample_nodes;

#[test]
fn first_draw_from_three_nodes() {
    // The state after seed 0 is 1442695040888963407, which leaves 1 modulo 3.
    let graph = build_graph(&vec![(1, 2), (2, 3)]);
    assert_eq!(sample_nodes(&graph, 0, 1), vec![2]);
}

#[test]
fn same_seed_same_sample() {
    let edges: Vec<(usize, usize)> = (0..50).map(|i| (i, i + 1)).collect();
    let graph = build_graph(&edges);
    let first = sample_nodes(&graph, 2024, 10);
    let second = sample_nodes(&graph, 2024, 10);
    assert_eq!(first, second);
    assert_ne!(first, sample_nodes(&graph, 2025, 10));
}

#[test]
fn a_sample_holds_distinct_nodes() {
    let edges: Vec<(usize, usize)> = (0..40).map(|i| (3 * i, 3 * i + 3)).collect();
    let graph = build_graph(&edges);
    for seed in 0..20 {
        let sample = sample_nodes(&graph, seed, 7);
        assert_eq!(sample.len(), 7);
        for (at, id) in sample.iter().enumerate() {
            assert!(graph.contains_node(*id));
            assert!(!sample[..at].contains(id));
        }
    }
}

#[test]
fn a_sample_is_no_larger_than_the_graph() {
    let graph = build_graph(&vec![(1, 2), (2, 3), (3, 4)]);
    let mut all = sample_nodes(&graph, 5, 100);
    all.sort();
    assert_eq!(all, vec![1, 2, 3, 4]);
    assert_eq!(sample_nodes(&graph, 5, 4).len(), 4);
    assert_eq!(sample_nodes(&graph, 5, 0), Vec::<usize>::new());
    assert_eq!(sample_nodes(&build_graph(&vec![]), 5, 3), Vec::<usize>::new());
}
