use graph_metrics::degree::default_bins;
use graph_metrics::degree::degree_distribution;
use graph_metrics::graph::build_graph;
use graph_metrics::graph::build_graph_with_nodes;

fn star(leaves: usize) -> Vec<(usize, usize)> {
    (1..=leaves).map(|leaf| (0, leaf)).collect()
}

#[test]
fn triangle_histogram() {
    let graph = build_graph(&vec![(1, 2), (2, 3), (1, 3)]);
    let r = degree_distribution(&graph, &default_bins());
    assert_eq!(r.histogram, vec![(2, 3)]);
    assert_eq!(r.binned, vec![3, 0, 0]);
}

#[test]
fn default_bins_are_ten_and_twenty_five() {
    assert_eq!(default_bins(), vec![10, 25]);
}

#[test]
fn histogram_is_ascending_and_sums_to_the_nodes() {
    let graph = build_graph_with_nodes(&vec![100, 101], &vec![(1, 2), (1, 3), (1, 4), (2, 3)]);
    let r = degree_distribution(&graph, &default_bins());
    assert_eq!(r.histogram, vec![(0, 2), (1, 1), (2, 2), (3, 1)]);
    let total: usize = r.histogram.iter().map(|&(_, count)| count).sum();
    assert_eq!(total, graph.node_count());
    assert_eq!(r.binned.iter().sum::<usize>(), graph.node_count());
}

#[test]
fn stars_fall_into_the_three_usual_bins() {
    let r = degree_distribution(&build_graph(&star(10)), &default_bins());
    assert_eq!(r.histogram, vec![(1, 10), (10, 1)]);
    assert_eq!(r.binned, vec![11, 0, 0]);
    let r = degree_distribution(&build_graph(&star(11)), &default_bins());
    assert_eq!(r.binned, vec![11, 1, 0]);
    let r = degree_distribution(&build_graph(&star(25)), &default_bins());
    assert_eq!(r.binned, vec![25, 1, 0]);
    let r = degree_distribution(&build_graph(&star(26)), &default_bins());
    assert_eq!(r.histogram, vec![(1, 26), (26, 1)]);
    assert_eq!(r.binned, vec![26, 0, 1]);
}

#[test]
fn bins_are_a_parameter() {
    let graph = build_graph(&vec![(1, 2), (1, 3), (1, 4), (2, 3), (5, 1)]);
    // degrees: 1 -> 4, 2 -> 2, 3 -> 2, 4 -> 1, 5 -> 1
    assert_eq!(degree_distribution(&graph, &vec![]).binned, vec![5]);
    assert_eq!(degree_distribution(&graph, &vec![1]).binned, vec![2, 3]);
    assert_eq!(degree_distribution(&graph, &vec![1, 2, 3, 4]).binned, vec![2, 2, 0, 1, 0]);
    assert_eq!(degree_distribution(&graph, &vec![0, 3]).binned, vec![0, 4, 1]);
    // A bound that is not above the one before it marks off an empty bin.
    assert_eq!(degree_distribution(&graph, &vec![2, 2, 1]).binned, vec![4, 0, 0, 1]);
}

#[test]
fn empty_graph_has_an_empty_histogram() {
    let graph = build_graph(&vec![]);
    let r = degree_distribution(&graph, &default_bins());
    assert_eq!(r.histogram, vec![]);
    assert_eq!(r.binned, vec![0, 0, 0]);
    assert_eq!(r, degree_distribution(&build_graph(&vec![(3, 3)]), &vec![10, 25]));
}
