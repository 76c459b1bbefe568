use graph_metrics::graph::build_graph;
use graph_metrics::graph::build_graph_with_nodes;
use graph_metrics::paths::average_shortest_path_length;
use graph_metrics::paths::path_sums;
use graph_metrics::sampling::Sampling;

fn value(num: u128, den: u128) -> f64 {
    num as f64 / den as f64
}

#[test]
fn test_calculate_average_shortest_path_length() {
    let graph = build_graph(&vec![(1, 2), (2, 3), (1, 3)]);
    let expected_length = 1.0;
    let actual = average_shortest_path_length(&graph, None);
    let actual_length = value(actual.average.num, actual.average.den);
    assert_eq!(actual_length, expected_length);
}

#[test]
fn test_calculate_average_distance() {
    let graph = build_graph(&vec![(1, 2), (2, 3), (1, 3)]);
    let expected_distance = 1.0;
    let sums = path_sums(&graph, &vec![1, 2, 3]);
    let actual_distance = value(sums.0, sums.1);
    assert_eq!(actual_distance, expected_distance);
}

#[test]
fn triangle_has_six_pairs_at_distance_one() {
    let graph = build_graph(&vec![(1, 2), (2, 3), (1, 3)]);
    assert_eq!(path_sums(&graph, &vec![1, 2, 3]), (6, 6));
    let r = average_shortest_path_length(&graph, None);
    assert_eq!((r.average.num, r.average.den, r.sampled), (6, 6, false));
}

#[test]
fn path_of_four_nodes() {
    // 10 - 20 - 30 - 40: distances 1,2,3 + 1,1,2 + 2,1,1 + 3,2,1 = 20 over 12 pairs.
    let graph = build_graph(&vec![(10, 20), (30, 20), (30, 40)]);
    assert_eq!(path_sums(&graph, &vec![10, 20, 30, 40]), (20, 12));
    assert_eq!(path_sums(&graph, &vec![10]), (6, 3));
    assert_eq!(path_sums(&graph, &vec![20]), (4, 3));
}

#[test]
fn components_are_not_bridged() {
    let graph = build_graph(&vec![(1, 2), (3, 4), (4, 5)]);
    // 1-2: 2 pairs at 1; 3-4-5: 4 pairs at 1 and 2 pairs at 2.
    assert_eq!(path_sums(&graph, &vec![1, 2, 3, 4, 5]), (10, 8));
}

#[test]
fn single_isolated_node_averages_zero() {
    let graph = build_graph_with_nodes(&vec![7], &vec![]);
    let r = average_shortest_path_length(&graph, None);
    assert_eq!((r.average.num, r.average.den), (0, 1));
    assert_eq!(value(r.average.num, r.average.den), 0.0);
}

#[test]
fn empty_graph_averages_zero() {
    let graph = build_graph(&vec![]);
    let r = average_shortest_path_length(&graph, None);
    assert_eq!((r.average.num, r.average.den), (0, 1));
}

#[test]
fn stranger_and_repeated_sources() {
    let graph = build_graph(&vec![(1, 2), (2, 3)]);
    assert_eq!(path_sums(&graph, &vec![99]), (0, 0));
    assert_eq!(path_sums(&graph, &vec![1, 1]), (6, 4));
}

#[test]
fn sampled_average_is_flagged_and_reproducible() {
    let graph = build_graph(&vec![(1, 2), (2, 3), (3, 4), (4, 5), (5, 6)]);
    let how = Sampling { seed: 42, size: 2 };
    let first = average_shortest_path_length(&graph, Some(how));
    let second = average_shortest_path_length(&graph, Some(how));
    assert!(first.sampled);
    assert_eq!(first, second);
    assert_eq!(first.average.den, 10);
    let all = average_shortest_path_length(&graph, Some(Sampling { seed: 1, size: 100 }));
    assert!(all.sampled);
    assert_eq!((all.average.num, all.average.den), (70, 30));
}
