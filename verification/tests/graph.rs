use graph_metrics::graph::build_graph;
use graph_metrics::graph::build_graph_with_nodes;
use graph_metrics::graph::sorted_contains;
use graph_metrics::graph::SocialGraph;

fn adjacency(graph: &SocialGraph) -> Vec<(usize, Vec<usize>)> {
    graph
        .nodes()
        .into_iter()
        .map(|u| (u, graph.neighbors(u).unwrap()))
        .collect()
}

#[test]
fn triangle_adjacency() {
    let graph = build_graph(&vec![(1, 2), (2, 3), (1, 3)]);
    assert_eq!(
        adjacency(&graph),
        vec![(1, vec![2, 3]), (2, vec![1, 3]), (3, vec![1, 2])]
    );
    assert_eq!(graph.node_count(), 3);
}

#[test]
fn edges_are_symmetric_whatever_their_orientation() {
    let graph = build_graph(&vec![(5, 1), (9, 5)]);
    assert_eq!(
        adjacency(&graph),
        vec![(1, vec![5]), (5, vec![1, 9]), (9, vec![5])]
    );
    assert!(graph.has_edge(1, 5));
    assert!(graph.has_edge(5, 1));
    assert!(graph.has_edge(5, 9));
    assert!(!graph.has_edge(1, 9));
    assert!(!graph.has_edge(1, 77));
    assert!(!graph.has_edge(77, 1));
}

#[test]
fn reordering_and_repeating_pairs_changes_nothing() {
    let plain = build_graph(&vec![(1, 2), (2, 3), (3, 4), (1, 4), (2, 4)]);
    let shuffled = build_graph(&vec![(2, 4), (3, 4), (1, 2), (1, 4), (2, 3)]);
    let repeated = build_graph(&vec![
        (1, 2),
        (1, 2),
        (2, 3),
        (3, 4),
        (2, 3),
        (1, 4),
        (2, 4),
        (2, 4),
        (1, 2),
    ]);
    let turned = build_graph(&vec![(2, 1), (3, 2), (4, 3), (4, 1), (4, 2), (1, 2)]);
    let expected = vec![
        (1, vec![2, 4]),
        (2, vec![1, 3, 4]),
        (3, vec![2, 4]),
        (4, vec![1, 2, 3]),
    ];
    assert_eq!(adjacency(&plain), expected);
    assert_eq!(adjacency(&shuffled), expected);
    assert_eq!(adjacency(&repeated), expected);
    assert_eq!(adjacency(&turned), expected);
}

#[test]
fn graphs_of_the_same_edges_compare_equal() {
    let plain = build_graph(&vec![(1, 2), (2, 3), (3, 4)]);
    let mixed = build_graph(&vec![(4, 3), (2, 1), (3, 2), (1, 2), (3, 3)]);
    assert_eq!(plain, mixed);
    assert_eq!(plain.clone(), mixed);
    assert_ne!(plain, build_graph(&vec![(1, 2), (2, 3)]));
    assert_eq!(
        build_graph_with_nodes(&vec![1, 4], &vec![(1, 2), (2, 3), (3, 4)]),
        plain
    );
}

#[test]
fn self_pairs_are_dropped() {
    let graph = build_graph(&vec![(1, 1), (1, 2), (2, 2), (7, 7)]);
    assert_eq!(adjacency(&graph), vec![(1, vec![2]), (2, vec![1])]);
    assert!(!graph.contains_node(7));
    assert!(!graph.has_edge(1, 1));
    let none = build_graph(&vec![(4, 4)]);
    assert_eq!(none.node_count(), 0);
}

#[test]
fn empty_edge_list_gives_empty_graph() {
    let graph = build_graph(&vec![]);
    assert_eq!(graph.node_count(), 0);
    assert_eq!(graph.nodes(), Vec::<usize>::new());
    let fresh = SocialGraph::new();
    assert_eq!(fresh.node_count(), 0);
}

#[test]
fn listed_nodes_may_be_isolated() {
    let graph = build_graph_with_nodes(&vec![9, 2, 9], &vec![(2, 3)]);
    assert_eq!(
        adjacency(&graph),
        vec![(2, vec![3]), (3, vec![2]), (9, vec![])]
    );
    assert_eq!(graph.degree(9), Some(0));
    assert_eq!(graph.degree(2), Some(1));
    assert_eq!(graph.degree(4), None);
    assert_eq!(graph.neighbors(4), None);
}

#[test]
fn positions_follow_the_ascending_order() {
    let graph = build_graph(&vec![(30, 10), (20, 10)]);
    assert_eq!(graph.nodes(), vec![10, 20, 30]);
    assert_eq!(graph.node_at(0), 10);
    assert_eq!(graph.node_at(2), 30);
    assert_eq!(graph.neighbors_at(0), &vec![20, 30]);
    assert_eq!(graph.index_of(20), Some(1));
    assert_eq!(graph.index_of(25), None);
    assert!(graph.contains_node(30));
    assert!(!graph.contains_node(0));
}

#[test]
fn large_ids_are_kept() {
    let graph = build_graph(&vec![(usize::MAX, 0)]);
    assert_eq!(graph.nodes(), vec![0, usize::MAX]);
    assert!(graph.has_edge(0, usize::MAX));
}

#[test]
fn search_in_an_ascending_list() {
    let list = vec![1, 4, 9, 16];
    assert!(sorted_contains(&list, 1));
    assert!(sorted_contains(&list, 16));
    assert!(sorted_contains(&list, 9));
    assert!(!sorted_contains(&list, 0));
    assert!(!sorted_contains(&list, 5));
    assert!(!sorted_contains(&list, 17));
    assert!(!sorted_contains(&vec![], 3));
}
