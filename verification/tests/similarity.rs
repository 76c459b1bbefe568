use graph_metrics::graph::build_graph;
use graph_metrics::graph::build_graph_with_nodes;
use graph_metrics::ratio::ratio_equal;
use graph_metrics::ratio::ratio_less;
use graph_metrics::similarity::jaccard_similarity;
use graph_metrics::similarity::most_dissimilar_pair;
use graph_metrics::similarity::most_dissimilar_pair_among;
use graph_metrics::similarity::most_similar_pair;
use graph_metrics::similarity::most_similar_pair_among;
use graph_metrics::similarity::Extreme;
use graph_metrics::similarity::PairResult;
use graph_metrics::similarity::Similarity;

fn found(u: usize, v: usize, shared: usize, total: usize) -> PairResult {
    PairResult::Found { u, v, shared, total }
}

#[test]
fn jaccard_in_a_triangle() {
    // Two nodes of a triangle share the third node, out of three ids in all.
    let graph = build_graph(&vec![(1, 2), (2, 3), (1, 3)]);
    for (u, v) in [(1, 2), (2, 1), (1, 3), (3, 1), (2, 3), (3, 2)] {
        assert_eq!(
            jaccard_similarity(&graph, u, v),
            Similarity::Ratio { shared: 1, total: 3 }
        );
    }
}

#[test]
fn jaccard_values() {
    let graph = build_graph(&vec![(1, 2), (1, 3), (2, 3), (3, 4)]);
    assert_eq!(jaccard_similarity(&graph, 1, 2), Similarity::Ratio { shared: 1, total: 3 });
    assert_eq!(jaccard_similarity(&graph, 1, 3), Similarity::Ratio { shared: 1, total: 4 });
    assert_eq!(jaccard_similarity(&graph, 1, 4), Similarity::Ratio { shared: 1, total: 2 });
    assert_eq!(jaccard_similarity(&graph, 3, 4), Similarity::Ratio { shared: 0, total: 4 });
    assert_eq!(jaccard_similarity(&graph, 4, 3), Similarity::Ratio { shared: 0, total: 4 });
    assert_eq!(jaccard_similarity(&graph, 3, 3), Similarity::Ratio { shared: 3, total: 3 });
}

#[test]
fn jaccard_is_between_zero_and_one() {
    let graph = build_graph(&vec![(1, 2), (1, 3), (2, 3), (3, 4), (4, 5), (5, 1), (6, 1)]);
    for u in 0..8 {
        for v in 0..8 {
            match jaccard_similarity(&graph, u, v) {
                Similarity::Undefined => {}
                Similarity::Ratio { shared, total } => {
                    assert!(total > 0);
                    assert!(shared <= total);
                    let score = shared as f64 / total as f64;
                    assert!((0.0..=1.0).contains(&score));
                }
            }
        }
    }
}

#[test]
fn jaccard_of_two_isolated_nodes_is_undefined() {
    let graph = build_graph_with_nodes(&vec![5, 6], &vec![(1, 2)]);
    assert_eq!(jaccard_similarity(&graph, 5, 6), Similarity::Undefined);
    assert_eq!(jaccard_similarity(&graph, 5, 5), Similarity::Undefined);
    // An id that is no node has no neighbours either.
    assert_eq!(jaccard_similarity(&graph, 5, 99), Similarity::Undefined);
    assert_eq!(jaccard_similarity(&graph, 98, 99), Similarity::Undefined);
    assert_eq!(jaccard_similarity(&graph, 5, 1), Similarity::Ratio { shared: 0, total: 1 });
    assert_eq!(jaccard_similarity(&graph, 99, 1), Similarity::Ratio { shared: 0, total: 1 });
}

#[test]
fn extremes_with_ties() {
    let graph = build_graph(&vec![(1, 2), (1, 3), (2, 3), (3, 4)]);
    // (1,4) and (2,4) both score 1/2: the smaller pair wins.
    assert_eq!(
        most_similar_pair(&graph),
        Extreme { pair: found(1, 4, 1, 2), restricted: false }
    );
    assert_eq!(
        most_dissimilar_pair(&graph),
        Extreme { pair: found(3, 4, 0, 4), restricted: false }
    );
}

#[test]
fn extremes_in_a_triangle_fall_on_the_first_pair() {
    let graph = build_graph(&vec![(2, 3), (1, 3), (1, 2)]);
    assert_eq!(most_similar_pair(&graph).pair, found(1, 2, 1, 3));
    assert_eq!(most_dissimilar_pair(&graph).pair, found(1, 2, 1, 3));
}

#[test]
fn extremes_in_a_star() {
    let graph = build_graph(&vec![(0, 1), (0, 2), (0, 3)]);
    assert_eq!(most_similar_pair(&graph).pair, found(1, 2, 1, 1));
    assert_eq!(most_dissimilar_pair(&graph).pair, found(0, 1, 0, 4));
}

#[test]
fn equal_scores_written_differently_tie() {
    // N(1) = {2}, N(3) = {2, 4}: 1/2.  N(5) = {6, 7}, N(8) = {6, 7, 9, 10}: 2/4.
    let graph = build_graph(&vec![
        (5, 6),
        (5, 7),
        (8, 6),
        (8, 7),
        (8, 9),
        (8, 10),
        (1, 2),
        (3, 2),
        (3, 4),
    ]);
    assert_eq!(jaccard_similarity(&graph, 1, 3), Similarity::Ratio { shared: 1, total: 2 });
    assert_eq!(jaccard_similarity(&graph, 5, 8), Similarity::Ratio { shared: 2, total: 4 });
    let among = most_similar_pair_among(&graph, &vec![8, 5, 3, 1]);
    assert_eq!(among, Extreme { pair: found(1, 3, 1, 2), restricted: true });
    let among = most_similar_pair_among(&graph, &vec![8, 5]);
    assert_eq!(among.pair, found(5, 8, 2, 4));
}

#[test]
fn undefined_pairs_are_left_out_of_the_search() {
    let graph = build_graph_with_nodes(&vec![7, 8], &vec![(1, 2), (2, 3)]);
    // (7,8) is undefined; (1,7) scores 0/1 and is the least similar pair.
    assert_eq!(most_dissimilar_pair(&graph).pair, found(1, 2, 0, 3));
    assert_eq!(most_similar_pair(&graph).pair, found(1, 3, 1, 1));
    let among = most_dissimilar_pair_among(&graph, &vec![7, 8, 1]);
    assert_eq!(among, Extreme { pair: found(1, 7, 0, 1), restricted: true });
}

#[test]
fn all_pairs_undefined_gives_undefined() {
    let graph = build_graph_with_nodes(&vec![1, 2, 3], &vec![]);
    assert_eq!(most_similar_pair(&graph).pair, PairResult::Undefined);
    assert_eq!(most_dissimilar_pair(&graph).pair, PairResult::Undefined);
    let one = build_graph_with_nodes(&vec![1], &vec![]);
    assert_eq!(most_similar_pair(&one).pair, PairResult::Undefined);
    let none = build_graph(&vec![]);
    assert_eq!(
        most_similar_pair(&none),
        Extreme { pair: PairResult::Undefined, restricted: false }
    );
}

#[test]
fn search_in_a_subset() {
    let graph = build_graph(&vec![(1, 2), (1, 3), (2, 3), (3, 4)]);
    let subset = vec![2, 4, 3, 99, 4];
    assert_eq!(
        most_similar_pair_among(&graph, &subset),
        Extreme { pair: found(2, 4, 1, 2), restricted: true }
    );
    assert_eq!(
        most_dissimilar_pair_among(&graph, &subset),
        Extreme { pair: found(3, 4, 0, 4), restricted: true }
    );
    assert_eq!(
        most_similar_pair_among(&graph, &vec![3]).pair,
        PairResult::Undefined
    );
    assert_eq!(
        most_similar_pair_among(&graph, &vec![]).pair,
        PairResult::Undefined
    );
    assert_eq!(
        most_similar_pair_among(&graph, &vec![4, 4, 99]).pair,
        PairResult::Undefined
    );
}

#[test]
fn the_order_of_the_subset_does_not_matter() {
    let graph = build_graph(&vec![(1, 2), (1, 3), (2, 3), (3, 4), (4, 5), (5, 6), (6, 1)]);
    let a = most_similar_pair_among(&graph, &vec![1, 2, 3, 4, 5, 6]);
    let b = most_similar_pair_among(&graph, &vec![6, 4, 2, 5, 3, 1, 1, 6]);
    assert_eq!(a, b);
    assert_eq!(a.pair, most_similar_pair(&graph).pair);
    let c = most_dissimilar_pair_among(&graph, &vec![3, 1, 2, 6, 5, 4]);
    assert_eq!(c.pair, most_dissimilar_pair(&graph).pair);
}

#[test]
fn fractions_compare_by_cross_multiplication() {
    assert!(ratio_less(1, 3, 1, 2));
    assert!(!ratio_less(1, 2, 1, 3));
    assert!(!ratio_less(1, 2, 2, 4));
    assert!(ratio_equal(1, 2, 2, 4));
    assert!(!ratio_equal(1, 2, 2, 3));
    assert!(ratio_less(0, 5, 1, 1000));
    assert!(ratio_less(usize::MAX - 1, usize::MAX, usize::MAX, usize::MAX));
    assert!(ratio_equal(usize::MAX, usize::MAX, 1, 1));
}
