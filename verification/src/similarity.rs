//! Jaccard similarity of neighbour sets and the pairs of nodes at its extremes.

use vstd::prelude::*;
use crate::graph::SocialGraph;
use crate::graph::is_simple_graph;
use crate::graph::lemma_row;
use crate::graph::sorted_contains;
use crate::graph::strictly_increasing;
use crate::ratio::lemma_ratio_chain;
use crate::ratio::ratio_eq;
use crate::ratio::ratio_equal;
use crate::ratio::ratio_less;
use crate::ratio::ratio_lt;

verus! {

/// The similarity of two neighbour sets: the fraction `shared / total` of the
/// ids in either set that are in both, or `Undefined` when both sets are empty.
#[derive(Clone, Copy, Debug, PartialEq, Eq, Structural)]
pub enum Similarity {
    Undefined,
    Ratio { shared: usize, total: usize },
}

/// The pair of nodes at an extreme of similarity with its score
/// `shared / total`, or `Undefined` when no pair has a defined score.
#[derive(Clone, Copy, Debug, PartialEq, Eq, Structural)]
pub enum PairResult {
    Undefined,
    Found { u: usize, v: usize, shared: usize, total: usize },
}

/// The outcome of a search for an extreme pair. `restricted` tells whether
/// the search was confined to a given subset of the nodes.
#[derive(Clone, Copy, Debug, PartialEq, Eq, Structural)]
pub struct Extreme {
    pub pair: PairResult,
    pub restricted: bool,
}

/// The neighbours of `u`; an id that is no node has none.
pub open spec fn neighbor_set(m: Map<usize, Set<usize>>, u: usize) -> Set<usize> {
    if m.contains_key(u) {
        m[u]
    } else {
        Set::empty()
    }
}

/// The number of ids that are neighbours of both `u` and `v`.
pub open spec fn shared_count(m: Map<usize, Set<usize>>, u: usize, v: usize) -> int {
    neighbor_set(m, u).intersect(neighbor_set(m, v)).len() as int
}

/// The number of ids that are neighbours of `u` or of `v`.
pub open spec fn total_count(m: Map<usize, Set<usize>>, u: usize, v: usize) -> int {
    neighbor_set(m, u).union(neighbor_set(m, v)).len() as int
}

/// `r` is the Jaccard similarity of the neighbour sets of `u` and `v`.
pub open spec fn is_jaccard(m: Map<usize, Set<usize>>, u: usize, v: usize, r: Similarity) -> bool {
    match r {
        Similarity::Undefined => total_count(m, u, v) == 0,
        Similarity::Ratio { shared, total } => total > 0 && shared == shared_count(m, u, v)
            && total == total_count(m, u, v),
    }
}

/// A pair that takes part in the search: two nodes among the candidates `c`,
/// the smaller id first, whose similarity is defined.
pub open spec fn valid_pair(m: Map<usize, Set<usize>>, c: Set<usize>, a: usize, b: usize) -> bool {
    &&& a < b
    &&& c.contains(a)
    &&& c.contains(b)
    &&& m.contains_key(a)
    &&& m.contains_key(b)
    &&& total_count(m, a, b) > 0
}

/// The pair `(a, b)` is preferred to the pair `(u, v)`: its similarity is
/// higher (lower, when the lowest is sought), or the same with `(a, b)`
/// before `(u, v)` in lexicographic order.
pub open spec fn outranks(
    m: Map<usize, Set<usize>>,
    highest: bool,
    a: usize,
    b: usize,
    u: usize,
    v: usize,
) -> bool {
    let sab = shared_count(m, a, b);
    let tab = total_count(m, a, b);
    let suv = shared_count(m, u, v);
    let tuv = total_count(m, u, v);
    let better = if highest {
        ratio_lt(suv, tuv, sab, tab)
    } else {
        ratio_lt(sab, tab, suv, tuv)
    };
    better || (ratio_eq(sab, tab, suv, tuv) && (a < u || (a == u && b < v)))
}

/// `r` is the outcome of the search among the candidates `c`: a valid pair
/// with its exact score that no valid pair outranks, or `Undefined` when
/// there is no valid pair.
pub open spec fn is_extreme(
    m: Map<usize, Set<usize>>,
    c: Set<usize>,
    highest: bool,
    r: PairResult,
) -> bool {
    match r {
        PairResult::Undefined => forall|a: usize, b: usize| !valid_pair(m, c, a, b),
        PairResult::Found { u, v, shared, total } => {
            &&& valid_pair(m, c, u, v)
            &&& shared == shared_count(m, u, v)
            &&& total == total_count(m, u, v)
            &&& forall|a: usize, b: usize|
                valid_pair(m, c, a, b) ==> !outranks(m, highest, a, b, u, v)
        },
    }
}

/// In a simple graph the neighbour sets are finite, no more ids are shared
/// by two of them than are in either, and those are no more than the nodes:
/// a defined similarity lies between 0 and 1. The similarity is undefined
/// exactly when both neighbour sets are empty.
pub proof fn lemma_similarity_in_unit_interval(m: Map<usize, Set<usize>>, u: usize, v: usize)
    requires
        is_simple_graph(m),
    ensures
        neighbor_set(m, u).finite(),
        neighbor_set(m, v).finite(),
        0 <= shared_count(m, u, v) <= total_count(m, u, v) <= m.dom().len(),
        total_count(m, u, v) == 0 <==> neighbor_set(m, u) == Set::<usize>::empty() && neighbor_set(
            m,
            v,
        ) == Set::<usize>::empty(),
{
    let a = neighbor_set(m, u);
    let b = neighbor_set(m, v);
    assert(a.finite());
    assert(b.finite());
    assert(a.union(b).subset_of(m.dom())) by {
        assert forall|x: usize| a.union(b).contains(x) implies m.dom().contains(x) by {
            if a.contains(x) {
                assert(m[u].contains(x));
            } else {
                assert(m[v].contains(x));
            }
        }
    }
    vstd::set_lib::lemma_len_subset(a.union(b), m.dom());
    assert(a.intersect(b).subset_of(a.union(b)));
    vstd::set_lib::lemma_len_subset(a.intersect(b), a.union(b));
    if a.union(b).len() == 0 {
        assert(a.union(b) =~= Set::<usize>::empty());
        assert(a =~= Set::<usize>::empty()) by {
            assert forall|x: usize| !a.contains(x) by {
                if a.contains(x) {
                    assert(a.union(b).contains(x));
                }
            }
        }
        assert(b =~= Set::<usize>::empty()) by {
            assert forall|x: usize| !b.contains(x) by {
                if b.contains(x) {
                    assert(a.union(b).contains(x));
                }
            }
        }
    }
    if a == Set::<usize>::empty() && b == Set::<usize>::empty() {
        assert(a.union(b) =~= Set::<usize>::empty());
    }
}

/// No pair outranks itself, and a pair that outranks a second which in turn
/// outranks or equals a third outranks the third.
pub proof fn lemma_outranks_order(
    m: Map<usize, Set<usize>>,
    highest: bool,
    a: usize,
    b: usize,
    u: usize,
    v: usize,
    x: usize,
    y: usize,
)
    requires
        total_count(m, a, b) > 0,
        total_count(m, u, v) > 0,
        total_count(m, x, y) > 0,
    ensures
        !outranks(m, highest, a, b, a, b),
        outranks(m, highest, a, b, u, v) && outranks(m, highest, u, v, x, y) ==> outranks(
            m,
            highest,
            a,
            b,
            x,
            y,
        ),
{
    let s1 = shared_count(m, a, b);
    let t1 = total_count(m, a, b);
    let s2 = shared_count(m, u, v);
    let t2 = total_count(m, u, v);
    let s3 = shared_count(m, x, y);
    let t3 = total_count(m, x, y);
    if outranks(m, highest, a, b, u, v) && outranks(m, highest, u, v, x, y) {
        if highest {
            lemma_ratio_chain(s3, t3, s2, t2, s1, t1);
            if !ratio_lt(s3, t3, s1, t1) {
                lemma_ratio_chain(s1, t1, s2, t2, s3, t3);
            }
        } else {
            lemma_ratio_chain(s1, t1, s2, t2, s3, t3);
            if !ratio_lt(s1, t1, s3, t3) {
                lemma_ratio_chain(s3, t3, s2, t2, s1, t1);
            }
        }
    }
}

/// The outcome of a search is determined by the graph and the candidates:
/// in whatever order the pairs are compared, and however the comparisons
/// are split up, the same pair comes out.
pub proof fn lemma_extreme_is_unique(
    m: Map<usize, Set<usize>>,
    c: Set<usize>,
    highest: bool,
    first: PairResult,
    second: PairResult,
)
    requires
        is_extreme(m, c, highest, first),
        is_extreme(m, c, highest, second),
    ensures
        first == second,
{
    match (first, second) {
        (
            PairResult::Found { u, v, shared, total },
            PairResult::Found { u: u2, v: v2, shared: shared2, total: total2 },
        ) => {
            assert(!outranks(m, highest, u2, v2, u, v));
            assert(!outranks(m, highest, u, v, u2, v2));
            crate::ratio::lemma_ratio_trichotomy(
                shared_count(m, u, v),
                total_count(m, u, v),
                shared_count(m, u2, v2),
                total_count(m, u2, v2),
            );
        },
        (PairResult::Found { u, v, shared, total }, PairResult::Undefined) => {
            assert(valid_pair(m, c, u, v));
        },
        (PairResult::Undefined, PairResult::Found { u, v, shared, total }) => {
            assert(valid_pair(m, c, u, v));
        },
        (PairResult::Undefined, PairResult::Undefined) => {},
    }
}

/// The number of ids that the ascending lists `a` and `b` share.
fn count_shared(a: &Vec<usize>, b: &Vec<usize>) -> (n: usize)
    requires
        strictly_increasing(a@),
        strictly_increasing(b@),
    ensures
        n == a@.to_set().intersect(b@.to_set()).len(),
        n <= a.len(),
{
    let mut n: usize = 0;
    let mut i: usize = 0;
    let ghost mut found: Set<usize> = Set::empty();
    while i < a.len()
        invariant
            i <= a.len(),
            n <= i,
            strictly_increasing(a@),
            strictly_increasing(b@),
            found.finite(),
            found.len() == n,
            forall|x: usize|
                found.contains(x) <==> (b@.contains(x) && exists|p: int|
                    0 <= p < i && a@[p] == x),
        decreases a.len() - i,
    {
        let x = a[i];
        if sorted_contains(b, x) {
            assert(!found.contains(x)) by {
                if found.contains(x) {
                    let p = choose|p: int| 0 <= p < i && a@[p] == x;
                    assert(a@[p] < a@[i as int]);
                }
            }
            proof {
                found = found.insert(x);
            }
            n += 1;
        }
        i += 1;
        assert forall|y: usize|
            found.contains(y) <==> (b@.contains(y) && exists|p: int|
                0 <= p < i && a@[p] == y) by {
            if b@.contains(y) && (exists|p: int| 0 <= p < i && a@[p] == y) {
                let p = choose|p: int| 0 <= p < i && a@[p] == y;
                if p < i - 1 {
                    assert(exists|q: int| 0 <= q < i - 1 && a@[q] == y);
                }
            }
            if found.contains(y) {
                if y == x {
                    assert(a@[i - 1] == y);
                } else {
                    let p = choose|p: int| 0 <= p < i - 1 && a@[p] == y;
                    assert(0 <= p < i && a@[p] == y);
                }
            }
        }
    }
    assert(found =~= a@.to_set().intersect(b@.to_set())) by {
        assert forall|x: usize| found.contains(x) <==> a@.to_set().intersect(
            b@.to_set(),
        ).contains(x) by {
            if a@.contains(x) {
                let p = choose|p: int| 0 <= p < a@.len() && a@[p] == x;
                assert(0 <= p < i && a@[p] == x);
            }
        }
    }
    n
}

/// The Jaccard similarity of the neighbour sets of `u` and `v`: the number of
/// ids in both over the number of ids in either. An id that is no node has no
/// neighbours. The result is `Undefined` exactly when both sets are empty;
/// otherwise `shared <= total`, so the similarity lies between 0 and 1.
pub fn jaccard_similarity(graph: &SocialGraph, u: usize, v: usize) -> (r: Similarity)
    requires
        graph.wf(),
    ensures
        is_jaccard(graph@, u, v, r),
        r matches Similarity::Ratio { shared, total } ==> shared <= total,
{
    let empty: Vec<usize> = Vec::new();
    let node_count = graph.node_count();
    let iu = graph.index_of(u);
    let iv = graph.index_of(v);
    let a: &Vec<usize> = match iu {
        Some(i) => graph.neighbors_at(i),
        None => &empty,
    };
    let b: &Vec<usize> = match iv {
        Some(i) => graph.neighbors_at(i),
        None => &empty,
    };
    proof {
        graph.lemma_simple();
        lemma_similarity_in_unit_interval(graph@, u, v);
        assert(empty@.to_set() =~= Set::<usize>::empty());
        if iu.is_some() {
            lemma_row(graph.node_ids(), graph.neighbor_lists(), iu.unwrap() as int);
        }
        if iv.is_some() {
            lemma_row(graph.node_ids(), graph.neighbor_lists(), iv.unwrap() as int);
        }
        assert(a@.to_set() == neighbor_set(graph@, u));
        assert(b@.to_set() == neighbor_set(graph@, v));
        assert(a@.no_duplicates());
        assert(b@.no_duplicates());
        a@.unique_seq_to_set();
        b@.unique_seq_to_set();
        vstd::set_lib::lemma_set_intersect_union_lens(a@.to_set(), b@.to_set());
    }
    let shared = if a.len() <= b.len() {
        count_shared(a, b)
    } else {
        let n = count_shared(b, a);
        assert(b@.to_set().intersect(a@.to_set()) =~= a@.to_set().intersect(b@.to_set()));
        n
    };
    proof {
        let sa = a@.to_set();
        let sb = b@.to_set();
        vstd::set_lib::lemma_len_intersect(sa, sb);
        assert(sa + sb == sa.union(sb));
        assert(graph@.dom().len() == graph.node_ids().len());
        assert(a.len() - shared + b.len() == total_count(graph@, u, v));
        assert(total_count(graph@, u, v) <= node_count);
    }
    let total = a.len() - shared + b.len();
    if total == 0 {
        Similarity::Undefined
    } else {
        Similarity::Ratio { shared, total }
    }
}

/// The candidate pair at positions `p` and `q`, smaller id first, is valid
/// and would replace `best`.
pub open spec fn beats(
    m: Map<usize, Set<usize>>,
    c: Set<usize>,
    highest: bool,
    x: usize,
    y: usize,
    best: PairResult,
) -> bool {
    let a = if x < y {
        x
    } else {
        y
    };
    let b = if x < y {
        y
    } else {
        x
    };
    valid_pair(m, c, a, b) && match best {
        PairResult::Undefined => true,
        PairResult::Found { u, v, shared, total } => outranks(m, highest, a, b, u, v),
    }
}

/// `best` is undefined or a valid pair with its exact score.
pub open spec fn is_scored(m: Map<usize, Set<usize>>, c: Set<usize>, best: PairResult) -> bool {
    match best {
        PairResult::Undefined => true,
        PairResult::Found { u, v, shared, total } => valid_pair(m, c, u, v) && shared
            == shared_count(m, u, v) && total == total_count(m, u, v),
    }
}

/// Whether the pair `(a, b)` with score `shared / total` replaces `best`.
fn replaces(
    graph: &SocialGraph,
    highest: bool,
    a: usize,
    b: usize,
    shared: usize,
    total: usize,
    best: PairResult,
    Ghost(c): Ghost<Set<usize>>,
) -> (r: bool)
    requires
        valid_pair(graph@, c, a, b),
        shared == shared_count(graph@, a, b),
        total == total_count(graph@, a, b),
        is_scored(graph@, c, best),
    ensures
        r == beats(graph@, c, highest, a, b, best),
{
    match best {
        PairResult::Undefined => true,
        PairResult::Found { u, v, shared: best_shared, total: best_total } => {
            let better = if highest {
                ratio_less(best_shared, best_total, shared, total)
            } else {
                ratio_less(shared, total, best_shared, best_total)
            };
            better || (ratio_equal(shared, total, best_shared, best_total) && (a < u || (a == u
                && b < v)))
        },
    }
}

/// Searches the pairs of distinct ids from `cand` for the one that no other
/// outranks.
fn extreme_pair(graph: &SocialGraph, cand: &Vec<usize>, highest: bool) -> (best: PairResult)
    requires
        graph.wf(),
    ensures
        is_extreme(graph@, cand@.to_set(), highest, best),
{
    let ghost m = graph@;
    let ghost c = cand@.to_set();
    let n = cand.len();
    let mut best = PairResult::Undefined;
    let mut x: usize = 0;
    while x < n
        invariant
            x <= n,
            n == cand.len(),
            graph.wf(),
            m == graph@,
            c == cand@.to_set(),
            is_scored(m, c, best),
            forall|p: int, q: int|
                0 <= p < q < n && p < x ==> !beats(m, c, highest, cand@[p], cand@[q], best),
        decreases n - x,
    {
        let mut y: usize = x + 1;
        while y < n
            invariant
                x < n,
                x < y <= n,
                n == cand.len(),
                graph.wf(),
                m == graph@,
                c == cand@.to_set(),
                is_scored(m, c, best),
                forall|p: int, q: int|
                    0 <= p < q < n && (p < x || (p == x && q < y)) ==> !beats(
                        m,
                        c,
                        highest,
                        cand@[p],
                        cand@[q],
                        best,
                    ),
            decreases n - y,
        {
            let cx = cand[x];
            let cy = cand[y];
            let a = if cx < cy {
                cx
            } else {
                cy
            };
            let b = if cx < cy {
                cy
            } else {
                cx
            };
            let ghost old_best = best;
            if a < b && graph.index_of(a).is_some() && graph.index_of(b).is_some() {
                match jaccard_similarity(graph, a, b) {
                    Similarity::Undefined => {},
                    Similarity::Ratio { shared, total } => {
                        assert(cand@[x as int] == cx && cand@[y as int] == cy);
                        assert(c.contains(a) && c.contains(b));
                        assert(valid_pair(m, c, a, b));
                        if replaces(graph, highest, a, b, shared, total, best, Ghost(c)) {
                            best = PairResult::Found { u: a, v: b, shared, total };
                        }
                    },
                }
            }
            proof {
                assert forall|p: int, q: int|
                    0 <= p < q < n && (p < x || (p == x && q < y + 1)) implies !beats(
                    m,
                    c,
                    highest,
                    cand@[p],
                    cand@[q],
                    best,
                ) by {
                    let e = if cand@[p] < cand@[q] {
                        cand@[p]
                    } else {
                        cand@[q]
                    };
                    let f = if cand@[p] < cand@[q] {
                        cand@[q]
                    } else {
                        cand@[p]
                    };
                    if valid_pair(m, c, e, f) {
                        if best == old_best {
                            if p == x && q == y {
                                assert(!beats(m, c, highest, a, b, old_best));
                            }
                        } else {
                            assert(valid_pair(m, c, a, b));
                            lemma_outranks_order(m, highest, e, f, a, b, a, b);
                            if p == x && q == y {
                            } else {
                                assert(!beats(m, c, highest, cand@[p], cand@[q], old_best));
                                match old_best {
                                    PairResult::Undefined => {},
                                    PairResult::Found { u, v, shared, total } => {
                                        lemma_outranks_order(m, highest, e, f, a, b, u, v);
                                    },
                                }
                            }
                        }
                    }
                }
            }
            y += 1;
        }
        x += 1;
    }
    proof {
        match best {
            PairResult::Undefined => {
                assert forall|a: usize, b: usize| !valid_pair(m, c, a, b) by {
                    if valid_pair(m, c, a, b) {
                        let p = choose|p: int| 0 <= p < cand@.len() && cand@[p] == a;
                        let q = choose|q: int| 0 <= q < cand@.len() && cand@[q] == b;
                        if p < q {
                            assert(beats(m, c, highest, cand@[p], cand@[q], best));
                        } else {
                            assert(beats(m, c, highest, cand@[q], cand@[p], best));
                        }
                    }
                }
            },
            PairResult::Found { u, v, shared, total } => {
                assert forall|a: usize, b: usize| valid_pair(m, c, a, b) implies !outranks(
                    m,
                    highest,
                    a,
                    b,
                    u,
                    v,
                ) by {
                    let p = choose|p: int| 0 <= p < cand@.len() && cand@[p] == a;
                    let q = choose|q: int| 0 <= q < cand@.len() && cand@[q] == b;
                    if p < q {
                        assert(!beats(m, c, highest, cand@[p], cand@[q], best));
                    } else {
                        assert(!beats(m, c, highest, cand@[q], cand@[p], best));
                    }
                }
            },
        }
    }
    best
}

/// The pair of distinct nodes with the highest defined similarity. Among
/// pairs of the same similarity the one with the smallest lower id, then the
/// smallest higher id, is returned; `Undefined` when no pair has a defined
/// similarity.
pub fn most_similar_pair(graph: &SocialGraph) -> (r: Extreme)
    requires
        graph.wf(),
    ensures
        !r.restricted,
        is_extreme(graph@, graph@.dom(), true, r.pair),
{
    let cand = graph.nodes();
    proof {
        graph.lemma_simple();
    }
    Extreme { pair: extreme_pair(graph, &cand, true), restricted: false }
}

/// The pair of distinct nodes with the lowest defined similarity, with ties
/// broken as in `most_similar_pair`.
pub fn most_dissimilar_pair(graph: &SocialGraph) -> (r: Extreme)
    requires
        graph.wf(),
    ensures
        !r.restricted,
        is_extreme(graph@, graph@.dom(), false, r.pair),
{
    let cand = graph.nodes();
    proof {
        graph.lemma_simple();
    }
    Extreme { pair: extreme_pair(graph, &cand, false), restricted: false }
}

/// `most_similar_pair` over the pairs of nodes that both occur in `subset`.
/// Ids in `subset` that are no nodes are ignored, as are repeats.
pub fn most_similar_pair_among(graph: &SocialGraph, subset: &Vec<usize>) -> (r: Extreme)
    requires
        graph.wf(),
    ensures
        r.restricted,
        is_extreme(graph@, subset@.to_set(), true, r.pair),
{
    Extreme { pair: extreme_pair(graph, subset, true), restricted: true }
}

/// `most_dissimilar_pair` over the pairs of nodes that both occur in `subset`.
pub fn most_dissimilar_pair_among(graph: &SocialGraph, subset: &Vec<usize>) -> (r: Extreme)
    requires
        graph.wf(),
    ensures
        r.restricted,
        is_extreme(graph@, subset@.to_set(), false, r.pair),
{
    Extreme { pair: extreme_pair(graph, subset, false), restricted: true }
}

} // verus!
