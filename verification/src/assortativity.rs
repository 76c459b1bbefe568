//! Degree assortativity: the correlation between the degrees at the two
//! ends of an edge.

use vstd::prelude::*;
use crate::graph::SocialGraph;
use crate::graph::lemma_degree_bound;

verus! {

/// The largest number of nodes for which the sums are computed: with it
/// they stay below 2^120.
pub const MAX_ASSORTATIVITY_NODES: usize = 0x10_0000;

/// The degree assortativity `num / den`, or `Undefined` where the degrees
/// at the ends of the edges do not vary.
#[derive(Clone, Copy, Debug, PartialEq, Eq, Structural)]
pub enum Assortativity {
    Undefined,
    Value { num: i128, den: i128 },
}

/// The sum of the degrees of the `nodes`.
pub open spec fn degree_total(m: Map<usize, Set<usize>>, nodes: Seq<usize>) -> nat
    decreases nodes.len(),
{
    if nodes.len() == 0 {
        0
    } else {
        degree_total(m, nodes.drop_last()) + m[nodes.last()].len()
    }
}

/// The degree of `u` less the mean degree `s / n`, times `n`.
pub open spec fn centered(m: Map<usize, Set<usize>>, n: int, s: int, u: usize) -> int {
    n * m[u].len() - s
}

/// Over the edges from `u` to each of `ends`, the sum of the products of
/// the centred degrees of the two ends.
pub open spec fn row_products(
    m: Map<usize, Set<usize>>,
    n: int,
    s: int,
    u: usize,
    ends: Seq<usize>,
) -> int
    decreases ends.len(),
{
    if ends.len() == 0 {
        0
    } else {
        row_products(m, n, s, u, ends.drop_last()) + centered(m, n, s, u) * centered(
            m,
            n,
            s,
            ends.last(),
        )
    }
}

/// Over the edges from `u` to each of `ends`, the sum of the squares of the
/// centred degree of `u`.
pub open spec fn row_squares(
    m: Map<usize, Set<usize>>,
    n: int,
    s: int,
    u: usize,
    ends: Seq<usize>,
) -> int
    decreases ends.len(),
{
    if ends.len() == 0 {
        0
    } else {
        row_squares(m, n, s, u, ends.drop_last()) + centered(m, n, s, u) * centered(m, n, s, u)
    }
}

/// `row_products` summed over the first `k` nodes, each with its neighbours.
pub open spec fn products_total(
    m: Map<usize, Set<usize>>,
    n: int,
    s: int,
    nodes: Seq<usize>,
    rows: Seq<Seq<usize>>,
    k: nat,
) -> int
    decreases k,
{
    if k == 0 {
        0
    } else {
        products_total(m, n, s, nodes, rows, (k - 1) as nat) + row_products(
            m,
            n,
            s,
            nodes[k - 1],
            rows[k - 1],
        )
    }
}

/// `row_squares` summed over the first `k` nodes, each with its neighbours.
pub open spec fn squares_total(
    m: Map<usize, Set<usize>>,
    n: int,
    s: int,
    nodes: Seq<usize>,
    rows: Seq<Seq<usize>>,
    k: nat,
) -> int
    decreases k,
{
    if k == 0 {
        0
    } else {
        squares_total(m, n, s, nodes, rows, (k - 1) as nat) + row_squares(
            m,
            n,
            s,
            nodes[k - 1],
            rows[k - 1],
        )
    }
}

/// `r` is the correlation of the degrees at the two ends over every edge
/// taken in both directions, each degree centred at the mean degree of the
/// graph: with `c(u) = n * degree(u) - s` for `n` nodes of degree sum `s`,
/// the sum of `c(u) * c(v)` over the sum of `c(u) * c(u)`, and `Undefined`
/// where the latter is 0.
pub open spec fn is_assortativity(
    m: Map<usize, Set<usize>>,
    nodes: Seq<usize>,
    rows: Seq<Seq<usize>>,
    r: Assortativity,
) -> bool {
    let n = nodes.len() as int;
    let s = degree_total(m, nodes) as int;
    match r {
        Assortativity::Undefined => squares_total(m, n, s, nodes, rows, nodes.len()) == 0,
        Assortativity::Value { num, den } => {
            &&& den > 0
            &&& den == squares_total(m, n, s, nodes, rows, nodes.len())
            &&& num == products_total(m, n, s, nodes, rows, nodes.len())
        },
    }
}

/// The product of two numbers within 2^40 of 0 is within 2^80 of 0.
proof fn lemma_product_bound(a: int, b: int)
    requires
        -0x100_0000_0000 <= a <= 0x100_0000_0000,
        -0x100_0000_0000 <= b <= 0x100_0000_0000,
    ensures
        -0x1_0000_0000_0000_0000_0000 <= a * b <= 0x1_0000_0000_0000_0000_0000,
{
    assert(-0x1_0000_0000_0000_0000_0000 <= a * b <= 0x1_0000_0000_0000_0000_0000)
        by (nonlinear_arith)
        requires
            -0x100_0000_0000 <= a <= 0x100_0000_0000,
            -0x100_0000_0000 <= b <= 0x100_0000_0000,
    ;
}

/// A degree times the number of nodes stays within 2^40.
proof fn lemma_scaled_degree_bound(n: int, d: int)
    requires
        0 <= d < n <= 0x10_0000,
    ensures
        0 <= n * d <= 0x100_0000_0000,
{
    assert(0 <= n * d <= 0x100_0000_0000) by (nonlinear_arith)
        requires
            0 <= d < n <= 0x10_0000,
    ;
}

/// Where every node has the same degree the degrees do not vary.
proof fn lemma_same_degree_total(m: Map<usize, Set<usize>>, nodes: Seq<usize>, d: nat)
    requires
        forall|i: int| 0 <= i < nodes.len() ==> m[#[trigger] nodes[i]].len() == d,
    ensures
        degree_total(m, nodes) == nodes.len() * d,
    decreases nodes.len(),
{
    if nodes.len() > 0 {
        lemma_same_degree_total(m, nodes.drop_last(), d);
        assert(m[nodes[nodes.len() - 1]].len() == d);
        assert((nodes.len() - 1) * d + d == nodes.len() * d) by (nonlinear_arith);
    } else {
        assert(0 * d == 0) by (nonlinear_arith);
    }
}

/// The squares along the edges of a node whose centred degree is 0 sum to 0.
proof fn lemma_row_squares_zero(
    m: Map<usize, Set<usize>>,
    n: int,
    s: int,
    u: usize,
    ends: Seq<usize>,
)
    requires
        centered(m, n, s, u) == 0,
    ensures
        row_squares(m, n, s, u, ends) == 0,
    decreases ends.len(),
{
    if ends.len() > 0 {
        lemma_row_squares_zero(m, n, s, u, ends.drop_last());
    }
}

/// Where every centred degree is 0 all squares sum to 0.
proof fn lemma_squares_zero(
    m: Map<usize, Set<usize>>,
    n: int,
    s: int,
    nodes: Seq<usize>,
    rows: Seq<Seq<usize>>,
    k: nat,
)
    requires
        k <= nodes.len(),
        forall|i: int| 0 <= i < nodes.len() ==> centered(m, n, s, #[trigger] nodes[i]) == 0,
    ensures
        squares_total(m, n, s, nodes, rows, k) == 0,
    decreases k,
{
    if k > 0 {
        lemma_squares_zero(m, n, s, nodes, rows, (k - 1) as nat);
        assert(centered(m, n, s, nodes[k - 1]) == 0);
        lemma_row_squares_zero(m, n, s, nodes[k - 1], rows[k - 1]);
    }
}

/// In a graph whose nodes all have the same degree the assortativity is
/// undefined.
pub proof fn lemma_regular_graph_is_undefined(
    m: Map<usize, Set<usize>>,
    nodes: Seq<usize>,
    rows: Seq<Seq<usize>>,
    d: nat,
    r: Assortativity,
)
    requires
        forall|i: int| 0 <= i < nodes.len() ==> m[#[trigger] nodes[i]].len() == d,
        is_assortativity(m, nodes, rows, r),
    ensures
        r == Assortativity::Undefined,
{
    let n = nodes.len() as int;
    let s = degree_total(m, nodes) as int;
    lemma_same_degree_total(m, nodes, d);
    assert forall|i: int| 0 <= i < nodes.len() implies centered(m, n, s, #[trigger] nodes[i])
        == 0 by {
        assert(m[nodes[i]].len() == d);
    }
    lemma_squares_zero(m, n, s, nodes, rows, nodes.len());
}

/// The sum of the degrees of all nodes.
fn degree_sum(graph: &SocialGraph) -> (s: u64)
    requires
        graph.wf(),
        graph.node_ids().len() <= MAX_ASSORTATIVITY_NODES,
    ensures
        s == degree_total(graph@, graph.node_ids()),
        s <= 0x100_0000_0000,
{
    let ghost ids = graph.node_ids();
    let ghost lists = graph.neighbor_lists();
    let n = graph.node_count();
    let mut s: u64 = 0;
    let mut i: usize = 0;
    assert(ids.take(0) =~= Seq::<usize>::empty());
    while i < n
        invariant
            i <= n,
            n == ids.len(),
            n <= 0x10_0000,
            graph.wf(),
            ids == graph.node_ids(),
            lists == graph.neighbor_lists(),
            s == degree_total(graph@, ids.take(i as int)),
            s <= i * 0x10_0000,
        decreases n - i,
    {
        proof {
            lemma_degree_bound(ids, lists, i as int);
            assert(ids.take(i + 1).drop_last() =~= ids.take(i as int));
            assert(ids.take(i + 1).last() == ids[i as int]);
        }
        s = s + graph.neighbors_at(i).len() as u64;
        i += 1;
    }
    assert(ids.take(i as int) =~= ids);
    s
}

/// The degree assortativity of `graph`: the Pearson correlation between the
/// degrees at the two ends of an edge, over every edge taken in both
/// directions and with the mean degree of the graph as the centre of both.
/// It is `Undefined` exactly where the sum of squares in the denominator is
/// 0, as in a graph whose nodes all have the same degree. The graph may have
/// up to `MAX_ASSORTATIVITY_NODES` nodes, so that the sums fit 128 bits.
pub fn degree_assortativity(graph: &SocialGraph) -> (r: Assortativity)
    requires
        graph.wf(),
        graph.node_ids().len() <= MAX_ASSORTATIVITY_NODES,
    ensures
        is_assortativity(graph@, graph.node_ids(), graph.neighbor_lists(), r),
{
    let ghost ids = graph.node_ids();
    let ghost lists = graph.neighbor_lists();
    let ghost m = graph@;
    let n = graph.node_count();
    let s = degree_sum(graph);
    let ghost gn = n as int;
    let ghost gs = s as int;
    let mut num: i128 = 0;
    let mut den: i128 = 0;
    let mut i: usize = 0;
    while i < n
        invariant
            i <= n,
            n == ids.len(),
            n <= 0x10_0000,
            s <= 0x100_0000_0000,
            gn == n,
            gs == s,
            graph.wf(),
            ids == graph.node_ids(),
            lists == graph.neighbor_lists(),
            m == graph@,
            num == products_total(m, gn, gs, ids, lists, i as nat),
            den == squares_total(m, gn, gs, ids, lists, i as nat),
            -i * 0x1_0000_0000_0000_0000_0000_0000_0 <= num <= i
                * 0x1_0000_0000_0000_0000_0000_0000_0,
            0 <= den <= i * 0x1_0000_0000_0000_0000_0000_0000_0,
        decreases n - i,
    {
        let row = graph.neighbors_at(i);
        let ghost u = ids[i as int];
        proof {
            lemma_degree_bound(ids, lists, i as int);
            lemma_scaled_degree_bound(n as int, row.len() as int);
        }
        let here: i128 = (n as i128) * (row.len() as i128) - (s as i128);
        assert(here == centered(m, gn, gs, u));
        let mut row_num: i128 = 0;
        let mut row_den: i128 = 0;
        let mut k: usize = 0;
        assert(row@.take(0) =~= Seq::<usize>::empty());
        while k < row.len()
            invariant
                k <= row.len(),
                row.len() < n,
                n == ids.len(),
                n <= 0x10_0000,
                s <= 0x100_0000_0000,
                gn == n,
                gs == s,
                i < n,
                graph.wf(),
                ids == graph.node_ids(),
                lists == graph.neighbor_lists(),
                m == graph@,
                row@ == lists[i as int],
                u == ids[i as int],
                here == centered(m, gn, gs, u),
                -0x100_0000_0000 <= here <= 0x100_0000_0000,
                row_num == row_products(m, gn, gs, u, row@.take(k as int)),
                row_den == row_squares(m, gn, gs, u, row@.take(k as int)),
                -k * 0x1_0000_0000_0000_0000_0000 <= row_num <= k * 0x1_0000_0000_0000_0000_0000,
                0 <= row_den <= k * 0x1_0000_0000_0000_0000_0000,
            decreases row.len() - k,
        {
            let v = row[k];
            assert(ids.contains(lists[i as int][k as int]));
            let j = graph.index_of(v).unwrap();
            let far = graph.neighbors_at(j);
            proof {
                lemma_degree_bound(ids, lists, j as int);
                lemma_scaled_degree_bound(n as int, far.len() as int);
                assert(row@.take(k + 1).drop_last() =~= row@.take(k as int));
                assert(row@.take(k + 1).last() == v);
            }
            let there: i128 = (n as i128) * (far.len() as i128) - (s as i128);
            assert(there == centered(m, gn, gs, v));
            proof {
                lemma_product_bound(here as int, there as int);
                lemma_product_bound(here as int, here as int);
                assert(here * here >= 0) by (nonlinear_arith);
            }
            row_num = row_num + here * there;
            row_den = row_den + here * here;
            k += 1;
        }
        assert(row@.take(k as int) =~= row@);
        num = num + row_num;
        den = den + row_den;
        i += 1;
    }
    if den == 0 {
        Assortativity::Undefined
    } else {
        Assortativity::Value { num, den }
    }
}

} // verus!
