//! The global clustering coefficient: the share of closed triplets among
//! the possible ones.

use vstd::prelude::*;
use crate::graph::SocialGraph;
use crate::graph::lemma_degree_bound;
use crate::graph::lemma_row;
use crate::graph::sorted_contains;
use crate::graph::strictly_increasing;
use crate::ratio::Fraction;
use crate::ratio::fraction_or_zero;

verus! {

/// `p` is a pair of neighbours of `u`, the smaller id first, that are
/// neighbours of each other.
pub open spec fn is_closed_pair(m: Map<usize, Set<usize>>, u: usize, p: (usize, usize)) -> bool {
    &&& p.0 < p.1
    &&& m[u].contains(p.0)
    &&& m[u].contains(p.1)
    &&& m.contains_key(p.0)
    &&& m[p.0].contains(p.1)
}

/// The number of closed triplets at `u`: the pairs of its neighbours that
/// are connected, each pair counted once.
pub open spec fn closed_at(m: Map<usize, Set<usize>>, u: usize) -> nat {
    Set::new(|p: (usize, usize)| is_closed_pair(m, u, p)).len()
}

/// The number of pairs that `d` neighbours form: `d * (d - 1) / 2`.
pub open spec fn pairs_among(d: nat) -> nat {
    (d * (d - 1) / 2) as nat
}

/// The number of possible triplets at `u`.
pub open spec fn possible_at(m: Map<usize, Set<usize>>, u: usize) -> nat {
    pairs_among(m[u].len())
}

/// The closed triplets at the `nodes`, summed.
pub open spec fn closed_total(m: Map<usize, Set<usize>>, nodes: Seq<usize>) -> nat
    decreases nodes.len(),
{
    if nodes.len() == 0 {
        0
    } else {
        closed_total(m, nodes.drop_last()) + closed_at(m, nodes.last())
    }
}

/// The possible triplets at the `nodes`, summed.
pub open spec fn possible_total(m: Map<usize, Set<usize>>, nodes: Seq<usize>) -> nat
    decreases nodes.len(),
{
    if nodes.len() == 0 {
        0
    } else {
        possible_total(m, nodes.drop_last()) + possible_at(m, nodes.last())
    }
}

/// The closed pairs at `u` whose places in the neighbour list `row` come
/// before the places `x` and `y`.
spec fn seen_pairs(m: Map<usize, Set<usize>>, u: usize, row: Seq<usize>, x: int, y: int) -> Set<
    (usize, usize),
> {
    Set::new(
        |p: (usize, usize)|
            is_closed_pair(m, u, p) && exists|a: int, b: int|
                #![trigger row[a], row[b]]
                0 <= a < b < row.len() && row[a] == p.0 && row[b] == p.1 && (a < x || (a == x
                    && b < y)),
    )
}

/// Moving on by one place adds the pair at that place if it is closed.
proof fn lemma_seen_step(m: Map<usize, Set<usize>>, u: usize, row: Seq<usize>, x: int, y: int)
    requires
        strictly_increasing(row),
        0 <= x < y < row.len(),
    ensures
        !seen_pairs(m, u, row, x, y).contains((row[x], row[y])),
        seen_pairs(m, u, row, x, y + 1) == if is_closed_pair(m, u, (row[x], row[y])) {
            seen_pairs(m, u, row, x, y).insert((row[x], row[y]))
        } else {
            seen_pairs(m, u, row, x, y)
        },
{
    let before = seen_pairs(m, u, row, x, y);
    let after = seen_pairs(m, u, row, x, y + 1);
    let now = (row[x], row[y]);
    if before.contains(now) {
        let (a, b) = choose|a: int, b: int|
            #![trigger row[a], row[b]]
            0 <= a < b < row.len() && row[a] == now.0 && row[b] == now.1 && (a < x || (a == x && b
                < y));
        if a < x {
            assert(row[a] < row[x]);
        } else {
            assert(row[b] < row[y]);
        }
    }
    let target = if is_closed_pair(m, u, now) {
        before.insert(now)
    } else {
        before
    };
    assert forall|p: (usize, usize)| after.contains(p) <==> target.contains(p) by {
        if after.contains(p) {
            let (a, b) = choose|a: int, b: int|
                #![trigger row[a], row[b]]
                0 <= a < b < row.len() && row[a] == p.0 && row[b] == p.1 && (a < x || (a == x && b
                    < y + 1));
            if a == x && b == y {
                assert(p == now);
            } else {
                assert(0 <= a < b < row.len() && row[a] == p.0 && row[b] == p.1 && (a < x || (a
                    == x && b < y)));
            }
        }
        if before.contains(p) {
            let (a, b) = choose|a: int, b: int|
                #![trigger row[a], row[b]]
                0 <= a < b < row.len() && row[a] == p.0 && row[b] == p.1 && (a < x || (a == x && b
                    < y));
            assert(0 <= a < b < row.len() && row[a] == p.0 && row[b] == p.1 && (a < x || (a == x
                && b < y + 1)));
        }
        if p == now && is_closed_pair(m, u, now) {
            assert(0 <= x < y < row.len() && row[x] == p.0 && row[y] == p.1 && (x < x || (x == x
                && y < y + 1)));
        }
    }
    assert(after =~= target);
}

/// The pairs before the end of one row are those before the next row.
proof fn lemma_seen_next_row(m: Map<usize, Set<usize>>, u: usize, row: Seq<usize>, x: int)
    requires
        0 <= x < row.len(),
    ensures
        seen_pairs(m, u, row, x, row.len() as int) == seen_pairs(m, u, row, x + 1, x + 2),
{
    let one = seen_pairs(m, u, row, x, row.len() as int);
    let two = seen_pairs(m, u, row, x + 1, x + 2);
    assert forall|p: (usize, usize)| one.contains(p) <==> two.contains(p) by {
        if one.contains(p) {
            let (a, b) = choose|a: int, b: int|
                #![trigger row[a], row[b]]
                0 <= a < b < row.len() && row[a] == p.0 && row[b] == p.1 && (a < x || (a == x && b
                    < row.len()));
            assert(0 <= a < b < row.len() && row[a] == p.0 && row[b] == p.1 && (a < x + 1 || (a
                == x + 1 && b < x + 2)));
        }
        if two.contains(p) {
            let (a, b) = choose|a: int, b: int|
                #![trigger row[a], row[b]]
                0 <= a < b < row.len() && row[a] == p.0 && row[b] == p.1 && (a < x + 1 || (a == x
                    + 1 && b < x + 2));
            assert(0 <= a < b < row.len() && row[a] == p.0 && row[b] == p.1 && (a < x || (a == x
                && b < row.len())));
        }
    }
    assert(one =~= two);
}

/// Before the first place no pair was seen; after the last row all were.
proof fn lemma_seen_all(m: Map<usize, Set<usize>>, u: usize, row: Seq<usize>)
    requires
        strictly_increasing(row),
        row.to_set() == m[u],
    ensures
        seen_pairs(m, u, row, row.len() as int, row.len() as int + 1) == Set::new(
            |p: (usize, usize)| is_closed_pair(m, u, p),
        ),
        seen_pairs(m, u, row, 0, 1) == Set::<(usize, usize)>::empty(),
{
    let all = Set::new(|p: (usize, usize)| is_closed_pair(m, u, p));
    let seen = seen_pairs(m, u, row, row.len() as int, row.len() as int + 1);
    assert forall|p: (usize, usize)| all.contains(p) implies seen.contains(p) by {
        assert(row.to_set().contains(p.0));
        assert(row.to_set().contains(p.1));
        let a = choose|a: int| 0 <= a < row.len() && row[a] == p.0;
        let b = choose|b: int| 0 <= b < row.len() && row[b] == p.1;
        if b < a {
            assert(row[b] < row[a]);
        }
        assert(0 <= a < b < row.len() && row[a] == p.0 && row[b] == p.1 && (a < row.len() || (a
            == row.len() && b < row.len() + 1)));
    }
    assert(seen =~= all);
    assert(seen_pairs(m, u, row, 0, 1) =~= Set::<(usize, usize)>::empty());
}

/// The closed and the possible triplets at the node at position `i`.
fn triplets_at(graph: &SocialGraph, i: usize) -> (r: (u128, u128))
    requires
        graph.wf(),
        graph.node_ids().len() <= u32::MAX,
        i < graph.node_ids().len(),
    ensures
        r.0 == closed_at(graph@, graph.node_ids()[i as int]),
        r.1 == possible_at(graph@, graph.node_ids()[i as int]),
        r.0 <= r.1,
        r.1 <= 0xffff_fffe_0000_0001,
{
    let ghost ids = graph.node_ids();
    let ghost lists = graph.neighbor_lists();
    let ghost m = graph@;
    let ghost u = ids[i as int];
    let row = graph.neighbors_at(i);
    let len = row.len();
    proof {
        lemma_degree_bound(ids, lists, i as int);
        lemma_row(ids, lists, i as int);
        lemma_seen_all(m, u, row@);
    }
    let mut closed: u128 = 0;
    let ghost mut steps: int = 0;
    let ghost mut found: Set<(usize, usize)> = Set::empty();
    let mut x: usize = 0;
    while x < len
        invariant
            x <= len,
            len == row.len(),
            len < ids.len(),
            ids.len() <= u32::MAX,
            graph.wf(),
            ids == graph.node_ids(),
            lists == graph.neighbor_lists(),
            m == graph@,
            i < ids.len(),
            u == ids[i as int],
            row@ == lists[i as int],
            strictly_increasing(row@),
            found.finite(),
            found.len() == closed,
            found == seen_pairs(m, u, row@, x as int, x + 1),
            closed <= steps,
            2 * steps == x * (2 * len - x - 1),
        decreases len - x,
    {
        let a = row[x];
        assert(ids.contains(lists[i as int][x as int]));
        let ja = graph.index_of(a).unwrap();
        let friends = graph.neighbors_at(ja);
        proof {
            lemma_row(ids, lists, ja as int);
            assert(strictly_increasing(lists[ja as int]));
        }
        let mut y: usize = x + 1;
        while y < len
            invariant
                x < len,
                x < y <= len,
                len == row.len(),
                len <= u32::MAX,
                strictly_increasing(row@),
                strictly_increasing(friends@),
                a == row@[x as int],
                m.contains_key(u),
                row@.to_set() == m[u],
                m.contains_key(a),
                friends@.to_set() == m[a],
                found.finite(),
                found.len() == closed,
                found == seen_pairs(m, u, row@, x as int, y as int),
                closed <= steps,
                2 * steps == x * (2 * len - x - 1) + 2 * (y - x - 1),
            decreases len - y,
        {
            let b = row[y];
            proof {
                lemma_seen_step(m, u, row@, x as int, y as int);
                assert(row@[x as int] < row@[y as int]);
                assert(row@.to_set().contains(row@[x as int]));
                assert(row@.to_set().contains(row@[y as int]));
                assert(friends@.contains(b) == friends@.to_set().contains(b));
                steps = steps + 1;
                assert(2 * steps <= len * (len - 1)) by (nonlinear_arith)
                    requires
                        0 <= x < y < len,
                        2 * steps == x * (2 * len - x - 1) + 2 * (y - x),
                ;
                assert(len * (len - 1) <= 0xffff_fffe_0000_0001) by (nonlinear_arith)
                    requires
                        0 < len <= 0xffff_ffff,
                ;
            }
            if sorted_contains(friends, b) {
                proof {
                    found = found.insert((a, b));
                }
                closed = closed + 1;
            }
            y += 1;
        }
        proof {
            lemma_seen_next_row(m, u, row@, x as int);
            assert((x + 1) * (2 * len - (x + 1) - 1) == x * (2 * len - x - 1) + 2 * (len - x - 1))
                by (nonlinear_arith);
        }
        x += 1;
    }
    proof {
        assert(2 * steps == len * (len - 1)) by (nonlinear_arith)
            requires
                2 * steps == x * (2 * len - x - 1),
                x == len,
        ;
        assert(len * (len - 1) <= 0xffff_fffe_0000_0001) by (nonlinear_arith)
            requires
                0 <= len <= 0xffff_ffff,
        ;
    }
    let possible: u128 = if len == 0 {
        0
    } else {
        (len as u128) * ((len - 1) as u128) / 2
    };
    proof {
        let d = len as int;
        assert(m[u].len() == d);
        assert(d * (d - 1) >= 0) by (nonlinear_arith)
            requires
                d >= 0,
        ;
        if len == 0 {
            assert(d * (d - 1) == 0) by (nonlinear_arith)
                requires
                    d == 0,
            ;
        }
        assert(possible == pairs_among(len as nat));
    }
    (closed, possible)
}

/// The global clustering coefficient: over all nodes, the number of
/// connected pairs of neighbours over the number of pairs of neighbours,
/// `d * (d - 1) / 2` for a node of degree `d`. It is `0 / 1` where no node
/// has two neighbours, and never above 1. The graph may have up to 2^32 - 1
/// nodes, so that the sums fit 128 bits.
pub fn global_clustering_coefficient(graph: &SocialGraph) -> (r: Fraction)
    requires
        graph.wf(),
        graph.node_ids().len() <= u32::MAX,
    ensures
        r.den > 0,
        r.num <= r.den,
        (r.num as nat, r.den as nat) == fraction_or_zero(
            closed_total(graph@, graph.node_ids()),
            possible_total(graph@, graph.node_ids()),
        ),
{
    let ghost ids = graph.node_ids();
    let ghost m = graph@;
    let n = graph.node_count();
    let mut closed: u128 = 0;
    let mut possible: u128 = 0;
    let mut i: usize = 0;
    assert(ids.take(0) =~= Seq::<usize>::empty());
    while i < n
        invariant
            i <= n,
            n == ids.len(),
            n <= u32::MAX,
            graph.wf(),
            ids == graph.node_ids(),
            m == graph@,
            closed == closed_total(m, ids.take(i as int)),
            possible == possible_total(m, ids.take(i as int)),
            closed <= possible,
            possible <= i * 0xffff_fffe_0000_0001,
        decreases n - i,
    {
        let at = triplets_at(graph, i);
        proof {
            assert(ids.take(i + 1).drop_last() =~= ids.take(i as int));
            assert(ids.take(i + 1).last() == ids[i as int]);
        }
        closed = closed + at.0;
        possible = possible + at.1;
        i += 1;
    }
    assert(ids.take(i as int) =~= ids);
    if possible == 0 {
        Fraction { num: 0, den: 1 }
    } else {
        Fraction { num: closed, den: possible }
    }
}

} // verus!
