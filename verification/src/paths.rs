//! Shortest-path lengths between the nodes of a graph and their average.
//!
//! The single-source computation is petgraph's Dijkstra with every edge at
//! cost 1, run on a petgraph graph whose node `i` stands for the `i`-th node
//! id in ascending order.

use vstd::prelude::*;
use std::collections::HashMap;
use crate::graph::SocialGraph;
use crate::graph::lemma_position;
use crate::graph::lemma_row;
use crate::graph::model;
use crate::graph::well_formed;
use crate::ratio::Fraction;
use crate::ratio::fraction_or_zero;
use crate::sampling::Sampling;
use crate::sampling::sample_nodes;
use crate::sampling::sample_of;

verus! {

/// `b` is a neighbour of the node `a`.
pub open spec fn adjacent(m: Map<usize, Set<usize>>, a: usize, b: usize) -> bool {
    m.contains_key(a) && m[a].contains(b)
}

/// The element after position `i` of `p` is a neighbour of the one at `i`.
pub open spec fn step_ok(m: Map<usize, Set<usize>>, p: Seq<usize>, i: int) -> bool {
    adjacent(m, p[i], p[i + 1])
}

/// `p` is a walk: it starts at a node and moves from neighbour to neighbour.
pub open spec fn is_walk(m: Map<usize, Set<usize>>, p: Seq<usize>) -> bool {
    &&& p.len() > 0
    &&& m.contains_key(p[0])
    &&& forall|i: int| 0 <= i < p.len() - 1 ==> #[trigger] step_ok(m, p, i)
}

/// `p` is a walk from `s` to `t`.
pub open spec fn walk_between(
    m: Map<usize, Set<usize>>,
    p: Seq<usize>,
    s: usize,
    t: usize,
) -> bool {
    is_walk(m, p) && p[0] == s && p[p.len() - 1] == t
}

/// Some walk leads from `s` to `t`.
pub open spec fn reachable(m: Map<usize, Set<usize>>, s: usize, t: usize) -> bool {
    exists|p: Seq<usize>| walk_between(m, p, s, t)
}

/// `d` is the number of edges of a shortest walk from `s` to `t`.
pub open spec fn is_distance(m: Map<usize, Set<usize>>, s: usize, t: usize, d: nat) -> bool {
    &&& exists|p: Seq<usize>| #[trigger] walk_between(m, p, s, t) && p.len() == d + 1
    &&& forall|p: Seq<usize>| #[trigger] walk_between(m, p, s, t) ==> p.len() >= d + 1
}

/// The number of edges of a shortest walk from `s` to `t`, if `t` can be
/// reached from `s`.
pub open spec fn distance(m: Map<usize, Set<usize>>, s: usize, t: usize) -> nat {
    choose|d: nat| is_distance(m, s, t, d)
}

/// What the ordered pair `(s, t)` adds to the sum of distances: its distance
/// if `t` is another node that can be reached from `s`, else nothing.
pub open spec fn pair_distance(m: Map<usize, Set<usize>>, s: usize, t: usize) -> nat {
    if s != t && reachable(m, s, t) {
        distance(m, s, t)
    } else {
        0
    }
}

/// What the ordered pair `(s, t)` adds to the number of pairs: 1 if `t` is
/// another node that can be reached from `s`, else nothing.
pub open spec fn pair_count(m: Map<usize, Set<usize>>, s: usize, t: usize) -> nat {
    if s != t && reachable(m, s, t) {
        1
    } else {
        0
    }
}

/// The sum of `pair_distance` from `s` over the `targets`.
pub open spec fn row_distance(m: Map<usize, Set<usize>>, s: usize, targets: Seq<usize>) -> nat
    decreases targets.len(),
{
    if targets.len() == 0 {
        0
    } else {
        row_distance(m, s, targets.drop_last()) + pair_distance(m, s, targets.last())
    }
}

/// The sum of `pair_count` from `s` over the `targets`.
pub open spec fn row_pairs(m: Map<usize, Set<usize>>, s: usize, targets: Seq<usize>) -> nat
    decreases targets.len(),
{
    if targets.len() == 0 {
        0
    } else {
        row_pairs(m, s, targets.drop_last()) + pair_count(m, s, targets.last())
    }
}

/// The sum of `row_distance` over the `sources`.
pub open spec fn total_distance(
    m: Map<usize, Set<usize>>,
    sources: Seq<usize>,
    targets: Seq<usize>,
) -> nat
    decreases sources.len(),
{
    if sources.len() == 0 {
        0
    } else {
        total_distance(m, sources.drop_last(), targets) + row_distance(m, sources.last(), targets)
    }
}

/// The sum of `row_pairs` over the `sources`.
pub open spec fn total_pairs(
    m: Map<usize, Set<usize>>,
    sources: Seq<usize>,
    targets: Seq<usize>,
) -> nat
    decreases sources.len(),
{
    if sources.len() == 0 {
        0
    } else {
        total_pairs(m, sources.drop_last(), targets) + row_pairs(m, sources.last(), targets)
    }
}

/// The average shortest-path length with what it was taken over. `sampled`
/// tells whether the sources were a sample of the nodes or all of them.
#[derive(Clone, Copy, Debug, PartialEq, Eq, Structural)]
pub struct PathAverage {
    pub average: Fraction,
    pub sampled: bool,
}

/// The graph on positions that the stored lists stand for: position `a` is
/// adjacent to position `b` when the `b`-th node is listed under the `a`-th.
pub open spec fn index_model(ids: Seq<usize>, lists: Seq<Seq<usize>>) -> Map<usize, Set<usize>> {
    Map::new(
        |a: usize| a < ids.len(),
        |a: usize| Set::new(|b: usize| b < ids.len() && lists[a as int].contains(ids[b as int])),
    )
}

/// The undirected graph on `0 .. order` with the edges `links`.
pub open spec fn mesh_model(order: nat, links: Seq<(usize, usize)>) -> Map<usize, Set<usize>> {
    Map::new(
        |a: usize| a < order,
        |a: usize|
            Set::new(
                |b: usize| b < order && (links.contains((a, b)) || links.contains((b, a))),
            ),
    )
}

/// `petgraph::Graph`, the graph that petgraph's algorithms run on. Nothing
/// is known of its fields; `mesh_order` and `mesh_links` name what it holds.
#[verifier::external_type_specification]
#[verifier::external_body]
#[verifier::reject_recursive_types(N)]
#[verifier::reject_recursive_types(E)]
#[verifier::reject_recursive_types(Ty)]
#[verifier::reject_recursive_types(Ix)]
pub struct ExMesh<N, E, Ty, Ix>(petgraph::Graph<N, E, Ty, Ix>);

/// `petgraph::Undirected`, the marker of graphs whose edges have no direction.
#[verifier::external_type_specification]
#[verifier::external_body]
pub struct ExUndirected(petgraph::Undirected);

/// The number of nodes of a petgraph graph; its nodes are `0 .. mesh_order`.
pub uninterp spec fn mesh_order(g: petgraph::Graph<(), (), petgraph::Undirected, usize>) -> nat;

/// The edges of a petgraph graph, as pairs of node indices in the order in
/// which they were added.
pub uninterp spec fn mesh_links(
    g: petgraph::Graph<(), (), petgraph::Undirected, usize>,
) -> Seq<(usize, usize)>;

/// `Default::default` of `petgraph::Graph`: the graph it returns has
/// neither nodes nor edges.
#[verifier::external_body]
fn mesh_new() -> (g: petgraph::Graph<(), (), petgraph::Undirected, usize>)
    ensures
        mesh_order(g) == 0,
        mesh_links(g) == Seq::<(usize, usize)>::empty(),
{
    petgraph::Graph::default()
}

/// `petgraph::Graph::add_node`: the new node gets the next index and
/// the edges stay. With `usize` indices the call does not panic.
#[verifier::external_body]
fn mesh_add_node(g: &mut petgraph::Graph<(), (), petgraph::Undirected, usize>) -> (ix: usize)
    ensures
        ix == mesh_order(*old(g)),
        mesh_order(*final(g)) == mesh_order(*old(g)) + 1,
        mesh_links(*final(g)) == mesh_links(*old(g)),
{
    g.add_node(()).index()
}

/// `petgraph::Graph::add_edge`: the edge is appended and the nodes
/// stay. The call panics if an endpoint is no node, which `requires` excludes.
#[verifier::external_body]
fn mesh_add_edge(
    g: &mut petgraph::Graph<(), (), petgraph::Undirected, usize>,
    a: usize,
    b: usize,
)
    requires
        a < mesh_order(*old(g)),
        b < mesh_order(*old(g)),
    ensures
        mesh_order(*final(g)) == mesh_order(*old(g)),
        mesh_links(*final(g)) == mesh_links(*old(g)).push((a, b)),
{
    g.add_edge(petgraph::graph::NodeIndex::new(a), petgraph::graph::NodeIndex::new(b), ());
}

/// The cost of passing an edge: every edge counts 1.
pub fn edge_cost() -> (cost: u64)
    ensures
        cost == 1,
{
    1
}

/// `petgraph::algo::dijkstra` from `start` without a goal and with the cost
/// `edge_cost()`, which is 1, for every edge: the map it returns holds
/// exactly the nodes that can be reached from `start`, each with the least
/// cost of a walk to it, which is the number of edges of a shortest walk.
#[verifier::external_body]
fn mesh_distances(
    g: &petgraph::Graph<(), (), petgraph::Undirected, usize>,
    start: usize,
) -> (r: HashMap<usize, u64>)
    requires
        start < mesh_order(*g),
    ensures
        forall|t: usize|
            #[trigger] r@.contains_key(t) <==> reachable(
                mesh_model(mesh_order(*g), mesh_links(*g)),
                start,
                t,
            ),
        forall|t: usize|
            #[trigger] r@.contains_key(t) ==> is_distance(
                mesh_model(mesh_order(*g), mesh_links(*g)),
                start,
                t,
                r@[t] as nat,
            ),
{
    petgraph::algo::dijkstra(g, petgraph::graph::NodeIndex::new(start), None, |_| edge_cost())
        .into_iter()
        .map(|(n, d)| (n.index(), d))
        .collect()
}

/// A walk on positions names a walk on node ids of the same length.
proof fn lemma_walk_to_ids(ids: Seq<usize>, lists: Seq<Seq<usize>>, p: Seq<usize>)
    requires
        well_formed(ids, lists),
        is_walk(index_model(ids, lists), p),
    ensures
        forall|k: int| 0 <= k < p.len() ==> p[k] < ids.len(),
        is_walk(model(ids, lists), Seq::new(p.len(), |k: int| ids[p[k] as int])),
{
    let im = index_model(ids, lists);
    let m = model(ids, lists);
    let q = Seq::new(p.len(), |k: int| ids[p[k] as int]);
    assert forall|k: int| 0 <= k < p.len() implies p[k] < ids.len() by {
        if k > 0 {
            assert(step_ok(im, p, k - 1));
        }
    }
    lemma_row(ids, lists, p[0] as int);
    assert forall|i: int| 0 <= i < q.len() - 1 implies #[trigger] step_ok(m, q, i) by {
        assert(step_ok(im, p, i));
        assert(p[i] < ids.len() && p[i + 1] < ids.len());
        lemma_row(ids, lists, p[i] as int);
        assert(lists[p[i] as int].contains(ids[p[i + 1] as int]));
    }
}

/// A walk on node ids names a walk on positions of the same length.
proof fn lemma_walk_to_positions(ids: Seq<usize>, lists: Seq<Seq<usize>>, q: Seq<usize>)
    requires
        well_formed(ids, lists),
        ids.len() <= usize::MAX,
        is_walk(model(ids, lists), q),
    ensures
        forall|k: int| 0 <= k < q.len() ==> ids.contains(q[k]),
        is_walk(index_model(ids, lists), Seq::new(q.len(), |k: int| ids.index_of(q[k]) as usize)),
{
    let im = index_model(ids, lists);
    let m = model(ids, lists);
    let p = Seq::new(q.len(), |k: int| ids.index_of(q[k]) as usize);
    crate::graph::lemma_model_is_simple(ids, lists);
    assert forall|k: int| 0 <= k < q.len() implies ids.contains(q[k]) by {
        if k > 0 {
            assert(step_ok(m, q, k - 1));
            assert(m[q[k - 1]].contains(q[k]));
            assert(m.contains_key(q[k]));
        }
    }
    assert forall|k: int| 0 <= k < q.len() implies 0 <= ids.index_of(q[k]) < ids.len()
        && ids[ids.index_of(q[k])] == q[k] by {
        assert(ids.contains(q[k]));
    }
    assert(im.contains_key(p[0]));
    assert forall|i: int| 0 <= i < p.len() - 1 implies #[trigger] step_ok(im, p, i) by {
        assert(step_ok(m, q, i));
        let a = ids.index_of(q[i]);
        let b = ids.index_of(q[i + 1]);
        assert(ids[a] == q[i] && ids[b] == q[i + 1]);
        lemma_row(ids, lists, a);
        assert(lists[a].to_set().contains(q[i + 1]));
        assert(lists[a].contains(ids[b]));
        assert(p[i] == a as usize && p[i + 1] == b as usize);
    }
}

/// Reaching one position from another and the distance between them are
/// those of the nodes at these positions.
proof fn lemma_positions_match_ids(ids: Seq<usize>, lists: Seq<Seq<usize>>, i: usize, j: usize)
    requires
        well_formed(ids, lists),
        ids.len() <= usize::MAX,
        i < ids.len(),
        j < ids.len(),
    ensures
        reachable(index_model(ids, lists), i, j) <==> reachable(
            model(ids, lists),
            ids[i as int],
            ids[j as int],
        ),
        forall|d: nat|
            is_distance(index_model(ids, lists), i, j, d) ==> #[trigger] is_distance(
                model(ids, lists),
                ids[i as int],
                ids[j as int],
                d,
            ),
{
    let im = index_model(ids, lists);
    let m = model(ids, lists);
    let s = ids[i as int];
    let t = ids[j as int];
    lemma_position(ids, i as int);
    lemma_position(ids, j as int);
    assert forall|p: Seq<usize>| #[trigger] walk_between(im, p, i, j) implies walk_between(
        m,
        Seq::new(p.len(), |k: int| ids[p[k] as int]),
        s,
        t,
    ) by {
        lemma_walk_to_ids(ids, lists, p);
    }
    assert forall|q: Seq<usize>| #[trigger] walk_between(m, q, s, t) implies walk_between(
        im,
        Seq::new(q.len(), |k: int| ids.index_of(q[k]) as usize),
        i,
        j,
    ) by {
        lemma_walk_to_positions(ids, lists, q);
    }
    if reachable(im, i, j) {
        let p = choose|p: Seq<usize>| walk_between(im, p, i, j);
        assert(walk_between(m, Seq::new(p.len(), |k: int| ids[p[k] as int]), s, t));
    }
    if reachable(m, s, t) {
        let q = choose|q: Seq<usize>| walk_between(m, q, s, t);
        assert(walk_between(im, Seq::new(q.len(), |k: int| ids.index_of(q[k]) as usize), i, j));
    }
    assert forall|d: nat| is_distance(im, i, j, d) implies #[trigger] is_distance(m, s, t, d) by {
        let p = choose|p: Seq<usize>| #[trigger] walk_between(im, p, i, j) && p.len() == d + 1;
        let q = Seq::new(p.len(), |k: int| ids[p[k] as int]);
        assert(walk_between(m, q, s, t) && q.len() == d + 1);
        assert forall|w: Seq<usize>| #[trigger] walk_between(m, w, s, t) implies w.len() >= d
            + 1 by {
            let v = Seq::new(w.len(), |k: int| ids.index_of(w[k]) as usize);
            assert(walk_between(im, v, i, j));
        }
    }
}

/// There is one distance at most, and `distance` is it.
pub proof fn lemma_distance_unique(m: Map<usize, Set<usize>>, s: usize, t: usize, d: nat)
    requires
        is_distance(m, s, t, d),
    ensures
        reachable(m, s, t),
        distance(m, s, t) == d,
{
    let e = distance(m, s, t);
    assert(is_distance(m, s, t, e));
    let p = choose|p: Seq<usize>| #[trigger] walk_between(m, p, s, t) && p.len() == d + 1;
    let q = choose|q: Seq<usize>| #[trigger] walk_between(m, q, s, t) && q.len() == e + 1;
    assert(walk_between(m, p, s, t));
    assert(walk_between(m, q, s, t));
}

/// Sums over two lists of sources add up to the sums over the two lists in
/// a row: partial results may be taken over any split of the sources and
/// added in any order.
pub proof fn lemma_sums_add_up(
    m: Map<usize, Set<usize>>,
    first: Seq<usize>,
    second: Seq<usize>,
    targets: Seq<usize>,
)
    ensures
        total_distance(m, first + second, targets) == total_distance(m, first, targets)
            + total_distance(m, second, targets),
        total_pairs(m, first + second, targets) == total_pairs(m, first, targets) + total_pairs(
            m,
            second,
            targets,
        ),
    decreases second.len(),
{
    if second.len() == 0 {
        assert(first + second =~= first);
    } else {
        lemma_sums_add_up(m, first, second.drop_last(), targets);
        assert((first + second).drop_last() =~= first + second.drop_last());
        assert((first + second).last() == second.last());
    }
}

/// From an id that is no node nothing is reached.
proof fn lemma_row_of_stranger(m: Map<usize, Set<usize>>, s: usize, targets: Seq<usize>)
    requires
        !m.contains_key(s),
    ensures
        row_distance(m, s, targets) == 0,
        row_pairs(m, s, targets) == 0,
    decreases targets.len(),
{
    if targets.len() > 0 {
        lemma_row_of_stranger(m, s, targets.drop_last());
        let t = targets.last();
        if reachable(m, s, t) {
            let p = choose|p: Seq<usize>| walk_between(m, p, s, t);
            assert(m.contains_key(p[0]));
        }
    }
}

/// Every link joins two positions of which the second is listed under the
/// first.
spec fn links_sound(ids: Seq<usize>, lists: Seq<Seq<usize>>, links: Seq<(usize, usize)>) -> bool {
    forall|a: usize, b: usize| #[trigger]
        links.contains((a, b)) ==> a < ids.len() && b < ids.len() && lists[a as int].contains(
            ids[b as int],
        )
}

/// Every neighbour above its node that stands before place `k` of row `i`
/// is linked to its node.
spec fn links_cover(
    ids: Seq<usize>,
    lists: Seq<Seq<usize>>,
    links: Seq<(usize, usize)>,
    i: int,
    k: int,
) -> bool {
    forall|a: int, pos: int|
        0 <= a < ids.len() && 0 <= pos < lists[a].len() && (a < i || (a == i && pos < k))
            && #[trigger] lists[a][pos] > ids[a] ==> links.contains(
            (a as usize, ids.index_of(lists[a][pos]) as usize),
        )
}

/// Links that are sound and cover all rows make the graph on positions.
proof fn lemma_links_complete(ids: Seq<usize>, lists: Seq<Seq<usize>>, links: Seq<(usize, usize)>)
    requires
        well_formed(ids, lists),
        ids.len() <= usize::MAX,
        links_sound(ids, lists, links),
        links_cover(ids, lists, links, ids.len() as int, 0),
    ensures
        mesh_model(ids.len(), links) == index_model(ids, lists),
{
    let mm = mesh_model(ids.len(), links);
    let im = index_model(ids, lists);
    assert forall|a: usize| a < ids.len() implies #[trigger] mm[a] =~= im[a] by {
        assert forall|b: usize| mm[a].contains(b) <==> im[a].contains(b) by {
            if b < ids.len() {
                lemma_position(ids, a as int);
                lemma_position(ids, b as int);
                if links.contains((b, a)) {
                    assert(lists[b as int].contains(ids[a as int]));
                    assert(lists[a as int].contains(ids[b as int]));
                }
                if lists[a as int].contains(ids[b as int]) {
                    let pos = choose|pos: int|
                        0 <= pos < lists[a as int].len() && lists[a as int][pos] == ids[b as int];
                    assert(lists[a as int][pos] != ids[a as int]);
                    if ids[b as int] > ids[a as int] {
                        assert(lists[a as int][pos] > ids[a as int]);
                        assert(links.contains((a, b)));
                    } else {
                        assert(lists[b as int].contains(ids[a as int]));
                        let back = choose|back: int|
                            0 <= back < lists[b as int].len() && lists[b as int][back]
                                == ids[a as int];
                        assert(lists[b as int][back] > ids[b as int]);
                        assert(links.contains((b, a)));
                    }
                }
            }
        }
    }
    assert(mm =~= im);
}

/// The petgraph graph whose node `i` stands for the `i`-th node of `graph`.
fn build_mesh(graph: &SocialGraph) -> (g: petgraph::Graph<(), (), petgraph::Undirected, usize>)
    requires
        graph.wf(),
    ensures
        mesh_order(g) == graph.node_ids().len(),
        mesh_model(mesh_order(g), mesh_links(g)) == index_model(
            graph.node_ids(),
            graph.neighbor_lists(),
        ),
{
    let ghost ids = graph.node_ids();
    let ghost lists = graph.neighbor_lists();
    let n = graph.node_count();
    let mut g = mesh_new();
    let mut i: usize = 0;
    while i < n
        invariant
            i <= n,
            mesh_order(g) == i,
            mesh_links(g) == Seq::<(usize, usize)>::empty(),
        decreases n - i,
    {
        let _ = mesh_add_node(&mut g);
        i += 1;
    }
    let mut i: usize = 0;
    while i < n
        invariant
            i <= n,
            n == ids.len(),
            graph.wf(),
            ids == graph.node_ids(),
            lists == graph.neighbor_lists(),
            mesh_order(g) == n,
            links_sound(ids, lists, mesh_links(g)),
            links_cover(ids, lists, mesh_links(g), i as int, 0),
        decreases n - i,
    {
        let row = graph.neighbors_at(i);
        let id = graph.node_at(i);
        let mut k: usize = 0;
        while k < row.len()
            invariant
                i < n,
                k <= row.len(),
                n == ids.len(),
                graph.wf(),
                ids == graph.node_ids(),
                lists == graph.neighbor_lists(),
                row@ == lists[i as int],
                id == ids[i as int],
                mesh_order(g) == n,
                links_sound(ids, lists, mesh_links(g)),
                links_cover(ids, lists, mesh_links(g), i as int, k as int),
            decreases row.len() - k,
        {
            let b = row[k];
            let ghost before = mesh_links(g);
            assert(ids.contains(lists[i as int][k as int]));
            if b > id {
                let j = graph.index_of(b).unwrap();
                mesh_add_edge(&mut g, i, j);
                proof {
                    let after = mesh_links(g);
                    lemma_position(ids, j as int);
                    assert(lists[i as int].contains(ids[j as int]));
                    assert forall|x: usize, y: usize| #[trigger]
                        after.contains((x, y)) implies x < ids.len() && y < ids.len()
                        && lists[x as int].contains(ids[y as int]) by {
                        crate::graph::lemma_push_contains(before, (i, j), (x, y));
                    }
                    assert forall|a: int, pos: int|
                        0 <= a < ids.len() && 0 <= pos < lists[a].len() && (a < i || (a == i
                            && pos < k + 1)) && #[trigger] lists[a][pos]
                            > ids[a] implies after.contains(
                        (a as usize, ids.index_of(lists[a][pos]) as usize),
                    ) by {
                        crate::graph::lemma_push_contains(
                            before,
                            (i, j),
                            (a as usize, ids.index_of(lists[a][pos]) as usize),
                        );
                    }
                }
            }
            k += 1;
        }
        i += 1;
    }
    proof {
        lemma_links_complete(ids, lists, mesh_links(g));
    }
    g
}

/// The distances from the node at position `si` to the other nodes that it
/// reaches, summed, and the number of those nodes.
fn row_sums(
    graph: &SocialGraph,
    mesh: &petgraph::Graph<(), (), petgraph::Undirected, usize>,
    si: usize,
) -> (r: (u128, u128))
    requires
        graph.wf(),
        graph.node_ids().len() <= u32::MAX,
        si < graph.node_ids().len(),
        mesh_order(*mesh) == graph.node_ids().len(),
        mesh_model(mesh_order(*mesh), mesh_links(*mesh)) == index_model(
            graph.node_ids(),
            graph.neighbor_lists(),
        ),
    ensures
        r.0 == row_distance(graph@, graph.node_ids()[si as int], graph.node_ids()),
        r.1 == row_pairs(graph@, graph.node_ids()[si as int], graph.node_ids()),
        r.0 <= 0xffff_fffe_ffff_ffff_0000_0001,
        r.1 <= 0xffff_ffff,
{
    broadcast use vstd::std_specs::hash::group_hash_axioms;

    let ghost ids = graph.node_ids();
    let ghost lists = graph.neighbor_lists();
    let ghost m = graph@;
    let ghost im = index_model(ids, lists);
    let ghost s = ids[si as int];
    let n = graph.node_count();
    let found = mesh_distances(mesh, si);
    let mut sum: u128 = 0;
    let mut count: u128 = 0;
    let mut t: usize = 0;
    assert(ids.take(0) =~= Seq::<usize>::empty());
    while t < n
        invariant
            t <= n,
            n == ids.len(),
            n <= u32::MAX,
            si < n,
            graph.wf(),
            ids == graph.node_ids(),
            lists == graph.neighbor_lists(),
            m == graph@,
            im == index_model(ids, lists),
            s == ids[si as int],
            forall|x: usize| #[trigger] found@.contains_key(x) <==> reachable(im, si, x),
            forall|x: usize| #[trigger]
                found@.contains_key(x) ==> is_distance(im, si, x, found@[x] as nat),
            sum == row_distance(m, s, ids.take(t as int)),
            count == row_pairs(m, s, ids.take(t as int)),
            sum <= t * 0xffff_ffff_ffff_ffff,
            count <= t,
        decreases n - t,
    {
        let ghost target = ids[t as int];
        proof {
            assert(ids.take(t + 1).drop_last() =~= ids.take(t as int));
            assert(ids.take(t + 1).last() == target);
            lemma_positions_match_ids(ids, lists, si, t);
            if t != si {
                if t < si {
                    assert(ids[t as int] < ids[si as int]);
                } else {
                    assert(ids[si as int] < ids[t as int]);
                }
            }
        }
        match found.get(&t) {
            Some(d) => {
                proof {
                    assert(found@.contains_key(t) && found@[t] == *d);
                    assert(is_distance(im, si, t, *d as nat));
                    assert(is_distance(m, s, target, *d as nat));
                    lemma_distance_unique(m, s, target, *d as nat);
                }
                if t != si {
                    sum = sum + (*d as u128);
                    count = count + 1;
                }
            },
            None => {
                assert(!found@.contains_key(t));
                assert(!reachable(m, s, target));
            },
        }
        t += 1;
    }
    assert(ids.take(t as int) =~= ids);
    (sum, count)
}

/// The sum of the shortest-path lengths from each of the `sources` to every
/// other node that it reaches, and the number of these ordered pairs. A
/// source that is listed twice counts twice; one that is no node counts for
/// nothing. The graph and the list may hold up to 2^32 - 1 nodes each, so
/// that the sums fit 128 bits.
pub fn path_sums(graph: &SocialGraph, sources: &Vec<usize>) -> (r: (u128, u128))
    requires
        graph.wf(),
        graph.node_ids().len() <= u32::MAX,
        sources.len() <= u32::MAX,
    ensures
        r.0 == total_distance(graph@, sources@, graph.node_ids()),
        r.1 == total_pairs(graph@, sources@, graph.node_ids()),
{
    let ghost ids = graph.node_ids();
    let ghost m = graph@;
    let mesh = build_mesh(graph);
    let mut sum: u128 = 0;
    let mut count: u128 = 0;
    let mut x: usize = 0;
    assert(sources@.take(0) =~= Seq::<usize>::empty());
    while x < sources.len()
        invariant
            x <= sources.len(),
            sources.len() <= u32::MAX,
            graph.wf(),
            ids == graph.node_ids(),
            ids.len() <= u32::MAX,
            m == graph@,
            mesh_order(mesh) == ids.len(),
            mesh_model(mesh_order(mesh), mesh_links(mesh)) == index_model(
                ids,
                graph.neighbor_lists(),
            ),
            sum == total_distance(m, sources@.take(x as int), ids),
            count == total_pairs(m, sources@.take(x as int), ids),
            sum <= x * 0xffff_fffe_ffff_ffff_0000_0001,
            count <= x * 0xffff_ffff,
        decreases sources.len() - x,
    {
        let s = sources[x];
        proof {
            assert(sources@.take(x + 1).drop_last() =~= sources@.take(x as int));
            assert(sources@.take(x + 1).last() == s);
        }
        match graph.index_of(s) {
            Some(si) => {
                let row = row_sums(graph, &mesh, si);
                sum = sum + row.0;
                count = count + row.1;
            },
            None => {
                proof {
                    lemma_row_of_stranger(m, s, ids);
                }
            },
        }
        x += 1;
    }
    assert(sources@.take(x as int) =~= sources@);
    (sum, count)
}

/// The nodes from which paths are measured: all nodes in ascending order,
/// or the sample that `sampling` asks for.
pub open spec fn path_sources(ids: Seq<usize>, sampling: Option<Sampling>) -> Seq<usize> {
    match sampling {
        None => ids,
        Some(how) => sample_of(ids, how.seed, how.size as nat),
    }
}

/// The average shortest-path length over the ordered pairs `(s, t)` of
/// distinct nodes with `t` reachable from `s`, every edge counting 1: the sum
/// of the distances over the number of pairs, and `0 / 1` where there is no
/// such pair. With `sampling` the sources `s` are the sampled nodes only, and
/// `sampled` is set. The graph may have up to 2^32 - 1 nodes, so that the
/// sums fit 128 bits.
pub fn average_shortest_path_length(graph: &SocialGraph, sampling: Option<Sampling>) -> (r:
    PathAverage)
    requires
        graph.wf(),
        graph.node_ids().len() <= u32::MAX,
    ensures
        r.sampled == sampling.is_some(),
        r.average.den > 0,
        (r.average.num as nat, r.average.den as nat) == fraction_or_zero(
            total_distance(
                graph@,
                path_sources(graph.node_ids(), sampling),
                graph.node_ids(),
            ),
            total_pairs(graph@, path_sources(graph.node_ids(), sampling), graph.node_ids()),
        ),
{
    let sources = match sampling {
        None => graph.nodes(),
        Some(how) => sample_nodes(graph, how.seed, how.size),
    };
    let sums = path_sums(graph, &sources);
    let average = if sums.1 == 0 {
        Fraction { num: 0, den: 1 }
    } else {
        Fraction { num: sums.0, den: sums.1 }
    };
    PathAverage { average, sampled: sampling.is_some() }
}

} // verus!
