//! The adjacency-set graph and its construction from an edge list.
//!
//! A graph is modelled as a map from each node id to the set of its
//! neighbours. It is stored as the ascending list of its node ids and, for
//! each of them, the ascending list of its neighbours, so that two graphs
//! with the same nodes and edges are stored alike.

use vstd::prelude::*;

verus! {

/// Every element is smaller than each one after it.
pub open spec fn strictly_increasing(s: Seq<usize>) -> bool {
    forall|i: int, j: int| 0 <= i < j < s.len() ==> s[i] < s[j]
}

/// What the stored lists must satisfy: one neighbour list per node, all
/// lists ascending without repeats, every neighbour a node other than the
/// node itself, and `a` listed under `b` whenever `b` is listed under `a`.
pub open spec fn well_formed(ids: Seq<usize>, lists: Seq<Seq<usize>>) -> bool {
    &&& lists.len() == ids.len()
    &&& strictly_increasing(ids)
    &&& forall|i: int| 0 <= i < ids.len() ==> strictly_increasing(#[trigger] lists[i])
    &&& forall|i: int, k: int|
        0 <= i < ids.len() && 0 <= k < lists[i].len() ==> ids.contains(#[trigger] lists[i][k])
            && lists[i][k] != ids[i]
    &&& forall|i: int, j: int|
        0 <= i < ids.len() && 0 <= j < ids.len() && #[trigger] lists[i].contains(ids[j])
            ==> lists[j].contains(ids[i])
}

/// The map from node id to neighbour set that the stored lists stand for.
pub open spec fn model(ids: Seq<usize>, lists: Seq<Seq<usize>>) -> Map<usize, Set<usize>> {
    Map::new(|u: usize| ids.contains(u), |u: usize| lists[ids.index_of(u)].to_set())
}

/// A finite map of finite neighbour sets without self-loops in which
/// neighbourhood is mutual and every neighbour is itself a node.
pub open spec fn is_simple_graph(m: Map<usize, Set<usize>>) -> bool {
    &&& m.dom().finite()
    &&& forall|u: usize| m.contains_key(u) ==> (#[trigger] m[u]).finite()
    &&& forall|u: usize, v: usize|
        m.contains_key(u) && #[trigger] m[u].contains(v) ==> u != v && m.contains_key(v)
            && m[v].contains(u)
}

/// `m` with `u` as a node; a new node has no neighbours.
pub open spec fn with_node(m: Map<usize, Set<usize>>, u: usize) -> Map<usize, Set<usize>> {
    if m.contains_key(u) {
        m
    } else {
        m.insert(u, Set::empty())
    }
}

/// `m` with both `u` and `v` as nodes and each in the other's neighbour set.
pub open spec fn with_edge(m: Map<usize, Set<usize>>, u: usize, v: usize) -> Map<
    usize,
    Set<usize>,
> {
    let m1 = with_node(with_node(m, u), v);
    m1.insert(u, m1[u].insert(v)).insert(v, m1[v].insert(u))
}

/// The pair `a`, `b` of distinct ids occurs in `edges`, in either orientation.
pub open spec fn joined(edges: Seq<(usize, usize)>, a: usize, b: usize) -> bool {
    a != b && (edges.contains((a, b)) || edges.contains((b, a)))
}

/// The graph of an edge list with extra nodes: its nodes are the listed
/// `nodes` and the endpoints of the pairs of distinct ids; two ids are
/// neighbours when a pair joins them. A pair `(a, a)` contributes nothing.
pub open spec fn graph_with_nodes(nodes: Seq<usize>, edges: Seq<(usize, usize)>) -> Map<
    usize,
    Set<usize>,
> {
    Map::new(
        |a: usize| nodes.contains(a) || exists|b: usize| joined(edges, a, b),
        |a: usize| Set::new(|b: usize| joined(edges, a, b)),
    )
}

/// The graph of an edge list: `graph_with_nodes` without extra nodes.
pub open spec fn graph_of(edges: Seq<(usize, usize)>) -> Map<usize, Set<usize>> {
    graph_with_nodes(Seq::empty(), edges)
}

/// An undirected graph without self-loops or parallel edges. Graphs with
/// the same nodes and edges are stored alike, so that they compare equal.
#[derive(Clone, Debug, PartialEq, Eq)]
pub struct SocialGraph {
    nodes: Vec<usize>,
    adj: Vec<Vec<usize>>,
}

impl View for SocialGraph {
    type V = Map<usize, Set<usize>>;

    open spec fn view(&self) -> Map<usize, Set<usize>> {
        model(self.node_ids(), self.neighbor_lists())
    }
}

/// A list with `x` appended holds what it held before, and `x`.
pub proof fn lemma_push_contains<T>(s: Seq<T>, x: T, y: T)
    ensures
        s.push(x).contains(y) <==> (s.contains(y) || y == x),
{
    if s.contains(y) {
        let k = choose|k: int| 0 <= k < s.len() && s[k] == y;
        assert(s.push(x)[k] == y);
    }
    if y == x {
        assert(s.push(x)[s.len() as int] == y);
    }
    if s.push(x).contains(y) {
        let k = choose|k: int| 0 <= k < s.push(x).len() && s.push(x)[k] == y;
        if k < s.len() {
            assert(s[k] == y);
        }
    }
}

/// In an ascending list each element stands at one position only.
pub proof fn lemma_position(ids: Seq<usize>, i: int)
    requires
        strictly_increasing(ids),
        0 <= i < ids.len(),
    ensures
        ids.contains(ids[i]),
        ids.index_of(ids[i]) == i,
{
    let j = ids.index_of(ids[i]);
    assert(0 <= j < ids.len() && ids[j] == ids[i]);
    if j < i {
        assert(ids[j] < ids[i]);
    } else if i < j {
        assert(ids[i] < ids[j]);
    }
}

/// The neighbour set of the node at position `i` is what its list holds.
pub proof fn lemma_row(ids: Seq<usize>, lists: Seq<Seq<usize>>, i: int)
    requires
        well_formed(ids, lists),
        0 <= i < ids.len(),
    ensures
        model(ids, lists).contains_key(ids[i]),
        model(ids, lists)[ids[i]] == lists[i].to_set(),
        ids.index_of(ids[i]) == i,
{
    lemma_position(ids, i);
}

/// Well-formed lists stand for a simple graph.
pub proof fn lemma_model_is_simple(ids: Seq<usize>, lists: Seq<Seq<usize>>)
    requires
        well_formed(ids, lists),
    ensures
        is_simple_graph(model(ids, lists)),
        model(ids, lists).dom() == ids.to_set(),
{
    let m = model(ids, lists);
    assert(m.dom() =~= ids.to_set());
    vstd::seq_lib::seq_to_set_is_finite(ids);
    assert forall|u: usize| m.contains_key(u) implies (#[trigger] m[u]).finite() by {
        vstd::seq_lib::seq_to_set_is_finite(lists[ids.index_of(u)]);
    }
    assert forall|u: usize, v: usize| m.contains_key(u) && #[trigger] m[u].contains(v) implies u
        != v && m.contains_key(v) && m[v].contains(u) by {
        let i = ids.index_of(u);
        assert(0 <= i < ids.len() && ids[i] == u);
        let k = choose|k: int| 0 <= k < lists[i].len() && lists[i][k] == v;
        assert(ids.contains(lists[i][k]) && lists[i][k] != ids[i]);
        let j = ids.index_of(v);
        assert(0 <= j < ids.len() && ids[j] == v);
        assert(lists[i].contains(ids[j]));
        assert(lists[j].contains(ids[i]));
    }
}

/// A node has fewer neighbours than there are nodes.
pub proof fn lemma_degree_bound(ids: Seq<usize>, lists: Seq<Seq<usize>>, i: int)
    requires
        well_formed(ids, lists),
        0 <= i < ids.len(),
    ensures
        lists[i].len() < ids.len(),
        lists[i].len() == model(ids, lists)[ids[i]].len(),
{
    let row = lists[i].to_set();
    let others = ids.to_set().remove(ids[i]);
    vstd::seq_lib::seq_to_set_is_finite(ids);
    assert(ids.no_duplicates());
    ids.unique_seq_to_set();
    assert(lists[i].no_duplicates());
    lists[i].unique_seq_to_set();
    assert(ids.to_set().contains(ids[i]));
    assert(row.subset_of(others)) by {
        assert forall|x: usize| row.contains(x) implies others.contains(x) by {
            let k = choose|k: int| 0 <= k < lists[i].len() && lists[i][k] == x;
            assert(ids.contains(lists[i][k]) && lists[i][k] != ids[i]);
        }
    }
    vstd::set_lib::lemma_len_subset(row, others);
    lemma_row(ids, lists, i);
}

/// There is one ascending list of given elements.
pub proof fn lemma_ascending_unique(s: Seq<usize>, t: Seq<usize>)
    requires
        strictly_increasing(s),
        strictly_increasing(t),
        forall|x: usize| s.contains(x) <==> t.contains(x),
    ensures
        s == t,
    decreases s.len(),
{
    if s.len() == 0 {
        if t.len() > 0 {
            assert(t.contains(t[0]));
        }
        assert(s =~= t);
    } else {
        let a = s.last();
        assert(s.contains(s[s.len() - 1]));
        assert(t.contains(a));
        let b = t.last();
        assert(t.contains(t[t.len() - 1]));
        assert(s.contains(b));
        let ia = choose|i: int| 0 <= i < t.len() && t[i] == a;
        let ib = choose|i: int| 0 <= i < s.len() && s[i] == b;
        if ia < t.len() - 1 {
            assert(t[ia] < t[t.len() - 1]);
        }
        if ib < s.len() - 1 {
            assert(s[ib] < s[s.len() - 1]);
        }
        assert(a == b);
        let s0 = s.drop_last();
        let t0 = t.drop_last();
        assert forall|x: usize| s0.contains(x) <==> t0.contains(x) by {
            if s0.contains(x) {
                let i = choose|i: int| 0 <= i < s0.len() && s0[i] == x;
                assert(s[i] < s[s.len() - 1]);
                assert(s.contains(s[i]));
                let j = choose|j: int| 0 <= j < t.len() && t[j] == x;
                assert(t0[j] == x);
            }
            if t0.contains(x) {
                let i = choose|i: int| 0 <= i < t0.len() && t0[i] == x;
                assert(t[i] < t[t.len() - 1]);
                assert(t.contains(t[i]));
                let j = choose|j: int| 0 <= j < s.len() && s[j] == x;
                assert(s0[j] == x);
            }
        }
        lemma_ascending_unique(s0, t0);
        assert(s =~= s0.push(a));
        assert(t =~= t0.push(b));
    }
}

/// Well-formed lists are determined by the graph that they stand for.
pub proof fn lemma_lists_are_determined(
    ids: Seq<usize>,
    lists: Seq<Seq<usize>>,
    ids2: Seq<usize>,
    lists2: Seq<Seq<usize>>,
)
    requires
        well_formed(ids, lists),
        well_formed(ids2, lists2),
        model(ids, lists) == model(ids2, lists2),
    ensures
        ids == ids2,
        lists == lists2,
{
    let m = model(ids, lists);
    assert forall|x: usize| ids.contains(x) <==> ids2.contains(x) by {
        assert(ids.contains(x) == m.contains_key(x));
        assert(ids2.contains(x) == model(ids2, lists2).contains_key(x));
    }
    lemma_ascending_unique(ids, ids2);
    assert forall|i: int| 0 <= i < ids.len() implies lists[i] == lists2[i] by {
        lemma_row(ids, lists, i);
        lemma_row(ids2, lists2, i);
        assert(strictly_increasing(lists[i]));
        assert(strictly_increasing(lists2[i]));
        assert forall|x: usize| lists[i].contains(x) <==> lists2[i].contains(x) by {
            assert(lists[i].contains(x) == lists[i].to_set().contains(x));
            assert(lists2[i].contains(x) == lists2[i].to_set().contains(x));
        }
        lemma_ascending_unique(lists[i], lists2[i]);
    }
    assert(lists =~= lists2);
}

/// Adding a node to the stored lists adds it to the model.
proof fn lemma_insert_node(ids: Seq<usize>, lists: Seq<Seq<usize>>, pos: int, id: usize)
    requires
        well_formed(ids, lists),
        0 <= pos <= ids.len(),
        forall|i: int| 0 <= i < pos ==> ids[i] < id,
        forall|i: int| pos <= i < ids.len() ==> ids[i] > id,
    ensures
        well_formed(ids.insert(pos, id), lists.insert(pos, Seq::empty())),
        model(ids.insert(pos, id), lists.insert(pos, Seq::empty())) == with_node(
            model(ids, lists),
            id,
        ),
{
    let ids2 = ids.insert(pos, id);
    let lists2 = lists.insert(pos, Seq::<usize>::empty());
    let back = |i: int| if i < pos { i } else { i - 1 };
    assert forall|u: usize| ids2.contains(u) <==> (ids.contains(u) || u == id) by {
        if ids2.contains(u) {
            let k = choose|k: int| 0 <= k < ids2.len() && ids2[k] == u;
            if k != pos {
                assert(ids[back(k)] == u);
            }
        }
        if ids.contains(u) {
            let k = choose|k: int| 0 <= k < ids.len() && ids[k] == u;
            if k < pos {
                assert(ids2[k] == u);
            } else {
                assert(ids2[k + 1] == u);
            }
        }
        if u == id {
            assert(ids2[pos] == u);
        }
    }
    assert(strictly_increasing(ids2)) by {
        assert forall|i: int, j: int| 0 <= i < j < ids2.len() implies ids2[i] < ids2[j] by {
            if i != pos && j != pos {
                assert(ids[back(i)] < ids[back(j)]);
            }
        }
    }
    assert forall|i: int| 0 <= i < ids2.len() implies strictly_increasing(
        #[trigger] lists2[i],
    ) by {
        if i != pos {
            assert(lists2[i] == lists[back(i)]);
        }
    }
    assert forall|i: int, k: int|
        0 <= i < ids2.len() && 0 <= k < lists2[i].len() implies ids2.contains(
        #[trigger] lists2[i][k],
    ) && lists2[i][k] != ids2[i] by {
        if i != pos {
            assert(lists2[i] == lists[back(i)]);
            assert(ids.contains(lists[back(i)][k]) && lists[back(i)][k] != ids[back(i)]);
        }
    }
    assert forall|i: int, j: int|
        0 <= i < ids2.len() && 0 <= j < ids2.len() && #[trigger] lists2[i].contains(
            ids2[j],
        ) implies lists2[j].contains(ids2[i]) by {
        if i != pos {
            assert(lists2[i] == lists[back(i)]);
            let k = choose|k: int| 0 <= k < lists2[i].len() && lists2[i][k] == ids2[j];
            assert(ids.contains(lists[back(i)][k]) && lists[back(i)][k] != ids[back(i)]);
            if j == pos {
                let w = choose|w: int| 0 <= w < ids.len() && ids[w] == id;
                assert(false);
            } else {
                assert(lists2[j] == lists[back(j)]);
                assert(lists[back(i)].contains(ids[back(j)]));
                assert(lists[back(j)].contains(ids[back(i)]));
            }
        }
    }
    let m = model(ids, lists);
    let m2 = model(ids2, lists2);
    assert(!ids.contains(id)) by {
        if ids.contains(id) {
            let w = choose|w: int| 0 <= w < ids.len() && ids[w] == id;
            assert(false);
        }
    }
    assert forall|u: usize| m2.contains_key(u) implies #[trigger] m2[u] == with_node(m, id)[u] by {
        let k = ids2.index_of(u);
        assert(0 <= k < ids2.len() && ids2[k] == u);
        lemma_position(ids2, k);
        if k == pos {
            assert(lists2[k] =~= Seq::<usize>::empty());
            assert(lists2[k].to_set() =~= Set::<usize>::empty());
        } else {
            lemma_position(ids, back(k));
            assert(lists2[k] == lists[back(k)]);
        }
    }
    assert(m2 =~= with_node(m, id));
}

/// Listing `v` under `u` and `u` under `v` adds the edge to the model.
proof fn lemma_insert_edge(
    ids: Seq<usize>,
    lists: Seq<Seq<usize>>,
    iu: int,
    iv: int,
    ru: Seq<usize>,
    rv: Seq<usize>,
)
    requires
        well_formed(ids, lists),
        0 <= iu < ids.len(),
        0 <= iv < ids.len(),
        iu != iv,
        strictly_increasing(ru),
        strictly_increasing(rv),
        forall|y: usize| ru.contains(y) <==> (lists[iu].contains(y) || y == ids[iv]),
        forall|y: usize| rv.contains(y) <==> (lists[iv].contains(y) || y == ids[iu]),
    ensures
        well_formed(ids, lists.update(iu, ru).update(iv, rv)),
        model(ids, lists.update(iu, ru).update(iv, rv)) == with_edge(
            model(ids, lists),
            ids[iu],
            ids[iv],
        ),
{
    let lists2 = lists.update(iu, ru).update(iv, rv);
    let u = ids[iu];
    let v = ids[iv];
    lemma_position(ids, iu);
    lemma_position(ids, iv);
    assert(u != v) by {
        if iu < iv {
            assert(ids[iu] < ids[iv]);
        } else {
            assert(ids[iv] < ids[iu]);
        }
    }
    assert forall|i: int| 0 <= i < ids.len() implies strictly_increasing(
        #[trigger] lists2[i],
    ) by {
        if i != iu && i != iv {
            assert(lists2[i] == lists[i]);
        }
    }
    assert forall|i: int, k: int|
        0 <= i < ids.len() && 0 <= k < lists2[i].len() implies ids.contains(
        #[trigger] lists2[i][k],
    ) && lists2[i][k] != ids[i] by {
        let y = lists2[i][k];
        assert(lists2[i].contains(y));
        if i == iu || i == iv {
            if lists[i].contains(y) {
                let w = choose|w: int| 0 <= w < lists[i].len() && lists[i][w] == y;
                assert(ids.contains(lists[i][w]) && lists[i][w] != ids[i]);
            }
        } else {
            assert(lists2[i] == lists[i]);
            assert(ids.contains(lists[i][k]) && lists[i][k] != ids[i]);
        }
    }
    assert forall|i: int, j: int|
        0 <= i < ids.len() && 0 <= j < ids.len() && #[trigger] lists2[i].contains(
            ids[j],
        ) implies lists2[j].contains(ids[i]) by {
        lemma_position(ids, i);
        lemma_position(ids, j);
        if lists[i].contains(ids[j]) {
            assert(lists[j].contains(ids[i]));
        }
    }
    let m = model(ids, lists);
    let m2 = model(ids, lists2);
    let e = with_edge(m, u, v);
    assert forall|a: usize| m2.contains_key(a) implies #[trigger] m2[a] =~= e[a] by {
        let k = ids.index_of(a);
        assert(0 <= k < ids.len() && ids[k] == a);
        lemma_position(ids, k);
        if k != iu && k != iv {
            assert(lists2[k] == lists[k]);
        }
    }
    assert(m2 =~= e);
}

/// Appending a node to the extra nodes adds it to the graph.
pub proof fn lemma_graph_push_node(nodes: Seq<usize>, edges: Seq<(usize, usize)>, id: usize)
    ensures
        graph_with_nodes(nodes.push(id), edges) == with_node(graph_with_nodes(nodes, edges), id),
{
    let g = graph_with_nodes(nodes, edges);
    let g2 = graph_with_nodes(nodes.push(id), edges);
    assert forall|a: usize| g2.contains_key(a) <==> with_node(g, id).contains_key(a) by {
        lemma_push_contains(nodes, id, a);
    }
    assert forall|a: usize| g2.contains_key(a) implies #[trigger] g2[a] =~= with_node(g, id)[a] by {
        lemma_push_contains(nodes, id, a);
        if !g.contains_key(a) {
            assert(forall|b: usize| !joined(edges, a, b));
        }
    }
    assert(g2 =~= with_node(g, id));
}

/// Appending a pair of distinct ids adds the edge to the graph; appending a
/// pair `(a, a)` changes nothing.
pub proof fn lemma_graph_push_edge(
    nodes: Seq<usize>,
    edges: Seq<(usize, usize)>,
    u: usize,
    v: usize,
)
    ensures
        u != v ==> graph_with_nodes(nodes, edges.push((u, v))) == with_edge(
            graph_with_nodes(nodes, edges),
            u,
            v,
        ),
        u == v ==> graph_with_nodes(nodes, edges.push((u, v))) == graph_with_nodes(nodes, edges),
{
    let g = graph_with_nodes(nodes, edges);
    let edges2 = edges.push((u, v));
    let g2 = graph_with_nodes(nodes, edges2);
    assert forall|a: usize, b: usize|
        joined(edges2, a, b) <==> (joined(edges, a, b) || (u != v && ((a == u && b == v) || (a == v
            && b == u)))) by {
        lemma_push_contains(edges, (u, v), (a, b));
        lemma_push_contains(edges, (u, v), (b, a));
    }
    if u == v {
        assert forall|a: usize| g2.contains_key(a) implies #[trigger] g2[a] =~= g[a] by {}
        assert(g2 =~= g);
    } else {
        let e = with_edge(g, u, v);
        assert(joined(edges2, u, v));
        assert(joined(edges2, v, u));
        assert forall|a: usize| g2.contains_key(a) <==> e.contains_key(a) by {
            if g2.contains_key(a) && !nodes.contains(a) {
                let b = choose|b: usize| joined(edges2, a, b);
                assert(joined(edges, a, b) || a == u || a == v);
            }
            if g.contains_key(a) && !nodes.contains(a) {
                let b = choose|b: usize| joined(edges, a, b);
                assert(joined(edges2, a, b));
            }
        }
        assert forall|a: usize| g2.contains_key(a) implies #[trigger] g2[a] =~= e[a] by {
            if !g.contains_key(a) {
                assert(forall|b: usize| !joined(edges, a, b));
            }
        }
        assert(g2 =~= e);
    }
}

/// The first position of the ascending list `v` whose element is not below `x`.
fn lower_bound(v: &Vec<usize>, x: usize) -> (pos: usize)
    requires
        strictly_increasing(v@),
    ensures
        pos <= v.len(),
        forall|i: int| 0 <= i < pos ==> v[i] < x,
        forall|i: int| pos <= i < v.len() ==> v[i] >= x,
{
    let mut lo: usize = 0;
    let mut hi: usize = v.len();
    while lo < hi
        invariant
            lo <= hi <= v.len(),
            strictly_increasing(v@),
            forall|i: int| 0 <= i < lo ==> v[i] < x,
            forall|i: int| hi <= i < v.len() ==> v[i] >= x,
        decreases hi - lo,
    {
        let mid: usize = lo + (hi - lo) / 2;
        if v[mid] < x {
            lo = mid + 1;
        } else {
            hi = mid;
        }
    }
    lo
}

/// Whether the ascending list `v` holds `x`.
pub fn sorted_contains(v: &Vec<usize>, x: usize) -> (found: bool)
    requires
        strictly_increasing(v@),
    ensures
        found == v@.contains(x),
{
    let pos = lower_bound(v, x);
    if pos < v.len() && v[pos] == x {
        assert(v@[pos as int] == x);
        true
    } else {
        assert(!v@.contains(x)) by {
            if v@.contains(x) {
                let k = choose|k: int| 0 <= k < v@.len() && v@[k] == x;
                if k > pos {
                    assert(v@[pos as int] < v@[k]);
                }
            }
        }
        false
    }
}

/// Puts `x` into the ascending list `v` unless it is there already.
fn insert_sorted(v: &mut Vec<usize>, x: usize)
    requires
        strictly_increasing(old(v)@),
    ensures
        strictly_increasing(final(v)@),
        forall|y: usize| final(v)@.contains(y) <==> (old(v)@.contains(y) || y == x),
{
    let pos = lower_bound(v, x);
    let ghost before = v@;
    if pos < v.len() && v[pos] == x {
        assert(before[pos as int] == x);
        assert(before.contains(x));
    } else {
        v.insert(pos, x);
        assert forall|y: usize| v@.contains(y) <==> (before.contains(y) || y == x) by {
            if v@.contains(y) {
                let k = choose|k: int| 0 <= k < v@.len() && v@[k] == y;
                if k < pos {
                    assert(before[k] == y);
                } else if k > pos {
                    assert(before[k - 1] == y);
                }
            }
            if before.contains(y) {
                let k = choose|k: int| 0 <= k < before.len() && before[k] == y;
                if k < pos {
                    assert(v@[k] == y);
                } else {
                    assert(v@[k + 1] == y);
                }
            }
            if y == x {
                assert(v@[pos as int] == y);
            }
        }
    }
    assert(forall|y: usize| v@.contains(y) <==> (old(v)@.contains(y) || y == x));
}

impl SocialGraph {
    /// The node ids in ascending order.
    pub closed spec fn node_ids(&self) -> Seq<usize> {
        self.nodes@
    }

    /// For each node, in the order of `node_ids`, its neighbours in ascending
    /// order.
    pub closed spec fn neighbor_lists(&self) -> Seq<Seq<usize>> {
        Seq::new(self.adj@.len(), |i: int| self.adj@[i]@)
    }

    /// The invariant of the type: every constructor establishes it.
    pub open spec fn wf(&self) -> bool {
        well_formed(self.node_ids(), self.neighbor_lists())
    }

    /// A well-formed graph is a simple graph whose nodes are `node_ids`.
    pub proof fn lemma_simple(&self)
        requires
            self.wf(),
        ensures
            is_simple_graph(self@),
            self@.dom() == self.node_ids().to_set(),
            self@.dom().len() == self.node_ids().len(),
    {
        lemma_model_is_simple(self.node_ids(), self.neighbor_lists());
        assert(self.node_ids().no_duplicates());
        self.node_ids().unique_seq_to_set();
    }

    /// Two graphs with the same nodes and edges are stored alike.
    pub proof fn lemma_stored_alike(&self, other: &SocialGraph)
        requires
            self.wf(),
            other.wf(),
            self@ == other@,
        ensures
            self.node_ids() == other.node_ids(),
            self.neighbor_lists() == other.neighbor_lists(),
    {
        lemma_lists_are_determined(
            self.node_ids(),
            self.neighbor_lists(),
            other.node_ids(),
            other.neighbor_lists(),
        );
    }

    /// The graph without nodes.
    pub fn new() -> (g: SocialGraph)
        ensures
            g.wf(),
            g@ == Map::<usize, Set<usize>>::empty(),
    {
        let g = SocialGraph { nodes: Vec::new(), adj: Vec::new() };
        assert(g@ =~= Map::<usize, Set<usize>>::empty());
        g
    }

    /// The number of nodes.
    pub fn node_count(&self) -> (n: usize)
        ensures
            n == self.node_ids().len(),
    {
        self.nodes.len()
    }

    /// The id of the node at position `i` of the ascending order.
    pub fn node_at(&self, i: usize) -> (id: usize)
        requires
            i < self.node_ids().len(),
        ensures
            id == self.node_ids()[i as int],
    {
        self.nodes[i]
    }

    /// The ascending neighbour list of the node at position `i`.
    pub fn neighbors_at(&self, i: usize) -> (row: &Vec<usize>)
        requires
            i < self.neighbor_lists().len(),
        ensures
            row@ == self.neighbor_lists()[i as int],
    {
        &self.adj[i]
    }

    /// The node ids in ascending order.
    pub fn nodes(&self) -> (ids: Vec<usize>)
        ensures
            ids@ == self.node_ids(),
    {
        let mut ids: Vec<usize> = Vec::new();
        let mut i: usize = 0;
        while i < self.nodes.len()
            invariant
                i <= self.nodes.len(),
                ids@ == self.nodes@.take(i as int),
            decreases self.nodes.len() - i,
        {
            ids.push(self.nodes[i]);
            assert(self.nodes@.take(i as int).push(self.nodes@[i as int]) =~= self.nodes@.take(
                i + 1,
            ));
            i += 1;
        }
        assert(self.nodes@.take(i as int) =~= self.nodes@);
        ids
    }

    /// The position of node `id` in the ascending order, if it is a node.
    pub fn index_of(&self, id: usize) -> (r: Option<usize>)
        requires
            self.wf(),
        ensures
            match r {
                Some(i) => i < self.node_ids().len() && self.node_ids()[i as int] == id,
                None => !self.node_ids().contains(id),
            },
            r.is_some() == self@.contains_key(id),
    {
        let pos = lower_bound(&self.nodes, id);
        if pos < self.nodes.len() && self.nodes[pos] == id {
            assert(self.nodes@[pos as int] == id);
            Some(pos)
        } else {
            assert(!self.nodes@.contains(id)) by {
                if self.nodes@.contains(id) {
                    let k = choose|k: int| 0 <= k < self.nodes@.len() && self.nodes@[k] == id;
                    if k > pos {
                        assert(self.nodes@[pos as int] < self.nodes@[k]);
                    }
                }
            }
            None
        }
    }

    /// Whether `id` is a node.
    pub fn contains_node(&self, id: usize) -> (found: bool)
        requires
            self.wf(),
        ensures
            found == self@.contains_key(id),
    {
        self.index_of(id).is_some()
    }

    /// The number of neighbours of `id`, if it is a node.
    pub fn degree(&self, id: usize) -> (r: Option<usize>)
        requires
            self.wf(),
        ensures
            match r {
                Some(d) => self@.contains_key(id) && d == self@[id].len(),
                None => !self@.contains_key(id),
            },
    {
        match self.index_of(id) {
            Some(i) => {
                proof {
                    lemma_degree_bound(self.node_ids(), self.neighbor_lists(), i as int);
                }
                Some(self.adj[i].len())
            },
            None => None,
        }
    }

    /// The neighbours of `id` in ascending order, if it is a node.
    pub fn neighbors(&self, id: usize) -> (r: Option<Vec<usize>>)
        requires
            self.wf(),
        ensures
            match r {
                Some(list) => self@.contains_key(id) && strictly_increasing(list@)
                    && list@.to_set() == self@[id],
                None => !self@.contains_key(id),
            },
    {
        match self.index_of(id) {
            Some(i) => {
                let row = &self.adj[i];
                let mut list: Vec<usize> = Vec::new();
                let mut k: usize = 0;
                while k < row.len()
                    invariant
                        k <= row.len(),
                        list@ == row@.take(k as int),
                    decreases row.len() - k,
                {
                    list.push(row[k]);
                    assert(row@.take(k as int).push(row@[k as int]) =~= row@.take(k + 1));
                    k += 1;
                }
                proof {
                    assert(row@.take(k as int) =~= row@);
                    lemma_row(self.node_ids(), self.neighbor_lists(), i as int);
                    assert(strictly_increasing(self.neighbor_lists()[i as int]));
                }
                Some(list)
            },
            None => None,
        }
    }

    /// Whether `u` and `v` are nodes joined by an edge.
    pub fn has_edge(&self, u: usize, v: usize) -> (found: bool)
        requires
            self.wf(),
        ensures
            found == (self@.contains_key(u) && self@[u].contains(v)),
    {
        match self.index_of(u) {
            Some(i) => {
                proof {
                    lemma_row(self.node_ids(), self.neighbor_lists(), i as int);
                    assert(strictly_increasing(self.neighbor_lists()[i as int]));
                }
                sorted_contains(&self.adj[i], v)
            },
            None => false,
        }
    }

    /// Makes `id` a node, without neighbours if it is new.
    fn insert_node(&mut self, id: usize)
        requires
            old(self).wf(),
        ensures
            final(self).wf(),
            final(self)@ == with_node(old(self)@, id),
    {
        let pos = lower_bound(&self.nodes, id);
        if pos < self.nodes.len() && self.nodes[pos] == id {
            assert(self.nodes@[pos as int] == id);
            return ;
        }
        proof {
            lemma_insert_node(self.node_ids(), self.neighbor_lists(), pos as int, id);
        }
        let ghost ids = self.node_ids();
        let ghost lists = self.neighbor_lists();
        self.nodes.insert(pos, id);
        self.adj.insert(pos, Vec::new());
        assert(self.node_ids() == ids.insert(pos as int, id));
        assert(self.neighbor_lists() =~= lists.insert(pos as int, Seq::empty()));
    }

    /// Makes `u` and `v` nodes and neighbours of each other.
    fn insert_edge(&mut self, u: usize, v: usize)
        requires
            old(self).wf(),
            u != v,
        ensures
            final(self).wf(),
            final(self)@ == with_edge(old(self)@, u, v),
    {
        self.insert_node(u);
        self.insert_node(v);
        let ghost ids = self.node_ids();
        let ghost lists = self.neighbor_lists();
        let ghost m1 = self@;
        assert(m1 == with_node(with_node(old(self)@, u), v));
        let iu = self.index_of(u).unwrap();
        let iv = self.index_of(v).unwrap();
        assert(strictly_increasing(lists[iu as int]));
        assert(strictly_increasing(lists[iv as int]));
        assert(lists[iu as int] == self.adj@[iu as int]@);
        assert(lists[iv as int] == self.adj@[iv as int]@);
        insert_sorted(&mut self.adj[iu], v);
        assert(lists[iv as int] == self.adj@[iv as int]@);
        insert_sorted(&mut self.adj[iv], u);
        proof {
            let ru = self.neighbor_lists()[iu as int];
            let rv = self.neighbor_lists()[iv as int];
            lemma_insert_edge(ids, lists, iu as int, iv as int, ru, rv);
            assert(self.neighbor_lists() =~= lists.update(iu as int, ru).update(iv as int, rv));
            assert(self.node_ids() == ids);
        }
    }
}

/// Builds the graph of an edge list. The pairs may come in any order and
/// orientation and may repeat; a pair `(a, a)` is dropped.
pub fn build_graph(edges: &Vec<(usize, usize)>) -> (g: SocialGraph)
    ensures
        g.wf(),
        g@ == graph_of(edges@),
{
    let nodes: Vec<usize> = Vec::new();
    build_graph_with_nodes(&nodes, edges)
}

/// Builds the graph of an edge list together with the listed nodes, which
/// need not occur in any pair and are then isolated.
pub fn build_graph_with_nodes(nodes: &Vec<usize>, edges: &Vec<(usize, usize)>) -> (g: SocialGraph)
    ensures
        g.wf(),
        g@ == graph_with_nodes(nodes@, edges@),
{
    let mut g = SocialGraph::new();
    let mut k: usize = 0;
    assert(g@ =~= graph_with_nodes(nodes@.take(0), Seq::empty())) by {
        assert forall|a: usize| !graph_with_nodes(
            nodes@.take(0),
            Seq::empty(),
        ).contains_key(a) by {
            assert(forall|b: usize| !joined(Seq::empty(), a, b));
        }
    }
    while k < nodes.len()
        invariant
            k <= nodes.len(),
            g.wf(),
            g@ == graph_with_nodes(nodes@.take(k as int), Seq::empty()),
        decreases nodes.len() - k,
    {
        proof {
            lemma_graph_push_node(nodes@.take(k as int), Seq::empty(), nodes@[k as int]);
            assert(nodes@.take(k as int).push(nodes@[k as int]) =~= nodes@.take(k + 1));
        }
        g.insert_node(nodes[k]);
        k += 1;
    }
    assert(nodes@.take(k as int) =~= nodes@);
    let mut i: usize = 0;
    assert(edges@.take(0) =~= Seq::empty());
    while i < edges.len()
        invariant
            i <= edges.len(),
            g.wf(),
            g@ == graph_with_nodes(nodes@, edges@.take(i as int)),
        decreases edges.len() - i,
    {
        let (u, v) = edges[i];
        proof {
            lemma_graph_push_edge(nodes@, edges@.take(i as int), u, v);
            assert(edges@.take(i as int).push((u, v)) =~= edges@.take(i + 1));
        }
        if u != v {
            g.insert_edge(u, v);
        }
        i += 1;
    }
    assert(edges@.take(i as int) =~= edges@);
    g
}

/// The graph that an edge list builds depends only on which pairs occur in
/// it: reordering the list or repeating pairs changes nothing.
pub proof fn lemma_build_ignores_order_and_repeats(
    first: Seq<(usize, usize)>,
    second: Seq<(usize, usize)>,
)
    requires
        first.to_set() == second.to_set(),
    ensures
        graph_of(first) == graph_of(second),
{
    assert forall|a: usize, b: usize| joined(first, a, b) <==> joined(second, a, b) by {
        assert(first.contains((a, b)) <==> first.to_set().contains((a, b)));
        assert(second.contains((a, b)) <==> second.to_set().contains((a, b)));
        assert(first.contains((b, a)) <==> first.to_set().contains((b, a)));
        assert(second.contains((b, a)) <==> second.to_set().contains((b, a)));
    }
    let g1 = graph_of(first);
    let g2 = graph_of(second);
    assert forall|a: usize| g1.contains_key(a) <==> g2.contains_key(a) by {
        if g1.contains_key(a) {
            let b = choose|b: usize| joined(first, a, b);
            assert(joined(second, a, b));
        }
        if g2.contains_key(a) {
            let b = choose|b: usize| joined(second, a, b);
            assert(joined(first, a, b));
        }
    }
    assert forall|a: usize| g1.contains_key(a) implies #[trigger] g1[a] =~= g2[a] by {}
    assert(g1 =~= g2);
}

/// Turning pairs of an edge list round changes nothing: the graph depends
/// only on which ids a pair joins.
pub proof fn lemma_build_ignores_orientation(
    first: Seq<(usize, usize)>,
    second: Seq<(usize, usize)>,
)
    requires
        forall|a: usize, b: usize|
            (first.contains((a, b)) || first.contains((b, a))) <==> (second.contains((a, b))
                || second.contains((b, a))),
    ensures
        graph_of(first) == graph_of(second),
{
    let g1 = graph_of(first);
    let g2 = graph_of(second);
    assert forall|a: usize, b: usize| joined(first, a, b) <==> joined(second, a, b) by {}
    assert forall|a: usize| g1.contains_key(a) <==> g2.contains_key(a) by {
        if g1.contains_key(a) {
            let b = choose|b: usize| joined(first, a, b);
            assert(joined(second, a, b));
        }
        if g2.contains_key(a) {
            let b = choose|b: usize| joined(second, a, b);
            assert(joined(first, a, b));
        }
    }
    assert forall|a: usize| g1.contains_key(a) implies #[trigger] g1[a] =~= g2[a] by {}
    assert(g1 =~= g2);
}

} // verus!
