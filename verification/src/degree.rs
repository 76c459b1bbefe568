//! The degree histogram of a graph and its summary in bins.

use vstd::prelude::*;
use crate::graph::SocialGraph;
use crate::graph::lemma_degree_bound;
use crate::graph::model;
use crate::graph::well_formed;

verus! {

/// The degree histogram, one `(degree, count)` entry for each degree that
/// some node has, by ascending degree, and the number of nodes in each bin.
#[derive(Clone, Debug, PartialEq, Eq)]
pub struct DegreeDistribution {
    pub histogram: Vec<(usize, usize)>,
    pub binned: Vec<usize>,
}

/// The bin of degree `d` among those from `k` on: the first whose upper
/// bound is not below `d`, and the bin after the last bound where none is.
pub open spec fn bin_from(bounds: Seq<usize>, d: nat, k: nat) -> nat
    decreases bounds.len() - k,
{
    if k >= bounds.len() {
        bounds.len()
    } else if d <= bounds[k as int] {
        k
    } else {
        bin_from(bounds, d, k + 1)
    }
}

/// The bin of degree `d`. For ascending bounds `b`, bin 0 holds the degrees
/// up to `b[0]`, bin `k` those above `b[k - 1]` up to `b[k]`, and the last
/// bin those above every bound.
pub open spec fn bin_of(bounds: Seq<usize>, d: nat) -> nat {
    bin_from(bounds, d, 0)
}

/// What a degree is counted under: itself, or its bin where bounds are given.
pub open spec fn class_of(bounds: Option<Seq<usize>>, d: nat) -> nat {
    match bounds {
        None => d,
        Some(b) => bin_of(b, d),
    }
}

/// The nodes whose degree is counted under `key`.
pub open spec fn nodes_in_class(
    m: Map<usize, Set<usize>>,
    bounds: Option<Seq<usize>>,
    key: nat,
) -> Set<usize> {
    m.dom().filter(|u: usize| class_of(bounds, m[u].len()) == key)
}

/// The number of nodes of degree `d`.
pub open spec fn degree_count(m: Map<usize, Set<usize>>, d: nat) -> nat {
    nodes_in_class(m, None, d).len()
}

/// The number of nodes whose degree falls into bin `k`.
pub open spec fn bin_count(m: Map<usize, Set<usize>>, bounds: Seq<usize>, k: nat) -> nat {
    nodes_in_class(m, Some(bounds), k).len()
}

/// The sum of the counts of a histogram.
pub open spec fn histogram_total(h: Seq<(usize, usize)>) -> nat
    decreases h.len(),
{
    if h.len() == 0 {
        0
    } else {
        histogram_total(h.drop_last()) + h.last().1 as nat
    }
}

/// The sum of a list of counts.
pub open spec fn sum_of(s: Seq<usize>) -> nat
    decreases s.len(),
{
    if s.len() == 0 {
        0
    } else {
        sum_of(s.drop_last()) + s.last() as nat
    }
}

/// `h` is the degree histogram of `m`: ascending degrees, each with the
/// number of nodes of that degree, which is not 0, and no degree that some
/// node has left out.
pub open spec fn is_histogram(m: Map<usize, Set<usize>>, h: Seq<(usize, usize)>) -> bool {
    &&& forall|i: int, j: int| 0 <= i < j < h.len() ==> h[i].0 < h[j].0
    &&& forall|i: int|
        0 <= i < h.len() ==> (#[trigger] h[i]).1 > 0 && h[i].1 == degree_count(m, h[i].0 as nat)
    &&& forall|d: nat| #[trigger]
        degree_count(m, d) > 0 ==> exists|i: int| 0 <= i < h.len() && #[trigger] h[i].0 == d
}

/// `binned` holds the number of nodes in each bin, the one above every
/// bound included.
pub open spec fn is_binned(
    m: Map<usize, Set<usize>>,
    bounds: Seq<usize>,
    binned: Seq<usize>,
) -> bool {
    &&& binned.len() == bounds.len() + 1
    &&& forall|k: int|
        0 <= k < binned.len() ==> #[trigger] binned[k] == bin_count(m, bounds, k as nat)
}

/// Among the first `i` nodes, the number of those counted under `key`.
spec fn tally(lists: Seq<Seq<usize>>, bounds: Option<Seq<usize>>, i: nat, key: nat) -> nat
    decreases i,
{
    if i == 0 {
        0
    } else {
        tally(lists, bounds, (i - 1) as nat, key) + if class_of(bounds, lists[i - 1].len()) == key {
            1nat
        } else {
            0nat
        }
    }
}

/// Among the first `i` nodes, those counted under `key`.
spec fn tallied(
    ids: Seq<usize>,
    lists: Seq<Seq<usize>>,
    bounds: Option<Seq<usize>>,
    i: nat,
    key: nat,
) -> Set<usize> {
    Set::new(
        |u: usize|
            exists|k: int|
                0 <= k < i && #[trigger] ids[k] == u && class_of(bounds, lists[k].len()) == key,
    )
}

/// The count along the node list is the size of the set of nodes counted.
proof fn lemma_tally_counts(
    ids: Seq<usize>,
    lists: Seq<Seq<usize>>,
    bounds: Option<Seq<usize>>,
    i: nat,
    key: nat,
)
    requires
        well_formed(ids, lists),
        i <= ids.len(),
    ensures
        tallied(ids, lists, bounds, i, key).finite(),
        tallied(ids, lists, bounds, i, key).len() == tally(lists, bounds, i, key),
        tally(lists, bounds, i, key) <= i,
    decreases i,
{
    let now = tallied(ids, lists, bounds, i, key);
    if i == 0 {
        assert(now =~= Set::<usize>::empty());
    } else {
        let before = tallied(ids, lists, bounds, (i - 1) as nat, key);
        lemma_tally_counts(ids, lists, bounds, (i - 1) as nat, key);
        let u = ids[i - 1];
        assert(!before.contains(u)) by {
            if before.contains(u) {
                let k = choose|k: int|
                    0 <= k < i - 1 && #[trigger] ids[k] == u && class_of(bounds, lists[k].len())
                        == key;
                assert(ids[k] < ids[i - 1]);
            }
        }
        if class_of(bounds, lists[i - 1].len()) == key {
            assert(now =~= before.insert(u)) by {
                assert forall|x: usize| now.contains(x) <==> before.insert(u).contains(x) by {
                    if now.contains(x) {
                        let k = choose|k: int|
                            0 <= k < i && #[trigger] ids[k] == x && class_of(
                                bounds,
                                lists[k].len(),
                            ) == key;
                        if k < i - 1 {
                            assert(before.contains(x));
                        }
                    }
                    if before.contains(x) {
                        let k = choose|k: int|
                            0 <= k < i - 1 && #[trigger] ids[k] == x && class_of(
                                bounds,
                                lists[k].len(),
                            ) == key;
                        assert(0 <= k < i && ids[k] == x);
                    }
                    if x == u {
                        assert(ids[i - 1] == x);
                    }
                }
            }
        } else {
            assert(now =~= before) by {
                assert forall|x: usize| now.contains(x) <==> before.contains(x) by {
                    if now.contains(x) {
                        let k = choose|k: int|
                            0 <= k < i && #[trigger] ids[k] == x && class_of(
                                bounds,
                                lists[k].len(),
                            ) == key;
                        assert(k < i - 1);
                    }
                    if before.contains(x) {
                        let k = choose|k: int|
                            0 <= k < i - 1 && #[trigger] ids[k] == x && class_of(
                                bounds,
                                lists[k].len(),
                            ) == key;
                        assert(0 <= k < i && ids[k] == x);
                    }
                }
            }
        }
    }
}

/// Counting along the node list counts the nodes of the class.
proof fn lemma_tally_is_class_size(
    ids: Seq<usize>,
    lists: Seq<Seq<usize>>,
    bounds: Option<Seq<usize>>,
    key: nat,
)
    requires
        well_formed(ids, lists),
    ensures
        nodes_in_class(model(ids, lists), bounds, key).len() == tally(
            lists,
            bounds,
            ids.len(),
            key,
        ),
{
    let m = model(ids, lists);
    lemma_tally_counts(ids, lists, bounds, ids.len(), key);
    let a = tallied(ids, lists, bounds, ids.len(), key);
    let b = nodes_in_class(m, bounds, key);
    assert forall|x: usize| a.contains(x) <==> b.contains(x) by {
        if a.contains(x) {
            let k = choose|k: int|
                0 <= k < ids.len() && #[trigger] ids[k] == x && class_of(bounds, lists[k].len())
                    == key;
            lemma_degree_bound(ids, lists, k);
        }
        if b.contains(x) {
            let k = ids.index_of(x);
            assert(0 <= k < ids.len() && ids[k] == x);
            lemma_degree_bound(ids, lists, k);
        }
    }
    assert(a =~= b);
}

/// Counting one more node raises the count of its class alone.
proof fn lemma_tally_step(lists: Seq<Seq<usize>>, bounds: Option<Seq<usize>>, i: nat, key: nat)
    ensures
        tally(lists, bounds, i + 1, key) == tally(lists, bounds, i, key) + if class_of(
            bounds,
            lists[i as int].len(),
        ) == key {
            1nat
        } else {
            0nat
        },
{
}

/// Replacing a count changes the sum by the difference; no count is above
/// the sum.
proof fn lemma_sum_update(s: Seq<usize>, p: int, v: usize)
    requires
        0 <= p < s.len(),
    ensures
        sum_of(s.update(p, v)) == sum_of(s) - s[p] + v,
        s[p] <= sum_of(s),
    decreases s.len(),
{
    if p == s.len() - 1 {
        assert(s.update(p, v).drop_last() =~= s.drop_last());
    } else {
        lemma_sum_update(s.drop_last(), p, v);
        assert(s.update(p, v).drop_last() =~= s.drop_last().update(p, v));
    }
}

/// Counts that are all 0 sum to 0.
proof fn lemma_sum_zeros(s: Seq<usize>)
    requires
        forall|i: int| 0 <= i < s.len() ==> s[i] == 0,
    ensures
        sum_of(s) == 0,
    decreases s.len(),
{
    if s.len() > 0 {
        lemma_sum_zeros(s.drop_last());
    }
}

/// The bin of degree `d`.
fn find_bin(bounds: &Vec<usize>, d: usize) -> (k: usize)
    ensures
        k == bin_of(bounds@, d as nat),
        k <= bounds.len(),
{
    let mut k: usize = 0;
    while k < bounds.len() && d > bounds[k]
        invariant
            k <= bounds.len(),
            bin_of(bounds@, d as nat) == bin_from(bounds@, d as nat, k as nat),
        decreases bounds.len() - k,
    {
        k += 1;
    }
    k
}

/// Counts the nodes under their degree, or under the bin of their degree
/// where `bounds` are given, in a list of `slots` counters.
fn count_classes(graph: &SocialGraph, bounds: Option<&Vec<usize>>, slots: usize) -> (counts: Vec<
    usize,
>)
    requires
        graph.wf(),
        match bounds {
            None => slots == graph.node_ids().len(),
            Some(b) => slots == b@.len() + 1,
        },
    ensures
        counts.len() == slots,
        sum_of(counts@) == graph.node_ids().len(),
        forall|key: int|
            0 <= key < slots ==> #[trigger] counts@[key] == nodes_in_class(
                graph@,
                match bounds {
                    None => None,
                    Some(b) => Some(b@),
                },
                key as nat,
            ).len(),
{
    let ghost ids = graph.node_ids();
    let ghost lists = graph.neighbor_lists();
    let ghost classes: Option<Seq<usize>> = match bounds {
        None => None,
        Some(b) => Some(b@),
    };
    let n = graph.node_count();
    let mut counts: Vec<usize> = Vec::new();
    let mut k: usize = 0;
    while k < slots
        invariant
            k <= slots,
            counts.len() == k,
            forall|j: int| 0 <= j < k ==> counts@[j] == 0,
        decreases slots - k,
    {
        counts.push(0);
        k += 1;
    }
    proof {
        lemma_sum_zeros(counts@);
    }
    let mut i: usize = 0;
    while i < n
        invariant
            i <= n,
            n == ids.len(),
            graph.wf(),
            ids == graph.node_ids(),
            lists == graph.neighbor_lists(),
            counts.len() == slots,
            match bounds {
                None => slots == n && classes.is_none(),
                Some(b) => slots == b@.len() + 1 && classes == Some(b@),
            },
            sum_of(counts@) == i,
            forall|key: int|
                0 <= key < slots ==> #[trigger] counts@[key] == tally(
                    lists,
                    classes,
                    i as nat,
                    key as nat,
                ),
        decreases n - i,
    {
        let d = graph.neighbors_at(i).len();
        proof {
            lemma_degree_bound(ids, lists, i as int);
        }
        let slot = match bounds {
            None => d,
            Some(b) => find_bin(b, d),
        };
        assert(slot == class_of(classes, lists[i as int].len()));
        proof {
            lemma_sum_update(counts@, slot as int, (counts@[slot as int] + 1) as usize);
            assert forall|key: int| 0 <= key < slots implies (#[trigger] counts@[key]) + (if key
                == slot {
                1nat
            } else {
                0nat
            }) == tally(lists, classes, (i + 1) as nat, key as nat) by {
                lemma_tally_step(lists, classes, i as nat, key as nat);
            }
        }
        let bumped = counts[slot] + 1;
        counts[slot] = bumped;
        i += 1;
    }
    proof {
        assert forall|key: int| 0 <= key < slots implies #[trigger] counts@[key] == nodes_in_class(
            graph@,
            classes,
            key as nat,
        ).len() by {
            lemma_tally_is_class_size(ids, lists, classes, key as nat);
        }
    }
    counts
}

/// The degree histogram of `graph` and the number of nodes in each of the
/// bins that the upper bounds `bins` mark off; one more bin holds the
/// degrees above every bound. The counts of the histogram sum to the number
/// of nodes, and so do those of the bins. There is one bin more than bounds,
/// so the number of bounds must stay below the largest machine word.
pub fn degree_distribution(graph: &SocialGraph, bins: &Vec<usize>) -> (r: DegreeDistribution)
    requires
        graph.wf(),
        bins.len() < usize::MAX,
    ensures
        is_histogram(graph@, r.histogram@),
        histogram_total(r.histogram@) == graph@.dom().len(),
        is_binned(graph@, bins@, r.binned@),
        sum_of(r.binned@) == graph@.dom().len(),
{
    let ghost m = graph@;
    let n = graph.node_count();
    let per_degree = count_classes(graph, None, n);
    let binned = count_classes(graph, Some(bins), bins.len() + 1);
    let mut histogram: Vec<(usize, usize)> = Vec::new();
    let mut d: usize = 0;
    assert(per_degree@.take(0) =~= Seq::<usize>::empty());
    while d < n
        invariant
            d <= n,
            per_degree.len() == n,
            forall|key: int|
                0 <= key < n ==> #[trigger] per_degree@[key] == degree_count(m, key as nat),
            histogram_total(histogram@) == sum_of(per_degree@.take(d as int)),
            forall|i: int| 0 <= i < histogram.len() ==> (#[trigger] histogram@[i]).0 < d,
            forall|i: int, j: int|
                0 <= i < j < histogram.len() ==> histogram@[i].0 < histogram@[j].0,
            forall|i: int|
                0 <= i < histogram.len() ==> (#[trigger] histogram@[i]).1 > 0 && histogram@[i].1
                    == degree_count(m, histogram@[i].0 as nat),
            forall|e: nat|
                e < d && #[trigger] degree_count(m, e) > 0 ==> exists|i: int|
                    0 <= i < histogram.len() && #[trigger] histogram@[i].0 == e,
        decreases n - d,
    {
        let c = per_degree[d];
        let ghost before = histogram@;
        proof {
            assert(per_degree@.take(d + 1).drop_last() =~= per_degree@.take(d as int));
        }
        if c > 0 {
            histogram.push((d, c));
            proof {
                assert(histogram@.drop_last() =~= before);
                assert forall|e: nat| e < d + 1 && #[trigger] degree_count(m, e) > 0 implies exists|
                    i: int,
                |
                    0 <= i < histogram.len() && #[trigger] histogram@[i].0 == e by {
                    if e < d {
                        let i = choose|i: int| 0 <= i < before.len() && #[trigger] before[i].0 == e;
                        assert(histogram@[i].0 == e);
                    } else {
                        assert(histogram@[before.len() as int].0 == e);
                    }
                }
            }
        }
        d += 1;
    }
    proof {
        assert(per_degree@.take(n as int) =~= per_degree@);
        graph.lemma_simple();
        assert forall|e: nat| #[trigger] degree_count(m, e) > 0 implies exists|i: int|
            0 <= i < histogram.len() && #[trigger] histogram@[i].0 == e by {
            if e >= n {
                let s = nodes_in_class(m, None, e);
                let u = s.choose();
                assert(s.len() > 0);
                assert(s.contains(u));
                let k = graph.node_ids().index_of(u);
                assert(0 <= k < n && graph.node_ids()[k] == u);
                lemma_degree_bound(graph.node_ids(), graph.neighbor_lists(), k);
            }
        }
    }
    DegreeDistribution { histogram, binned }
}

/// The upper bounds of the usual bins: degrees up to 10, from 11 to 25, and
/// above 25.
pub fn default_bins() -> (bins: Vec<usize>)
    ensures
        bins@ == seq![10usize, 25usize],
{
    let mut bins: Vec<usize> = Vec::new();
    bins.push(10);
    bins.push(25);
    assert(bins@ =~= seq![10usize, 25usize]);
    bins
}

} // verus!
