//! A reproducible choice of nodes: the same graph, seed and size always give
//! the same sample.

use vstd::prelude::*;
use crate::graph::SocialGraph;

verus! {

/// How to sample: `size` nodes are drawn with a generator started at `seed`.
#[derive(Clone, Copy, Debug, PartialEq, Eq, Structural)]
pub struct Sampling {
    pub seed: u64,
    pub size: usize,
}

/// The state that follows `state` in the generator, a linear congruential
/// one modulo 2^64.
pub open spec fn next_state(state: u64) -> u64 {
    ((state as int * 6364136223846793005 + 1442695040888963407) % 0x1_0000_0000_0000_0000) as u64
}

/// `pool` with the elements at `k` and `j` exchanged.
pub open spec fn exchanged(pool: Seq<usize>, k: int, j: int) -> Seq<usize> {
    pool.update(k, pool[j]).update(j, pool[k])
}

/// `pool` after the places `k .. limit` were filled in turn, each with an
/// element drawn from those not yet placed.
pub open spec fn shuffled(pool: Seq<usize>, state: u64, k: nat, limit: nat) -> Seq<usize>
    decreases limit - k,
{
    if k >= limit || k >= pool.len() {
        pool
    } else {
        let drawn = next_state(state);
        let j = k + (drawn as int) % (pool.len() - k);
        shuffled(exchanged(pool, k as int, j), drawn, k + 1, limit)
    }
}

/// The number of ids in a sample of `size` out of `count`.
pub open spec fn sample_len(count: nat, size: nat) -> nat {
    if size < count {
        size
    } else {
        count
    }
}

/// The sample of `size` ids out of `ids` for `seed`: all of `ids` where
/// `size` is not smaller than their number.
pub open spec fn sample_of(ids: Seq<usize>, seed: u64, size: nat) -> Seq<usize> {
    shuffled(ids, seed, 0, sample_len(ids.len(), size)).take(sample_len(ids.len(), size) as int)
}

/// Exchanging two elements keeps the length, the elements and their being
/// distinct.
proof fn lemma_exchanged(pool: Seq<usize>, k: int, j: int)
    requires
        pool.no_duplicates(),
        0 <= k < pool.len(),
        0 <= j < pool.len(),
    ensures
        exchanged(pool, k, j).len() == pool.len(),
        exchanged(pool, k, j).no_duplicates(),
        forall|x: usize| exchanged(pool, k, j).contains(x) <==> pool.contains(x),
{
    let e = exchanged(pool, k, j);
    let from = |i: int|
        if i == k {
            j
        } else if i == j {
            k
        } else {
            i
        };
    assert forall|i: int| 0 <= i < e.len() implies e[i] == pool[from(i)] by {}
    assert forall|a: int, b: int| 0 <= a < e.len() && 0 <= b < e.len() && a != b implies e[a]
        != e[b] by {
        assert(e[a] == pool[from(a)] && e[b] == pool[from(b)]);
        assert(from(a) != from(b));
    }
    assert forall|x: usize| e.contains(x) <==> pool.contains(x) by {
        if e.contains(x) {
            let i = choose|i: int| 0 <= i < e.len() && e[i] == x;
            assert(pool[from(i)] == x);
        }
        if pool.contains(x) {
            let i = choose|i: int| 0 <= i < pool.len() && pool[i] == x;
            assert(e[from(i)] == pool[i]);
        }
    }
}

/// Shuffling keeps the length, the elements and their being distinct.
proof fn lemma_shuffled(pool: Seq<usize>, state: u64, k: nat, limit: nat)
    requires
        pool.no_duplicates(),
    ensures
        shuffled(pool, state, k, limit).len() == pool.len(),
        shuffled(pool, state, k, limit).no_duplicates(),
        forall|x: usize| shuffled(pool, state, k, limit).contains(x) <==> pool.contains(x),
    decreases limit - k,
{
    if k >= limit || k >= pool.len() {
    } else {
        let drawn = next_state(state);
        let rest = pool.len() - k;
        let j = k + (drawn as int) % rest;
        assert(0 <= (drawn as int) % rest < rest) by (nonlinear_arith)
            requires
                rest > 0,
                drawn >= 0,
        ;
        lemma_exchanged(pool, k as int, j);
        lemma_shuffled(exchanged(pool, k as int, j), drawn, k + 1, limit);
    }
}

/// A sample holds as many ids as asked for, or all where fewer are there;
/// they are distinct and each is one of `ids`.
pub proof fn lemma_sample_is_distinct_subset(ids: Seq<usize>, seed: u64, size: nat)
    requires
        ids.no_duplicates(),
    ensures
        sample_of(ids, seed, size).len() == sample_len(ids.len(), size),
        sample_of(ids, seed, size).no_duplicates(),
        forall|x: usize| sample_of(ids, seed, size).contains(x) ==> ids.contains(x),
{
    let m = sample_len(ids.len(), size);
    let whole = shuffled(ids, seed, 0, m);
    lemma_shuffled(ids, seed, 0, m);
    let part = whole.take(m as int);
    assert forall|x: usize| part.contains(x) implies ids.contains(x) by {
        let i = choose|i: int| 0 <= i < part.len() && part[i] == x;
        assert(whole[i] == x);
    }
}

/// The state that follows `state` in the generator.
fn advance(state: u64) -> (r: u64)
    ensures
        r == next_state(state),
{
    let wide: u128 = (state as u128) * 6364136223846793005u128 + 1442695040888963407u128;
    (wide % 0x1_0000_0000_0000_0000u128) as u64
}

/// Draws `size` distinct nodes of `graph` with a generator started at `seed`;
/// all nodes where `size` is not smaller than their number.
pub fn sample_nodes(graph: &SocialGraph, seed: u64, size: usize) -> (sample: Vec<usize>)
    requires
        graph.wf(),
    ensures
        sample@ == sample_of(graph.node_ids(), seed, size as nat),
        sample@.len() == sample_len(graph.node_ids().len(), size as nat),
        sample@.no_duplicates(),
        forall|x: usize| sample@.contains(x) ==> graph@.contains_key(x),
{
    let ghost ids = graph.node_ids();
    let mut pool = graph.nodes();
    let n = pool.len();
    let m = if size < n {
        size
    } else {
        n
    };
    let mut state = seed;
    let mut k: usize = 0;
    while k < m
        invariant
            k <= m <= n,
            n == pool.len(),
            n == ids.len(),
            shuffled(pool@, state, k as nat, m as nat) == shuffled(ids, seed, 0, m as nat),
        decreases m - k,
    {
        state = advance(state);
        let rest: u64 = (n - k) as u64;
        let j = k + (state % rest) as usize;
        let a = pool[k];
        let b = pool[j];
        pool[k] = b;
        pool[j] = a;
        k += 1;
    }
    let mut sample: Vec<usize> = Vec::new();
    let mut i: usize = 0;
    while i < m
        invariant
            i <= m <= pool.len(),
            sample@ == pool@.take(i as int),
        decreases m - i,
    {
        sample.push(pool[i]);
        assert(pool@.take(i as int).push(pool@[i as int]) =~= pool@.take(i + 1));
        i += 1;
    }
    proof {
        assert(ids.no_duplicates());
        lemma_sample_is_distinct_subset(ids, seed, size as nat);
        graph.lemma_simple();
    }
    sample
}

} // verus!
