//! Properties that relate several operations on the table, stated over its model.

use crate::edges::{
    bumped, has_target, lemma_bump_edge, lemma_total_weight_positive, lemma_upsert_edge,
    target_index, targets_distinct,
};
use crate::markov::{
    can_sample, chain_wf, edges_of, is_successor, is_walk, with_edge, with_increment,
};
use vstd::prelude::*;

verus! {

/// Setting the weight of one edge twice leaves exactly one entry for its target,
/// carrying the second weight, and the list no longer than after the first call.
pub proof fn lemma_add_edge_twice(
    m: Map<Seq<char>, Seq<(Seq<char>, u64)>>,
    s: Seq<char>,
    t: Seq<char>,
    w1: u64,
    w2: u64,
)
    requires
        chain_wf(m),
    ensures
        ({
            let l1 = with_edge(m, s, t, w1)[s];
            let l2 = with_edge(with_edge(m, s, t, w1), s, t, w2)[s];
            &&& targets_distinct(l2)
            &&& has_target(l2, t)
            &&& l2[target_index(l2, t)] == (t, w2)
            &&& l2.len() == l1.len()
        }),
{
    let l0 = edges_of(m, s);
    if m.contains_key(s) {
        assert(targets_distinct(m[s]));
    }
    lemma_upsert_edge(l0, t, w1);
    let m1 = with_edge(m, s, t, w1);
    assert(edges_of(m1, s) == m1[s]);
    lemma_upsert_edge(m1[s], t, w2);
}

/// Edges with different targets under one source do not overwrite each other:
/// both are present with their own weights, and every earlier target remains.
pub proof fn lemma_add_edge_distinct_targets(
    m: Map<Seq<char>, Seq<(Seq<char>, u64)>>,
    s: Seq<char>,
    t1: Seq<char>,
    w1: u64,
    t2: Seq<char>,
    w2: u64,
)
    requires
        chain_wf(m),
        t1 != t2,
    ensures
        ({
            let l = with_edge(with_edge(m, s, t1, w1), s, t2, w2)[s];
            &&& targets_distinct(l)
            &&& has_target(l, t1)
            &&& has_target(l, t2)
            &&& l[target_index(l, t1)] == (t1, w1)
            &&& l[target_index(l, t2)] == (t2, w2)
            &&& forall|u: Seq<char>| has_target(edges_of(m, s), u) ==> has_target(l, u)
        }),
{
    let l0 = edges_of(m, s);
    if m.contains_key(s) {
        assert(targets_distinct(m[s]));
    }
    lemma_upsert_edge(l0, t1, w1);
    let m1 = with_edge(m, s, t1, w1);
    assert(edges_of(m1, s) == m1[s]);
    lemma_upsert_edge(m1[s], t2, w2);
}

/// Incrementing an edge of an empty table gives its source the single entry `(t, 1)`.
pub proof fn lemma_increment_fresh(s: Seq<char>, t: Seq<char>)
    ensures
        with_increment(Map::empty(), s, t) == Map::<Seq<char>, Seq<(Seq<char>, u64)>>::empty().insert(
            s,
            seq![(t, 1u64)],
        ),
{
    let m = Map::<Seq<char>, Seq<(Seq<char>, u64)>>::empty();
    assert(with_increment(m, s, t)[s] =~= seq![(t, 1u64)]);
    assert(with_increment(m, s, t) =~= m.insert(s, seq![(t, 1u64)]));
}

/// Incrementing an edge that is not yet recorded once, twice and three times gives
/// a single entry for its target with weight 1, 2 and 3.
pub proof fn lemma_increment_counts(m: Map<Seq<char>, Seq<(Seq<char>, u64)>>, s: Seq<char>, t: Seq<char>)
    requires
        chain_wf(m),
        !has_target(edges_of(m, s), t),
    ensures
        ({
            let m1 = with_increment(m, s, t);
            let m2 = with_increment(m1, s, t);
            let m3 = with_increment(m2, s, t);
            &&& targets_distinct(m1[s]) && has_target(m1[s], t) && m1[s][target_index(m1[s], t)] == (t, 1u64)
            &&& targets_distinct(m2[s]) && has_target(m2[s], t) && m2[s][target_index(m2[s], t)] == (t, 2u64)
            &&& targets_distinct(m3[s]) && has_target(m3[s], t) && m3[s][target_index(m3[s], t)] == (t, 3u64)
        }),
{
    if m.contains_key(s) {
        assert(targets_distinct(m[s]));
    }
    lemma_bump_edge(edges_of(m, s), t);
    let m1 = with_increment(m, s, t);
    assert(edges_of(m1, s) == m1[s]);
    lemma_bump_edge(m1[s], t);
    let m2 = with_increment(m1, s, t);
    assert(edges_of(m2, s) == m2[s]);
    assert(bumped(1) == 2);
    lemma_bump_edge(m2[s], t);
    assert(bumped(2) == 3);
}

/// When `a` is the only target of `s` with a positive weight, sampling from `s`
/// succeeds and can only give `a`.
pub proof fn lemma_single_positive_edge(
    m: Map<Seq<char>, Seq<(Seq<char>, u64)>>,
    s: Seq<char>,
    a: Seq<char>,
    r: Seq<char>,
)
    requires
        m.contains_key(s),
        exists|i: int| 0 <= i < m[s].len() && #[trigger] m[s][i].0 == a && m[s][i].1 > 0,
        forall|i: int| 0 <= i < m[s].len() && #[trigger] m[s][i].1 > 0 ==> m[s][i].0 == a,
    ensures
        can_sample(m, s),
        is_successor(m, s, r) ==> r == a,
{
    lemma_total_weight_positive(m[s]);
    let i = choose|i: int| 0 <= i < m[s].len() && #[trigger] m[s][i].0 == a && m[s][i].1 > 0;
    assert(m[s][i].1 > 0);
}

/// Once a walk reaches a state without entries, every later label is the empty
/// one (as long as the empty label itself has no entries).
pub proof fn lemma_dead_end(
    m: Map<Seq<char>, Seq<(Seq<char>, u64)>>,
    start: Seq<char>,
    p: Seq<Seq<char>>,
    j: int,
)
    requires
        is_walk(m, start, p),
        0 <= j < p.len(),
        !m.contains_key(p[j]),
        !m.contains_key(Seq::<char>::empty()),
    ensures
        forall|i: int| j < i < p.len() ==> #[trigger] p[i] == Seq::<char>::empty(),
{
    assert forall|i: int| j < i < p.len() implies #[trigger] p[i] == Seq::<char>::empty() by {
        lemma_dead_end_at(m, start, p, j, i);
    }
}

proof fn lemma_dead_end_at(
    m: Map<Seq<char>, Seq<(Seq<char>, u64)>>,
    start: Seq<char>,
    p: Seq<Seq<char>>,
    j: int,
    i: int,
)
    requires
        is_walk(m, start, p),
        0 <= j < i < p.len(),
        !m.contains_key(p[j]),
        !m.contains_key(Seq::<char>::empty()),
    ensures
        p[i] == Seq::<char>::empty(),
    decreases i - j,
{
    if i > j + 1 {
        lemma_dead_end_at(m, start, p, j, i - 1);
    }
    lemma_walk_step(m, start, p, i);
}

proof fn lemma_walk_step(m: Map<Seq<char>, Seq<(Seq<char>, u64)>>, start: Seq<char>, p: Seq<Seq<char>>, i: int)
    requires
        is_walk(m, start, p),
        0 < i < p.len(),
    ensures
        is_successor(m, p[i - 1], p[i]),
{
    reveal(is_walk);
    assert(is_successor(m, if i == 0 { start } else { p[i - 1] }, p[i]));
}

} // verus!
