//! The mathematical model of a state's successor list: a sequence of
//! `(target label, weight)` pairs whose targets are pairwise distinct.

use vstd::prelude::*;

verus! {

/// The abstract form of a stored successor list.
pub open spec fn edge_list_view(v: Seq<(String, u64)>) -> Seq<(Seq<char>, u64)> {
    v.map_values(|e: (String, u64)| (e.0@, e.1))
}

/// Some entry of `l` has target `t`.
pub open spec fn has_target(l: Seq<(Seq<char>, u64)>, t: Seq<char>) -> bool {
    exists|i: int| 0 <= i < l.len() && #[trigger] l[i].0 == t
}

/// The position of the entry with target `t` (meaningful when `has_target(l, t)`).
pub open spec fn target_index(l: Seq<(Seq<char>, u64)>, t: Seq<char>) -> int {
    choose|i: int| 0 <= i < l.len() && #[trigger] l[i].0 == t
}

/// No two entries of `l` share a target.
pub open spec fn targets_distinct(l: Seq<(Seq<char>, u64)>) -> bool {
    forall|i: int, j: int|
        0 <= i < l.len() && 0 <= j < l.len() && #[trigger] l[i].0 == #[trigger] l[j].0 ==> i == j
}

/// `l` after setting the weight of `t` to `w`: in place when `t` is present,
/// appended otherwise.
pub open spec fn upsert_edge(l: Seq<(Seq<char>, u64)>, t: Seq<char>, w: u64) -> Seq<(Seq<char>, u64)> {
    if has_target(l, t) {
        l.update(target_index(l, t), (t, w))
    } else {
        l.push((t, w))
    }
}

/// A weight raised by one; the largest weight stays where it is.
pub open spec fn bumped(w: u64) -> u64 {
    if w < u64::MAX {
        (w + 1) as u64
    } else {
        w
    }
}

/// `l` after raising the weight of `t` by one in place, or appending `(t, 1)`.
pub open spec fn bump_edge(l: Seq<(Seq<char>, u64)>, t: Seq<char>) -> Seq<(Seq<char>, u64)> {
    if has_target(l, t) {
        l.update(target_index(l, t), (t, bumped(l[target_index(l, t)].1)))
    } else {
        l.push((t, 1))
    }
}

/// The sum of the weights of `l`.
pub open spec fn total_weight(l: Seq<(Seq<char>, u64)>) -> nat
    decreases l.len(),
{
    if l.len() == 0 {
        0
    } else {
        total_weight(l.drop_last()) + l.last().1 as nat
    }
}

/// With distinct targets, an entry with target `t` stands at `target_index(l, t)`.
pub proof fn lemma_target_index_unique(l: Seq<(Seq<char>, u64)>, t: Seq<char>, i: int)
    requires
        targets_distinct(l),
        0 <= i < l.len(),
        l[i].0 == t,
    ensures
        target_index(l, t) == i,
{
    assert(has_target(l, t));
}

/// Upserting keeps the targets distinct and leaves exactly one entry for `t`,
/// carrying the new weight.
pub proof fn lemma_upsert_edge(l: Seq<(Seq<char>, u64)>, t: Seq<char>, w: u64)
    requires
        targets_distinct(l),
    ensures
        targets_distinct(upsert_edge(l, t, w)),
        has_target(upsert_edge(l, t, w), t),
        upsert_edge(l, t, w)[target_index(upsert_edge(l, t, w), t)] == (t, w),
        upsert_edge(l, t, w).len() == if has_target(l, t) { l.len() } else { l.len() + 1 },
        forall|u: Seq<char>| has_target(l, u) ==> has_target(upsert_edge(l, t, w), u),
        forall|u: Seq<char>| #![auto] u != t && has_target(l, u)
            ==> upsert_edge(l, t, w)[target_index(upsert_edge(l, t, w), u)] == l[target_index(l, u)],
{
    let r = upsert_edge(l, t, w);
    let k = if has_target(l, t) { target_index(l, t) } else { l.len() as int };
    assert(r[k] == (t, w));
    lemma_target_index_unique(r, t, k);
    assert forall|u: Seq<char>| has_target(l, u) implies has_target(r, u) by {
        let j = target_index(l, u);
        if j != k {
            assert(r[j] == l[j]);
        } else {
            assert(r[k].0 == u);
        }
    }
    assert forall|u: Seq<char>| #![auto] u != t && has_target(l, u)
        implies r[target_index(r, u)] == l[target_index(l, u)] by {
        let j = target_index(l, u);
        assert(r[j] == l[j]);
        lemma_target_index_unique(r, u, j);
    }
}

/// Bumping keeps the targets distinct and leaves exactly one entry for `t`,
/// whose weight is the old one raised by one (or 1 when `t` was absent).
pub proof fn lemma_bump_edge(l: Seq<(Seq<char>, u64)>, t: Seq<char>)
    requires
        targets_distinct(l),
    ensures
        targets_distinct(bump_edge(l, t)),
        has_target(bump_edge(l, t), t),
        bump_edge(l, t)[target_index(bump_edge(l, t), t)] == (t, if has_target(l, t) {
            bumped(l[target_index(l, t)].1)
        } else {
            1u64
        }),
        bump_edge(l, t).len() == if has_target(l, t) { l.len() } else { l.len() + 1 },
{
    let r = bump_edge(l, t);
    let k = if has_target(l, t) { target_index(l, t) } else { l.len() as int };
    assert(r[k].0 == t);
    lemma_target_index_unique(r, t, k);
}

/// The total weight is at most the number of entries times the largest weight.
pub proof fn lemma_total_weight_bound(l: Seq<(Seq<char>, u64)>)
    ensures
        total_weight(l) <= l.len() * (u64::MAX as nat),
    decreases l.len(),
{
    if l.len() > 0 {
        lemma_total_weight_bound(l.drop_last());
        assert(total_weight(l) <= (l.len() - 1) * (u64::MAX as nat) + u64::MAX) by (nonlinear_arith)
            requires
                total_weight(l) == total_weight(l.drop_last()) + l.last().1,
                total_weight(l.drop_last()) <= (l.len() - 1) * (u64::MAX as nat),
                l.last().1 <= u64::MAX,
        ;
        assert((l.len() - 1) * (u64::MAX as nat) + u64::MAX == l.len() * (u64::MAX as nat)) by (nonlinear_arith);
    }
}

/// The total weight is positive exactly when some entry has a positive weight.
pub proof fn lemma_total_weight_positive(l: Seq<(Seq<char>, u64)>)
    ensures
        total_weight(l) > 0 <==> exists|i: int| 0 <= i < l.len() && #[trigger] l[i].1 > 0,
    decreases l.len(),
{
    if l.len() > 0 {
        let p = l.drop_last();
        lemma_total_weight_positive(p);
        if total_weight(p) > 0 {
            let i = choose|i: int| 0 <= i < p.len() && #[trigger] p[i].1 > 0;
            assert(l[i].1 > 0);
        }
        assert forall|i: int| 0 <= i < l.len() - 1 implies #[trigger] l[i] == p[i] by {}
    }
}

} // verus!
