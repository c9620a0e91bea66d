//! The transition table: each state label maps to its weighted successors.

use crate::edges::{
    bump_edge, edge_list_view, has_target, lemma_bump_edge, lemma_target_index_unique,
    lemma_total_weight_bound, lemma_upsert_edge, target_index, targets_distinct, total_weight,
    upsert_edge,
};
use crate::weighted::choose_weighted_edge;
use vstd::prelude::*;

verus! {

/// The successors recorded for `s`; none when `s` is not a key.
pub open spec fn edges_of(m: Map<Seq<char>, Seq<(Seq<char>, u64)>>, s: Seq<char>) -> Seq<(Seq<char>, u64)> {
    if m.contains_key(s) {
        m[s]
    } else {
        Seq::empty()
    }
}

/// Every successor list is non-empty and has distinct targets.
pub open spec fn chain_wf(m: Map<Seq<char>, Seq<(Seq<char>, u64)>>) -> bool {
    forall|k: Seq<char>| #[trigger] m.contains_key(k) ==> m[k].len() > 0 && targets_distinct(m[k])
}

/// The table after `add_state_choice(s, (t, w))`.
pub open spec fn with_edge(m: Map<Seq<char>, Seq<(Seq<char>, u64)>>, s: Seq<char>, t: Seq<char>, w: u64)
    -> Map<Seq<char>, Seq<(Seq<char>, u64)>> {
    m.insert(s, upsert_edge(edges_of(m, s), t, w))
}

/// The table after `increment_state(s, t)`.
pub open spec fn with_increment(m: Map<Seq<char>, Seq<(Seq<char>, u64)>>, s: Seq<char>, t: Seq<char>)
    -> Map<Seq<char>, Seq<(Seq<char>, u64)>> {
    m.insert(s, bump_edge(edges_of(m, s), t))
}

/// Sampling from `s` succeeds: `s` is unknown, or its weights sum to more than zero.
pub open spec fn can_sample(m: Map<Seq<char>, Seq<(Seq<char>, u64)>>, s: Seq<char>) -> bool {
    !m.contains_key(s) || total_weight(m[s]) > 0
}

/// `r` is a possible outcome of sampling from `s`: the target of an entry with
/// positive weight, or the empty label when `s` is unknown.
pub open spec fn is_successor(m: Map<Seq<char>, Seq<(Seq<char>, u64)>>, s: Seq<char>, r: Seq<char>) -> bool {
    if m.contains_key(s) {
        exists|i: int| 0 <= i < m[s].len() && #[trigger] m[s][i].0 == r && m[s][i].1 > 0
    } else {
        r == Seq::<char>::empty()
    }
}

/// The state a walk from `start` through `p` has reached.
pub open spec fn walk_end(start: Seq<char>, p: Seq<Seq<char>>) -> Seq<char> {
    if p.len() == 0 {
        start
    } else {
        p.last()
    }
}

/// Each label of `p` is a possible successor of the one before it (of `start` for the first).
#[verifier::opaque]
pub open spec fn is_walk(m: Map<Seq<char>, Seq<(Seq<char>, u64)>>, start: Seq<char>, p: Seq<Seq<char>>) -> bool {
    forall|i: int| 0 <= i < p.len() ==> is_successor(m, if i == 0 { start } else { p[i - 1] }, #[trigger] p[i])
}

/// The labels held by a vector of strings.
pub open spec fn labels(v: Seq<String>) -> Seq<Seq<char>> {
    v.map_values(|s: String| s@)
}

proof fn lemma_walk_push(m: Map<Seq<char>, Seq<(Seq<char>, u64)>>, start: Seq<char>, p: Seq<Seq<char>>, x: Seq<char>)
    requires
        is_walk(m, start, p),
        is_successor(m, walk_end(start, p), x),
    ensures
        is_walk(m, start, p.push(x)),
        walk_end(start, p.push(x)) == x,
{
    reveal(is_walk);
    let q = p.push(x);
    assert forall|i: int| 0 <= i < q.len()
        implies is_successor(m, if i == 0 { start } else { q[i - 1] }, #[trigger] q[i]) by {
        if i < p.len() {
            assert(q[i] == p[i]);
            if i > 0 {
                assert(q[i - 1] == p[i - 1]);
            }
        }
    }
}

/// The failures that sampling can report.
#[derive(Debug, Clone, Copy, PartialEq, Eq, Structural)]
pub enum ChainError {
    /// A known state whose successor weights sum to zero.
    InvalidWeightDistribution,
}

/// A first-order Markov chain: each state label owns an ordered list of
/// `(successor label, relative weight)` pairs.
#[derive(Clone, Debug, PartialEq)]
pub struct MarkovChain {
    entries: Vec<(String, Vec<(String, u64)>)>,
}

spec fn has_key(e: Seq<(String, Vec<(String, u64)>)>, k: Seq<char>) -> bool {
    exists|i: int| 0 <= i < e.len() && #[trigger] e[i].0@ == k
}

spec fn key_index(e: Seq<(String, Vec<(String, u64)>)>, k: Seq<char>) -> int {
    choose|i: int| 0 <= i < e.len() && #[trigger] e[i].0@ == k
}

spec fn keys_distinct(e: Seq<(String, Vec<(String, u64)>)>) -> bool {
    forall|i: int, j: int|
        0 <= i < e.len() && 0 <= j < e.len() && #[trigger] e[i].0@ == #[trigger] e[j].0@ ==> i == j
}

spec fn entries_wf(e: Seq<(String, Vec<(String, u64)>)>) -> bool {
    &&& keys_distinct(e)
    &&& forall|i: int| #![trigger e[i]] 0 <= i < e.len()
        ==> e[i].1@.len() > 0 && targets_distinct(edge_list_view(e[i].1@))
}

spec fn table_view(e: Seq<(String, Vec<(String, u64)>)>) -> Map<Seq<char>, Seq<(Seq<char>, u64)>> {
    Map::new(|k: Seq<char>| has_key(e, k), |k: Seq<char>| edge_list_view(e[key_index(e, k)].1@))
}

proof fn lemma_table_view_at(e: Seq<(String, Vec<(String, u64)>)>, i: int)
    requires
        keys_distinct(e),
        0 <= i < e.len(),
    ensures
        table_view(e).contains_key(e[i].0@),
        table_view(e)[e[i].0@] == edge_list_view(e[i].1@),
{
    assert(has_key(e, e[i].0@));
    let j = key_index(e, e[i].0@);
    assert(e[j].0@ == e[i].0@);
}

proof fn lemma_table_wf(e: Seq<(String, Vec<(String, u64)>)>)
    requires
        entries_wf(e),
    ensures
        chain_wf(table_view(e)),
{
    assert forall|k: Seq<char>| #[trigger] table_view(e).contains_key(k) implies table_view(e)[k].len() > 0
        && targets_distinct(table_view(e)[k]) by {
        let i = key_index(e, k);
        lemma_table_view_at(e, i);
        assert(e[i].1@.len() > 0);
    }
}

proof fn lemma_table_update(e: Seq<(String, Vec<(String, u64)>)>, i: int, l: Vec<(String, u64)>)
    requires
        keys_distinct(e),
        0 <= i < e.len(),
    ensures
        keys_distinct(e.update(i, (e[i].0, l))),
        table_view(e.update(i, (e[i].0, l))) == table_view(e).insert(e[i].0@, edge_list_view(l@)),
{
    let f = e.update(i, (e[i].0, l));
    assert forall|a: int, b: int| 0 <= a < f.len() && 0 <= b < f.len() && #[trigger] f[a].0@ == #[trigger] f[b].0@
        implies a == b by {
        assert(f[a].0 == e[a].0 && f[b].0 == e[b].0);
    }
    let target = table_view(e).insert(e[i].0@, edge_list_view(l@));
    assert forall|k: Seq<char>| table_view(f).contains_key(k) <==> target.contains_key(k) by {
        if has_key(f, k) {
            let j = key_index(f, k);
            assert(e[j].0@ == k);
        }
        if has_key(e, k) {
            let j = key_index(e, k);
            assert(f[j].0@ == k);
        }
    }
    assert forall|k: Seq<char>| table_view(f).contains_key(k) implies table_view(f)[k] == target[k] by {
        let j = key_index(f, k);
        lemma_table_view_at(f, j);
        if j != i {
            lemma_table_view_at(e, j);
        }
    }
    assert(table_view(f) =~= target);
}

proof fn lemma_table_push(e: Seq<(String, Vec<(String, u64)>)>, k: String, l: Vec<(String, u64)>)
    requires
        keys_distinct(e),
        !has_key(e, k@),
    ensures
        keys_distinct(e.push((k, l))),
        table_view(e.push((k, l))) == table_view(e).insert(k@, edge_list_view(l@)),
{
    let f = e.push((k, l));
    let n = e.len() as int;
    assert forall|a: int, b: int| 0 <= a < f.len() && 0 <= b < f.len() && #[trigger] f[a].0@ == #[trigger] f[b].0@
        implies a == b by {
        if a < n && b < n {
            assert(f[a] == e[a] && f[b] == e[b]);
        } else if a < n {
            assert(e[a].0@ == k@);
        } else if b < n {
            assert(e[b].0@ == k@);
        }
    }
    let target = table_view(e).insert(k@, edge_list_view(l@));
    assert forall|u: Seq<char>| table_view(f).contains_key(u) <==> target.contains_key(u) by {
        if has_key(f, u) {
            let j = key_index(f, u);
            if j < n {
                assert(e[j].0@ == u);
            }
        }
        if has_key(e, u) {
            let j = key_index(e, u);
            assert(f[j].0@ == u);
        }
        if u == k@ {
            assert(f[n].0@ == u);
        }
    }
    assert forall|u: Seq<char>| table_view(f).contains_key(u) implies table_view(f)[u] == target[u] by {
        let j = key_index(f, u);
        lemma_table_view_at(f, j);
        if j < n {
            assert(f[j] == e[j]);
            lemma_table_view_at(e, j);
        }
    }
    assert(table_view(f) =~= target);
}

impl View for MarkovChain {
    type V = Map<Seq<char>, Seq<(Seq<char>, u64)>>;

    closed spec fn view(&self) -> Self::V {
        table_view(self.entries@)
    }
}

impl MarkovChain {
    /// The table's internal invariant: keys are distinct, and every stored
    /// successor list is non-empty with distinct targets.
    pub closed spec fn wf(&self) -> bool {
        entries_wf(self.entries@)
    }

    /// An empty table.
    pub fn new() -> (r: MarkovChain)
        ensures
            r.wf(),
            r@ == Map::<Seq<char>, Seq<(Seq<char>, u64)>>::empty(),
            chain_wf(r@),
    {
        let r = MarkovChain { entries: Vec::new() };
        proof {
            assert(table_view(r.entries@) =~= Map::<Seq<char>, Seq<(Seq<char>, u64)>>::empty());
        }
        r
    }

    /// Sets the weight of the edge `key -> probability.0` to `probability.1`.
    /// An existing entry keeps its position; a new one is appended, and an unknown
    /// `key` gets a list of that one entry.
    pub fn add_state_choice(&mut self, key: &str, probability: (String, u64))
        requires
            old(self).wf(),
        ensures
            final(self).wf(),
            final(self)@ == with_edge(old(self)@, key@, probability.0@, probability.1),
            chain_wf(final(self)@),
    {
        let k = key.to_owned();
        let ghost t = probability.0@;
        let ghost w = probability.1;
        let ghost e0 = self.entries@;
        match self.find_key(&k) {
            Some(i) => {
                let ghost l0 = self.entries@[i as int].1@;
                proof {
                    lemma_table_view_at(e0, i as int);
                    lemma_upsert_edge(edge_list_view(l0), t, w);
                }
                match find_target(&self.entries[i].1, &probability.0) {
                    Some(x) => {
                        proof {
                            assert(edge_list_view(l0)[x as int].0 == t);
                            lemma_target_index_unique(edge_list_view(l0), t, x as int);
                        }
                        self.entries[i].1.set(x, probability);
                        proof {
                            assert(edge_list_view(self.entries@[i as int].1@) =~= upsert_edge(edge_list_view(l0), t, w));
                        }
                    },
                    None => {
                        self.entries[i].1.push(probability);
                        proof {
                            assert(edge_list_view(self.entries@[i as int].1@) =~= upsert_edge(edge_list_view(l0), t, w));
                        }
                    },
                }
                proof {
                    let l1 = self.entries@[i as int].1;
                    assert(self.entries@ == e0.update(i as int, (e0[i as int].0, l1)));
                    lemma_table_update(e0, i as int, l1);
                    self.lemma_wf_after_update(e0, i as int);
                }
            },
            None => {
                let mut list: Vec<(String, u64)> = Vec::new();
                list.push(probability);
                proof {
                    assert(edge_list_view(list@) =~= upsert_edge(Seq::empty(), t, w));
                    lemma_table_push(e0, k, list);
                }
                self.entries.push((k, list));
                proof {
                    assert(self.entries@.drop_last() =~= e0);
                    self.lemma_wf_after_push(e0);
                }
            },
        }
        proof {
            lemma_table_wf(self.entries@);
        }
    }

    /// Raises the weight of the edge `key -> state` by one in place (the largest
    /// weight stays), or appends `(state, 1)`; an unknown `key` gets a list of that
    /// one entry.
    pub fn increment_state(&mut self, key: &str, state: &str)
        requires
            old(self).wf(),
        ensures
            final(self).wf(),
            final(self)@ == with_increment(old(self)@, key@, state@),
            chain_wf(final(self)@),
    {
        let k = key.to_owned();
        let t = state.to_owned();
        let ghost e0 = self.entries@;
        match self.find_key(&k) {
            Some(i) => {
                let ghost l0 = self.entries@[i as int].1@;
                proof {
                    lemma_table_view_at(e0, i as int);
                    lemma_bump_edge(edge_list_view(l0), t@);
                }
                match find_target(&self.entries[i].1, &t) {
                    Some(x) => {
                        proof {
                            assert(edge_list_view(l0)[x as int].0 == state@);
                            lemma_target_index_unique(edge_list_view(l0), state@, x as int);
                        }
                        let w = self.entries[i].1[x].1;
                        let nw = if w < u64::MAX { w + 1 } else { w };
                        self.entries[i].1.set(x, (t, nw));
                        proof {
                            assert(edge_list_view(self.entries@[i as int].1@) =~= bump_edge(edge_list_view(l0), state@));
                        }
                    },
                    None => {
                        self.entries[i].1.push((t, 1));
                        proof {
                            assert(edge_list_view(self.entries@[i as int].1@) =~= bump_edge(edge_list_view(l0), state@));
                        }
                    },
                }
                proof {
                    let l1 = self.entries@[i as int].1;
                    assert(self.entries@ == e0.update(i as int, (e0[i as int].0, l1)));
                    lemma_table_update(e0, i as int, l1);
                    self.lemma_wf_after_update(e0, i as int);
                }
            },
            None => {
                let mut list: Vec<(String, u64)> = Vec::new();
                list.push((t, 1));
                proof {
                    assert(edge_list_view(list@) =~= bump_edge(Seq::empty(), state@));
                    lemma_table_push(e0, k, list);
                }
                self.entries.push((k, list));
                proof {
                    assert(self.entries@.drop_last() =~= e0);
                    self.lemma_wf_after_push(e0);
                }
            },
        }
        proof {
            lemma_table_wf(self.entries@);
        }
    }

    /// Draws a successor of `current_state` with probability proportional to
    /// its weight. An unknown state yields the empty label; a known state whose
    /// weights sum to zero yields `InvalidWeightDistribution`.
    pub fn next_state(&self, current_state: String) -> (r: Result<String, ChainError>)
        requires
            self.wf(),
        ensures
            r is Ok <==> can_sample(self@, current_state@),
            match r {
                Ok(s) => is_successor(self@, current_state@, s@),
                Err(e) => e == ChainError::InvalidWeightDistribution,
            },
    {
        match self.find_key(&current_state) {
            None => {
                proof {
                    assert(!self@.contains_key(current_state@));
                }
                Ok(String::new())
            },
            Some(i) => {
                let list = &self.entries[i].1;
                let len = list.len();
                let ghost l = edge_list_view(list@);
                proof {
                    assert(l.len() == len);
                    lemma_table_view_at(self.entries@, i as int);
                    lemma_total_weight_bound(l);
                    assert(l.len() * (u64::MAX as nat) <= u128::MAX) by (nonlinear_arith)
                        requires
                            l.len() <= u64::MAX,
                    ;
                }
                match choose_weighted_edge(list) {
                    Ok(e) => {
                        let s = e.0.clone();
                        proof {
                            let j = choose|j: int| 0 <= j < list@.len() && list@[j] == *e && e.1 > 0;
                            assert(l[j].0 == s@ && l[j].1 > 0);
                        }
                        Ok(s)
                    },
                    Err(_) => Err(ChainError::InvalidWeightDistribution),
                }
            },
        }
    }

    /// Walks `num_of_states` steps from `current_state`, sampling each next state
    /// from the one before. Once the walk reaches an unknown state every further
    /// label is the empty one; the start itself is not part of the result.
    pub fn generate_states(&self, current_state: String, num_of_states: u16) -> (r: Result<Vec<String>, ChainError>)
        requires
            self.wf(),
        ensures
            match r {
                Ok(v) => v@.len() == num_of_states && is_walk(self@, current_state@, labels(v@)),
                Err(e) => e == ChainError::InvalidWeightDistribution && exists|p: Seq<Seq<char>>|
                    p.len() < num_of_states && #[trigger] is_walk(self@, current_state@, p)
                        && !can_sample(self@, walk_end(current_state@, p)),
            },
            (forall|k: Seq<char>| #[trigger] self@.contains_key(k) ==> total_weight(self@[k]) > 0) ==> r is Ok,
    {
        let ghost start = current_state@;
        let mut future_states: Vec<String> = Vec::new();
        let mut cur = current_state.clone();
        let mut n: u16 = 0;
        proof {
            reveal(is_walk);
        }
        while n < num_of_states
            invariant
                self.wf(),
                n <= num_of_states,
                current_state@ == start,
                future_states@.len() == n,
                is_walk(self@, start, labels(future_states@)),
                cur@ == walk_end(start, labels(future_states@)),
            decreases num_of_states - n,
        {
            let ghost p = labels(future_states@);
            let ghost cv = cur@;
            match self.next_state(cur) {
                Ok(s) => {
                    let ghost sv = s@;
                    future_states.push(s.clone());
                    cur = s;
                    proof {
                        assert(labels(future_states@) =~= p.push(sv));
                        lemma_walk_push(self@, start, p, sv);
                    }
                    n += 1;
                },
                Err(e) => {
                    proof {
                        assert(p.len() < num_of_states && is_walk(self@, start, p) && !can_sample(
                            self@,
                            walk_end(start, p),
                        ));
                    }
                    return Err(e);
                },
            }
        }
        Ok(future_states)
    }

    /// The ordered successor list recorded for `key`, if any.
    pub fn edges(&self, key: &str) -> (r: Option<&Vec<(String, u64)>>)
        requires
            self.wf(),
        ensures
            match r {
                Some(v) => self@.contains_key(key@) && edge_list_view(v@) == self@[key@],
                None => !self@.contains_key(key@),
            },
    {
        let k = key.to_owned();
        match self.find_key(&k) {
            Some(i) => {
                proof {
                    lemma_table_view_at(self.entries@, i as int);
                }
                Some(&self.entries[i].1)
            },
            None => None,
        }
    }

    /// The labels that have successor lists, each once.
    pub fn states(&self) -> (r: Vec<String>)
        requires
            self.wf(),
        ensures
            labels(r@).no_duplicates(),
            forall|k: Seq<char>| self@.contains_key(k) <==> labels(r@).contains(k),
    {
        let mut out: Vec<String> = Vec::new();
        let mut i: usize = 0;
        while i < self.entries.len()
            invariant
                self.wf(),
                i <= self.entries@.len(),
                out@.len() == i,
                forall|j: int| 0 <= j < i ==> #[trigger] out@[j]@ == self.entries@[j].0@,
            decreases self.entries@.len() - i,
        {
            out.push(self.entries[i].0.clone());
            i += 1;
        }
        proof {
            let e = self.entries@;
            let l = labels(out@);
            assert forall|a: int, b: int| 0 <= a < l.len() && 0 <= b < l.len() && a != b implies l[a] != l[b] by {
                assert(out@[a]@ == e[a].0@ && out@[b]@ == e[b].0@);
            }
            assert forall|k: Seq<char>| self@.contains_key(k) <==> l.contains(k) by {
                if has_key(e, k) {
                    let j = key_index(e, k);
                    assert(l[j] == k);
                }
                if l.contains(k) {
                    let j = choose|j: int| 0 <= j < l.len() && l[j] == k;
                    assert(out@[j]@ == e[j].0@);
                }
            }
        }
        out
    }

    proof fn lemma_wf_after_update(&self, e0: Seq<(String, Vec<(String, u64)>)>, i: int)
        requires
            entries_wf(e0),
            0 <= i < e0.len(),
            self.entries@ == e0.update(i, (e0[i].0, self.entries@[i].1)),
            self.entries@[i].1@.len() > 0,
            targets_distinct(edge_list_view(self.entries@[i].1@)),
        ensures
            self.wf(),
    {
        lemma_table_update(e0, i, self.entries@[i].1);
    }

    proof fn lemma_wf_after_push(&self, e0: Seq<(String, Vec<(String, u64)>)>)
        requires
            entries_wf(e0),
            self.entries@.len() == e0.len() + 1,
            self.entries@.drop_last() == e0,
            keys_distinct(self.entries@),
            self.entries@.last().1@.len() > 0,
            targets_distinct(edge_list_view(self.entries@.last().1@)),
        ensures
            self.wf(),
    {
        let e = self.entries@;
        assert forall|j: int| #![trigger e[j]] 0 <= j < e.len()
            implies e[j].1@.len() > 0 && targets_distinct(edge_list_view(e[j].1@)) by {
            if j < e0.len() {
                assert(e[j] == e0[j]);
            }
        }
    }

    fn find_key(&self, key: &String) -> (r: Option<usize>)
        ensures
            match r {
                Some(i) => i < self.entries@.len() && self.entries@[i as int].0@ == key@,
                None => !has_key(self.entries@, key@),
            },
    {
        let mut i: usize = 0;
        while i < self.entries.len()
            invariant
                i <= self.entries@.len(),
                forall|j: int| 0 <= j < i ==> #[trigger] self.entries@[j].0@ != key@,
            decreases self.entries@.len() - i,
        {
            if self.entries[i].0 == *key {
                return Some(i);
            }
            i += 1;
        }
        None
    }
}

fn find_target(list: &Vec<(String, u64)>, t: &String) -> (r: Option<usize>)
    ensures
        match r {
            Some(x) => x < list@.len() && list@[x as int].0@ == t@,
            None => !has_target(edge_list_view(list@), t@),
        },
{
    let mut x: usize = 0;
    while x < list.len()
        invariant
            x <= list@.len(),
            forall|j: int| 0 <= j < x ==> #[trigger] list@[j].0@ != t@,
        decreases list@.len() - x,
    {
        if list[x].0 == *t {
            return Some(x);
        }
        x += 1;
    }
    proof {
        let l = edge_list_view(list@);
        assert forall|j: int| 0 <= j < l.len() implies #[trigger] l[j].0 != t@ by {
            assert(list@[j].0@ != t@);
        }
    }
    None
}

} // verus!
