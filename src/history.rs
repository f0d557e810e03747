//! The bounded, ordered history of observations kept for one
//! (true label, node) pair.
use vstd::prelude::*;

verus! {

/// One classified block: its slot and the index of the label it was
/// classified as.
#[derive(Clone, Copy, PartialEq, Eq, Debug, Structural)]
pub struct Observation {
    pub slot: u64,
    pub classified_as: usize,
}

/// The total order on observations: by slot, then by label index.
pub open spec fn obs_lt(a: Observation, b: Observation) -> bool {
    a.slot < b.slot || (a.slot == b.slot && a.classified_as < b.classified_as)
}

/// Strictly increasing: ordered, and without repeats.
pub open spec fn sorted(s: Seq<Observation>) -> bool {
    forall|i: int, j: int| 0 <= i < j < s.len() ==> obs_lt(#[trigger] s[i], #[trigger] s[j])
}

/// `s` with `o` put in its place by the order; `s` itself if it holds `o`.
pub open spec fn insert_obs(s: Seq<Observation>, o: Observation) -> Seq<Observation>
    decreases s.len(),
{
    if s.len() == 0 {
        seq![o]
    } else if obs_lt(s.last(), o) {
        s.push(o)
    } else if s.last() == o {
        s
    } else {
        insert_obs(s.drop_last(), o).push(s.last())
    }
}

/// The `limit` greatest observations of a sorted `s`.
pub open spec fn keep_newest(s: Seq<Observation>, limit: nat) -> Seq<Observation> {
    if s.len() > limit {
        s.subrange(s.len() - limit, s.len() as int)
    } else {
        s
    }
}

/// What a history holds after observing `o`.
pub open spec fn observe(s: Seq<Observation>, o: Observation, limit: nat) -> Seq<Observation> {
    keep_newest(insert_obs(s, o), limit)
}

/// Every observation that a history holds after observing `o` was held
/// before or is `o`.
pub proof fn lemma_observe_from(s: Seq<Observation>, o: Observation, limit: nat)
    ensures
        forall|j: int| 0 <= j < observe(s, o, limit).len() ==>
            s.contains(#[trigger] observe(s, o, limit)[j]) || observe(s, o, limit)[j] == o,
{
    lemma_insert_from(s, o);
    let ins = insert_obs(s, o);
    assert forall|j: int| 0 <= j < observe(s, o, limit).len() implies
        s.contains(#[trigger] observe(s, o, limit)[j]) || observe(s, o, limit)[j] == o by {
        if ins.len() > limit {
            assert(observe(s, o, limit)[j] == ins[j + ins.len() - limit]);
        }
    }
}

proof fn lemma_insert_from(s: Seq<Observation>, o: Observation)
    ensures
        forall|j: int| 0 <= j < insert_obs(s, o).len() ==>
            s.contains(#[trigger] insert_obs(s, o)[j]) || insert_obs(s, o)[j] == o,
    decreases s.len(),
{
    if s.len() == 0 {
    } else if obs_lt(s.last(), o) {
        assert forall|j: int| 0 <= j < insert_obs(s, o).len() implies
            s.contains(#[trigger] insert_obs(s, o)[j]) || insert_obs(s, o)[j] == o by {
            if j < s.len() {
                assert(s[j] == insert_obs(s, o)[j]);
            }
        }
    } else if s.last() == o {
        assert forall|j: int| 0 <= j < insert_obs(s, o).len() implies
            s.contains(#[trigger] insert_obs(s, o)[j]) || insert_obs(s, o)[j] == o by {
            assert(s[j] == insert_obs(s, o)[j]);
        }
    } else {
        let d = s.drop_last();
        lemma_insert_from(d, o);
        assert forall|j: int| 0 <= j < insert_obs(s, o).len() implies
            s.contains(#[trigger] insert_obs(s, o)[j]) || insert_obs(s, o)[j] == o by {
            if j < insert_obs(d, o).len() {
                assert(insert_obs(s, o)[j] == insert_obs(d, o)[j]);
                if d.contains(insert_obs(d, o)[j]) {
                    let k = choose|k: int| 0 <= k < d.len() && d[k] == insert_obs(d, o)[j];
                    assert(s[k] == d[k]);
                }
            } else {
                assert(insert_obs(s, o)[j] == s[s.len() - 1]);
            }
        }
    }
}

proof fn lemma_insert_sorted(s: Seq<Observation>, o: Observation)
    requires
        sorted(s),
    ensures
        sorted(insert_obs(s, o)),
        insert_obs(s, o).contains(o),
    decreases s.len(),
{
    lemma_insert_from(s, o);
    if s.len() == 0 {
        assert(insert_obs(s, o)[0] == o);
    } else if obs_lt(s.last(), o) {
        assert(insert_obs(s, o)[s.len() as int] == o);
    } else if s.last() == o {
        assert(s[s.len() - 1] == o);
    } else {
        let d = s.drop_last();
        lemma_insert_sorted(d, o);
        lemma_insert_from(d, o);
        let r = insert_obs(d, o);
        let j = choose|j: int| 0 <= j < r.len() && r[j] == o;
        assert(insert_obs(s, o)[j] == o);
        assert forall|a: int, b: int| 0 <= a < b < insert_obs(s, o).len() implies
            obs_lt(#[trigger] insert_obs(s, o)[a], #[trigger] insert_obs(s, o)[b]) by {
            if b == r.len() {
                assert(r[a] == insert_obs(s, o)[a]);
                if d.contains(r[a]) {
                    let k = choose|k: int| 0 <= k < d.len() && d[k] == r[a];
                    assert(s[k] == d[k]);
                }
            } else {
                assert(r[a] == insert_obs(s, o)[a]);
                assert(r[b] == insert_obs(s, o)[b]);
            }
        }
    }
}

proof fn lemma_insert_present(s: Seq<Observation>, o: Observation)
    requires
        sorted(s),
        s.contains(o),
    ensures
        insert_obs(s, o) == s,
    decreases s.len(),
{
    let k = choose|k: int| 0 <= k < s.len() && s[k] == o;
    if s.last() != o {
        let d = s.drop_last();
        assert(k < s.len() - 1);
        assert(d[k] == o);
        lemma_insert_present(d, o);
        assert(d.push(s.last()) =~= s);
    }
}

proof fn lemma_insert_least(s: Seq<Observation>, o: Observation)
    requires
        forall|i: int| 0 <= i < s.len() ==> obs_lt(o, #[trigger] s[i]),
    ensures
        insert_obs(s, o) == seq![o] + s,
    decreases s.len(),
{
    if s.len() == 0 {
        assert(seq![o] + s =~= seq![o]);
    } else {
        let d = s.drop_last();
        assert(obs_lt(o, s[s.len() - 1]));
        lemma_insert_least(d, o);
        assert((seq![o] + d).push(s.last()) =~= seq![o] + s);
    }
}

/// Observing the same observation twice leaves a history as observing it
/// once does.
pub proof fn lemma_observe_twice(s: Seq<Observation>, o: Observation, limit: nat)
    requires
        sorted(s),
    ensures
        observe(observe(s, o, limit), o, limit) == observe(s, o, limit),
{
    let ins = insert_obs(s, o);
    let h = observe(s, o, limit);
    lemma_insert_sorted(s, o);
    assert(sorted(h));
    if h.contains(o) {
        lemma_insert_present(h, o);
    } else {
        let j = choose|j: int| 0 <= j < ins.len() && ins[j] == o;
        assert(ins.len() > limit);
        let lo = ins.len() - limit;
        if j >= lo {
            assert(h[j - lo] == o);
        }
        assert forall|i: int| 0 <= i < h.len() implies obs_lt(o, #[trigger] h[i]) by {
            assert(h[i] == ins[i + lo]);
        }
        lemma_insert_least(h, o);
        assert((seq![o] + h).subrange(1, limit as int + 1) =~= h);
    }
}

/// A capped, ordered set of observations.
pub struct NodeAccuracy {
    observation_limit: usize,
    observations: Vec<Observation>,
}

impl NodeAccuracy {
    pub closed spec fn limit(&self) -> nat {
        self.observation_limit as nat
    }

    pub closed spec fn observations(&self) -> Seq<Observation> {
        self.observations@
    }

    pub open spec fn wf(&self) -> bool {
        &&& sorted(self.observations())
        &&& self.observations().len() <= self.limit()
    }

    /// An empty history that keeps at most `limit` observations.
    pub fn new(limit: usize) -> (r: Self)
        ensures
            r.wf(),
            r.limit() == limit,
            r.observations() == Seq::<Observation>::empty(),
    {
        NodeAccuracy { observation_limit: limit, observations: Vec::new() }
    }

    pub fn observation_limit(&self) -> (r: usize)
        ensures
            r == self.limit(),
    {
        self.observation_limit
    }

    pub fn observation_list(&self) -> (r: &Vec<Observation>)
        ensures
            r@ == self.observations(),
    {
        &self.observations
    }

    /// Adds `o` (nothing changes if it is already held), then drops the
    /// smallest observations until at most the limit remain.
    pub fn insert(&mut self, o: Observation)
        requires
            old(self).wf(),
        ensures
            final(self).wf(),
            final(self).limit() == old(self).limit(),
            final(self).observations() == observe(old(self).observations(), o, old(self).limit()),
    {
        let ghost s = self.observations@;
        let len = self.observations.len();
        let mut k: usize = len;
        assert(s.subrange(0, len as int) =~= s);
        assert(insert_obs(s, o) + s.subrange(len as int, len as int) =~= insert_obs(s, o));
        while k > 0 && obs_less(o, self.observations[k - 1])
            invariant
                s == self.observations@,
                sorted(s),
                len == s.len(),
                k <= len,
                insert_obs(s, o) == insert_obs(s.subrange(0, k as int), o) + s.subrange(k as int, len as int),
                forall|j: int| k <= j < len ==> obs_lt(o, #[trigger] s[j]),
            decreases k,
        {
            let ghost p = s.subrange(0, k as int);
            assert(p.drop_last() =~= s.subrange(0, k - 1));
            assert(s.subrange(k - 1, len as int) =~= seq![s[k - 1]] + s.subrange(k as int, len as int));
            assert(insert_obs(p, o) == insert_obs(p.drop_last(), o).push(p.last()));
            assert(insert_obs(s.subrange(0, k - 1), o) + s.subrange(k - 1, len as int)
                =~= insert_obs(p.drop_last(), o).push(p.last()) + s.subrange(k as int, len as int));
            k = k - 1;
        }
        if k > 0 && self.observations[k - 1] == o {
            assert(s.subrange(0, k as int) + s.subrange(k as int, len as int) =~= s);
        } else {
            proof {
                if k > 0 {
                    assert(obs_lt(s[k - 1], o));
                }
                assert(s.subrange(0, k as int).push(o) + s.subrange(k as int, len as int)
                    =~= s.subrange(0, k as int).push(o) + s.subrange(k as int, len as int));
            }
            self.observations.insert(k, o);
            assert(self.observations@ =~= s.subrange(0, k as int).push(o) + s.subrange(k as int, len as int));
            assert(sorted(self.observations@)) by {
                assert forall|i: int, j: int| 0 <= i < j < self.observations@.len() implies
                    obs_lt(#[trigger] self.observations@[i], #[trigger] self.observations@[j]) by {
                    if j < k {
                    } else if i > k {
                        assert(self.observations@[i] == s[i - 1]);
                        assert(self.observations@[j] == s[j - 1]);
                    } else if i == k {
                        assert(self.observations@[j] == s[j - 1]);
                    } else if j == k {
                        assert(obs_lt(s[i], s[k - 1]) || i == k - 1);
                    } else {
                        assert(self.observations@[j] == s[j - 1]);
                    }
                }
            }
        }
        let ghost ins = self.observations@;
        assert(ins == insert_obs(s, o));
        let mut drop: usize = 0;
        if self.observations.len() > self.observation_limit {
            drop = self.observations.len() - self.observation_limit;
        }
        let mut kept: Vec<Observation> = Vec::new();
        let mut i: usize = drop;
        while i < self.observations.len()
            invariant
                ins == self.observations@,
                drop <= i <= ins.len(),
                kept@ == ins.subrange(drop as int, i as int),
            decreases ins.len() - i,
        {
            kept.push(self.observations[i]);
            assert(kept@ =~= ins.subrange(drop as int, i + 1));
            i = i + 1;
        }
        proof {
            assert(kept@ =~= keep_newest(ins, self.observation_limit as nat));
        }
        self.observations = kept;
    }
}

/// `a < b` in the order of observations.
pub fn obs_less(a: Observation, b: Observation) -> (r: bool)
    ensures
        r == obs_lt(a, b),
{
    a.slot < b.slot || (a.slot == b.slot && a.classified_as < b.classified_as)
}

} // verus!
