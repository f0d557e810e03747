//! The accuracy tracker: the write path that files each classified block
//! under its (true label, node) history.
use crate::history::{lemma_observe_from, lemma_observe_twice, observe, sorted, NodeAccuracy, Observation};
use crate::interner::{get_or_intern, interned_count, resolve, interned_labels, new_interner, LabelInterner};
use crate::model::{lemma_confusion_identity, matching_observations, positive_totals, sum_to};
use vstd::prelude::*;

verus! {

/// Two weeks of slots: 225 epochs a day, 32 slots an epoch, 14 days.
pub const LIMIT: usize = 225 * 32 * 14;

/// The history of one node under one true label.
pub struct NodeEntry {
    /// Index of the true label.
    pub client: usize,
    /// The node's name.
    pub name: String,
    pub accuracy: NodeAccuracy,
}

pub struct AccuracyTracker {
    nodes: Vec<NodeEntry>,
    interner: LabelInterner,
    limit: usize,
}

/// The labels after `s` is interned.
pub open spec fn intern_label(labels: Seq<Seq<char>>, s: Seq<char>) -> Seq<Seq<char>> {
    if labels.contains(s) {
        labels
    } else {
        labels.push(s)
    }
}

/// The index of a label that `labels` holds.
pub open spec fn label_index(labels: Seq<Seq<char>>, s: Seq<char>) -> nat {
    labels.index_of(s) as nat
}

/// `e` is the history of `name` under the label with index `client`.
pub open spec fn entry_is(e: NodeEntry, client: nat, name: Seq<char>) -> bool {
    e.client == client && e.name@ == name
}

/// `a` and `b` hold the same history.
pub open spec fn same_entry(a: NodeEntry, b: NodeEntry) -> bool {
    &&& a.client == b.client
    &&& a.name@ == b.name@
    &&& a.accuracy.limit() == b.accuracy.limit()
    &&& a.accuracy.observations() == b.accuracy.observations()
}

impl Default for AccuracyTracker {
    fn default() -> (r: Self)
        ensures
            r.wf(),
            r.limit() == LIMIT,
            r.labels().len() == 0,
            r.nodes().len() == 0,
    {
        Self::new()
    }
}

impl AccuracyTracker {
    /// The interned labels; a label's index is its position here.
    pub closed spec fn labels(&self) -> Seq<Seq<char>> {
        interned_labels(self.interner)
    }

    /// The histories, one for each (true label, node) pair seen.
    pub closed spec fn nodes(&self) -> Seq<NodeEntry> {
        self.nodes@
    }

    /// The capacity of each history.
    pub closed spec fn limit(&self) -> nat {
        self.limit as nat
    }

    pub open spec fn wf(&self) -> bool {
        &&& self.labels().no_duplicates()
        &&& self.labels().len() <= u32::MAX
        &&& forall|i: int| 0 <= i < self.nodes().len() ==> {
            let e = #[trigger] self.nodes()[i];
            &&& e.client < self.labels().len()
            &&& e.accuracy.wf()
            &&& e.accuracy.limit() == self.limit()
            &&& forall|j: int| 0 <= j < e.accuracy.observations().len()
                ==> (#[trigger] e.accuracy.observations()[j]).classified_as < self.labels().len()
        }
        &&& forall|i: int, j: int| 0 <= i < j < self.nodes().len() ==>
            !entry_is(#[trigger] self.nodes()[i], #[trigger] self.nodes()[j].client as nat, self.nodes()[j].name@)
    }

    /// `self` is `old` after a block of `node`, truly `true_label` and
    /// classified as `classified_as`, was recorded at `slot`.
    pub open spec fn recorded_from(
        &self,
        old: &AccuracyTracker,
        node: Seq<char>,
        true_label: Seq<char>,
        classified_as: Seq<char>,
        slot: u64,
    ) -> bool {
        let labels = intern_label(intern_label(old.labels(), true_label), classified_as);
        let t = label_index(labels, true_label);
        let o = Observation { slot, classified_as: label_index(labels, classified_as) as usize };
        &&& self.labels() == labels
        &&& self.limit() == old.limit()
        &&& if exists|i: int| 0 <= i < old.nodes().len() && entry_is(#[trigger] old.nodes()[i], t, node) {
            let i = choose|i: int| 0 <= i < old.nodes().len() && entry_is(#[trigger] old.nodes()[i], t, node);
            &&& self.nodes().len() == old.nodes().len()
            &&& forall|j: int| 0 <= j < old.nodes().len() && j != i ==> same_entry(#[trigger] self.nodes()[j], old.nodes()[j])
            &&& entry_is(self.nodes()[i], t, node)
            &&& self.nodes()[i].accuracy.limit() == old.limit()
            &&& self.nodes()[i].accuracy.observations() == observe(old.nodes()[i].accuracy.observations(), o, old.limit())
        } else {
            &&& self.nodes().len() == old.nodes().len() + 1
            &&& forall|j: int| 0 <= j < old.nodes().len() ==> same_entry(#[trigger] self.nodes()[j], old.nodes()[j])
            &&& entry_is(self.nodes().last(), t, node)
            &&& self.nodes().last().accuracy.limit() == old.limit()
            &&& self.nodes().last().accuracy.observations() == observe(Seq::empty(), o, old.limit())
        }
    }

    /// An empty tracker whose histories keep two weeks of observations.
    pub fn new() -> (r: Self)
        ensures
            r.wf(),
            r.limit() == LIMIT,
            r.labels().len() == 0,
            r.nodes().len() == 0,
    {
        Self::with_limit(LIMIT)
    }

    /// An empty tracker whose histories keep at most `limit` observations.
    pub fn with_limit(limit: usize) -> (r: Self)
        ensures
            r.wf(),
            r.limit() == limit,
            r.labels().len() == 0,
            r.nodes().len() == 0,
    {
        AccuracyTracker { nodes: Vec::new(), interner: new_interner(), limit }
    }

    pub(crate) fn node_list(&self) -> (r: &Vec<NodeEntry>)
        ensures
            r@ == self.nodes(),
    {
        &self.nodes
    }

    /// The label with index `a`.
    pub(crate) fn label_name(&self, a: usize) -> (r: String)
        requires
            self.wf(),
            a < self.labels().len(),
        ensures
            r@ == self.labels()[a as int],
    {
        resolve(&self.interner, a).unwrap()
    }

    /// How many histories the tracker holds.
    pub fn node_count(&self) -> (r: usize)
        ensures
            r == self.nodes().len(),
    {
        self.nodes.len()
    }

    /// History `i`.
    pub fn node(&self, i: usize) -> (r: &NodeEntry)
        requires
            i < self.nodes().len(),
        ensures
            *r == self.nodes()[i as int],
    {
        &self.nodes[i]
    }

    /// How many labels have been interned.
    pub fn label_count(&self) -> (r: usize)
        ensures
            r == self.labels().len(),
    {
        interned_count(&self.interner)
    }

    proof fn lemma_label_index(labels: Seq<Seq<char>>, i: int)
        requires
            labels.no_duplicates(),
            0 <= i < labels.len(),
        ensures
            label_index(labels, labels[i]) == i,
    {
        let s = labels[i];
        assert(labels.contains(s));
        let j = labels.index_of(s);
        assert(labels[j] == s);
    }

    /// Files a block of `node_name`, whose true label is `true_label` and
    /// which was classified as `classified_as_name`, at `slot`: the history of
    /// (true label, node), made empty on first use, takes the observation and
    /// drops its oldest beyond the limit.
    pub fn record_block(&mut self, node_name: String, true_label: String, classified_as_name: String, slot: u64)
        requires
            old(self).wf(),
            old(self).labels().len() + 1 < u32::MAX,
        ensures
            final(self).wf(),
            final(self).recorded_from(old(self), node_name@, true_label@, classified_as_name@, slot),
    {
        let ghost old_labels = self.labels();
        let t = get_or_intern(&mut self.interner, true_label.as_str());
        let ghost mid_labels = self.labels();
        let p = get_or_intern(&mut self.interner, classified_as_name.as_str());
        let ghost labels = self.labels();
        proof {
            assert(mid_labels == intern_label(old_labels, true_label@));
            assert(labels == intern_label(mid_labels, classified_as_name@));
            assert(labels.no_duplicates());
            assert(labels[t as int] == true_label@);
            Self::lemma_label_index(labels, t as int);
            Self::lemma_label_index(labels, p as int);
            assert forall|i: int| 0 <= i < self.nodes().len() implies {
                let e = #[trigger] self.nodes()[i];
                &&& e.client < self.labels().len()
                &&& forall|j: int| 0 <= j < e.accuracy.observations().len()
                    ==> (#[trigger] e.accuracy.observations()[j]).classified_as < self.labels().len()
            } by {
                assert(old(self).nodes()[i] == self.nodes()[i]);
            }
        }
        let o = Observation { slot, classified_as: p };
        let mut i: usize = 0;
        let mut found = false;
        while i < self.nodes.len()
            invariant
                self.wf(),
                self.labels() == labels,
                self.nodes() == old(self).nodes(),
                i <= self.nodes().len(),
                found ==> i < self.nodes().len() && entry_is(self.nodes()[i as int], t as nat, node_name@),
                !found ==> forall|j: int| 0 <= j < i ==> !entry_is(#[trigger] self.nodes()[j], t as nat, node_name@),
            ensures
                !found ==> i == self.nodes().len(),
            decreases self.nodes().len() - i + (if found { 0int } else { 1int }),
        {
            if self.nodes[i].client == t && self.nodes[i].name == node_name {
                found = true;
                break;
            }
            i = i + 1;
        }
        if found {
            proof {
                let k = choose|k: int| 0 <= k < old(self).nodes().len() && entry_is(#[trigger] old(self).nodes()[k], t as nat, node_name@);
                if k != i {
                    if k < i {
                        assert(!entry_is(self.nodes()[k], self.nodes()[i as int].client as nat, self.nodes()[i as int].name@));
                    } else {
                        assert(!entry_is(self.nodes()[i as int], self.nodes()[k].client as nat, self.nodes()[k].name@));
                    }
                }
            }
            let ghost before = self.nodes()[i as int].accuracy.observations();
            self.nodes[i].accuracy.insert(o);
            proof {
                lemma_observe_from(before, o, self.limit as nat);
                let e = self.nodes()[i as int];
                assert forall|j: int| 0 <= j < e.accuracy.observations().len() implies
                    (#[trigger] e.accuracy.observations()[j]).classified_as < self.labels().len() by {
                    let x = e.accuracy.observations()[j];
                    if before.contains(x) {
                        let k = choose|k: int| 0 <= k < before.len() && before[k] == x;
                        assert(old(self).nodes()[i as int].accuracy.observations()[k] == x);
                    }
                }
                assert forall|a: int, b: int| 0 <= a < b < self.nodes().len() implies
                    !entry_is(#[trigger] self.nodes()[a], #[trigger] self.nodes()[b].client as nat, self.nodes()[b].name@) by {
                    assert(entry_is(old(self).nodes()[a], self.nodes()[a].client as nat, self.nodes()[a].name@));
                    assert(entry_is(old(self).nodes()[b], self.nodes()[b].client as nat, self.nodes()[b].name@));
                }
            }
        } else {
            let mut accuracy = NodeAccuracy::new(self.limit);
            accuracy.insert(o);
            proof {
                lemma_observe_from(Seq::empty(), o, self.limit as nat);
            }
            self.nodes.push(NodeEntry { client: t, name: node_name, accuracy });
            proof {
                let e = self.nodes().last();
                assert forall|j: int| 0 <= j < e.accuracy.observations().len() implies
                    (#[trigger] e.accuracy.observations()[j]).classified_as < self.labels().len() by {
                    let x = e.accuracy.observations()[j];
                    assert(!Seq::<Observation>::empty().contains(x));
                }
                assert forall|a: int, b: int| 0 <= a < b < self.nodes().len() implies
                    !entry_is(#[trigger] self.nodes()[a], #[trigger] self.nodes()[b].client as nat, self.nodes()[b].name@) by {
                    assert(self.nodes()[a] == old(self).nodes()[a]);
                    if b < old(self).nodes().len() {
                        assert(self.nodes()[b] == old(self).nodes()[b]);
                    }
                }
                assert forall|j: int| 0 <= j < old(self).nodes().len() implies
                    same_entry(#[trigger] self.nodes()[j], old(self).nodes()[j]) by {
                    assert(self.nodes()[j] == old(self).nodes()[j]);
                }
            }
        }
    }
}

proof fn lemma_intern_contains(labels: Seq<Seq<char>>, s: Seq<char>, x: Seq<char>)
    requires
        labels.contains(x) || x == s,
    ensures
        intern_label(labels, s).contains(x),
{
    if labels.contains(x) {
        let k = choose|k: int| 0 <= k < labels.len() && labels[k] == x;
        assert(intern_label(labels, s)[k] == x);
    } else if !labels.contains(s) {
        assert(intern_label(labels, s)[labels.len() as int] == x);
    }
}

/// Recording the same block twice leaves the tracker as recording it once
/// does: the second record changes no label and no history.
pub proof fn lemma_record_twice(
    s0: AccuracyTracker,
    s1: AccuracyTracker,
    s2: AccuracyTracker,
    node: Seq<char>,
    true_label: Seq<char>,
    classified_as: Seq<char>,
    slot: u64,
)
    requires
        s0.wf(),
        s1.wf(),
        s1.recorded_from(&s0, node, true_label, classified_as, slot),
        s2.recorded_from(&s1, node, true_label, classified_as, slot),
    ensures
        s2.labels() == s1.labels(),
        s2.nodes().len() == s1.nodes().len(),
        forall|i: int| 0 <= i < s1.nodes().len() ==> same_entry(#[trigger] s2.nodes()[i], s1.nodes()[i]),
{
    let l1 = s1.labels();
    let mid = intern_label(s0.labels(), true_label);
    lemma_intern_contains(s0.labels(), true_label, true_label);
    lemma_intern_contains(mid, classified_as, true_label);
    lemma_intern_contains(mid, classified_as, classified_as);
    assert(intern_label(l1, true_label) == l1);
    assert(intern_label(l1, classified_as) == l1);
    let t = label_index(l1, true_label);
    let o = Observation { slot, classified_as: label_index(l1, classified_as) as usize };
    // The history of (true label, node) exists in `s1`; find where.
    let k: int = if exists|i: int| 0 <= i < s0.nodes().len() && entry_is(#[trigger] s0.nodes()[i], t, node) {
        choose|i: int| 0 <= i < s0.nodes().len() && entry_is(#[trigger] s0.nodes()[i], t, node)
    } else {
        s0.nodes().len() as int
    };
    assert(entry_is(s1.nodes()[k], t, node));
    let before = if k < s0.nodes().len() { s0.nodes()[k].accuracy.observations() } else { Seq::empty() };
    assert(sorted(before)) by {
        if k < s0.nodes().len() {
            assert(s0.nodes()[k].accuracy.wf());
        }
    }
    assert(s1.nodes()[k].accuracy.observations() == observe(before, o, s0.limit()));
    lemma_observe_twice(before, o, s0.limit());
    let k2 = choose|i: int| 0 <= i < s1.nodes().len() && entry_is(#[trigger] s1.nodes()[i], t, node);
    if k2 != k {
        if k2 < k {
            assert(!entry_is(s1.nodes()[k2], s1.nodes()[k].client as nat, s1.nodes()[k].name@));
        } else {
            assert(!entry_is(s1.nodes()[k], s1.nodes()[k2].client as nat, s1.nodes()[k2].name@));
        }
    }
}

/// No history holds more observations than the tracker's limit.
pub proof fn lemma_histories_bounded(t: AccuracyTracker)
    requires
        t.wf(),
    ensures
        forall|i: int| 0 <= i < t.nodes().len() ==> (#[trigger] t.nodes()[i]).accuracy.observations().len() <= t.limit(),
{
    assert forall|i: int| 0 <= i < t.nodes().len() implies (#[trigger] t.nodes()[i]).accuracy.observations().len() <= t.limit() by {
        assert(t.nodes()[i].accuracy.wf());
    }
}

/// The true positives of all interned labels add up to the observations,
/// across the whole tracker, whose classification matches their true label.
pub proof fn lemma_tracker_confusion_identity(t: AccuracyTracker)
    requires
        t.wf(),
    ensures
        sum_to(positive_totals(t.nodes()), t.labels().len()) == matching_observations(t.nodes()),
{
    lemma_confusion_identity(t.nodes(), t.labels().len());
}

} // verus!
