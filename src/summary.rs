//! The read path: a summary of every history, and the confusion matrix
//! derived from all of them, recomputed on each query.
use crate::history::Observation;
use crate::interner::resolve;
use crate::model::{
    count_in, false_negatives, false_positives, has_node, is_reported, lemma_counts_within_total,
    lemma_matrix_bounded, lemma_pair_count_bounded, lemma_sum_prefix, lemma_sum_term, lemma_total_prefix,
    matrix_total, miss_terms, negative_terms, negatives_within, pair_count, sum_to, third_terms,
    total_observations, true_negatives, true_positives, wrong_terms,
};
use crate::tracker::{AccuracyTracker, NodeEntry};
use vstd::prelude::*;

verus! {

/// A count attributed to a label.
pub struct LabelCount {
    pub label: String,
    pub count: usize,
}

/// The one-vs-rest outcomes of one label over all histories.
pub struct AggregateSummary {
    pub label: String,
    pub true_positives: usize,
    pub true_negatives: usize,
    pub false_positives: usize,
    pub false_negatives: usize,
    /// False negatives by the label they were classified as.
    pub false_negatives_detail: Vec<LabelCount>,
}

/// The outcomes within one (true label, node) history.
pub struct NodeSummary {
    pub name: String,
    pub label: String,
    pub true_positives: usize,
    /// Misclassifications by the label they were classified as.
    pub false_negatives: Vec<LabelCount>,
    /// The slot of the greatest observation held.
    pub latest_slot: Option<u64>,
}

pub struct Summary {
    /// One entry for each reported label, by increasing label index.
    pub clients: Vec<AggregateSummary>,
    /// One entry for each history, in the tracker's order.
    pub nodes: Vec<NodeSummary>,
}

/// The pairs `(p, f(p))` for `p < k` with `f(p) > 0`, by increasing `p`.
pub open spec fn nonzero_terms(f: spec_fn(nat) -> nat, k: nat) -> Seq<(nat, nat)>
    decreases k,
{
    if k == 0 {
        Seq::empty()
    } else {
        let d = nonzero_terms(f, (k - 1) as nat);
        if f((k - 1) as nat) > 0 {
            d.push(((k - 1) as nat, f((k - 1) as nat)))
        } else {
            d
        }
    }
}

/// Label indices replaced by the labels themselves.
pub open spec fn labelled(labels: Seq<Seq<char>>, d: Seq<(nat, nat)>) -> Seq<(Seq<char>, nat)> {
    d.map_values(|e: (nat, nat)| (labels[e.0 as int], e.1))
}

pub open spec fn counts_view(v: Seq<LabelCount>) -> Seq<(Seq<char>, nat)> {
    v.map_values(|e: LabelCount| (e.label@, e.count as nat))
}

/// The observations of one history classified as `p`, none when `p` is the
/// true label.
pub open spec fn node_miss_terms(obs: Seq<Observation>, client: nat) -> spec_fn(nat) -> nat {
    |p: nat| if p == client { 0 } else { count_in(obs, p) }
}

/// The indices of the labels below `k` that a summary reports.
pub open spec fn reported_labels(nodes: Seq<NodeEntry>, n: nat, k: nat) -> Seq<nat>
    decreases k,
{
    if k == 0 {
        Seq::empty()
    } else {
        let d = reported_labels(nodes, n, (k - 1) as nat);
        if is_reported(nodes, n, (k - 1) as nat) {
            d.push((k - 1) as nat)
        } else {
            d
        }
    }
}

/// `s` summarises history `e` among `labels`.
pub open spec fn node_summary_is(s: NodeSummary, e: NodeEntry, labels: Seq<Seq<char>>) -> bool {
    let obs = e.accuracy.observations();
    &&& s.name@ == e.name@
    &&& s.label@ == labels[e.client as int]
    &&& s.true_positives == count_in(obs, e.client as nat)
    &&& counts_view(s.false_negatives@) == labelled(labels, nonzero_terms(node_miss_terms(obs, e.client as nat), labels.len()))
    &&& s.latest_slot == (if obs.len() == 0 { None } else { Some(obs.last().slot) })
}

/// `s` holds the outcomes of label `a` over `nodes`.
pub open spec fn aggregate_is(s: AggregateSummary, nodes: Seq<NodeEntry>, labels: Seq<Seq<char>>, a: nat) -> bool {
    let n = labels.len();
    &&& s.label@ == labels[a as int]
    &&& s.true_positives == true_positives(nodes, a)
    &&& s.false_negatives == false_negatives(nodes, n, a)
    &&& s.false_positives == false_positives(nodes, n, a)
    &&& s.true_negatives == true_negatives(nodes, n, a)
    &&& counts_view(s.false_negatives_detail@) == labelled(labels, nonzero_terms(miss_terms(nodes, a), n))
}

impl AccuracyTracker {
    /// `s` is the summary of this tracker's histories.
    pub open spec fn summarises(&self, s: Summary) -> bool {
        let nodes = self.nodes();
        let labels = self.labels();
        let reported = reported_labels(nodes, labels.len(), labels.len());
        &&& s.nodes@.len() == nodes.len()
        &&& forall|i: int| 0 <= i < nodes.len() ==> node_summary_is(#[trigger] s.nodes@[i], nodes[i], labels)
        &&& s.clients@.len() == reported.len()
        &&& forall|j: int| 0 <= j < reported.len() ==> aggregate_is(#[trigger] s.clients@[j], nodes, labels, reported[j])
    }

    /// Derives the summary of every history and the confusion matrix of
    /// every reported label. `None` only where the histories hold more
    /// observations than a `usize` counts, which memory rules out.
    pub fn summarise(&self) -> (r: Option<Summary>)
        requires
            self.wf(),
        ensures
            r.is_some() == (total_observations(self.nodes()) <= usize::MAX),
            r.is_some() ==> self.summarises(r.unwrap()),
    {
        let nodes = self.node_list();
        let ghost ns = self.nodes();
        let mut total: usize = 0;
        let mut i: usize = 0;
        while i < nodes.len()
            invariant
                ns == nodes@,
                ns == self.nodes(),
                i <= ns.len(),
                total == total_observations(ns.subrange(0, i as int)),
            decreases ns.len() - i,
        {
            let len = nodes[i].accuracy.observation_list().len();
            proof {
                assert(ns.subrange(0, i + 1).drop_last() =~= ns.subrange(0, i as int));
                assert(ns.subrange(0, i + 1).last() == ns[i as int]);
                assert(total_observations(ns.subrange(0, i + 1)) == total + len);
                lemma_total_prefix(ns, i + 1);
            }
            if len > usize::MAX - total {
                return None;
            }
            total = total + len;
            i = i + 1;
        }
        proof {
            assert(ns.subrange(0, ns.len() as int) =~= ns);
        }
        let n = self.label_count();
        let mut node_summaries: Vec<NodeSummary> = Vec::new();
        let mut counts: Vec<Vec<usize>> = Vec::new();
        let mut i: usize = 0;
        while i < nodes.len()
            invariant
                self.wf(),
                ns == nodes@,
                ns == self.nodes(),
                n == self.labels().len(),
                i <= ns.len(),
                node_summaries@.len() == i,
                counts@.len() == i,
                forall|k: int| 0 <= k < i ==> node_summary_is(#[trigger] node_summaries@[k], ns[k], self.labels()),
                forall|k: int| 0 <= k < i ==> (#[trigger] counts@[k])@.len() == n,
                forall|k: int, p: int| 0 <= k < i && 0 <= p < n ==>
                    #[trigger] counts@[k]@[p] == count_in(ns[k].accuracy.observations(), p as nat),
            decreases ns.len() - i,
        {
            let (s, c) = self.summarise_node(i);
            node_summaries.push(s);
            counts.push(c);
            i = i + 1;
        }
        let m = self.confusion_matrix(&counts);
        proof {
            lemma_matrix_bounded(ns, n as nat);
        }
        let mut clients: Vec<AggregateSummary> = Vec::new();
        let mut a: usize = 0;
        while a < n
            invariant
                self.wf(),
                ns == self.nodes(),
                n == self.labels().len(),
                a <= n,
                matrix_total(ns, n as nat) <= usize::MAX,
                m@.len() == n,
                forall|t: int| 0 <= t < n ==> (#[trigger] m@[t])@.len() == n,
                forall|t: int, p: int| 0 <= t < n && 0 <= p < n ==> #[trigger] m@[t]@[p] == pair_count(ns, t as nat, p as nat),
                clients@.len() == reported_labels(ns, n as nat, a as nat).len(),
                forall|j: int| 0 <= j < clients@.len() ==>
                    aggregate_is(#[trigger] clients@[j], ns, self.labels(), reported_labels(ns, n as nat, a as nat)[j]),
            decreases n - a,
        {
            let agg = self.aggregate(&m, a);
            let ghost before = clients@;
            if self.has_history(a) || agg.false_positives > 0 {
                clients.push(agg);
                assert forall|j: int| 0 <= j < clients@.len() implies
                    aggregate_is(#[trigger] clients@[j], ns, self.labels(), reported_labels(ns, n as nat, (a + 1) as nat)[j]) by {
                    if j < before.len() {
                        assert(clients@[j] == before[j]);
                    }
                }
            }
            a = a + 1;
        }
        Some(Summary { clients, nodes: node_summaries })
    }

    /// Whether some history has label `a` as its true label.
    fn has_history(&self, a: usize) -> (r: bool)
        ensures
            r == has_node(self.nodes(), a as nat),
    {
        let nodes = self.node_list();
        let mut i: usize = 0;
        while i < nodes.len()
            invariant
                nodes@ == self.nodes(),
                i <= nodes@.len(),
                forall|k: int| 0 <= k < i ==> (#[trigger] nodes@[k]).client != a,
            decreases nodes@.len() - i,
        {
            if nodes[i].client == a {
                return true;
            }
            i = i + 1;
        }
        false
    }

    /// The labelled entries `(p, counts[p])` with `p != skip` and a count
    /// above zero, by increasing `p`.
    fn label_counts(&self, counts: &Vec<usize>, skip: usize, Ghost(f): Ghost<spec_fn(nat) -> nat>) -> (r: Vec<LabelCount>)
        requires
            self.wf(),
            counts@.len() == self.labels().len(),
            forall|p: nat| p < counts@.len() ==> #[trigger] f(p) == (if p == skip { 0 } else { counts@[p as int] as nat }),
        ensures
            counts_view(r@) == labelled(self.labels(), nonzero_terms(f, self.labels().len())),
    {
        let n = counts.len();
        let mut r: Vec<LabelCount> = Vec::new();
        let mut p: usize = 0;
        while p < n
            invariant
                self.wf(),
                n == counts@.len(),
                n == self.labels().len(),
                p <= n,
                forall|q: nat| q < counts@.len() ==> #[trigger] f(q) == (if q == skip { 0 } else { counts@[q as int] as nat }),
                counts_view(r@) == labelled(self.labels(), nonzero_terms(f, p as nat)),
            decreases n - p,
        {
            if p != skip && counts[p] > 0 {
                let label = self.label_name(p);
                let ghost before = r@;
                r.push(LabelCount { label, count: counts[p] });
                assert(counts_view(r@) =~= counts_view(before).push((label@, counts@[p as int] as nat)));
                assert(labelled(self.labels(), nonzero_terms(f, (p + 1) as nat)) =~=
                    labelled(self.labels(), nonzero_terms(f, p as nat)).push((self.labels()[p as int], f(p as nat))));
            }
            p = p + 1;
        }
        r
    }

    /// The summary of history `i`, and its counts by classified label.
    fn summarise_node(&self, i: usize) -> (r: (NodeSummary, Vec<usize>))
        requires
            self.wf(),
            i < self.nodes().len(),
        ensures
            node_summary_is(r.0, self.nodes()[i as int], self.labels()),
            r.1@.len() == self.labels().len(),
            forall|p: int| 0 <= p < self.labels().len() ==>
                #[trigger] r.1@[p] == count_in(self.nodes()[i as int].accuracy.observations(), p as nat),
    {
        let e = &self.node_list()[i];
        let obs = e.accuracy.observation_list();
        let n = self.label_count();
        let counts = node_counts(obs, n);
        let ghost f = node_miss_terms(obs@, e.client as nat);
        let false_negatives = self.label_counts(&counts, e.client, Ghost(f));
        let latest_slot = if obs.len() == 0 {
            None
        } else {
            Some(obs[obs.len() - 1].slot)
        };
        let s = NodeSummary {
            name: e.name.clone(),
            label: self.label_name(e.client),
            true_positives: counts[e.client],
            false_negatives,
            latest_slot,
        };
        (s, counts)
    }

    /// The confusion matrix: `m[t][p]` counts the blocks of label `t`
    /// classified as label `p`.
    fn confusion_matrix(&self, counts: &Vec<Vec<usize>>) -> (m: Vec<Vec<usize>>)
        requires
            self.wf(),
            total_observations(self.nodes()) <= usize::MAX,
            counts@.len() == self.nodes().len(),
            forall|k: int| 0 <= k < counts@.len() ==> (#[trigger] counts@[k])@.len() == self.labels().len(),
            forall|k: int, p: int| 0 <= k < counts@.len() && 0 <= p < self.labels().len() ==>
                #[trigger] counts@[k]@[p] == count_in(self.nodes()[k].accuracy.observations(), p as nat),
        ensures
            m@.len() == self.labels().len(),
            forall|t: int| 0 <= t < m@.len() ==> (#[trigger] m@[t])@.len() == self.labels().len(),
            forall|t: int, p: int| 0 <= t < m@.len() && 0 <= p < self.labels().len() ==>
                #[trigger] m@[t]@[p] == pair_count(self.nodes(), t as nat, p as nat),
    {
        let nodes = self.node_list();
        let ghost ns = self.nodes();
        let n = self.label_count();
        let mut m: Vec<Vec<usize>> = Vec::new();
        let mut t: usize = 0;
        while t < n
            invariant
                ns == nodes@,
                ns == self.nodes(),
                n == self.labels().len(),
                total_observations(ns) <= usize::MAX,
                counts@.len() == ns.len(),
                forall|k: int| 0 <= k < counts@.len() ==> (#[trigger] counts@[k])@.len() == n,
                forall|k: int, p: int| 0 <= k < counts@.len() && 0 <= p < n ==>
                    #[trigger] counts@[k]@[p] == count_in(ns[k].accuracy.observations(), p as nat),
                t <= n,
                m@.len() == t,
                forall|u: int| 0 <= u < t ==> (#[trigger] m@[u])@.len() == n,
                forall|u: int, p: int| 0 <= u < t && 0 <= p < n ==> #[trigger] m@[u]@[p] == pair_count(ns, u as nat, p as nat),
            decreases n - t,
        {
            let mut row: Vec<usize> = Vec::new();
            let mut p: usize = 0;
            while p < n
                invariant
                    row@.len() == p,
                    p <= n,
                    forall|q: int| 0 <= q < p ==> row@[q] == 0,
                decreases n - p,
            {
                row.push(0);
                p = p + 1;
            }
            let mut i: usize = 0;
            while i < nodes.len()
                invariant
                    ns == nodes@,
                    n == self.labels().len(),
                    total_observations(ns) <= usize::MAX,
                    counts@.len() == ns.len(),
                    forall|k: int| 0 <= k < counts@.len() ==> (#[trigger] counts@[k])@.len() == n,
                    forall|k: int, p: int| 0 <= k < counts@.len() && 0 <= p < n ==>
                        #[trigger] counts@[k]@[p] == count_in(ns[k].accuracy.observations(), p as nat),
                    t < n,
                    i <= ns.len(),
                    row@.len() == n,
                    forall|q: int| 0 <= q < n ==> #[trigger] row@[q] == pair_count(ns.subrange(0, i as int), t as nat, q as nat),
                decreases ns.len() - i,
            {
                let ghost pre = ns.subrange(0, i as int);
                let ghost next = ns.subrange(0, i + 1);
                proof {
                    assert(next.drop_last() =~= pre);
                    lemma_total_prefix(ns, i + 1);
                }
                if nodes[i].client == t {
                    let mut p: usize = 0;
                    while p < n
                        invariant
                            n == self.labels().len(),
                            counts@.len() == ns.len(),
                            i < ns.len(),
                            (counts@[i as int])@.len() == n,
                            forall|p: int| 0 <= p < n ==>
                                #[trigger] counts@[i as int]@[p] == count_in(ns[i as int].accuracy.observations(), p as nat),
                            next.len() == i + 1,
                            next.last() == ns[i as int],
                            next.drop_last() == pre,
                            ns[i as int].client == t,
                            total_observations(next) <= usize::MAX,
                            p <= n,
                            row@.len() == n,
                            forall|q: int| 0 <= q < p ==> #[trigger] row@[q] == pair_count(next, t as nat, q as nat),
                            forall|q: int| p <= q < n ==> #[trigger] row@[q] == pair_count(pre, t as nat, q as nat),
                        decreases n - p,
                    {
                        proof {
                            lemma_pair_count_bounded(next, t as nat, p as nat);
                            assert(pair_count(next, t as nat, p as nat) == pair_count(pre, t as nat, p as nat)
                                + count_in(ns[i as int].accuracy.observations(), p as nat));
                        }
                        let v = row[p] + counts[i][p];
                        row.set(p, v);
                        p = p + 1;
                    }
                } else {
                    assert forall|q: int| 0 <= q < n implies #[trigger] row@[q] == pair_count(next, t as nat, q as nat) by {}
                }
                i = i + 1;
            }
            proof {
                assert(ns.subrange(0, ns.len() as int) =~= ns);
            }
            m.push(row);
            t = t + 1;
        }
        m
    }

    /// The outcomes of label `a`, read off the confusion matrix `m`.
    fn aggregate(&self, m: &Vec<Vec<usize>>, a: usize) -> (r: AggregateSummary)
        requires
            self.wf(),
            a < self.labels().len(),
            matrix_total(self.nodes(), self.labels().len()) <= usize::MAX,
            m@.len() == self.labels().len(),
            forall|t: int| 0 <= t < m@.len() ==> (#[trigger] m@[t])@.len() == self.labels().len(),
            forall|t: int, p: int| 0 <= t < m@.len() && 0 <= p < self.labels().len() ==>
                #[trigger] m@[t]@[p] == pair_count(self.nodes(), t as nat, p as nat),
        ensures
            aggregate_is(r, self.nodes(), self.labels(), a as nat),
    {
        let ghost ns = self.nodes();
        let n = self.label_count();
        let ghost nn = n as nat;
        proof {
            lemma_counts_within_total(ns, nn, a as nat);
        }
        let row = &m[a];
        // False negatives: row `a` off the diagonal.
        let mut fnc: usize = 0;
        let mut c: usize = 0;
        while c < n
            invariant
                n == self.labels().len(),
                nn == n,
                a < n,
                c <= n,
                row@ == m@[a as int]@,
                row@.len() == n,
                forall|p: int| 0 <= p < n ==> #[trigger] row@[p] == pair_count(ns, a as nat, p as nat),
                false_negatives(ns, nn, a as nat) <= usize::MAX,
                fnc == sum_to(miss_terms(ns, a as nat), c as nat),
            decreases n - c,
        {
            proof {
                lemma_sum_prefix(miss_terms(ns, a as nat), (c + 1) as nat, nn);
            }
            if c != a {
                fnc = fnc + row[c];
            }
            c = c + 1;
        }
        // False positives: column `a` off the diagonal.
        let mut fpc: usize = 0;
        let mut t: usize = 0;
        while t < n
            invariant
                n == self.labels().len(),
                nn == n,
                a < n,
                t <= n,
                m@.len() == n,
                forall|u: int| 0 <= u < n ==> (#[trigger] m@[u])@.len() == n,
                forall|u: int, p: int| 0 <= u < n && 0 <= p < n ==> #[trigger] m@[u]@[p] == pair_count(ns, u as nat, p as nat),
                false_positives(ns, nn, a as nat) <= usize::MAX,
                fpc == sum_to(wrong_terms(ns, a as nat), t as nat),
            decreases n - t,
        {
            proof {
                lemma_sum_prefix(wrong_terms(ns, a as nat), (t + 1) as nat, nn);
            }
            if t != a {
                fpc = fpc + m[t][a];
            }
            t = t + 1;
        }
        // True negatives: every other label's blocks not classified as `a`.
        let mut tnc: usize = 0;
        let mut b: usize = 0;
        while b < n
            invariant
                n == self.labels().len(),
                nn == n,
                a < n,
                b <= n,
                m@.len() == n,
                forall|u: int| 0 <= u < n ==> (#[trigger] m@[u])@.len() == n,
                forall|u: int, p: int| 0 <= u < n && 0 <= p < n ==> #[trigger] m@[u]@[p] == pair_count(ns, u as nat, p as nat),
                true_negatives(ns, nn, a as nat) <= usize::MAX,
                tnc == sum_to(negative_terms(ns, nn, a as nat), b as nat),
            decreases n - b,
        {
            proof {
                lemma_sum_prefix(negative_terms(ns, nn, a as nat), (b + 1) as nat, nn);
            }
            if b != a {
                let ghost within = negatives_within(ns, nn, a as nat, b as nat);
                proof {
                    lemma_sum_prefix(third_terms(ns, a as nat, b as nat), nn, nn);
                    assert(tnc + within <= usize::MAX);
                }
                let mut inner: usize = m[b][b];
                let mut c: usize = 0;
                while c < n
                    invariant
                        n == self.labels().len(),
                        nn == n,
                        a < n,
                        b < n,
                        c <= n,
                        m@.len() == n,
                        forall|u: int| 0 <= u < n ==> (#[trigger] m@[u])@.len() == n,
                        forall|u: int, p: int| 0 <= u < n && 0 <= p < n ==> #[trigger] m@[u]@[p] == pair_count(ns, u as nat, p as nat),
                        within == true_positives(ns, b as nat) + sum_to(third_terms(ns, a as nat, b as nat), nn),
                        tnc + within <= usize::MAX,
                        inner == true_positives(ns, b as nat) + sum_to(third_terms(ns, a as nat, b as nat), c as nat),
                    decreases n - c,
                {
                    proof {
                        lemma_sum_prefix(third_terms(ns, a as nat, b as nat), (c + 1) as nat, nn);
                    }
                    if c != a && c != b {
                        inner = inner + m[b][c];
                    }
                    c = c + 1;
                }
                tnc = tnc + inner;
            }
            b = b + 1;
        }
        let ghost f = miss_terms(ns, a as nat);
        let detail = self.label_counts(row, a, Ghost(f));
        AggregateSummary {
            label: self.label_name(a),
            true_positives: row[a],
            true_negatives: tnc,
            false_positives: fpc,
            false_negatives: fnc,
            false_negatives_detail: detail,
        }
    }
}

/// `counts[p]` is how many of `obs` were classified as label `p`.
fn node_counts(obs: &Vec<Observation>, n: usize) -> (r: Vec<usize>)
    requires
        forall|j: int| 0 <= j < obs@.len() ==> (#[trigger] obs@[j]).classified_as < n,
    ensures
        r@.len() == n,
        forall|p: int| 0 <= p < n ==> #[trigger] r@[p] == count_in(obs@, p as nat),
{
    let mut r: Vec<usize> = Vec::new();
    let mut p: usize = 0;
    while p < n
        invariant
            r@.len() == p,
            p <= n,
            forall|q: int| 0 <= q < p ==> r@[q] == 0,
        decreases n - p,
    {
        r.push(0);
        p = p + 1;
    }
    let mut j: usize = 0;
    while j < obs.len()
        invariant
            forall|k: int| 0 <= k < obs@.len() ==> (#[trigger] obs@[k]).classified_as < n,
            r@.len() == n,
            j <= obs@.len(),
            forall|q: int| 0 <= q < n ==> #[trigger] r@[q] == count_in(obs@.subrange(0, j as int), q as nat),
            forall|q: int| 0 <= q < n ==> #[trigger] r@[q] <= j,
        decreases obs@.len() - j,
    {
        let c = obs[j].classified_as;
        proof {
            assert(obs@.subrange(0, j + 1).drop_last() =~= obs@.subrange(0, j as int));
        }
        let v = r[c];
        r.set(c, v + 1);
        j = j + 1;
    }
    proof {
        assert(obs@.subrange(0, obs@.len() as int) =~= obs@);
    }
    r
}

/// What a node summary says, as plain values.
pub open spec fn node_view(s: NodeSummary) -> (Seq<char>, Seq<char>, usize, Seq<(Seq<char>, nat)>, Option<u64>) {
    (s.name@, s.label@, s.true_positives, counts_view(s.false_negatives@), s.latest_slot)
}

/// What a label's aggregate says, as plain values.
pub open spec fn aggregate_view(s: AggregateSummary) -> (Seq<char>, usize, usize, usize, usize, Seq<(Seq<char>, nat)>) {
    (
        s.label@,
        s.true_positives,
        s.true_negatives,
        s.false_positives,
        s.false_negatives,
        counts_view(s.false_negatives_detail@),
    )
}

/// A tracker has one summary: two summaries of the same state say the same.
pub proof fn lemma_summary_determined(t: AccuracyTracker, a: Summary, b: Summary)
    requires
        t.summarises(a),
        t.summarises(b),
    ensures
        a.nodes@.map_values(|s: NodeSummary| node_view(s)) == b.nodes@.map_values(|s: NodeSummary| node_view(s)),
        a.clients@.map_values(|s: AggregateSummary| aggregate_view(s)) == b.clients@.map_values(
            |s: AggregateSummary| aggregate_view(s),
        ),
{
    assert forall|i: int| 0 <= i < a.nodes@.len() implies node_view(#[trigger] a.nodes@[i]) == node_view(b.nodes@[i]) by {
        assert(node_summary_is(a.nodes@[i], t.nodes()[i], t.labels()));
        assert(node_summary_is(b.nodes@[i], t.nodes()[i], t.labels()));
    }
    assert(a.nodes@.map_values(|s: NodeSummary| node_view(s)) =~= b.nodes@.map_values(|s: NodeSummary| node_view(s)));
    assert forall|j: int| 0 <= j < a.clients@.len() implies aggregate_view(#[trigger] a.clients@[j]) == aggregate_view(
        b.clients@[j],
    ) by {
        let reported = reported_labels(t.nodes(), t.labels().len(), t.labels().len());
        assert(aggregate_is(a.clients@[j], t.nodes(), t.labels(), reported[j]));
        assert(aggregate_is(b.clients@[j], t.nodes(), t.labels(), reported[j]));
    }
    assert(a.clients@.map_values(|s: AggregateSummary| aggregate_view(s)) =~= b.clients@.map_values(
        |s: AggregateSummary| aggregate_view(s),
    ));
}

} // verus!
