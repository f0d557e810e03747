//! The confusion matrix as mathematics: counts of observations by
//! (true label, predicted label), and the per-label totals derived from them.
use crate::history::Observation;
use crate::tracker::NodeEntry;
use vstd::prelude::*;

verus! {

/// `f(0) + f(1) + ... + f(k - 1)`.
pub open spec fn sum_to(f: spec_fn(nat) -> nat, k: nat) -> nat
    decreases k,
{
    if k == 0 {
        0
    } else {
        sum_to(f, (k - 1) as nat) + f((k - 1) as nat)
    }
}

/// How many of `obs` were classified as the label with index `p`.
pub open spec fn count_in(obs: Seq<Observation>, p: nat) -> nat
    decreases obs.len(),
{
    if obs.len() == 0 {
        0
    } else {
        count_in(obs.drop_last(), p) + (if obs.last().classified_as == p { 1nat } else { 0nat })
    }
}

/// How many observations of `nodes` are truly label `t` and were classified
/// as label `p`: one cell of the confusion matrix.
pub open spec fn pair_count(nodes: Seq<NodeEntry>, t: nat, p: nat) -> nat
    decreases nodes.len(),
{
    if nodes.len() == 0 {
        0
    } else {
        pair_count(nodes.drop_last(), t, p) + (if nodes.last().client == t {
            count_in(nodes.last().accuracy.observations(), p)
        } else {
            0nat
        })
    }
}

/// How many observations `nodes` hold in all.
pub open spec fn total_observations(nodes: Seq<NodeEntry>) -> nat
    decreases nodes.len(),
{
    if nodes.len() == 0 {
        0
    } else {
        total_observations(nodes.drop_last()) + nodes.last().accuracy.observations().len()
    }
}

/// How many observations of `nodes` were classified as their true label.
pub open spec fn matching_observations(nodes: Seq<NodeEntry>) -> nat
    decreases nodes.len(),
{
    if nodes.len() == 0 {
        0
    } else {
        matching_observations(nodes.drop_last()) + count_in(
            nodes.last().accuracy.observations(),
            nodes.last().client as nat,
        )
    }
}

/// True positives of label `a`: its blocks classified as itself.
pub open spec fn true_positives(nodes: Seq<NodeEntry>, a: nat) -> nat {
    pair_count(nodes, a, a)
}

/// Row `b` of the confusion matrix.
pub open spec fn row_terms(nodes: Seq<NodeEntry>, b: nat) -> spec_fn(nat) -> nat {
    |c: nat| pair_count(nodes, b, c)
}

/// Row `a` without its diagonal cell.
pub open spec fn miss_terms(nodes: Seq<NodeEntry>, a: nat) -> spec_fn(nat) -> nat {
    |c: nat| if c == a { 0 } else { pair_count(nodes, a, c) }
}

/// Column `a` without its diagonal cell.
pub open spec fn wrong_terms(nodes: Seq<NodeEntry>, a: nat) -> spec_fn(nat) -> nat {
    |t: nat| if t == a { 0 } else { pair_count(nodes, t, a) }
}

/// Row `b` without the cells of columns `a` and `b`.
pub open spec fn third_terms(nodes: Seq<NodeEntry>, a: nat, b: nat) -> spec_fn(nat) -> nat {
    |c: nat| if c == a || c == b { 0 } else { pair_count(nodes, b, c) }
}

/// False negatives of label `a` among `n` labels: its blocks classified as
/// another label.
pub open spec fn false_negatives(nodes: Seq<NodeEntry>, n: nat, a: nat) -> nat {
    sum_to(miss_terms(nodes, a), n)
}

/// False positives of label `a` among `n` labels: blocks of another label
/// classified as `a`.
pub open spec fn false_positives(nodes: Seq<NodeEntry>, n: nat, a: nat) -> nat {
    sum_to(wrong_terms(nodes, a), n)
}

/// The blocks of label `b` that count as true negatives for `a`: those
/// classified correctly, and those misclassified as a third label.
pub open spec fn negatives_within(nodes: Seq<NodeEntry>, n: nat, a: nat, b: nat) -> nat {
    true_positives(nodes, b) + sum_to(third_terms(nodes, a, b), n)
}

pub open spec fn negative_terms(nodes: Seq<NodeEntry>, n: nat, a: nat) -> spec_fn(nat) -> nat {
    |b: nat| if b == a { 0 } else { negatives_within(nodes, n, a, b) }
}

/// True negatives of label `a` among `n` labels: every block of another label
/// that was not classified as `a`.
pub open spec fn true_negatives(nodes: Seq<NodeEntry>, n: nat, a: nat) -> nat {
    sum_to(negative_terms(nodes, n, a), n)
}

/// Some history of `nodes` has `a` as its true label.
pub open spec fn has_node(nodes: Seq<NodeEntry>, a: nat) -> bool {
    exists|i: int| 0 <= i < nodes.len() && #[trigger] nodes[i].client == a
}

/// Label `a` has an entry in a summary: it is the true label of a history,
/// or some block was wrongly classified as it.
pub open spec fn is_reported(nodes: Seq<NodeEntry>, n: nat, a: nat) -> bool {
    has_node(nodes, a) || false_positives(nodes, n, a) > 0
}

pub open spec fn row_sums(nodes: Seq<NodeEntry>, n: nat) -> spec_fn(nat) -> nat {
    |b: nat| sum_to(row_terms(nodes, b), n)
}

/// The sum of all cells of the `n` by `n` confusion matrix.
pub open spec fn matrix_total(nodes: Seq<NodeEntry>, n: nat) -> nat {
    sum_to(row_sums(nodes, n), n)
}

pub proof fn lemma_sum_ext(f: spec_fn(nat) -> nat, g: spec_fn(nat) -> nat, k: nat)
    requires
        forall|i: nat| i < k ==> #[trigger] f(i) == g(i),
    ensures
        sum_to(f, k) == sum_to(g, k),
    decreases k,
{
    if k > 0 {
        lemma_sum_ext(f, g, (k - 1) as nat);
    }
}

pub proof fn lemma_sum_mono(f: spec_fn(nat) -> nat, g: spec_fn(nat) -> nat, k: nat)
    requires
        forall|i: nat| i < k ==> #[trigger] f(i) <= g(i),
    ensures
        sum_to(f, k) <= sum_to(g, k),
    decreases k,
{
    if k > 0 {
        lemma_sum_mono(f, g, (k - 1) as nat);
    }
}

pub proof fn lemma_sum_term(f: spec_fn(nat) -> nat, k: nat, j: nat)
    requires
        j < k,
    ensures
        f(j) <= sum_to(f, k),
    decreases k,
{
    if j < k - 1 {
        lemma_sum_term(f, (k - 1) as nat, j);
    }
}

pub proof fn lemma_sum_prefix(f: spec_fn(nat) -> nat, j: nat, k: nat)
    requires
        j <= k,
    ensures
        sum_to(f, j) <= sum_to(f, k),
    decreases k,
{
    if j < k {
        lemma_sum_prefix(f, j, (k - 1) as nat);
    }
}

pub proof fn lemma_sum_add(f: spec_fn(nat) -> nat, g: spec_fn(nat) -> nat, h: spec_fn(nat) -> nat, k: nat)
    requires
        forall|i: nat| i < k ==> #[trigger] h(i) == f(i) + g(i),
    ensures
        sum_to(h, k) == sum_to(f, k) + sum_to(g, k),
    decreases k,
{
    if k > 0 {
        lemma_sum_add(f, g, h, (k - 1) as nat);
    }
}

pub proof fn lemma_sum_single(h: spec_fn(nat) -> nat, j: nat, c: nat, k: nat)
    requires
        forall|i: nat| i < k ==> #[trigger] h(i) == (if i == j { c } else { 0 }),
    ensures
        sum_to(h, k) == (if j < k { c } else { 0 }),
    decreases k,
{
    if k > 0 {
        lemma_sum_single(h, j, c, (k - 1) as nat);
    }
}

pub open spec fn inner_row(g: spec_fn(nat, nat) -> nat, i: nat) -> spec_fn(nat) -> nat {
    |j: nat| g(i, j)
}

pub open spec fn inner_col(g: spec_fn(nat, nat) -> nat, j: nat) -> spec_fn(nat) -> nat {
    |i: nat| g(i, j)
}

pub open spec fn row_totals(g: spec_fn(nat, nat) -> nat, m: nat) -> spec_fn(nat) -> nat {
    |i: nat| sum_to(inner_row(g, i), m)
}

pub open spec fn col_totals(g: spec_fn(nat, nat) -> nat, k: nat) -> spec_fn(nat) -> nat {
    |j: nat| sum_to(inner_col(g, j), k)
}

/// Finite double sums may be taken in either order.
pub proof fn lemma_sum_swap(g: spec_fn(nat, nat) -> nat, k: nat, m: nat)
    ensures
        sum_to(row_totals(g, m), k) == sum_to(col_totals(g, k), m),
    decreases k,
{
    if k > 0 {
        let k1 = (k - 1) as nat;
        lemma_sum_swap(g, k1, m);
        lemma_sum_add(col_totals(g, k1), |j: nat| g(k1, j), col_totals(g, k), m);
        lemma_sum_ext(inner_row(g, k1), |j: nat| g(k1, j), m);
    } else {
        lemma_sum_single(col_totals(g, k), m, 0, m);
    }
}

proof fn lemma_counts_bounded(obs: Seq<Observation>, n: nat)
    ensures
        sum_to(|c: nat| count_in(obs, c), n) <= obs.len(),
    decreases obs.len(),
{
    if obs.len() > 0 {
        let d = obs.drop_last();
        let y = obs.last().classified_as as nat;
        lemma_counts_bounded(d, n);
        let g = |c: nat| if c == y { 1nat } else { 0nat };
        let f = |c: nat| count_in(d, c);
        let h = |c: nat| count_in(obs, c);
        assert forall|c: nat| c < n implies #[trigger] h(c) == f(c) + g(c) by {
            assert(obs.drop_last() == d);
        }
        lemma_sum_add(f, g, h, n);
        assert(sum_to(h, n) == sum_to(f, n) + sum_to(g, n));
        lemma_sum_single(g, y, 1, n);
        assert(sum_to(g, n) <= 1);
        assert(sum_to(f, n) <= d.len());
    } else {
        lemma_sum_single(|c: nat| count_in(obs, c), n, 0, n);
    }
}

pub proof fn lemma_count_in_bounded(obs: Seq<Observation>, p: nat)
    ensures
        count_in(obs, p) <= obs.len(),
    decreases obs.len(),
{
    if obs.len() > 0 {
        lemma_count_in_bounded(obs.drop_last(), p);
    }
}

/// A cell of the matrix counts no more observations than there are.
pub proof fn lemma_pair_count_bounded(nodes: Seq<NodeEntry>, t: nat, p: nat)
    ensures
        pair_count(nodes, t, p) <= total_observations(nodes),
    decreases nodes.len(),
{
    if nodes.len() > 0 {
        lemma_pair_count_bounded(nodes.drop_last(), t, p);
        lemma_count_in_bounded(nodes.last().accuracy.observations(), p);
    }
}

/// A prefix of the histories holds no more observations than all of them.
pub proof fn lemma_total_prefix(nodes: Seq<NodeEntry>, i: int)
    requires
        0 <= i <= nodes.len(),
    ensures
        total_observations(nodes.subrange(0, i)) <= total_observations(nodes),
    decreases nodes.len(),
{
    if i < nodes.len() {
        assert(nodes.drop_last().subrange(0, i) =~= nodes.subrange(0, i));
        lemma_total_prefix(nodes.drop_last(), i);
    } else {
        assert(nodes.subrange(0, i) =~= nodes);
    }
}

/// The matrix counts no more observations than there are.
pub proof fn lemma_matrix_bounded(nodes: Seq<NodeEntry>, n: nat)
    ensures
        matrix_total(nodes, n) <= total_observations(nodes),
    decreases nodes.len(),
{
    if nodes.len() > 0 {
        let d = nodes.drop_last();
        let x = nodes.last();
        let obs = x.accuracy.observations();
        let t = x.client as nat;
        lemma_matrix_bounded(d, n);
        let sx = sum_to(|c: nat| count_in(obs, c), n);
        lemma_counts_bounded(obs, n);
        let extra = |b: nat| if b == t { sx } else { 0nat };
        assert forall|b: nat| b < n implies #[trigger] row_sums(nodes, n)(b) == row_sums(d, n)(b) + extra(b) by {
            let g = |c: nat| if b == t { count_in(obs, c) } else { 0nat };
            lemma_sum_add(row_terms(d, b), g, row_terms(nodes, b), n);
            if b == t {
                lemma_sum_ext(g, |c: nat| count_in(obs, c), n);
            } else {
                lemma_sum_single(g, n, 0, n);
            }
        }
        lemma_sum_add(row_sums(d, n), extra, row_sums(nodes, n), n);
        lemma_sum_single(extra, t, sx, n);
    } else {
        assert forall|b: nat| b < n implies #[trigger] row_sums(nodes, n)(b) == 0 by {
            lemma_sum_single(row_terms(nodes, b), n, 0, n);
        }
        lemma_sum_single(row_sums(nodes, n), n, 0, n);
    }
}

/// Every per-label count of label `a < n` is at most the matrix total.
pub proof fn lemma_counts_within_total(nodes: Seq<NodeEntry>, n: nat, a: nat)
    requires
        a < n,
    ensures
        true_positives(nodes, a) <= matrix_total(nodes, n),
        false_negatives(nodes, n, a) <= matrix_total(nodes, n),
        false_positives(nodes, n, a) <= matrix_total(nodes, n),
        true_negatives(nodes, n, a) <= matrix_total(nodes, n),
{
    let row = row_sums(nodes, n);
    lemma_sum_term(row, n, a);
    lemma_sum_term(row_terms(nodes, a), n, a);
    lemma_sum_mono(miss_terms(nodes, a), row_terms(nodes, a), n);
    assert forall|t: nat| t < n implies #[trigger] wrong_terms(nodes, a)(t) <= row(t) by {
        lemma_sum_term(row_terms(nodes, t), n, a);
    }
    lemma_sum_mono(wrong_terms(nodes, a), row, n);
    assert forall|b: nat| b < n implies #[trigger] negative_terms(nodes, n, a)(b) <= row(b) by {
        if b != a {
            let g = third_terms(nodes, a, b);
            let h = |c: nat| if c == b { pair_count(nodes, b, b) } else { 0nat };
            let gh = |c: nat| g(c) + h(c);
            lemma_sum_add(g, h, gh, n);
            lemma_sum_single(h, b, pair_count(nodes, b, b), n);
            lemma_sum_mono(gh, row_terms(nodes, b), n);
        }
    }
    lemma_sum_mono(negative_terms(nodes, n, a), row, n);
}

pub open spec fn positive_totals(nodes: Seq<NodeEntry>) -> spec_fn(nat) -> nat {
    |a: nat| true_positives(nodes, a)
}

pub open spec fn miss_totals(nodes: Seq<NodeEntry>, n: nat) -> spec_fn(nat) -> nat {
    |a: nat| false_negatives(nodes, n, a)
}

pub open spec fn wrong_totals(nodes: Seq<NodeEntry>, n: nat) -> spec_fn(nat) -> nat {
    |a: nat| false_positives(nodes, n, a)
}

/// Summed over all `n` labels, the true positives are exactly the
/// observations whose classification matches their true label (every true
/// label lies below `n`).
pub proof fn lemma_confusion_identity(nodes: Seq<NodeEntry>, n: nat)
    requires
        forall|i: int| 0 <= i < nodes.len() ==> (#[trigger] nodes[i]).client < n,
    ensures
        sum_to(positive_totals(nodes), n) == matching_observations(nodes),
    decreases nodes.len(),
{
    if nodes.len() == 0 {
        lemma_sum_single(positive_totals(nodes), n, 0, n);
    } else {
        let d = nodes.drop_last();
        let x = nodes.last();
        let t = x.client as nat;
        assert(x == nodes[nodes.len() - 1]);
        assert forall|i: int| 0 <= i < d.len() implies (#[trigger] d[i]).client < n by {
            assert(d[i] == nodes[i]);
        }
        lemma_confusion_identity(d, n);
        let c = count_in(x.accuracy.observations(), t);
        let h = |a: nat| if a == t { c } else { 0nat };
        lemma_sum_add(positive_totals(d), h, positive_totals(nodes), n);
        lemma_sum_single(h, t, c, n);
    }
}

/// Every misclassification is a false negative of its true label and a false
/// positive of the label it was given: for two distinct labels `a` and `b`,
/// what `a` counts as missed into `b` is what `b` counts as wrongly taken
/// from `a`, and over all `n` labels the two totals agree.
pub proof fn lemma_misses_balance(nodes: Seq<NodeEntry>, n: nat)
    ensures
        forall|a: nat, b: nat| a != b ==> #[trigger] miss_terms(nodes, a)(b) == #[trigger] wrong_terms(nodes, b)(a),
        sum_to(miss_totals(nodes, n), n) == sum_to(wrong_totals(nodes, n), n),
{
    let g = |i: nat, j: nat| if i == j { 0 } else { pair_count(nodes, i, j) };
    lemma_sum_swap(g, n, n);
    assert forall|i: nat| i < n implies #[trigger] row_totals(g, n)(i) == miss_totals(nodes, n)(i) by {
        lemma_sum_ext(inner_row(g, i), miss_terms(nodes, i), n);
    }
    lemma_sum_ext(row_totals(g, n), miss_totals(nodes, n), n);
    assert forall|j: nat| j < n implies #[trigger] col_totals(g, n)(j) == wrong_totals(nodes, n)(j) by {
        lemma_sum_ext(inner_col(g, j), wrong_terms(nodes, j), n);
    }
    lemma_sum_ext(col_totals(g, n), wrong_totals(nodes, n), n);
}

} // verus!
