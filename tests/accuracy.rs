use blockprint_accuracy::{
    AccuracyTracker, AggregateSummary, Block, BlockprintClassification, ClassifyRequest, LabelCount, NodeSummary,
    Observation, Summary, LIMIT,
};

fn record(t: &mut AccuracyTracker, node: &str, truth: &str, guess: &str, slot: u64) {
    t.record_block(node.to_string(), truth.to_string(), guess.to_string(), slot);
}

fn slots_of(t: &AccuracyTracker, i: usize) -> Vec<(u64, usize)> {
    t.node(i)
        .accuracy
        .observation_list()
        .iter()
        .map(|o: &Observation| (o.slot, o.classified_as))
        .collect()
}

fn client<'a>(s: &'a Summary, label: &str) -> &'a AggregateSummary {
    s.clients.iter().find(|c| c.label == label).expect("label reported")
}

fn detail(v: &[LabelCount]) -> Vec<(String, usize)> {
    v.iter().map(|c| (c.label.clone(), c.count)).collect()
}

fn node_line(n: &NodeSummary) -> (String, String, usize, Vec<(String, usize)>, Option<u64>) {
    (n.name.clone(), n.label.clone(), n.true_positives, detail(&n.false_negatives), n.latest_slot)
}

fn client_line(c: &AggregateSummary) -> (String, usize, usize, usize, usize, Vec<(String, usize)>) {
    (
        c.label.clone(),
        c.true_positives,
        c.true_negatives,
        c.false_positives,
        c.false_negatives,
        detail(&c.false_negatives_detail),
    )
}

#[test]
fn default_limit_is_two_weeks_of_slots() {
    assert_eq!(LIMIT, 100_800);
    let t = AccuracyTracker::new();
    assert_eq!(t.node_count(), 0);
    assert_eq!(t.label_count(), 0);
}

#[test]
fn history_never_exceeds_limit() {
    let mut t = AccuracyTracker::with_limit(3);
    for slot in 0..10u64 {
        record(&mut t, "n", "A", if slot % 2 == 0 { "A" } else { "B" }, slot);
        assert!(t.node(0).accuracy.observation_list().len() <= 3);
    }
    assert_eq!(t.node(0).accuracy.observation_list().len(), 3);
    assert_eq!(slots_of(&t, 0).iter().map(|p| p.0).collect::<Vec<_>>(), vec![7, 8, 9]);
}

#[test]
fn recording_twice_equals_once() {
    let mut once = AccuracyTracker::new();
    record(&mut once, "n", "A", "B", 5);
    let mut twice = AccuracyTracker::new();
    record(&mut twice, "n", "A", "B", 5);
    record(&mut twice, "n", "A", "B", 5);
    assert_eq!(twice.node_count(), 1);
    assert_eq!(slots_of(&twice, 0), slots_of(&once, 0));
    assert_eq!(twice.node(0).accuracy.observation_list().len(), 1);
}

#[test]
fn recording_twice_after_eviction_changes_nothing() {
    let mut t = AccuracyTracker::with_limit(2);
    record(&mut t, "n", "A", "A", 10);
    record(&mut t, "n", "A", "A", 11);
    record(&mut t, "n", "A", "A", 1);
    let after_once = slots_of(&t, 0);
    record(&mut t, "n", "A", "A", 1);
    assert_eq!(slots_of(&t, 0), after_once);
    assert_eq!(after_once.iter().map(|p| p.0).collect::<Vec<_>>(), vec![10, 11]);
}

#[test]
fn oldest_slot_is_evicted_first() {
    let mut t = AccuracyTracker::with_limit(2);
    record(&mut t, "n", "A", "A", 1);
    record(&mut t, "n", "A", "B", 2);
    record(&mut t, "n", "A", "A", 3);
    let kept = slots_of(&t, 0);
    assert_eq!(kept.iter().map(|p| p.0).collect::<Vec<_>>(), vec![2, 3]);
    let s = t.summarise().unwrap();
    assert_eq!(s.nodes[0].true_positives, 1);
    assert_eq!(detail(&s.nodes[0].false_negatives), vec![("B".to_string(), 1)]);
    assert_eq!(s.nodes[0].latest_slot, Some(3));
}

#[test]
fn same_slot_different_labels_are_both_kept() {
    let mut t = AccuracyTracker::new();
    record(&mut t, "n", "A", "A", 7);
    record(&mut t, "n", "A", "B", 7);
    assert_eq!(t.node(0).accuracy.observation_list().len(), 2);
}

#[test]
fn out_of_order_slots_are_sorted() {
    let mut t = AccuracyTracker::new();
    record(&mut t, "n", "A", "A", 9);
    record(&mut t, "n", "A", "A", 3);
    record(&mut t, "n", "A", "A", 6);
    assert_eq!(slots_of(&t, 0).iter().map(|p| p.0).collect::<Vec<_>>(), vec![3, 6, 9]);
    assert_eq!(t.summarise().unwrap().nodes[0].latest_slot, Some(9));
}

#[test]
fn labels_are_interned_once() {
    let mut t = AccuracyTracker::new();
    record(&mut t, "x", "A", "B", 1);
    record(&mut t, "y", "B", "A", 2);
    record(&mut t, "z", "", "A", 3);
    assert_eq!(t.label_count(), 3);
    assert_eq!(t.node_count(), 3);
    assert_eq!(t.node(0).client, 0);
    assert_eq!(t.node(1).client, 1);
    assert_eq!(t.node(2).client, 2);
    assert_eq!(t.node(1).name, "y");
}

#[test]
fn end_to_end_example() {
    let mut t = AccuracyTracker::new();
    record(&mut t, "nodeX", "A", "A", 100);
    record(&mut t, "nodeY", "B", "A", 101);
    record(&mut t, "nodeZ", "B", "B", 102);
    let s = t.summarise().unwrap();
    let a = client(&s, "A");
    assert_eq!((a.true_positives, a.false_positives, a.false_negatives, a.true_negatives), (1, 1, 0, 1));
    assert!(a.false_negatives_detail.is_empty());
    let b = client(&s, "B");
    assert_eq!((b.true_positives, b.false_positives, b.false_negatives, b.true_negatives), (1, 0, 1, 1));
    assert_eq!(detail(&b.false_negatives_detail), vec![("A".to_string(), 1)]);
    assert_eq!(s.clients.len(), 2);
    assert_eq!(s.nodes.len(), 3);
    assert_eq!(
        node_line(&s.nodes[1]),
        ("nodeY".to_string(), "B".to_string(), 0, vec![("A".to_string(), 1)], Some(101))
    );
}

#[test]
fn three_labels_symmetric_true_negatives() {
    let mut t = AccuracyTracker::new();
    record(&mut t, "n1", "A", "A", 1);
    record(&mut t, "n2", "B", "B", 2);
    record(&mut t, "n3", "C", "C", 3);
    let s = t.summarise().unwrap();
    for l in ["A", "B", "C"] {
        let c = client(&s, l);
        assert_eq!(c.true_negatives, 2);
        assert_eq!(c.true_positives, 1);
        assert_eq!(c.false_positives, 0);
        assert_eq!(c.false_negatives, 0);
    }
}

#[test]
fn true_negatives_skip_misses_into_the_label() {
    let mut t = AccuracyTracker::new();
    record(&mut t, "n1", "A", "A", 1);
    record(&mut t, "n2", "B", "C", 2);
    record(&mut t, "n2", "B", "A", 3);
    record(&mut t, "n3", "C", "C", 4);
    let s = t.summarise().unwrap();
    // For A: B's miss into C (1) and C's hit (1); B's miss into A is not a true negative.
    assert_eq!(client(&s, "A").true_negatives, 2);
    // For B: A's hit, C's hit, nothing misclassified between A and C.
    assert_eq!(client(&s, "B").true_negatives, 2);
    // For C: A's hit and B's miss into A.
    assert_eq!(client(&s, "C").true_negatives, 2);
    assert_eq!(client(&s, "C").false_positives, 1);
    assert_eq!(client(&s, "A").false_positives, 1);
    assert_eq!(
        detail(&client(&s, "B").false_negatives_detail),
        vec![("A".to_string(), 1), ("C".to_string(), 1)]
    );
}

#[test]
fn true_positives_add_up_to_matches() {
    let mut t = AccuracyTracker::new();
    record(&mut t, "n1", "A", "A", 1);
    record(&mut t, "n1", "A", "A", 2);
    record(&mut t, "n1", "A", "B", 3);
    record(&mut t, "n2", "B", "B", 4);
    record(&mut t, "n3", "C", "A", 5);
    let s = t.summarise().unwrap();
    let tp: usize = s.clients.iter().map(|c| c.true_positives).sum();
    assert_eq!(tp, 3);
}

#[test]
fn false_negatives_balance_false_positives() {
    let mut t = AccuracyTracker::new();
    record(&mut t, "n1", "A", "B", 1);
    record(&mut t, "n1", "A", "C", 2);
    record(&mut t, "n2", "B", "A", 3);
    record(&mut t, "n3", "C", "C", 4);
    record(&mut t, "n4", "C", "B", 5);
    let s = t.summarise().unwrap();
    let fneg: usize = s.clients.iter().map(|c| c.false_negatives).sum();
    let fpos: usize = s.clients.iter().map(|c| c.false_positives).sum();
    assert_eq!(fneg, 4);
    assert_eq!(fpos, 4);
    let from_a_to_b = detail(&client(&s, "A").false_negatives_detail)
        .into_iter()
        .find(|d| d.0 == "B")
        .unwrap()
        .1;
    assert_eq!(from_a_to_b, 1);
}

#[test]
fn summarise_twice_gives_the_same() {
    let mut t = AccuracyTracker::new();
    record(&mut t, "n1", "A", "B", 1);
    record(&mut t, "n2", "B", "B", 2);
    record(&mut t, "n1", "A", "A", 3);
    let s1 = t.summarise().unwrap();
    let s2 = t.summarise().unwrap();
    assert_eq!(
        s1.clients.iter().map(client_line).collect::<Vec<_>>(),
        s2.clients.iter().map(client_line).collect::<Vec<_>>()
    );
    assert_eq!(
        s1.nodes.iter().map(node_line).collect::<Vec<_>>(),
        s2.nodes.iter().map(node_line).collect::<Vec<_>>()
    );
}

#[test]
fn empty_tracker_summarises_to_nothing() {
    let t = AccuracyTracker::new();
    let s = t.summarise().unwrap();
    assert!(s.clients.is_empty());
    assert!(s.nodes.is_empty());
}

#[test]
fn predicted_only_label_is_reported() {
    let mut t = AccuracyTracker::new();
    record(&mut t, "n", "A", "Z", 1);
    let s = t.summarise().unwrap();
    let z = client(&s, "Z");
    assert_eq!((z.true_positives, z.false_positives, z.false_negatives, z.true_negatives), (0, 1, 0, 0));
    assert_eq!(s.clients.len(), 2);
}

#[test]
fn evicted_misclassification_leaves_no_entry() {
    let mut t = AccuracyTracker::with_limit(1);
    record(&mut t, "n", "A", "Z", 1);
    record(&mut t, "n", "A", "A", 2);
    let s = t.summarise().unwrap();
    assert_eq!(s.clients.len(), 1);
    assert_eq!(s.clients[0].label, "A");
}

#[test]
fn zero_limit_keeps_nothing_but_reports_the_node() {
    let mut t = AccuracyTracker::with_limit(0);
    record(&mut t, "n", "A", "A", 1);
    assert_eq!(t.node(0).accuracy.observation_list().len(), 0);
    let s = t.summarise().unwrap();
    assert_eq!(s.nodes[0].latest_slot, None);
    assert_eq!(client_line(&s.clients[0]), ("A".to_string(), 0, 0, 0, 0, vec![]));
}

#[test]
fn largest_slot_is_kept() {
    let mut t = AccuracyTracker::new();
    record(&mut t, "n", "A", "A", u64::MAX);
    record(&mut t, "n", "A", "A", 0);
    assert_eq!(t.summarise().unwrap().nodes[0].latest_slot, Some(u64::MAX));
}

#[test]
fn batch_is_zipped_to_the_shortest_array() {
    let mut t = AccuracyTracker::new();
    let request = ClassifyRequest {
        names: vec!["x".to_string(), "y".to_string(), "z".to_string()],
        labels: vec!["A".to_string(), "B".to_string(), "B".to_string()],
        blocks: vec![Block { slot: 100 }, Block { slot: 101 }, Block { slot: 102 }],
    };
    let classifications = vec![
        BlockprintClassification { best_guess_single: "A".to_string() },
        BlockprintClassification { best_guess_single: "A".to_string() },
    ];
    t.record_classified(request, classifications);
    assert_eq!(t.node_count(), 2);
    let s = t.summarise().unwrap();
    assert_eq!(client(&s, "B").false_negatives, 1);
    assert_eq!(client(&s, "A").false_positives, 1);
    assert_eq!(s.nodes[1].latest_slot, Some(101));
}
