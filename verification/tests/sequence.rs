use nest_crdt::hlc::HLC;
use nest_crdt::sequence::{SeqId, SequenceCrdt, SequenceOp};

#[test]
fn test_append_and_iterate() {
    let mut clock = HLC::new(1);
    let mut seq = SequenceCrdt::new(1);

    seq.append("first".to_string(), &mut clock);
    seq.append("second".to_string(), &mut clock);
    seq.append("third".to_string(), &mut clock);

    let items: Vec<&String> = seq.iter();
    assert_eq!(items.len(), 3);
    assert_eq!(items[0], "first");
    assert_eq!(items[2], "third");
}

#[test]
fn test_concurrent_append() {
    let mut clock_a = HLC::new(1);
    let mut clock_b = HLC::new(2);

    let mut seq_a = SequenceCrdt::new(1);
    let mut seq_b = SequenceCrdt::new(2);

    let op_a = seq_a.append("from A".to_string(), &mut clock_a);
    let op_b = seq_b.append("from B".to_string(), &mut clock_b);

    seq_a.apply_op(&op_b);
    seq_b.apply_op(&op_a);

    let items_a: Vec<&String> = seq_a.iter();
    let items_b: Vec<&String> = seq_b.iter();
    assert_eq!(items_a, items_b);
}

fn id(node: u128, physical: u64) -> SeqId {
    SeqId { node_id: node, timestamp: HLC { physical, logical: 0, node_id: node } }
}

#[test]
fn delete_hides_item_and_reports_target() {
    let mut clock = HLC { physical: u64::MAX, logical: 0, node_id: 1 };
    let mut seq = SequenceCrdt::new(1);
    seq.append(10u32, &mut clock);
    seq.append(20u32, &mut clock);
    seq.append(30u32, &mut clock);
    let op = seq.delete(1);
    match op {
        Some(SequenceOp::Delete { target }) => {
            assert_eq!(target.timestamp.logical, 2);
        }
        _ => panic!("expected a delete"),
    }
    assert_eq!(seq.iter(), vec![&10, &30]);
    assert_eq!(seq.len(), 2);
    assert!(seq.delete(2).is_none());
    assert!(seq.delete(1).is_some());
    assert_eq!(seq.iter(), vec![&10]);
    assert!(!seq.is_empty());
    assert!(seq.delete(0).is_some());
    assert!(seq.is_empty());
}

#[test]
fn remote_appends_are_sorted_by_timestamp() {
    let mut seq: SequenceCrdt<u32> = SequenceCrdt::new(9);
    seq.apply_op(&SequenceOp::Append { id: id(2, 30), value: 3 });
    seq.apply_op(&SequenceOp::Append { id: id(1, 10), value: 1 });
    seq.apply_op(&SequenceOp::Append { id: id(3, 20), value: 2 });
    assert_eq!(seq.iter(), vec![&1, &2, &3]);
    // a known identifier is ignored
    seq.apply_op(&SequenceOp::Append { id: id(1, 10), value: 99 });
    assert_eq!(seq.iter(), vec![&1, &2, &3]);
    seq.apply_op(&SequenceOp::Delete { target: id(3, 20) });
    assert_eq!(seq.iter(), vec![&1, &3]);
}

#[test]
fn appends_in_either_order_converge() {
    let x = SequenceOp::Append { id: id(1, 5), value: "x".to_string() };
    let y = SequenceOp::Append { id: id(2, 7), value: "y".to_string() };
    let mut a: SequenceCrdt<String> = SequenceCrdt::new(1);
    let mut b: SequenceCrdt<String> = SequenceCrdt::new(2);
    a.apply_op(&x);
    a.apply_op(&y);
    b.apply_op(&y);
    b.apply_op(&x);
    assert_eq!(a.iter(), b.iter());
    assert_eq!(a.iter(), vec!["x", "y"]);
}

#[test]
fn merge_adds_unknown_items_and_carries_deletions() {
    let mut a: SequenceCrdt<u32> = SequenceCrdt::new(1);
    let mut b: SequenceCrdt<u32> = SequenceCrdt::new(2);
    a.apply_op(&SequenceOp::Append { id: id(1, 10), value: 1 });
    b.apply_op(&SequenceOp::Append { id: id(1, 10), value: 1 });
    b.apply_op(&SequenceOp::Append { id: id(2, 5), value: 0 });
    b.delete(1);
    a.merge(&b);
    assert_eq!(a.iter(), vec![&0]);
    assert_eq!(a.len(), 1);
    let c = a.clone();
    assert_eq!(c.iter(), vec![&0]);
}

#[test]
fn merge_both_ways_agrees_and_merging_twice_changes_nothing() {
    let mut clock_a = HLC::new(1);
    let mut clock_b = HLC::new(2);
    let mut a = SequenceCrdt::new(1);
    let mut b = SequenceCrdt::new(2);
    a.append("a1".to_string(), &mut clock_a);
    a.append("a2".to_string(), &mut clock_a);
    b.append("b1".to_string(), &mut clock_b);
    b.append("b2".to_string(), &mut clock_b);
    b.delete(0);
    let mut ab = SequenceCrdt::new(1);
    ab.merge(&a);
    ab.merge(&b);
    let mut ba = SequenceCrdt::new(2);
    ba.merge(&b);
    ba.merge(&a);
    assert_eq!(ab.iter(), ba.iter());
    assert_eq!(ab.len(), 3);
    let before: Vec<String> = ab.iter().into_iter().cloned().collect();
    ab.merge(&b);
    let after: Vec<String> = ab.iter().into_iter().cloned().collect();
    assert_eq!(before, after);
}

#[test]
fn sequence_parts_round_trip() {
    let mut clock = HLC::new(1);
    let mut s = SequenceCrdt::new(1);
    s.append("x".to_string(), &mut clock);
    s.append("y".to_string(), &mut clock);
    s.delete(0);
    let (node, entries) = s.to_parts();
    assert_eq!(entries.len(), 2);
    assert!(entries[0].2);
    let back = SequenceCrdt::from_parts(node, entries);
    assert_eq!(back.iter(), vec!["y"]);
}
