use nest_crdt::hlc::HLC;
use nest_crdt::set::{SetCrdt, SetOp, Token};

#[test]
fn test_add_remove() {
    let mut clock = HLC::new(1);
    let mut set = SetCrdt::new(1);
    set.add("a".to_string(), &mut clock);
    set.add("b".to_string(), &mut clock);
    assert!(set.contains(&"a".to_string()));
    assert_eq!(set.len(), 2);

    set.remove(&"a".to_string(), &mut clock);
    assert!(!set.contains(&"a".to_string()));
    assert_eq!(set.len(), 1);
}

#[test]
fn test_concurrent_add_remove() {
    let mut clock_a = HLC::new(1);
    let mut clock_b = HLC::new(2);

    let mut set_a = SetCrdt::new(1);
    let mut set_b = SetCrdt::new(2);

    // A adds "x"
    let op_add = set_a.add("x".to_string(), &mut clock_a);
    set_b.apply_op(&op_add);

    // A removes "x", B concurrently adds "x"
    let op_remove = set_a.remove(&"x".to_string(), &mut clock_a).unwrap();
    let op_add2 = set_b.add("x".to_string(), &mut clock_b);

    set_a.apply_op(&op_add2);
    set_b.apply_op(&op_remove);

    // "x" should still exist (add wins over concurrent remove in OR-Set)
    assert!(set_a.contains(&"x".to_string()));
    assert!(set_b.contains(&"x".to_string()));
}

fn token(node: u128, physical: u64) -> Token {
    Token { node_id: node, timestamp: HLC { physical, logical: 0, node_id: node } }
}

#[test]
fn iter_is_sorted_and_remove_of_absent_is_none() {
    let mut clock = HLC::new(3);
    let mut set = SetCrdt::new(3);
    for v in ["pear", "apple", "zoo", "äpfel", "apple"] {
        set.add(v.to_string(), &mut clock);
    }
    let values: Vec<&String> = set.iter();
    assert_eq!(values, vec!["apple", "pear", "zoo", "äpfel"]);
    assert_eq!(set.len(), 4);
    assert!(set.remove(&"missing".to_string(), &mut clock).is_none());
    match set.remove(&"apple".to_string(), &mut clock) {
        Some(SetOp::Remove { value, tokens }) => {
            assert_eq!(value, "apple");
            assert_eq!(tokens.len(), 2);
        }
        _ => panic!("expected a remove"),
    }
    assert!(!set.is_empty());
}

#[test]
fn remove_op_only_drops_observed_tokens() {
    let mut set = SetCrdt::new(1);
    set.apply_op(&SetOp::Add { value: "v".to_string(), token: token(1, 1) });
    set.apply_op(&SetOp::Add { value: "v".to_string(), token: token(2, 2) });
    set.apply_op(&SetOp::Remove { value: "v".to_string(), tokens: vec![token(1, 1)] });
    assert!(set.contains(&"v".to_string()));
    set.apply_op(&SetOp::Remove { value: "v".to_string(), tokens: vec![token(2, 2)] });
    assert!(!set.contains(&"v".to_string()));
    assert!(set.is_empty());
}

#[test]
fn merge_is_union_in_either_order() {
    let mut a = SetCrdt::new(1);
    let mut b = SetCrdt::new(2);
    a.apply_op(&SetOp::Add { value: "x".to_string(), token: token(1, 1) });
    b.apply_op(&SetOp::Add { value: "y".to_string(), token: token(2, 1) });
    b.apply_op(&SetOp::Add { value: "x".to_string(), token: token(2, 2) });
    let mut ab = a.clone();
    ab.merge(&b);
    let mut ba = b.clone();
    ba.merge(&a);
    assert_eq!(ab.iter(), ba.iter());
    assert_eq!(ab.iter(), vec!["x", "y"]);
    // the merged "x" carries both tokens: one remove leaves it present
    ab.apply_op(&SetOp::Remove { value: "x".to_string(), tokens: vec![token(1, 1)] });
    assert!(ab.contains(&"x".to_string()));
}

#[test]
fn observed_remove_survives_merge_with_older_clone() {
    let mut clock = HLC::new(1);
    let mut a = SetCrdt::new(1);
    a.add("x".to_string(), &mut clock);
    let b = a.clone();
    assert!(a.remove(&"x".to_string(), &mut clock).is_some());
    a.merge(&b);
    assert!(!a.contains(&"x".to_string()));
    let mut c = b.clone();
    c.merge(&a);
    assert!(!c.contains(&"x".to_string()));
    assert_eq!(c.len(), 0);
}

#[test]
fn late_add_of_a_removed_token_is_ignored() {
    let mut set = SetCrdt::new(1);
    set.apply_op(&SetOp::Remove { value: "v".to_string(), tokens: vec![token(1, 1)] });
    set.apply_op(&SetOp::Add { value: "v".to_string(), token: token(1, 1) });
    assert!(!set.contains(&"v".to_string()));
    set.apply_op(&SetOp::Add { value: "v".to_string(), token: token(1, 2) });
    assert!(set.contains(&"v".to_string()));
}

#[test]
fn set_parts_round_trip_and_invalid_parts_are_refused() {
    let mut clock = HLC::new(1);
    let mut s = SetCrdt::new(1);
    s.add("b".to_string(), &mut clock);
    s.add("a".to_string(), &mut clock);
    s.remove(&"b".to_string(), &mut clock);
    let (node, entries) = s.to_parts();
    assert_eq!(node, 1);
    assert_eq!(entries.len(), 2);
    assert_eq!(entries[0].0, "a");
    let back = SetCrdt::from_parts(node, entries.clone()).unwrap();
    assert!(back.contains(&"a".to_string()));
    assert!(!back.contains(&"b".to_string()));
    let mut unsorted = entries.clone();
    unsorted.swap(0, 1);
    assert!(SetCrdt::from_parts(node, unsorted).is_none());
    let mut both = entries;
    let t = both[0].1[0];
    both[0].2.push(t);
    assert!(SetCrdt::from_parts(node, both).is_none());
}

#[test]
fn local_add_is_always_present() {
    let mut clock = HLC::new(1);
    let mut set = SetCrdt::new(1);
    set.apply_op(&SetOp::Remove { value: "v".to_string(), tokens: vec![token(5, 9)] });
    set.add("v".to_string(), &mut clock);
    assert!(set.contains(&"v".to_string()));
    assert_eq!(set.len(), 1);
}
