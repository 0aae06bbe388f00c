use nest_crdt::hlc::HLC;
use nest_crdt::text::{OpId, TextCrdt, TextOp};

#[test]
fn test_basic() {
    let mut crdt = TextCrdt::new(1);
    crdt.insert(0, 'H');
    crdt.insert(1, 'i');
    assert_eq!(crdt.to_string(), "Hi");
}

#[test]
fn test_convergence() {
    let base = TextCrdt::from_text(1, "Hello");
    let mut a = base.fork(1);
    let mut b = base.fork(2);

    a.insert(5, '!');
    b.insert(5, '?');

    a.merge(&b);
    b.merge(&a);
    assert_eq!(a.to_string(), b.to_string());
}

#[test]
fn test_apply_diff() {
    let mut crdt = TextCrdt::from_text(1, "Hello World");
    let ops = crdt.apply_diff("Hello World", "Hello Nest!");
    assert!(!ops.is_empty());
    assert_eq!(crdt.to_string(), "Hello Nest!");
}

#[test]
fn test_three_way_convergence() {
    let base = TextCrdt::from_text(1, "ABCDE");
    let mut s1 = base.fork(1);
    let mut s2 = base.fork(2);
    let mut s3 = base.fork(3);

    s1.insert(2, 'X');
    s2.insert(4, 'Y');
    s3.delete(2); // delete 'C'

    s1.merge(&s2);
    s1.merge(&s3);

    let result = s1.to_string();
    assert!(result.contains('A'));
    assert!(result.contains('B'));
    assert!(result.contains('X'));
    assert!(!result.contains('C'));
    assert!(result.contains('D'));
    assert!(result.contains('Y'));
    assert!(result.contains('E'));
}

#[test]
fn from_text_round_trips_and_counts() {
    let t = TextCrdt::from_text(4, "héllo wörld");
    assert_eq!(t.to_string(), "héllo wörld");
    assert_eq!(t.len(), 11);
    assert_eq!(t.ops_count(), 11);
    assert_eq!(t.node_id(), 4);
    assert!(!t.is_empty());
    assert!(TextCrdt::new(1).is_empty());
}

#[test]
fn delete_past_end_is_none_and_gc_drops_tombstones() {
    let mut t = TextCrdt::from_text(1, "abc");
    assert!(t.delete(3).is_none());
    assert!(t.delete(1).is_some());
    assert_eq!(t.to_string(), "ac");
    assert_eq!(t.tombstone_count(), 1);
    assert_eq!(t.ops_count(), 4);
    t.gc();
    assert_eq!(t.tombstone_count(), 0);
    assert_eq!(t.ops_count(), 3);
    assert_eq!(t.to_string(), "ac");
}

#[test]
fn ops_since_returns_the_tail_of_the_log() {
    let t = TextCrdt::from_text(1, "abcd");
    assert_eq!(t.ops_since(2).len(), 2);
    assert_eq!(t.ops_since(4).len(), 0);
    assert_eq!(t.ops_since(10).len(), 0);
    match t.ops_since(3)[0] {
        TextOp::Insert { ch, .. } => assert_eq!(ch, 'd'),
        _ => panic!("expected an insert"),
    }
}

#[test]
fn apply_ignores_known_insert_and_logs_deletes() {
    let mut a = TextCrdt::from_text(1, "xy");
    let mut b = a.fork(2);
    let op = b.insert(2, 'z');
    a.apply(&op);
    a.apply(&op);
    assert_eq!(a.to_string(), "xyz");
    let del = b.delete(0).unwrap();
    a.apply(&del);
    assert_eq!(a.to_string(), "yz");
    let unknown = TextOp::Delete {
        target: OpId { node_id: 9, timestamp: HLC { physical: 1, logical: 0, node_id: 9 } },
    };
    let before = a.ops_count();
    a.apply(&unknown);
    assert_eq!(a.ops_count(), before + 1);
    assert_eq!(a.to_string(), "yz");
}

#[test]
fn concurrent_inserts_after_same_char_converge() {
    let base = TextCrdt::from_text(1, "ab");
    let mut a = base.fork(2);
    let mut b = base.fork(3);
    let oa = a.insert(1, 'X');
    let ob = b.insert(1, 'Y');
    a.apply(&ob);
    b.apply(&oa);
    assert_eq!(a.to_string(), b.to_string());
}

#[test]
fn apply_diff_with_common_suffix() {
    let mut t = TextCrdt::from_text(1, "abcd");
    let ops = t.apply_diff("abcd", "axd");
    assert_eq!(ops.len(), 3);
    assert_eq!(t.to_string(), "axd");
}

#[test]
fn fork_keeps_text_and_moves_clock_past_origin() {
    let t = TextCrdt::from_text(1, "hey");
    let f = t.fork(5);
    assert_eq!(f.node_id(), 5);
    assert_eq!(f.to_string(), "hey");
    assert_eq!(f.ops_count(), 3);
    let c = f.clone();
    assert_eq!(c.to_string(), "hey");
}

#[test]
fn insert_goes_at_the_visible_position() {
    let mut t = TextCrdt::new(1);
    t.insert(0, 'A');
    t.insert(1, 'C');
    t.insert(1, 'B');
    assert_eq!(t.to_string(), "ABC");
    t.insert(0, 'Z');
    assert_eq!(t.to_string(), "ZABC");
    assert_eq!(t.tombstone_count(), 0);
    // past the end, the character goes to the start
    t.insert(9, 'Q');
    assert_eq!(t.to_string(), "QZABC");
}

#[test]
fn newer_sibling_comes_first() {
    let o1 = OpId { node_id: 1, timestamp: HLC { physical: 100, logical: 0, node_id: 1 } };
    let o2 = OpId { node_id: 2, timestamp: HLC { physical: 200, logical: 0, node_id: 2 } };
    let mut c = TextCrdt::new(9);
    c.apply(&TextOp::Insert { id: o1, parent: None, ch: 'a' });
    c.apply(&TextOp::Insert { id: o2, parent: None, ch: 'b' });
    assert_eq!(c.to_string(), "ba");
    let mut d = TextCrdt::new(8);
    d.apply(&TextOp::Insert { id: o2, parent: None, ch: 'b' });
    d.apply(&TextOp::Insert { id: o1, parent: None, ch: 'a' });
    assert_eq!(d.to_string(), "ba");
}

#[test]
fn forks_with_chained_and_later_inserts_converge() {
    let base = TextCrdt::from_text(1, "A");
    let mut b = base.fork(2);
    let mut a = base.fork(3);
    b.insert(1, 'Z');
    b.insert(2, 'W');
    a.insert(1, 'X');
    let mut ab = a.clone();
    ab.merge(&b);
    let mut ba = b.clone();
    ba.merge(&a);
    assert_eq!(ab.to_string(), ba.to_string());
    // merging the same log again changes nothing
    let before = ab.to_string();
    let count = ab.ops_count();
    ab.merge(&b);
    assert_eq!(ab.to_string(), before);
    assert_eq!(ab.ops_count(), count);
}

#[test]
fn apply_diff_of_equal_texts_does_nothing() {
    let mut t = TextCrdt::from_text(1, "same");
    let count = t.ops_count();
    let ops = t.apply_diff("same", "same");
    assert!(ops.is_empty());
    assert_eq!(t.ops_count(), count);
    assert_eq!(t.to_string(), "same");
}

#[test]
fn apply_diff_inserts_inside_the_text() {
    let mut t = TextCrdt::from_text(1, "AC");
    let ops = t.apply_diff("AC", "ABC");
    assert_eq!(ops.len(), 1);
    assert_eq!(t.to_string(), "ABC");
    let ops = t.apply_diff("ABC", "Hello Nest!");
    assert_eq!(t.to_string(), "Hello Nest!");
    assert!(!ops.is_empty());
}

#[test]
fn parts_round_trip_and_invalid_parts_are_refused() {
    let t = TextCrdt::from_text(3, "abc");
    let (node, clock, elements, log) = t.to_parts();
    assert_eq!(node, 3);
    assert_eq!(elements.len(), 3);
    assert_eq!(log.len(), 3);
    let back = TextCrdt::from_parts(node, clock, elements.clone(), log.clone()).unwrap();
    assert_eq!(back.to_string(), "abc");
    let mut dup = elements.clone();
    dup.push(elements[0]);
    assert!(TextCrdt::from_parts(node, clock, dup, log.clone()).is_none());
    let early = HLC { physical: 0, logical: 0, node_id: 0 };
    assert!(TextCrdt::from_parts(node, early, elements, log).is_none());
}

#[test]
fn merging_the_same_replica_again_changes_nothing() {
    let base = TextCrdt::from_text(1, "Hello");
    let mut x = base.fork(1);
    let mut y = base.fork(2);
    x.insert(0, 'a');
    y.delete(1);
    x.merge(&y);
    let text = x.to_string();
    let ops = x.ops_count();
    let tombs = x.tombstone_count();
    assert_eq!(text, "aHllo");
    x.merge(&y);
    assert_eq!(x.to_string(), text);
    assert_eq!(x.ops_count(), ops);
    assert_eq!(x.tombstone_count(), tombs);
    let copy = x.clone();
    x.merge(&copy);
    assert_eq!(x.to_string(), text);
    assert_eq!(x.ops_count(), ops);
    assert_eq!(x.tombstone_count(), tombs);
}

#[test]
fn fresh_replicas_merge_then_insert() {
    let mut a = TextCrdt::new(1);
    let b = TextCrdt::new(2);
    a.merge(&b);
    a.insert(0, 'x');
    assert_eq!(a.to_string(), "x");
}
