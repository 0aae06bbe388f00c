use nest_crdt::hlc::HLC;
use nest_crdt::lww::{LwwOp, LwwRegister};
use nest_crdt::map::{MapCrdt, MapOp};
use nest_crdt::set::Token;

#[test]
fn test_put_get_remove() {
    let mut clock = HLC::new(1);
    let mut map: MapCrdt<LwwRegister<String>> = MapCrdt::new(1);

    let val = LwwRegister::new("hello".to_string(), &mut clock);
    map.put("key1".to_string(), val, &mut clock);

    assert!(map.get("key1").is_some());
    assert_eq!(map.get("key1").unwrap().get(), "hello");
    assert_eq!(map.len(), 1);

    map.remove("key1", &mut clock);
    assert!(map.get("key1").is_none());
    assert_eq!(map.len(), 0);
}

fn reg(v: &str, physical: u64, node: u128) -> LwwRegister<String> {
    LwwRegister { value: v.to_string(), timestamp: HLC { physical, logical: 0, node_id: node } }
}

#[test]
fn update_applies_to_value_and_missing_key_gives_none() {
    let mut clock = HLC::new(1);
    let mut map: MapCrdt<LwwRegister<String>> = MapCrdt::new(1);
    map.put("k".to_string(), reg("a", 1, 1), &mut clock);
    let op = LwwOp { value: "b".to_string(), timestamp: HLC { physical: 2, logical: 0, node_id: 2 } };
    assert!(map.update("k", op.clone()).is_some());
    assert_eq!(map.get("k").unwrap().get(), "b");
    assert!(map.update("missing", op).is_none());
    assert!(map.remove("missing", &mut clock).is_none());
    if let Some(v) = map.get_mut("k") {
        v.value = "c".to_string();
    }
    assert_eq!(map.get("k").unwrap().get(), "c");
}

#[test]
fn keys_are_sorted_and_merge_unions() {
    let mut clock = HLC::new(1);
    let mut a: MapCrdt<LwwRegister<String>> = MapCrdt::new(1);
    let mut b: MapCrdt<LwwRegister<String>> = MapCrdt::new(2);
    a.put("src/main.rs".to_string(), reg("a1", 1, 1), &mut clock);
    a.put("README".to_string(), reg("a2", 1, 1), &mut clock);
    b.put("src/main.rs".to_string(), reg("b1", 5, 2), &mut clock);
    b.put("Cargo.toml".to_string(), reg("b2", 5, 2), &mut clock);
    a.merge(&b);
    assert_eq!(a.keys(), vec!["Cargo.toml", "README", "src/main.rs"]);
    assert_eq!(a.get("src/main.rs").unwrap().get(), "b1");
    assert_eq!(a.get("README").unwrap().get(), "a2");
    let pairs = a.iter();
    assert_eq!(pairs.len(), 3);
    assert_eq!(pairs[0].0, "Cargo.toml");
    assert_eq!(pairs[0].1.get(), "b2");
    assert!(!a.is_empty());
}

#[test]
fn apply_op_handles_each_operation() {
    let mut map: MapCrdt<LwwRegister<String>> = MapCrdt::new(1);
    let tag = Token { node_id: 1, timestamp: HLC { physical: 1, logical: 0, node_id: 1 } };
    map.apply_op(&MapOp::Put { key: "k".to_string(), value: reg("v", 1, 1), tag });
    assert_eq!(map.get("k").unwrap().get(), "v");
    map.apply_op(&MapOp::Update {
        key: "k".to_string(),
        op: LwwOp { value: "w".to_string(), timestamp: HLC { physical: 9, logical: 0, node_id: 1 } },
    });
    assert_eq!(map.get("k").unwrap().get(), "w");
    map.apply_op(&MapOp::Remove { key: "k".to_string(), tags: vec![tag] });
    assert!(map.get("k").is_none());
}

#[test]
fn unobserved_put_survives_concurrent_remove() {
    let mut ca = HLC::new(1);
    let mut cb = HLC::new(2);
    let mut a: MapCrdt<LwwRegister<String>> = MapCrdt::new(1);
    let mut b: MapCrdt<LwwRegister<String>> = MapCrdt::new(2);
    let put = a.put("k".to_string(), reg("v1", 1, 1), &mut ca);
    b.apply_op(&put);
    let op_rm = a.remove("k", &mut ca).unwrap();
    let op_put = b.put("k".to_string(), reg("v2", 2, 2), &mut cb);
    a.apply_op(&op_put);
    b.apply_op(&op_rm);
    assert!(a.get("k").is_some());
    assert!(b.get("k").is_some());
    assert_eq!(a.get("k").unwrap().get(), "v2");
    assert_eq!(b.get("k").unwrap().get(), "v2");
}

#[test]
fn observed_remove_of_key_survives_merge_with_older_clone() {
    let mut clock = HLC::new(1);
    let mut a: MapCrdt<LwwRegister<String>> = MapCrdt::new(1);
    a.put("k".to_string(), reg("v", 1, 1), &mut clock);
    let b = a.clone();
    assert!(a.remove("k", &mut clock).is_some());
    a.merge(&b);
    assert!(a.get("k").is_none());
    assert_eq!(a.len(), 0);
    assert!(a.keys().is_empty());
}

#[test]
fn map_parts_round_trip_and_invalid_parts_are_refused() {
    let mut clock = HLC::new(1);
    let mut m: MapCrdt<LwwRegister<String>> = MapCrdt::new(1);
    m.put("b".to_string(), reg("vb", 1, 1), &mut clock);
    m.put("a".to_string(), reg("va", 1, 1), &mut clock);
    m.remove("b", &mut clock);
    let (node, entries) = m.to_parts();
    assert_eq!(node, 1);
    assert_eq!(entries.len(), 2);
    assert_eq!(entries[0].0, "a");
    let back = MapCrdt::from_parts(node, entries.clone()).unwrap();
    assert_eq!(back.keys(), vec!["a"]);
    let mut unsorted = entries;
    unsorted.swap(0, 1);
    assert!(MapCrdt::from_parts(node, unsorted).is_none());
}

#[test]
fn remove_delivered_before_its_put_suppresses_it() {
    let mut map: MapCrdt<LwwRegister<String>> = MapCrdt::new(1);
    let tag = Token { node_id: 2, timestamp: HLC { physical: 3, logical: 0, node_id: 2 } };
    map.apply_op(&MapOp::Remove { key: "k".to_string(), tags: vec![tag] });
    assert!(map.get("k").is_none());
    map.apply_op(&MapOp::Put { key: "k".to_string(), value: reg("v", 3, 2), tag });
    assert!(map.get("k").is_none());
    assert_eq!(map.len(), 0);
    let mut clock = HLC::new(1);
    map.put("k".to_string(), reg("w", 4, 1), &mut clock);
    assert_eq!(map.get("k").unwrap().get(), "w");
}
