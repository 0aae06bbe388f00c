use nest_crdt::hlc::HLC;
use nest_crdt::lww::{LwwOp, LwwRegister};

#[test]
fn test_last_writer_wins() {
    let mut clock_a = HLC::new(1);
    let mut clock_b = HLC::new(2);

    let mut reg_a = LwwRegister::new("initial".to_string(), &mut clock_a);
    let mut reg_b = reg_a.clone();

    let op_a = reg_a.set("from A".to_string(), &mut clock_a);
    let op_b = reg_b.set("from B".to_string(), &mut clock_b);

    // Apply both ops to both replicas
    reg_a.apply(&op_b);
    reg_b.apply(&op_a);

    // Both should converge to the same value
    assert_eq!(reg_a.get(), reg_b.get());
}

#[test]
fn later_write_wins_and_earlier_is_ignored() {
    let t1 = HLC { physical: 10, logical: 0, node_id: 1 };
    let t2 = HLC { physical: 20, logical: 0, node_id: 2 };
    let mut reg = LwwRegister { value: 1u64, timestamp: t1 };
    reg.apply(&LwwOp { value: 2u64, timestamp: t2 });
    assert_eq!(*reg.get(), 2);
    assert_eq!(reg.timestamp, t2);
    reg.apply(&LwwOp { value: 3u64, timestamp: t1 });
    assert_eq!(*reg.get(), 2);
}

#[test]
fn equal_timestamp_keeps_local_value() {
    let t = HLC { physical: 10, logical: 0, node_id: 1 };
    let mut reg = LwwRegister { value: "a".to_string(), timestamp: t };
    reg.merge(&LwwRegister { value: "b".to_string(), timestamp: t });
    assert_eq!(reg.get(), "a");
}

#[test]
fn merge_converges_in_either_order() {
    let t1 = HLC { physical: 5, logical: 1, node_id: 1 };
    let t2 = HLC { physical: 5, logical: 1, node_id: 2 };
    let a = LwwRegister { value: "x".to_string(), timestamp: t1 };
    let b = LwwRegister { value: "y".to_string(), timestamp: t2 };
    let mut ab = a.clone();
    ab.merge(&b);
    let mut ba = b.clone();
    ba.merge(&a);
    assert_eq!(ab.get(), ba.get());
    assert_eq!(ab.get(), "y");
    assert_eq!(ab.timestamp, ba.timestamp);
}

#[test]
fn set_stamps_with_clock() {
    let mut clock = HLC { physical: u64::MAX, logical: 0, node_id: 4 };
    let mut reg = LwwRegister::new(0u32, &mut clock);
    assert_eq!(reg.timestamp, clock);
    let op = reg.set(9, &mut clock);
    assert_eq!(op.value, 9);
    assert_eq!(op.timestamp, clock);
    assert_eq!(reg.timestamp, clock);
    assert_eq!(*reg.get(), 9);
    assert_eq!(clock.logical, 2);
}

#[test]
fn latest_write_wins_in_any_delivery_order() {
    let w = |v: &str, p: u64, n: u128| LwwOp {
        value: v.to_string(),
        timestamp: HLC { physical: p, logical: 0, node_id: n },
    };
    let start = || LwwRegister {
        value: "s".to_string(),
        timestamp: HLC { physical: 1, logical: 0, node_id: 9 },
    };
    let ops = [w("x", 5, 1), w("y", 7, 2), w("z", 3, 3)];
    let mut r1 = start();
    for i in [0usize, 1, 2] {
        r1.apply(&ops[i]);
    }
    let mut r2 = start();
    for i in [2usize, 1, 1, 0, 2] {
        r2.apply(&ops[i]);
    }
    assert_eq!(r1.get(), "y");
    assert_eq!(r2.get(), "y");
    assert_eq!(r1.timestamp, r2.timestamp);
}
