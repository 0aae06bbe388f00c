use nest_crdt::hlc::HLC;

#[test]
fn test_monotonic() {
    let mut clock = HLC::new(1);
    let t1 = clock.now();
    let t2 = clock.now();
    assert!(t2 > t1);
}

#[test]
fn test_receive_advances() {
    let mut clock_a = HLC::new(1);
    let mut clock_b = HLC::new(2);

    // B is far ahead
    clock_b.physical = clock_a.physical + 10000;
    let remote = clock_b.now();

    clock_a.receive(&remote);
    let local = clock_a.now();
    assert!(local > remote);
}

#[test]
fn test_deterministic_ordering() {
    let a = HLC {
        physical: 100,
        logical: 0,
        node_id: 1,
    };
    let b = HLC {
        physical: 100,
        logical: 0,
        node_id: 2,
    };
    assert!(b > a); // same physical+logical, higher node_id wins
}

#[test]
fn new_clock_starts_at_logical_zero_with_wall_time() {
    let clock = HLC::new(7);
    assert_eq!(clock.logical, 0);
    assert_eq!(clock.node_id, 7);
    assert!(clock.physical > 1_600_000_000_000);
}

#[test]
fn now_at_later_wall_resets_logical() {
    let mut clock = HLC { physical: 100, logical: 5, node_id: 3 };
    let t = clock.now_at(200);
    assert_eq!(t, HLC { physical: 200, logical: 0, node_id: 3 });
    assert_eq!(clock, t);
}

#[test]
fn now_at_earlier_wall_increments_logical() {
    let mut clock = HLC { physical: 100, logical: 5, node_id: 3 };
    let t = clock.now_at(50);
    assert_eq!(t, HLC { physical: 100, logical: 6, node_id: 3 });
}

#[test]
fn receive_at_wall_ahead_of_both() {
    let mut clock = HLC { physical: 100, logical: 5, node_id: 1 };
    let remote = HLC { physical: 150, logical: 9, node_id: 2 };
    clock.receive_at(&remote, 300);
    assert_eq!(clock, HLC { physical: 300, logical: 0, node_id: 1 });
}

#[test]
fn receive_at_same_physical_takes_max_logical() {
    let mut clock = HLC { physical: 100, logical: 5, node_id: 1 };
    let remote = HLC { physical: 100, logical: 9, node_id: 2 };
    clock.receive_at(&remote, 50);
    assert_eq!(clock, HLC { physical: 100, logical: 10, node_id: 1 });
}

#[test]
fn receive_at_remote_ahead_adopts_remote() {
    let mut clock = HLC { physical: 100, logical: 5, node_id: 1 };
    let remote = HLC { physical: 120, logical: 2, node_id: 2 };
    clock.receive_at(&remote, 50);
    assert_eq!(clock, HLC { physical: 120, logical: 3, node_id: 1 });
    assert!(clock > remote);
}

#[test]
fn receive_at_local_ahead_increments() {
    let mut clock = HLC { physical: 130, logical: 5, node_id: 1 };
    let remote = HLC { physical: 120, logical: 2, node_id: 2 };
    clock.receive_at(&remote, 50);
    assert_eq!(clock, HLC { physical: 130, logical: 6, node_id: 1 });
}

#[test]
fn ordering_is_lexicographic() {
    let a = HLC { physical: 1, logical: 9, node_id: 9 };
    let b = HLC { physical: 2, logical: 0, node_id: 0 };
    let c = HLC { physical: 2, logical: 1, node_id: 0 };
    assert!(a < b && b < c && a < c);
    assert!(b.later_than(&a));
    assert!(!a.later_than(&b));
    assert!(!a.later_than(&a));
    assert_eq!(a.partial_cmp(&a), Some(std::cmp::Ordering::Equal));
}

#[test]
fn new_at_starts_at_the_given_wall_time() {
    let c = HLC::new_at(7, 1234);
    assert_eq!(c, HLC { physical: 1234, logical: 0, node_id: 7 });
}
