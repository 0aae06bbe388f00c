use crate::hlc::HLC;
use crate::CrdtValue;
use vstd::prelude::*;

verus! {

/// Last-Writer-Wins Register.
/// Conflict resolution via HLC timestamp comparison.
#[derive(Debug)]
pub struct LwwRegister<T: Clone> {
    pub value: T,
    pub timestamp: HLC,
}

/// An assignment of a register, as sent to other replicas.
#[derive(Debug)]
pub struct LwwOp<T: Clone> {
    pub value: T,
    pub timestamp: HLC,
}

/// The state of a register after it has seen the writes `a` and `b`, each a
/// value with its timestamp: the later write wins, and on equal timestamps the
/// write seen first stays.
pub open spec fn lww_join<T>(a: (T, HLC), b: (T, HLC)) -> (T, HLC) {
    if a.1.precedes(b.1) {
        b
    } else {
        a
    }
}

impl<T: Clone> Clone for LwwRegister<T> {
    fn clone(&self) -> (r: Self)
        ensures
            r.timestamp == self.timestamp,
            cloned(self.value, r.value),
    {
        LwwRegister { value: self.value.clone(), timestamp: self.timestamp }
    }
}

impl<T: Clone> Clone for LwwOp<T> {
    fn clone(&self) -> (r: Self)
        ensures
            r.timestamp == self.timestamp,
            cloned(self.value, r.value),
    {
        LwwOp { value: self.value.clone(), timestamp: self.timestamp }
    }
}

impl<T: Clone> LwwRegister<T> {
    /// The register as a write: its value with its timestamp.
    pub open spec fn write(self) -> (T, HLC) {
        (self.value, self.timestamp)
    }

    /// A register holding `value`, stamped with a fresh timestamp of `clock`.
    pub fn new(value: T, clock: &mut HLC) -> (reg: Self)
        requires
            old(clock).logical < u64::MAX,
        ensures
            reg.value == value,
            reg.timestamp == *final(clock),
            old(clock).precedes(*final(clock)),
            exists|wall: u64| *final(clock) == #[trigger] old(clock).ticked(wall),
    {
        LwwRegister { timestamp: clock.now(), value }
    }

    /// A register holding `value`, stamped by `clock` at wall reading `wall`.
    pub fn new_at(value: T, clock: &mut HLC, wall: u64) -> (reg: Self)
        requires
            old(clock).can_tick(wall),
        ensures
            reg.value == value,
            reg.timestamp == *final(clock),
            *final(clock) == old(clock).ticked(wall),
            old(clock).precedes(*final(clock)),
    {
        LwwRegister { timestamp: clock.now_at(wall), value }
    }

    /// The current value.
    pub fn get(&self) -> (v: &T)
        ensures
            *v == self.value,
    {
        &self.value
    }

    /// Assign `value` locally with a fresh timestamp of `clock`; returns the
    /// operation to send to other replicas.
    pub fn set(&mut self, value: T, clock: &mut HLC) -> (op: LwwOp<T>)
        requires
            old(clock).logical < u64::MAX,
        ensures
            op.value == value,
            op.timestamp == *final(clock),
            final(self).timestamp == *final(clock),
            cloned(value, final(self).value),
            old(clock).precedes(*final(clock)),
            exists|wall: u64| *final(clock) == #[trigger] old(clock).ticked(wall),
    {
        let wall = HLC::wall_time();
        self.set_at(value, clock, wall)
    }

    /// Assign `value` locally, stamped by `clock` at wall reading `wall`;
    /// returns the operation to send to other replicas.
    pub fn set_at(&mut self, value: T, clock: &mut HLC, wall: u64) -> (op: LwwOp<T>)
        requires
            old(clock).can_tick(wall),
        ensures
            op.value == value,
            op.timestamp == *final(clock),
            final(self).timestamp == *final(clock),
            cloned(value, final(self).value),
            *final(clock) == old(clock).ticked(wall),
            old(clock).precedes(*final(clock)),
    {
        let ts = clock.now_at(wall);
        self.value = value.clone();
        self.timestamp = ts;
        LwwOp { value, timestamp: ts }
    }

    /// Apply a remote assignment: it wins if its timestamp is strictly later.
    pub fn apply(&mut self, op: &LwwOp<T>)
        ensures
            final(self).timestamp == lww_join(old(self).write(), (op.value, op.timestamp)).1,
            cloned(lww_join(old(self).write(), (op.value, op.timestamp)).0, final(self).value),
            !old(self).timestamp.precedes(op.timestamp) ==> *final(self) == *old(self),
    {
        if op.timestamp > self.timestamp {
            self.value = op.value.clone();
            self.timestamp = op.timestamp;
        }
    }

    /// Merge the state of another replica: the later write wins.
    pub fn merge(&mut self, other: &LwwRegister<T>)
        ensures
            final(self).timestamp == lww_join(old(self).write(), other.write()).1,
            cloned(lww_join(old(self).write(), other.write()).0, final(self).value),
            !old(self).timestamp.precedes(other.timestamp) ==> *final(self) == *old(self),
    {
        if other.timestamp > self.timestamp {
            self.value = other.value.clone();
            self.timestamp = other.timestamp;
        }
    }
}

impl<T: Clone> CrdtValue for LwwRegister<T> {
    type Op = LwwOp<T>;

    open spec fn can_apply(&self, op: &LwwOp<T>) -> bool {
        true
    }

    open spec fn can_merge(&self, other: &Self) -> bool {
        true
    }

    /// The later write wins: the timestamp of the join, and a clone of its value.
    open spec fn applied(old: Self, op: LwwOp<T>, new: Self) -> bool {
        &&& new.timestamp == lww_join(old.write(), (op.value, op.timestamp)).1
        &&& cloned(lww_join(old.write(), (op.value, op.timestamp)).0, new.value)
        &&& !old.timestamp.precedes(op.timestamp) ==> new == old
    }

    open spec fn merged(old: Self, other: Self, new: Self) -> bool {
        &&& new.timestamp == lww_join(old.write(), other.write()).1
        &&& cloned(lww_join(old.write(), other.write()).0, new.value)
        &&& !old.timestamp.precedes(other.timestamp) ==> new == old
    }

    fn apply(&mut self, op: &LwwOp<T>) {
        LwwRegister::apply(self, op);
    }

    fn merge(&mut self, other: &Self) {
        LwwRegister::merge(self, other);
    }
}

/// Joining writes is commutative when their timestamps differ (or they are
/// the same write): replicas that see two writes in either order agree.
pub proof fn lemma_lww_join_commutative<T>(a: (T, HLC), b: (T, HLC))
    requires
        a.1 != b.1 || a == b,
    ensures
        lww_join(a, b) == lww_join(b, a),
{
}

/// Joining writes is associative.
pub proof fn lemma_lww_join_associative<T>(a: (T, HLC), b: (T, HLC), c: (T, HLC))
    ensures
        lww_join(lww_join(a, b), c) == lww_join(a, lww_join(b, c)),
{
}

/// Joining a write with itself changes nothing.
pub proof fn lemma_lww_join_idempotent<T>(a: (T, HLC))
    ensures
        lww_join(a, a) == a,
{
}

/// Two replicas that start from the same state and then receive two writes
/// with distinct timestamps, in opposite orders, end with the same write: the
/// one with the later timestamp, if it is later than the start.
pub proof fn lemma_lww_converges<T>(s: (T, HLC), a: (T, HLC), b: (T, HLC))
    requires
        a.1 != b.1,
        s.1 != a.1 || s == a,
        s.1 != b.1 || s == b,
    ensures
        lww_join(lww_join(s, a), b) == lww_join(lww_join(s, b), a),
{
}

/// The state of a register that starts at `s` and then receives the writes
/// `ws`, in order.
pub open spec fn lww_fold<T>(s: (T, HLC), ws: Seq<(T, HLC)>) -> (T, HLC)
    decreases ws.len(),
{
    if ws.len() == 0 {
        s
    } else {
        lww_join(lww_fold(s, ws.drop_last()), ws.last())
    }
}

/// Writes with the same timestamp are the same write.
pub open spec fn writes_consistent<T>(ws: Seq<(T, HLC)>) -> bool {
    forall|i: int, j: int| 0 <= i < ws.len() && 0 <= j < ws.len() && ws[i].1 == ws[j].1 ==> ws[i] == ws[j]
}

/// After any sequence of writes, the register holds one of the writes it
/// saw (or its start), and no write it saw is later.
pub proof fn lemma_lww_fold_latest<T>(s: (T, HLC), ws: Seq<(T, HLC)>)
    ensures
        (seq![s] + ws).contains(lww_fold(s, ws)),
        forall|x: (T, HLC)| #[trigger] (seq![s] + ws).contains(x) ==> !lww_fold(s, ws).1.precedes(x.1),
    decreases ws.len(),
{
    let all = seq![s] + ws;
    if ws.len() == 0 {
        assert(all =~= seq![s]);
        assert(all[0] == s);
        crate::hlc::lemma_precedes_irreflexive(s.1);
    } else {
        let init = ws.drop_last();
        let w = ws.last();
        lemma_lww_fold_latest(s, init);
        let f0 = lww_fold(s, init);
        let f = lww_fold(s, ws);
        let all0 = seq![s] + init;
        assert(all =~= all0.push(w));
        assert(all[all.len() - 1] == w);
        if f0.1.precedes(w.1) {
            assert(f == w);
        } else {
            assert(f == f0);
            let i = choose|i: int| 0 <= i < all0.len() && all0[i] == f0;
            assert(all[i] == f0);
        }
        assert forall|x: (T, HLC)| #[trigger] all.contains(x) implies !f.1.precedes(x.1) by {
            let i = choose|i: int| 0 <= i < all.len() && all[i] == x;
            if i < all0.len() {
                assert(all0[i] == x);
                assert(all0.contains(x));
                assert(!f0.1.precedes(x.1));
                crate::hlc::lemma_precedes_total(f0.1, x.1);
                if f.1.precedes(x.1) {
                    if f0.1.precedes(w.1) {
                        if x.1.precedes(f0.1) {
                            crate::hlc::lemma_precedes_transitive(w.1, x.1, f0.1);
                            crate::hlc::lemma_precedes_transitive(f0.1, w.1, f0.1);
                        } else {
                            crate::hlc::lemma_precedes_transitive(f0.1, w.1, f0.1);
                        }
                        crate::hlc::lemma_precedes_irreflexive(f0.1);
                    }
                }
            } else {
                assert(x == w);
                crate::hlc::lemma_precedes_total(f0.1, w.1);
                crate::hlc::lemma_precedes_irreflexive(w.1);
            }
        }
    }
}

/// Last writer wins, whatever the order of delivery: two registers that
/// start from the same state and receive the same writes, in any orders and
/// with repeats, end with the same write, provided writes with equal
/// timestamps are equal.
pub proof fn lemma_lww_fold_order_independent<T>(s: (T, HLC), ws1: Seq<(T, HLC)>, ws2: Seq<(T, HLC)>)
    requires
        ws1.to_set() == ws2.to_set(),
        writes_consistent(seq![s] + ws1),
    ensures
        lww_fold(s, ws1) == lww_fold(s, ws2),
{
    lemma_lww_fold_latest(s, ws1);
    lemma_lww_fold_latest(s, ws2);
    let a1 = seq![s] + ws1;
    let a2 = seq![s] + ws2;
    let f1 = lww_fold(s, ws1);
    let f2 = lww_fold(s, ws2);
    assert forall|x: (T, HLC)| a1.contains(x) <==> a2.contains(x) by {
        if a1.contains(x) {
            let i = choose|i: int| 0 <= i < a1.len() && a1[i] == x;
            if i == 0 {
                assert(a2[0] == x);
            } else {
                assert(ws1[i - 1] == x);
                assert(ws1.to_set().contains(x));
                assert(ws2.contains(x));
                let j = choose|j: int| 0 <= j < ws2.len() && ws2[j] == x;
                assert(a2[j + 1] == x);
            }
        }
        if a2.contains(x) {
            let i = choose|i: int| 0 <= i < a2.len() && a2[i] == x;
            if i == 0 {
                assert(a1[0] == x);
            } else {
                assert(ws2[i - 1] == x);
                assert(ws2.to_set().contains(x));
                assert(ws1.contains(x));
                let j = choose|j: int| 0 <= j < ws1.len() && ws1[j] == x;
                assert(a1[j + 1] == x);
            }
        }
    }
    assert(a1.contains(f2));
    assert(!f1.1.precedes(f2.1));
    assert(!f2.1.precedes(f1.1));
    crate::hlc::lemma_precedes_total(f1.1, f2.1);
    let i = choose|i: int| 0 <= i < a1.len() && a1[i] == f1;
    let j = choose|j: int| 0 <= j < a1.len() && a1[j] == f2;
}

/// After `a` merges `b` and then `b` merges `a`, both hold the same write,
/// when their timestamps differ or they hold the same write.
pub proof fn lemma_lww_merge_round_trip<T>(a: (T, HLC), b: (T, HLC))
    requires
        a.1 != b.1 || a == b,
    ensures
        lww_join(b, lww_join(a, b)) == lww_join(a, b),
{
    crate::hlc::lemma_precedes_total(a.1, b.1);
    crate::hlc::lemma_precedes_irreflexive(b.1);
}

/// The later write wins: a register that starts at `s` and receives, in
/// either order, a write of `va` stamped by clock `ca` at reading `wa` and a
/// write of `vb` stamped by clock `cb` at an earlier reading `wb`, ends with
/// the first write, when `wa` is also later than both clocks' and the
/// start's physical times.
pub proof fn lemma_later_reading_write_wins<T>(
    s: (T, HLC),
    va: T,
    ca: HLC,
    wa: u64,
    vb: T,
    cb: HLC,
    wb: u64,
)
    requires
        ca.can_tick(wa),
        cb.can_tick(wb),
        wa > ca.physical,
        wa > cb.physical,
        wa > wb,
        wa > s.1.physical,
    ensures
        lww_join(lww_join(s, (va, ca.ticked(wa))), (vb, cb.ticked(wb))) == (va, ca.ticked(wa)),
        lww_join(lww_join(s, (vb, cb.ticked(wb))), (va, ca.ticked(wa))) == (va, ca.ticked(wa)),
{
    crate::hlc::lemma_later_reading_is_later(ca, wa, cb, wb);
    crate::hlc::lemma_precedes_total(s.1, ca.ticked(wa));
    if s.1.precedes(cb.ticked(wb)) {
        crate::hlc::lemma_precedes_transitive(s.1, cb.ticked(wb), ca.ticked(wa));
    }
}

} // verus!
