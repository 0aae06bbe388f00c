use crate::hlc::HLC;
use crate::CrdtValue;
use crate::seqs::{
    count_matching, first_match, kept_values, lemma_count_full, lemma_count_prefix_grows,
    lemma_first_match_congruent, lemma_first_match_is, lemma_first_match_none,
    lemma_first_match_prefix, lemma_kept_full, lemma_kept_step, lemma_nth_match_found,
    lemma_count_step, lemma_kept_len, lemma_kept_unmark, lemma_nth_match_is, lemma_nth_match_none,
    nth_match,
};
use vstd::prelude::*;

verus! {

/// Unique identifier for sequence items.
#[derive(Clone, Copy, Debug, PartialEq, Eq, Structural, Hash)]
pub struct SeqId {
    pub node_id: u128,
    pub timestamp: HLC,
}

#[derive(Debug)]
struct SeqItem<T: Clone> {
    id: SeqId,
    value: T,
    deleted: bool,
}

impl<T: Clone> SeqItem<T> {
    fn duplicate(&self) -> (r: Self)
        ensures
            r.id == self.id,
            r.deleted == self.deleted,
            cloned(self.value, r.value),
    {
        SeqItem { id: self.id, value: self.value.clone(), deleted: self.deleted }
    }
}

/// Append-mostly ordered list CRDT.
/// Used for comments, history entries, etc.
#[derive(Debug)]
pub struct SequenceCrdt<T: Clone> {
    node_id: u128,
    items: Vec<SeqItem<T>>,
}

/// An operation on a sequence, as sent to other replicas.
#[derive(Debug)]
pub enum SequenceOp<T: Clone> {
    Append { id: SeqId, value: T },
    Delete { target: SeqId },
}

impl<T: Clone> Clone for SequenceOp<T> {
    fn clone(&self) -> (r: Self)
        ensures
            match (*self, r) {
                (SequenceOp::Append { id: a, value: v }, SequenceOp::Append { id: b, value: w }) => a
                    == b && cloned(v, w),
                (SequenceOp::Delete { target: a }, SequenceOp::Delete { target: b }) => a == b,
                _ => false,
            },
    {
        match self {
            SequenceOp::Append { id, value } => SequenceOp::Append { id: *id, value: value.clone() },
            SequenceOp::Delete { target } => SequenceOp::Delete { target: *target },
        }
    }
}

/// An item of a sequence as the contracts see it: its identifier, its value,
/// and whether it has been deleted.
pub type SeqEntry<T> = (SeqId, T, bool);

/// The entries not deleted.
pub open spec fn seq_live<T>() -> spec_fn(SeqEntry<T>) -> bool {
    |e: SeqEntry<T>| !e.2
}

/// The value of an entry.
pub open spec fn seq_value<T>() -> spec_fn(SeqEntry<T>) -> T {
    |e: SeqEntry<T>| e.1
}

/// The entries with identifier `id`.
pub open spec fn seq_has_id<T>(id: SeqId) -> spec_fn(SeqEntry<T>) -> bool {
    |e: SeqEntry<T>| e.0 == id
}

/// The values of the entries not deleted, in order.
pub open spec fn seq_values<T>(s: Seq<SeqEntry<T>>) -> Seq<T> {
    kept_values(s, seq_live::<T>(), seq_value::<T>())
}

/// `e` marked deleted.
pub open spec fn seq_tombstone<T>(e: SeqEntry<T>) -> SeqEntry<T> {
    (e.0, e.1, true)
}

/// Insert `x` into `s` after every entry whose timestamp is not later than
/// that of `x`, scanning from the end: the step of a stable sort by timestamp.
pub open spec fn insert_by_time<T>(s: Seq<SeqEntry<T>>, x: SeqEntry<T>) -> Seq<SeqEntry<T>>
    decreases s.len(),
{
    if s.len() == 0 {
        seq![x]
    } else if !x.0.timestamp.precedes(s.last().0.timestamp) {
        s.push(x)
    } else {
        insert_by_time(s.drop_last(), x).push(s.last())
    }
}

/// `s` stably sorted by timestamp: entries with equal timestamps keep their order.
pub open spec fn sort_by_time<T>(s: Seq<SeqEntry<T>>) -> Seq<SeqEntry<T>>
    decreases s.len(),
{
    if s.len() == 0 {
        s
    } else {
        insert_by_time(sort_by_time(s.drop_last()), s.last())
    }
}

/// No entry of `s` has a timestamp later than that of an entry after it.
pub open spec fn time_sorted<T>(s: Seq<SeqEntry<T>>) -> bool {
    forall|i: int, j: int| 0 <= i < j < s.len() ==> !s[j].0.timestamp.precedes(s[i].0.timestamp)
}

/// `b` holds the entries of `a`, each value replaced by a clone of it.
pub open spec fn same_up_to_clone<T: Clone>(a: Seq<SeqEntry<T>>, b: Seq<SeqEntry<T>>) -> bool {
    &&& a.len() == b.len()
    &&& forall|i: int|
        0 <= i < a.len() ==> #[trigger] a[i].0 == b[i].0 && a[i].2 == b[i].2 && cloned(
            a[i].1,
            b[i].1,
        )
}

/// Receiving an appended entry `x`: ignored if its identifier is known,
/// otherwise added and the entries stably sorted by timestamp.
pub open spec fn seq_receive_append<T>(s: Seq<SeqEntry<T>>, x: SeqEntry<T>) -> Seq<SeqEntry<T>> {
    if first_match(s, seq_has_id::<T>(x.0)) >= 0 {
        s
    } else {
        sort_by_time(s.push(x))
    }
}

/// Receiving a deletion of `target`: the first entry with that identifier is
/// marked deleted, if there is one.
pub open spec fn seq_receive_delete<T>(s: Seq<SeqEntry<T>>, target: SeqId) -> Seq<SeqEntry<T>> {
    let k = first_match(s, seq_has_id::<T>(target));
    if k >= 0 {
        s.update(k, seq_tombstone(s[k]))
    } else {
        s
    }
}

/// Merging one entry of another replica: added if its identifier is unknown,
/// otherwise its deletion, if any, is carried over to the first local entry
/// with that identifier.
pub open spec fn seq_merge_step<T>(acc: Seq<SeqEntry<T>>, e: SeqEntry<T>) -> Seq<SeqEntry<T>> {
    let k = first_match(acc, seq_has_id::<T>(e.0));
    if k < 0 {
        acc.push(e)
    } else if e.2 {
        acc.update(k, seq_tombstone(acc[k]))
    } else {
        acc
    }
}

/// Merging the entries of another replica, one by one in their order.
pub open spec fn seq_merge_entries<T>(local: Seq<SeqEntry<T>>, other: Seq<SeqEntry<T>>) -> Seq<
    SeqEntry<T>,
>
    decreases other.len(),
{
    if other.len() == 0 {
        local
    } else {
        seq_merge_step(seq_merge_entries(local, other.drop_last()), other.last())
    }
}

spec fn entry_of<T: Clone>(it: SeqItem<T>) -> SeqEntry<T> {
    (it.id, it.value, it.deleted)
}

spec fn entries_of<T: Clone>(v: Seq<SeqItem<T>>) -> Seq<SeqEntry<T>> {
    v.map_values(|it: SeqItem<T>| entry_of(it))
}

impl<T: Clone> SequenceCrdt<T> {
    /// The node this replica appends as.
    pub closed spec fn node(self) -> u128 {
        self.node_id
    }

    /// All items, deleted ones included, in their stored order.
    pub closed spec fn entries(self) -> Seq<SeqEntry<T>> {
        entries_of(self.items@)
    }

    /// The values of the items not deleted, in order.
    pub open spec fn values(self) -> Seq<T> {
        seq_values(self.entries())
    }

    /// An empty sequence for node `node_id`.
    pub fn new(node_id: u128) -> (s: Self)
        ensures
            s.node() == node_id,
            s.entries() == Seq::<SeqEntry<T>>::empty(),
    {
        let s = SequenceCrdt { node_id, items: Vec::new() };
        assert(s.entries() =~= Seq::<SeqEntry<T>>::empty());
        s
    }

    /// Append `value` with a fresh timestamp of `clock`; returns the operation
    /// to send to other replicas.
    pub fn append(&mut self, value: T, clock: &mut HLC) -> (op: SequenceOp<T>)
        requires
            old(clock).logical < u64::MAX,
        ensures
            op == (SequenceOp::Append {
                id: SeqId { node_id: old(self).node(), timestamp: *final(clock) },
                value,
            }),
            final(self).node() == old(self).node(),
            final(self).entries().len() == old(self).entries().len() + 1,
            final(self).entries().drop_last() == old(self).entries(),
            final(self).entries().last().0 == (SeqId {
                node_id: old(self).node(),
                timestamp: *final(clock),
            }),
            !final(self).entries().last().2,
            cloned(value, final(self).entries().last().1),
            old(clock).precedes(*final(clock)),
            exists|wall: u64| *final(clock) == #[trigger] old(clock).ticked(wall),
    {
        let wall = HLC::wall_time();
        self.append_at(value, clock, wall)
    }

    /// Append `value`, stamped by `clock` at wall reading `wall`; returns the
    /// operation to send to other replicas.
    pub fn append_at(&mut self, value: T, clock: &mut HLC, wall: u64) -> (op: SequenceOp<T>)
        requires
            old(clock).can_tick(wall),
        ensures
            op == (SequenceOp::Append {
                id: SeqId { node_id: old(self).node(), timestamp: *final(clock) },
                value,
            }),
            final(self).node() == old(self).node(),
            final(self).entries().len() == old(self).entries().len() + 1,
            final(self).entries().drop_last() == old(self).entries(),
            final(self).entries().last().0 == (SeqId {
                node_id: old(self).node(),
                timestamp: *final(clock),
            }),
            !final(self).entries().last().2,
            cloned(value, final(self).entries().last().1),
            *final(clock) == old(clock).ticked(wall),
            old(clock).precedes(*final(clock)),
    {
        let id = SeqId { node_id: self.node_id, timestamp: clock.now_at(wall) };
        let v = value.clone();
        self.items.push(SeqItem { id, value: v, deleted: false });
        assert(self.entries().drop_last() =~= old(self).entries());
        SequenceOp::Append { id, value }
    }

    /// Delete the item at visible position `index`; returns the operation to
    /// send to other replicas, or `None` if there is no such item.
    pub fn delete(&mut self, index: usize) -> (op: Option<SequenceOp<T>>)
        ensures
            ({
                let k = nth_match(old(self).entries(), seq_live::<T>(), index as int);
                &&& (k < 0) == (index >= old(self).values().len())
                &&& k < 0 ==> op is None && *final(self) == *old(self)
                &&& k >= 0 ==> op == Some(
                    SequenceOp::<T>::Delete { target: old(self).entries()[k].0 },
                ) && final(self).entries() == old(self).entries().update(
                    k,
                    seq_tombstone(old(self).entries()[k]),
                ) && final(self).node() == old(self).node()
            }),
            index < old(self).values().len() ==> final(self).values() == old(self).values().remove(
                index as int,
            ),
    {
        let ghost s = self.entries();
        let ghost p = seq_live::<T>();
        proof {
            lemma_kept_len(s, p, seq_value::<T>());
        }
        let mut visible_idx: usize = 0;
        let mut i: usize = 0;
        while i < self.items.len()
            invariant
                *self == *old(self),
                s == self.entries(),
                p == seq_live::<T>(),
                i <= s.len(),
                visible_idx == count_matching(s.take(i as int), p),
                visible_idx <= index,
            decreases self.items.len() - i,
        {
            proof {
                lemma_count_step(s, p, i as int);
            }
            if !self.items[i].deleted {
                if visible_idx == index {
                    let target = self.items[i].id;
                    self.items[i].deleted = true;
                    proof {
                        lemma_nth_match_is(s, p, index as int, i as int);
                        assert(self.entries() =~= s.update(i as int, seq_tombstone(s[i as int])));
                        lemma_kept_unmark(s, p, seq_value::<T>(), i as int, seq_tombstone(s[i as int]));
                        lemma_count_prefix_grows(s, p, i as int, s.len() as int);
                        lemma_count_full(s, p);
                        lemma_kept_len(s, p, seq_value::<T>());
                    }
                    return Some(SequenceOp::Delete { target });
                }
                visible_idx += 1;
            }
            i += 1;
        }
        proof {
            lemma_count_full(s, p);
            lemma_nth_match_none(s, p, index as int);
            lemma_kept_len(s, p, seq_value::<T>());
        }
        None
    }
}


/// Inserting by time before a run of entries later than `x` leaves that run in place.
proof fn lemma_insert_split<T>(s: Seq<SeqEntry<T>>, x: SeqEntry<T>, j: int)
    requires
        0 <= j <= s.len(),
        forall|i: int| j <= i < s.len() ==> x.0.timestamp.precedes(#[trigger] s[i].0.timestamp),
    ensures
        insert_by_time(s, x) == insert_by_time(s.take(j), x) + s.skip(j),
    decreases s.len(),
{
    if j == s.len() {
        assert(s.take(j) =~= s);
        assert(insert_by_time(s, x) + s.skip(j) =~= insert_by_time(s, x));
    } else {
        let d = s.drop_last();
        lemma_insert_split(d, x, j);
        assert(d.take(j) =~= s.take(j));
        assert((insert_by_time(s.take(j), x) + d.skip(j)).push(s.last()) =~= insert_by_time(
            s.take(j),
            x,
        ) + s.skip(j));
    }
}

/// Inserting by time puts `x` somewhere among the entries of `s`, which keep their order.
proof fn lemma_insert_is_insert<T>(s: Seq<SeqEntry<T>>, x: SeqEntry<T>) -> (p: int)
    ensures
        0 <= p <= s.len(),
        insert_by_time(s, x) == s.insert(p, x),
    decreases s.len(),
{
    if s.len() == 0 {
        assert(seq![x] =~= s.insert(0, x));
        0
    } else if !x.0.timestamp.precedes(s.last().0.timestamp) {
        assert(s.push(x) =~= s.insert(s.len() as int, x));
        s.len() as int
    } else {
        let p = lemma_insert_is_insert(s.drop_last(), x);
        assert(s.drop_last().insert(p, x).push(s.last()) =~= s.insert(p, x));
        p
    }
}

/// Inserting by time into a time-sorted sequence keeps it sorted.
proof fn lemma_insert_keeps_sorted<T>(s: Seq<SeqEntry<T>>, x: SeqEntry<T>)
    requires
        time_sorted(s),
    ensures
        time_sorted(insert_by_time(s, x)),
    decreases s.len(),
{
    let tx = x.0.timestamp;
    if s.len() == 0 {
        assert(insert_by_time(s, x) =~= seq![x]);
    } else if !tx.precedes(s.last().0.timestamp) {
        let r = s.push(x);
        assert(insert_by_time(s, x) == r);
        assert forall|i: int, j: int| 0 <= i < j < r.len() implies !r[j].0.timestamp.precedes(
            r[i].0.timestamp,
        ) by {
            assert(r[i] == s[i]);
            if j < s.len() {
                assert(r[j] == s[j]);
            }
            if j == s.len() {
                assert(r[j] == x);
                let tl = s.last().0.timestamp;
                let ti = s[i].0.timestamp;
                if i < s.len() - 1 {
                    assert(!tl.precedes(ti));
                }
                crate::hlc::lemma_precedes_total(tx, tl);
                crate::hlc::lemma_precedes_total(ti, tl);
                if tx.precedes(ti) {
                    if ti.precedes(tl) {
                        crate::hlc::lemma_precedes_transitive(tx, ti, tl);
                    }
                }
            }
        }
    } else {
        let d = s.drop_last();
        let l = s.last();
        lemma_sorted_drop_last(s);
        lemma_insert_keeps_sorted(d, x);
        let r = insert_by_time(d, x);
        let p = lemma_insert_is_insert(d, x);
        let q = r.push(l);
        assert(insert_by_time(s, x) == q);
        assert forall|i: int, j: int| 0 <= i < j < q.len() implies !q[j].0.timestamp.precedes(
            q[i].0.timestamp,
        ) by {
            if j == r.len() {
                assert(q[j] == l);
                assert(l == s[s.len() - 1]);
                assert(r.len() == s.len());
                crate::hlc::lemma_precedes_total(tx, l.0.timestamp);
                if i == p {
                    assert(q[i] == x);
                    assert(!l.0.timestamp.precedes(x.0.timestamp));
                } else if i < p {
                    assert(q[i] == d[i]);
                    assert(d[i] == s[i]);
                    assert(!l.0.timestamp.precedes(s[i].0.timestamp));
                } else {
                    assert(q[i] == d[i - 1]);
                    assert(d[i - 1] == s[i - 1]);
                    assert(!l.0.timestamp.precedes(s[i - 1].0.timestamp));
                }
            } else {
                assert(q[i] == r[i] && q[j] == r[j]);
            }
        }
    }
}

proof fn lemma_sorted_drop_last<T>(s: Seq<SeqEntry<T>>)
    requires
        time_sorted(s),
        s.len() > 0,
    ensures
        time_sorted(s.drop_last()),
{
    let d = s.drop_last();
    assert forall|i: int, j: int| 0 <= i < j < d.len() implies !d[j].0.timestamp.precedes(
        d[i].0.timestamp,
    ) by {
        assert(d[i] == s[i] && d[j] == s[j]);
    }
}

/// Sorting by time yields a time-sorted sequence.
pub proof fn lemma_sort_sorted<T>(s: Seq<SeqEntry<T>>)
    ensures
        time_sorted(sort_by_time(s)),
    decreases s.len(),
{
    if s.len() > 0 {
        lemma_sort_sorted(s.drop_last());
        lemma_insert_keeps_sorted(sort_by_time(s.drop_last()), s.last());
    }
}

/// Sorting a time-sorted sequence changes nothing.
pub proof fn lemma_sort_sorted_identity<T>(s: Seq<SeqEntry<T>>)
    requires
        time_sorted(s),
    ensures
        sort_by_time(s) == s,
    decreases s.len(),
{
    if s.len() > 0 {
        lemma_sorted_drop_last(s);
        lemma_sort_sorted_identity(s.drop_last());
        assert(s.drop_last().push(s.last()) =~= s);
    }
}

/// Inserting two entries with distinct timestamps by time gives the same
/// result in either order.
pub proof fn lemma_insert_by_time_commutes<T>(s: Seq<SeqEntry<T>>, x: SeqEntry<T>, y: SeqEntry<T>)
    requires
        x.0.timestamp != y.0.timestamp,
    ensures
        insert_by_time(insert_by_time(s, x), y) == insert_by_time(insert_by_time(s, y), x),
    decreases s.len(),
{
    let tx = x.0.timestamp;
    let ty = y.0.timestamp;
    crate::hlc::lemma_precedes_total(tx, ty);
    if s.len() == 0 {
        let a = seq![x];
        let b = seq![y];
        assert(insert_by_time(s, x) == a);
        assert(insert_by_time(s, y) == b);
        assert(a.drop_last() =~= s && a.last() == x);
        assert(b.drop_last() =~= s && b.last() == y);
        if ty.precedes(tx) {
            assert(insert_by_time(a, y) == insert_by_time(s, y).push(x));
            assert(insert_by_time(b, x) == b.push(x));
            assert(b.push(x) =~= seq![y, x]);
        } else {
            assert(insert_by_time(a, y) == a.push(y));
            assert(insert_by_time(b, x) == insert_by_time(s, x).push(y));
            assert(a.push(y) =~= seq![x, y]);
        }
    } else {
        let l = s.last();
        let d = s.drop_last();
        let tl = l.0.timestamp;
        crate::hlc::lemma_precedes_total(tx, tl);
        crate::hlc::lemma_precedes_total(ty, tl);
        let xl = tx.precedes(tl);
        let yl = ty.precedes(tl);
        if !xl && !yl {
            let a = s.push(x);
            let b = s.push(y);
            assert(insert_by_time(s, x) == a);
            assert(insert_by_time(s, y) == b);
            assert(a.drop_last() =~= s && a.last() == x);
            assert(b.drop_last() =~= s && b.last() == y);
            if ty.precedes(tx) {
                assert(insert_by_time(a, y) == b.push(x));
                assert(insert_by_time(b, x) == b.push(x));
            } else {
                assert(insert_by_time(a, y) == a.push(y));
                assert(insert_by_time(b, x) == a.push(y));
            }
        } else if !xl && yl {
            if tl.precedes(tx) {
                crate::hlc::lemma_precedes_transitive(ty, tl, tx);
            }
            assert(ty.precedes(tx));
            let a = s.push(x);
            let b = insert_by_time(d, y).push(l);
            assert(insert_by_time(s, x) == a);
            assert(insert_by_time(s, y) == b);
            assert(a.drop_last() =~= s && a.last() == x);
            assert(b.drop_last() =~= insert_by_time(d, y) && b.last() == l);
            assert(insert_by_time(a, y) == b.push(x));
            assert(insert_by_time(b, x) == b.push(x));
        } else if xl && !yl {
            if tl.precedes(ty) {
                crate::hlc::lemma_precedes_transitive(tx, tl, ty);
            }
            assert(tx.precedes(ty));
            let a = insert_by_time(d, x).push(l);
            let b = s.push(y);
            assert(insert_by_time(s, x) == a);
            assert(insert_by_time(s, y) == b);
            assert(a.drop_last() =~= insert_by_time(d, x) && a.last() == l);
            assert(b.drop_last() =~= s && b.last() == y);
            assert(insert_by_time(a, y) == a.push(y));
            assert(insert_by_time(b, x) == a.push(y));
        } else {
            lemma_insert_by_time_commutes(d, x, y);
            let a = insert_by_time(d, x).push(l);
            let b = insert_by_time(d, y).push(l);
            assert(insert_by_time(s, x) == a);
            assert(insert_by_time(s, y) == b);
            assert(a.drop_last() =~= insert_by_time(d, x) && a.last() == l);
            assert(b.drop_last() =~= insert_by_time(d, y) && b.last() == l);
            assert(insert_by_time(a, y) == insert_by_time(insert_by_time(d, x), y).push(l));
            assert(insert_by_time(b, x) == insert_by_time(insert_by_time(d, y), x).push(l));
        }
    }
}

/// Replicas whose items are in timestamp order, receiving two appends with
/// distinct timestamps and unknown identifiers in opposite orders, end with the
/// same items.
pub proof fn lemma_receive_appends_commute<T>(s: Seq<SeqEntry<T>>, x: SeqEntry<T>, y: SeqEntry<T>)
    requires
        time_sorted(s),
        first_match(s, seq_has_id::<T>(x.0)) < 0,
        first_match(s, seq_has_id::<T>(y.0)) < 0,
        x.0.timestamp != y.0.timestamp,
    ensures
        seq_receive_append(seq_receive_append(s, x), y) == seq_receive_append(
            seq_receive_append(s, y),
            x,
        ),
{
    lemma_sort_sorted_identity(s);
    assert(s.push(x).drop_last() =~= s);
    assert(s.push(y).drop_last() =~= s);
    let a = insert_by_time(s, x);
    let b = insert_by_time(s, y);
    lemma_insert_keeps_sorted(s, x);
    lemma_insert_keeps_sorted(s, y);
    lemma_sort_sorted_identity(a);
    lemma_sort_sorted_identity(b);
    assert(a.push(y).drop_last() =~= a);
    assert(b.push(x).drop_last() =~= b);
    let pa = lemma_insert_is_insert(s, x);
    let pb = lemma_insert_is_insert(s, y);
    lemma_first_match_prefix(s, seq_has_id::<T>(x.0));
    lemma_first_match_prefix(s, seq_has_id::<T>(y.0));
    assert forall|j: int| 0 <= j < a.len() implies !seq_has_id::<T>(y.0)(#[trigger] a[j]) by {
        if j < pa {
            assert(a[j] == s[j]);
        } else if j > pa {
            assert(a[j] == s[j - 1]);
        }
    }
    assert forall|j: int| 0 <= j < b.len() implies !seq_has_id::<T>(x.0)(#[trigger] b[j]) by {
        if j < pb {
            assert(b[j] == s[j]);
        } else if j > pb {
            assert(b[j] == s[j - 1]);
        }
    }
    lemma_first_match_none(a, seq_has_id::<T>(y.0));
    lemma_first_match_none(b, seq_has_id::<T>(x.0));
    lemma_insert_by_time_commutes(s, x, y);
}

/// Inserting by time respects replacing values by clones.
proof fn lemma_insert_up_to_clone<T: Clone>(
    a: Seq<SeqEntry<T>>,
    x: SeqEntry<T>,
    b: Seq<SeqEntry<T>>,
    y: SeqEntry<T>,
)
    requires
        same_up_to_clone(a, b),
        x.0 == y.0,
        x.2 == y.2,
        cloned(x.1, y.1),
    ensures
        same_up_to_clone(insert_by_time(a, x), insert_by_time(b, y)),
    decreases a.len(),
{
    if a.len() > 0 {
        assert(a.last().0 == b.last().0);
        if x.0.timestamp.precedes(a.last().0.timestamp) {
            assert(same_up_to_clone(a.drop_last(), b.drop_last())) by {
                assert forall|i: int| 0 <= i < a.drop_last().len() implies #[trigger] a.drop_last()[i].0
                    == b.drop_last()[i].0 && a.drop_last()[i].2 == b.drop_last()[i].2 && cloned(
                    a.drop_last()[i].1,
                    b.drop_last()[i].1,
                ) by {
                    assert(a[i] == a.drop_last()[i]);
                }
            }
            lemma_insert_up_to_clone(a.drop_last(), x, b.drop_last(), y);
        }
    }
}

/// Sorting by time respects replacing values by clones.
proof fn lemma_sort_up_to_clone<T: Clone>(a: Seq<SeqEntry<T>>, b: Seq<SeqEntry<T>>)
    requires
        same_up_to_clone(a, b),
    ensures
        same_up_to_clone(sort_by_time(a), sort_by_time(b)),
    decreases a.len(),
{
    if a.len() > 0 {
        assert(same_up_to_clone(a.drop_last(), b.drop_last())) by {
            assert forall|i: int| 0 <= i < a.drop_last().len() implies #[trigger] a.drop_last()[i].0
                == b.drop_last()[i].0 && a.drop_last()[i].2 == b.drop_last()[i].2 && cloned(
                a.drop_last()[i].1,
                b.drop_last()[i].1,
            ) by {
                assert(a[i] == a.drop_last()[i]);
            }
        }
        lemma_sort_up_to_clone(a.drop_last(), b.drop_last());
        assert(a.last() == a[a.len() - 1]);
        lemma_insert_up_to_clone(
            sort_by_time(a.drop_last()),
            a.last(),
            sort_by_time(b.drop_last()),
            b.last(),
        );
    }
}

/// Stable sort of `items` by timestamp.
fn sort_items<T: Clone>(items: &mut Vec<SeqItem<T>>)
    ensures
        entries_of(final(items)@) == sort_by_time(entries_of(old(items)@)),
{
    let mut src: Vec<SeqItem<T>> = Vec::new();
    std::mem::swap(&mut src, items);
    let ghost orig = entries_of(src@);
    let ghost n: int = 0;
    assert(entries_of(items@) =~= sort_by_time(orig.take(0)));
    while src.len() > 0
        invariant
            0 <= n <= orig.len(),
            entries_of(items@) == sort_by_time(orig.take(n)),
            entries_of(src@) == orig.skip(n),
            n + src.len() == orig.len(),
        decreases src.len(),
    {
        let ghost src0 = src@;
        assert(entries_of(src0)[0] == entry_of(src0[0]));
        let x = src.remove(0);
        assert(entry_of(x) == orig[n]);
        assert(entries_of(src@) =~= orig.skip(n + 1)) by {
            assert forall|k: int| 0 <= k < src@.len() implies entries_of(src@)[k] == orig.skip(
                n + 1,
            )[k] by {
                assert(src@[k] == src0[k + 1]);
                assert(entries_of(src0)[k + 1] == entry_of(src0[k + 1]));
            }
        }
        let mut j = items.len();
        while j > 0 && items[j - 1].id.timestamp.later_than(&x.id.timestamp)
            invariant
                j <= items.len(),
                forall|i: int|
                    j <= i < items.len() ==> x.id.timestamp.precedes(
                        #[trigger] items@[i].id.timestamp,
                    ),
            decreases j,
        {
            j -= 1;
        }
        proof {
            let cur = entries_of(items@);
            lemma_insert_split(cur, entry_of(x), j as int);
            if j > 0 {
                assert(cur.take(j as int).last() == cur[j - 1]);
            }
            assert(insert_by_time(cur.take(j as int), entry_of(x)) =~= cur.take(j as int).push(
                entry_of(x),
            ));
            assert(orig.take(n + 1).drop_last() =~= orig.take(n));
        }
        let ghost before = entries_of(items@);
        items.insert(j, x);
        proof {
            assert(entries_of(items@) =~= before.take(j as int).push(entry_of(x)) + before.skip(
                j as int,
            ));
            n = n + 1;
        }
    }
    assert(orig.take(n) =~= orig);
}

impl<T: Clone> SequenceCrdt<T> {
    /// Index of the first item with identifier `id`.
    fn find_index(&self, id: &SeqId) -> (r: Option<usize>)
        ensures
            match r {
                Some(i) => i == first_match(self.entries(), seq_has_id::<T>(*id)),
                None => first_match(self.entries(), seq_has_id::<T>(*id)) < 0,
            },
    {
        let ghost s = self.entries();
        let mut i: usize = 0;
        while i < self.items.len()
            invariant
                s == self.entries(),
                i <= s.len(),
                forall|j: int| 0 <= j < i ==> !seq_has_id::<T>(*id)(#[trigger] s[j]),
            decreases self.items.len() - i,
        {
            if self.items[i].id == *id {
                proof {
                    lemma_first_match_is(s, seq_has_id::<T>(*id), i as int);
                }
                return Some(i);
            }
            i += 1;
        }
        proof {
            lemma_first_match_none(s, seq_has_id::<T>(*id));
        }
        None
    }

    /// Apply an operation received from another replica.
    pub fn apply_op(&mut self, op: &SequenceOp<T>)
        ensures
            final(self).node() == old(self).node(),
            match *op {
                SequenceOp::Append { id, value } => if first_match(
                    old(self).entries(),
                    seq_has_id::<T>(id),
                ) >= 0 {
                    final(self).entries() == old(self).entries()
                } else {
                    same_up_to_clone(
                        seq_receive_append(old(self).entries(), (id, value, false)),
                        final(self).entries(),
                    )
                },
                SequenceOp::Delete { target } => final(self).entries() == seq_receive_delete(
                    old(self).entries(),
                    target,
                ),
            },
    {
        match op {
            SequenceOp::Append { id, value } => {
                if self.find_index(id).is_none() {
                    let v = value.clone();
                    let ghost before = self.entries();
                    self.items.push(SeqItem { id: *id, value: v, deleted: false });
                    let ghost pushed = self.entries();
                    proof {
                        assert(same_up_to_clone(before.push((*id, *value, false)), pushed)) by {
                            assert forall|i: int| 0 <= i < pushed.len() implies #[trigger] before.push(
                                (*id, *value, false),
                            )[i].0 == pushed[i].0 && before.push((*id, *value, false))[i].2
                                == pushed[i].2 && cloned(
                                before.push((*id, *value, false))[i].1,
                                pushed[i].1,
                            ) by {
                                if i < before.len() {
                                    assert(before[i] == pushed[i]);
                                }
                            }
                        }
                    }
                    sort_items(&mut self.items);
                    proof {
                        lemma_sort_up_to_clone(before.push((*id, *value, false)), pushed);
                    }
                }
            },
            SequenceOp::Delete { target } => {
                match self.find_index(target) {
                    Some(i) => {
                        let ghost before = self.entries();
                        self.items[i].deleted = true;
                        proof {
                            lemma_nth_match_found(before, seq_has_id::<T>(*target), 0);
                            assert(self.entries() =~= before.update(
                                i as int,
                                seq_tombstone(before[i as int]),
                            ));
                        }
                    },
                    None => {},
                }
            },
        }
    }

    /// Merge the items of another replica: unknown items are added, deletions
    /// carried over, and the items stably sorted by timestamp.
    pub fn merge(&mut self, other: &SequenceCrdt<T>)
        ensures
            final(self).node() == old(self).node(),
            same_up_to_clone(
                sort_by_time(seq_merge_entries(old(self).entries(), other.entries())),
                final(self).entries(),
            ),
    {
        let ghost o = other.entries();
        let mut i: usize = 0;
        assert(o.take(0) =~= Seq::<SeqEntry<T>>::empty());
        while i < other.items.len()
            invariant
                o == other.entries(),
                i <= o.len(),
                self.node() == old(self).node(),
                same_up_to_clone(seq_merge_entries(old(self).entries(), o.take(i as int)), self.entries()),
            decreases other.items.len() - i,
        {
            let ghost acc = seq_merge_entries(old(self).entries(), o.take(i as int));
            let ghost cur = self.entries();
            let ghost e = o[i as int];
            assert(o.take(i + 1).drop_last() =~= o.take(i as int));
            assert(o.take(i + 1).last() == o[i as int]);
            let item = &other.items[i];
            proof {
                lemma_first_match_congruent(acc, seq_has_id::<T>(item.id), cur, seq_has_id::<T>(item.id));
            }
            match self.find_index(&item.id) {
                None => {
                    let d = item.duplicate();
                    self.items.push(d);
                    proof {
                        let next = self.entries();
                        assert forall|j: int| 0 <= j < next.len() implies #[trigger] acc.push(e)[j].0
                            == next[j].0 && acc.push(e)[j].2 == next[j].2 && cloned(
                            acc.push(e)[j].1,
                            next[j].1,
                        ) by {
                            if j < acc.len() {
                                assert(cur[j] == next[j]);
                                assert(acc[j].0 == cur[j].0 && acc[j].2 == cur[j].2 && cloned(acc[j].1, cur[j].1));
                            }
                        }
                    }
                },
                Some(k) => {
                    if item.deleted {
                        self.items[k].deleted = true;
                        proof {
                            let next = self.entries();
                            lemma_nth_match_found(acc, seq_has_id::<T>(e.0), 0);
                            let u = acc.update(k as int, seq_tombstone(acc[k as int]));
                            assert forall|j: int| 0 <= j < next.len() implies #[trigger] u[j].0
                                == next[j].0 && u[j].2 == next[j].2 && cloned(u[j].1, next[j].1) by {
                                assert(acc[j].0 == cur[j].0 && acc[j].2 == cur[j].2 && cloned(acc[j].1, cur[j].1));
                            }
                        }
                    }
                },
            }
            i += 1;
        }
        assert(o.take(o.len() as int) =~= o);
        let ghost merged = self.entries();
        sort_items(&mut self.items);
        proof {
            lemma_sort_up_to_clone(seq_merge_entries(old(self).entries(), o), merged);
        }
    }

    /// The values of the items not deleted, in order.
    pub fn iter(&self) -> (r: Vec<&T>)
        ensures
            r@.len() == self.values().len(),
            forall|i: int| 0 <= i < r@.len() ==> *r@[i] == self.values()[i],
    {
        let ghost s = self.entries();
        let mut r: Vec<&T> = Vec::new();
        let mut i: usize = 0;
        while i < self.items.len()
            invariant
                s == self.entries(),
                i <= s.len(),
                r@.len() == seq_values(s.take(i as int)).len(),
                forall|j: int| 0 <= j < r@.len() ==> *r@[j] == seq_values(s.take(i as int))[j],
            decreases self.items.len() - i,
        {
            proof {
                lemma_kept_step(s, seq_live::<T>(), seq_value::<T>(), i as int);
            }
            if !self.items[i].deleted {
                r.push(&self.items[i].value);
            }
            i += 1;
        }
        proof {
            lemma_kept_full(s, seq_live::<T>(), seq_value::<T>());
        }
        r
    }

    /// Number of items not deleted.
    pub fn len(&self) -> (n: usize)
        ensures
            n == self.values().len(),
    {
        let ghost s = self.entries();
        let mut n: usize = 0;
        let mut i: usize = 0;
        while i < self.items.len()
            invariant
                s == self.entries(),
                i <= s.len(),
                n == count_matching(s.take(i as int), seq_live::<T>()),
            decreases self.items.len() - i,
        {
            proof {
                lemma_count_step(s, seq_live::<T>(), i as int);
                crate::seqs::lemma_count_le_len(s.take(i + 1), seq_live::<T>());
            }
            if !self.items[i].deleted {
                n += 1;
            }
            i += 1;
        }
        proof {
            lemma_count_full(s, seq_live::<T>());
            lemma_kept_len(s, seq_live::<T>(), seq_value::<T>());
        }
        n
    }

    /// Whether no item is left undeleted.
    pub fn is_empty(&self) -> (b: bool)
        ensures
            b == (self.values().len() == 0),
    {
        self.len() == 0
    }
}

/// Remote deletions commute, and a repeated deletion changes nothing.
pub proof fn lemma_receive_deletes_commute<T>(s: Seq<SeqEntry<T>>, a: SeqId, b: SeqId)
    ensures
        seq_receive_delete(seq_receive_delete(s, a), b) == seq_receive_delete(
            seq_receive_delete(s, b),
            a,
        ),
        seq_receive_delete(seq_receive_delete(s, a), a) == seq_receive_delete(s, a),
{
    let sa = seq_receive_delete(s, a);
    let sb = seq_receive_delete(s, b);
    let ka = first_match(s, seq_has_id::<T>(a));
    let kb = first_match(s, seq_has_id::<T>(b));
    if ka >= 0 {
        lemma_nth_match_found(s, seq_has_id::<T>(a), 0);
    }
    if kb >= 0 {
        lemma_nth_match_found(s, seq_has_id::<T>(b), 0);
    }
    assert forall|i: int| 0 <= i < s.len() implies #[trigger] seq_has_id::<T>(b)(sa[i]) == seq_has_id::<T>(b)(s[i]) by {}
    assert forall|i: int| 0 <= i < s.len() implies #[trigger] seq_has_id::<T>(a)(sb[i]) == seq_has_id::<T>(a)(s[i]) by {}
    assert forall|i: int| 0 <= i < s.len() implies #[trigger] seq_has_id::<T>(a)(sa[i]) == seq_has_id::<T>(a)(s[i]) by {}
    lemma_first_match_congruent(sa, seq_has_id::<T>(b), s, seq_has_id::<T>(b));
    lemma_first_match_congruent(sb, seq_has_id::<T>(a), s, seq_has_id::<T>(a));
    lemma_first_match_congruent(sa, seq_has_id::<T>(a), s, seq_has_id::<T>(a));
    assert(seq_receive_delete(sa, b) =~= seq_receive_delete(sb, a));
    assert(seq_receive_delete(sa, a) =~= sa);
}

impl<T: Clone> SequenceCrdt<T> {
    /// The replica's node and a copy of its entries, as plain values.
    pub fn to_parts(&self) -> (r: (u128, Vec<(SeqId, T, bool)>))
        ensures
            r.0 == self.node(),
            same_up_to_clone(self.entries(), r.1@),
    {
        let mut out: Vec<(SeqId, T, bool)> = Vec::new();
        let mut i: usize = 0;
        while i < self.items.len()
            invariant
                i <= self.items@.len(),
                out@.len() == i,
                forall|j: int| #![trigger out@[j]]
                    0 <= j < i ==> out@[j].0 == self.items@[j].id && out@[j].2
                        == self.items@[j].deleted && cloned(self.items@[j].value, out@[j].1),
            decreases self.items.len() - i,
        {
            let d = self.items[i].duplicate();
            let ghost before = out@;
            out.push((d.id, d.value, d.deleted));
            assert forall|j: int| #![trigger out@[j]] 0 <= j < i + 1 implies out@[j].0 == self.items@[j].id
                && out@[j].2 == self.items@[j].deleted && cloned(self.items@[j].value, out@[j].1) by {
                if j < i {
                    assert(out@[j] == before[j]);
                }
            }
            i += 1;
        }
        assert forall|j: int| 0 <= j < self.entries().len() implies #[trigger] self.entries()[j].0
            == out@[j].0 && self.entries()[j].2 == out@[j].2 && cloned(self.entries()[j].1, out@[j].1) by {
            assert(out@[j].0 == self.items@[j].id);
        }
        (self.node_id, out)
    }

    /// A replica from its node and entries.
    pub fn from_parts(node_id: u128, entries: Vec<(SeqId, T, bool)>) -> (r: Self)
        ensures
            r.node() == node_id,
            r.entries() == entries@,
    {
        let ghost all = entries@;
        let mut rest = entries;
        let mut items: Vec<SeqItem<T>> = Vec::new();
        assert(entries_of(items@) + rest@ =~= all);
        while rest.len() > 0
            invariant
                entries_of(items@) + rest@ == all,
            decreases rest.len(),
        {
            let ghost before = rest@;
            let ghost ib = items@;
            let (id, value, deleted) = rest.remove(0);
            items.push(SeqItem { id, value, deleted });
            assert(entries_of(items@) =~= entries_of(ib).push(before[0]));
            assert(entries_of(items@) + rest@ =~= entries_of(ib) + before);
        }
        assert(entries_of(items@) =~= all);
        SequenceCrdt { node_id, items }
    }
}

impl<T: Clone> Clone for SequenceCrdt<T> {
    fn clone(&self) -> (r: Self)
        ensures
            r.node() == self.node(),
            same_up_to_clone(self.entries(), r.entries()),
    {
        let mut items: Vec<SeqItem<T>> = Vec::new();
        let mut i: usize = 0;
        while i < self.items.len()
            invariant
                i <= self.items@.len(),
                items@.len() == i,
                forall|j: int|
                    0 <= j < i ==> #[trigger] items@[j].id == self.items@[j].id && items@[j].deleted
                        == self.items@[j].deleted && cloned(self.items@[j].value, items@[j].value),
            decreases self.items.len() - i,
        {
            items.push(self.items[i].duplicate());
            i += 1;
        }
        let r = SequenceCrdt { node_id: self.node_id, items };
        assert forall|j: int| 0 <= j < self.entries().len() implies #[trigger] self.entries()[j].0
            == r.entries()[j].0 && self.entries()[j].2 == r.entries()[j].2 && cloned(
            self.entries()[j].1,
            r.entries()[j].1,
        ) by {
            assert(items@[j].id == self.items@[j].id);
        }
        r
    }
}

impl<T: Clone> CrdtValue for SequenceCrdt<T> {
    type Op = SequenceOp<T>;

    open spec fn can_apply(&self, op: &SequenceOp<T>) -> bool {
        true
    }

    open spec fn can_merge(&self, other: &Self) -> bool {
        true
    }

    /// As `apply_op` states.
    open spec fn applied(old: Self, op: SequenceOp<T>, new: Self) -> bool {
        &&& new.node() == old.node()
        &&& match op {
            SequenceOp::Append { id, value } => if first_match(
                old.entries(),
                seq_has_id::<T>(id),
            ) >= 0 {
                new.entries() == old.entries()
            } else {
                same_up_to_clone(seq_receive_append(old.entries(), (id, value, false)), new.entries())
            },
            SequenceOp::Delete { target } => new.entries() == seq_receive_delete(
                old.entries(),
                target,
            ),
        }
    }

    /// As `merge` states.
    open spec fn merged(old: Self, other: Self, new: Self) -> bool {
        &&& new.node() == old.node()
        &&& same_up_to_clone(
            sort_by_time(seq_merge_entries(old.entries(), other.entries())),
            new.entries(),
        )
    }

    fn apply(&mut self, op: &SequenceOp<T>) {
        self.apply_op(op);
    }

    fn merge(&mut self, other: &Self) {
        SequenceCrdt::merge(self, other);
    }
}

/// No two entries of `s` share an identifier.
pub open spec fn seq_ids_distinct<T>(s: Seq<SeqEntry<T>>) -> bool {
    forall|i: int, j: int| 0 <= i < s.len() && 0 <= j < s.len() && i != j ==> s[i].0 != s[j].0
}

/// The entries after merging `other` into `local`, as `merge` leaves them
/// (up to clones of the values).
pub open spec fn seq_merged<T>(local: Seq<SeqEntry<T>>, other: Seq<SeqEntry<T>>) -> Seq<SeqEntry<T>> {
    sort_by_time(seq_merge_entries(local, other))
}

/// Sorting by time keeps the entries, and adds none.
proof fn lemma_sort_same_entries<T>(s: Seq<SeqEntry<T>>)
    ensures
        forall|x: SeqEntry<T>| #[trigger] sort_by_time(s).contains(x) <==> s.contains(x),
    decreases s.len(),
{
    if s.len() > 0 {
        let d = s.drop_last();
        let l = s.last();
        lemma_sort_same_entries(d);
        let sd = sort_by_time(d);
        let p = lemma_insert_is_insert(sd, l);
        let r = sd.insert(p, l);
        assert(sort_by_time(s) == r);
        assert forall|x: SeqEntry<T>| #[trigger] r.contains(x) <==> s.contains(x) by {
            if r.contains(x) {
                let i = choose|i: int| 0 <= i < r.len() && r[i] == x;
                if i == p {
                    assert(s[s.len() - 1] == x);
                } else {
                    let i0 = if i < p {
                        i
                    } else {
                        i - 1
                    };
                    assert(sd[i0] == x);
                    assert(sd.contains(x));
                    let j = choose|j: int| 0 <= j < d.len() && d[j] == x;
                    assert(s[j] == x);
                }
            }
            if s.contains(x) {
                let j = choose|j: int| 0 <= j < s.len() && s[j] == x;
                if j == s.len() - 1 {
                    assert(r[p] == x);
                } else {
                    assert(d[j] == x);
                    assert(d.contains(x));
                    assert(sd.contains(x));
                    let i = choose|i: int| 0 <= i < sd.len() && sd[i] == x;
                    if i < p {
                        assert(r[i] == x);
                    } else {
                        assert(r[i + 1] == x);
                    }
                }
            }
        }
    }
}

/// The first entry with a known identifier stays first when an entry is appended.
proof fn lemma_first_match_push<T>(s: Seq<SeqEntry<T>>, e: SeqEntry<T>, x: SeqId)
    requires
        first_match(s, seq_has_id::<T>(x)) >= 0,
    ensures
        first_match(s.push(e), seq_has_id::<T>(x)) == first_match(s, seq_has_id::<T>(x)),
{
    let k = first_match(s, seq_has_id::<T>(x));
    lemma_nth_match_found(s, seq_has_id::<T>(x), 0);
    lemma_first_match_prefix(s, seq_has_id::<T>(x));
    let t = s.push(e);
    assert(t[k] == s[k]);
    assert forall|j: int| 0 <= j < k implies !seq_has_id::<T>(x)(#[trigger] t[j]) by {
        assert(t[j] == s[j]);
    }
    lemma_first_match_is(t, seq_has_id::<T>(x), k);
}

/// After merging `b` into entries with distinct identifiers, the identifiers
/// stay distinct, every identifier of `b` is known, and every entry deleted
/// in `b` is deleted.
proof fn lemma_seq_merge_records<T>(a: Seq<SeqEntry<T>>, b: Seq<SeqEntry<T>>)
    requires
        seq_ids_distinct(a),
    ensures
        seq_ids_distinct(seq_merge_entries(a, b)),
        forall|j: int|
            0 <= j < b.len() ==> first_match(seq_merge_entries(a, b), seq_has_id::<T>((#[trigger] b[j]).0))
                >= 0,
        forall|j: int|
            0 <= j < b.len() && (#[trigger] b[j]).2 ==> seq_merge_entries(a, b)[first_match(
                seq_merge_entries(a, b),
                seq_has_id::<T>(b[j].0),
            )].2,
    decreases b.len(),
{
    if b.len() > 0 {
        let init = b.drop_last();
        let e = b.last();
        lemma_seq_merge_records(a, init);
        let acc = seq_merge_entries(a, init);
        let r = seq_merge_entries(a, b);
        assert(r == seq_merge_step(acc, e));
        let k = first_match(acc, seq_has_id::<T>(e.0));
        lemma_first_match_prefix(acc, seq_has_id::<T>(e.0));
        if k < 0 {
            assert(r == acc.push(e));
            assert forall|i: int, j: int| 0 <= i < r.len() && 0 <= j < r.len() && i != j implies r[i].0
                != r[j].0 by {
                if i < acc.len() && j < acc.len() {
                    assert(r[i] == acc[i] && r[j] == acc[j]);
                } else if i < acc.len() {
                    assert(r[i] == acc[i]);
                    assert(!seq_has_id::<T>(e.0)(acc[i]));
                } else {
                    assert(r[j] == acc[j]);
                    assert(!seq_has_id::<T>(e.0)(acc[j]));
                }
            }
            assert forall|j: int| 0 <= j < acc.len() implies !seq_has_id::<T>(e.0)(#[trigger] r.take(acc.len() as int)[j]) by {
                assert(r.take(acc.len() as int)[j] == acc[j]);
            }
            assert(r[acc.len() as int] == e);
            assert forall|j: int| 0 <= j < acc.len() implies !seq_has_id::<T>(e.0)(#[trigger] r[j]) by {
                assert(r[j] == acc[j]);
            }
            lemma_first_match_is(r, seq_has_id::<T>(e.0), acc.len() as int);
            assert forall|j: int| 0 <= j < init.len() implies first_match(
                r,
                seq_has_id::<T>((#[trigger] init[j]).0),
            ) == first_match(acc, seq_has_id::<T>(init[j].0)) by {
                lemma_first_match_push(acc, e, init[j].0);
            }
            assert forall|j: int| 0 <= j < b.len() implies first_match(
                r,
                seq_has_id::<T>((#[trigger] b[j]).0),
            ) >= 0 && (b[j].2 ==> r[first_match(r, seq_has_id::<T>(b[j].0))].2) by {
                if j < init.len() {
                    assert(init[j] == b[j]);
                    let kj = first_match(acc, seq_has_id::<T>(b[j].0));
                    lemma_nth_match_found(acc, seq_has_id::<T>(b[j].0), 0);
                    assert(r[kj] == acc[kj]);
                }
            }
        } else {
            lemma_nth_match_found(acc, seq_has_id::<T>(e.0), 0);
            let u = if e.2 {
                acc.update(k, seq_tombstone(acc[k]))
            } else {
                acc
            };
            assert(r == u);
            assert forall|j: int| 0 <= j < acc.len() implies (#[trigger] u[j]).0 == acc[j].0 && (j != k
                ==> u[j] == acc[j]) by {}
            assert forall|x: SeqId| first_match(u, seq_has_id::<T>(x)) == first_match(
                acc,
                seq_has_id::<T>(x),
            ) by {
                lemma_first_match_congruent(u, seq_has_id::<T>(x), acc, seq_has_id::<T>(x));
            }
            assert forall|j: int| 0 <= j < b.len() implies first_match(
                r,
                seq_has_id::<T>((#[trigger] b[j]).0),
            ) >= 0 && (b[j].2 ==> r[first_match(r, seq_has_id::<T>(b[j].0))].2) by {
                if j < init.len() {
                    assert(init[j] == b[j]);
                }
                assert(first_match(r, seq_has_id::<T>(b[j].0)) == first_match(acc, seq_has_id::<T>(b[j].0)));
            }
        }
    }
}

/// Merging entries whose identifiers are all known, with every deleted one
/// already deleted, changes nothing.
proof fn lemma_seq_merge_settled<T>(m: Seq<SeqEntry<T>>, b: Seq<SeqEntry<T>>)
    requires
        forall|j: int|
            0 <= j < b.len() ==> first_match(m, seq_has_id::<T>((#[trigger] b[j]).0)) >= 0,
        forall|j: int|
            0 <= j < b.len() && (#[trigger] b[j]).2 ==> m[first_match(m, seq_has_id::<T>(b[j].0))].2,
    ensures
        seq_merge_entries(m, b) == m,
    decreases b.len(),
{
    if b.len() > 0 {
        let init = b.drop_last();
        assert forall|j: int| 0 <= j < init.len() implies first_match(
            m,
            seq_has_id::<T>((#[trigger] init[j]).0),
        ) >= 0 && (init[j].2 ==> m[first_match(m, seq_has_id::<T>(init[j].0))].2) by {
            assert(init[j] == b[j]);
        }
        lemma_seq_merge_settled(m, init);
        let e = b.last();
        assert(b[b.len() - 1] == e);
        let k = first_match(m, seq_has_id::<T>(e.0));
        if e.2 {
            lemma_nth_match_found(m, seq_has_id::<T>(e.0), 0);
            assert(m.update(k, seq_tombstone(m[k])) =~= m);
        }
    }
}

/// Merging the same replica a second time changes nothing, when the local
/// entries have distinct identifiers.
pub proof fn lemma_seq_merge_idempotent<T>(a: Seq<SeqEntry<T>>, b: Seq<SeqEntry<T>>)
    requires
        seq_ids_distinct(a),
    ensures
        seq_merged(seq_merged(a, b), b) == seq_merged(a, b),
{
    let e = seq_merge_entries(a, b);
    let m = sort_by_time(e);
    lemma_seq_merge_records(a, b);
    lemma_sort_same_entries(e);
    assert forall|j: int| 0 <= j < b.len() implies first_match(m, seq_has_id::<T>((#[trigger] b[j]).0))
        >= 0 && (b[j].2 ==> m[first_match(m, seq_has_id::<T>(b[j].0))].2) by {
        let x = b[j].0;
        let ke = first_match(e, seq_has_id::<T>(x));
        lemma_nth_match_found(e, seq_has_id::<T>(x), 0);
        assert(e.contains(e[ke]));
        assert(m.contains(e[ke]));
        let i = choose|i: int| 0 <= i < m.len() && m[i] == e[ke];
        lemma_first_match_prefix(m, seq_has_id::<T>(x));
        assert(seq_has_id::<T>(x)(m[i]));
        let km = first_match(m, seq_has_id::<T>(x));
        lemma_nth_match_found(m, seq_has_id::<T>(x), 0);
        assert(m.contains(m[km]));
        assert(e.contains(m[km]));
        let i2 = choose|i2: int| 0 <= i2 < e.len() && e[i2] == m[km];
        assert(i2 == ke);
    }
    lemma_seq_merge_settled(m, b);
    lemma_sort_sorted(e);
    lemma_sort_sorted_identity(m);
}

/// Some entry of `s` has identifier `x`.
pub open spec fn seq_has<T>(s: Seq<SeqEntry<T>>, x: SeqId) -> bool {
    exists|i: int| 0 <= i < s.len() && (#[trigger] s[i]).0 == x
}

/// Some entry of `s` with identifier `x` is deleted.
pub open spec fn seq_deletes<T>(s: Seq<SeqEntry<T>>, x: SeqId) -> bool {
    exists|i: int| 0 <= i < s.len() && (#[trigger] s[i]).0 == x && s[i].2
}

/// `y` is an entry of the merge of `b` into `a`: an entry of `a`, deleted
/// if `b` deletes it, or an entry of `b` whose identifier `a` lacks.
pub open spec fn seq_merge_holds<T>(a: Seq<SeqEntry<T>>, b: Seq<SeqEntry<T>>, y: SeqEntry<T>) -> bool {
    ||| exists|i: int|
        0 <= i < a.len() && (#[trigger] a[i]).0 == y.0 && y == (a[i].0, a[i].1, a[i].2 || seq_deletes(
            b,
            y.0,
        ))
    ||| !seq_has(a, y.0) && exists|j: int| 0 <= j < b.len() && #[trigger] b[j] == y
}

/// The entries of a merge of `b`, with distinct identifiers, into `a`,
/// with distinct identifiers, are those `seq_merge_holds` describes.
proof fn lemma_seq_merge_contents<T>(a: Seq<SeqEntry<T>>, b: Seq<SeqEntry<T>>)
    requires
        seq_ids_distinct(a),
        seq_ids_distinct(b),
    ensures
        forall|y: SeqEntry<T>| #[trigger] seq_merge_entries(a, b).contains(y) <==> seq_merge_holds(a, b, y),
    decreases b.len(),
{
    let e_all = seq_merge_entries(a, b);
    if b.len() == 0 {
        assert forall|y: SeqEntry<T>| #[trigger] e_all.contains(y) <==> seq_merge_holds(a, b, y) by {
            assert(e_all == a);
            if a.contains(y) {
                let i = choose|i: int| 0 <= i < a.len() && a[i] == y;
                assert(!seq_deletes(b, y.0));
                assert(a[i].0 == y.0 && y == (a[i].0, a[i].1, a[i].2 || seq_deletes(b, y.0)));
            }
            if seq_merge_holds(a, b, y) {
                let i = choose|i: int|
                    0 <= i < a.len() && (#[trigger] a[i]).0 == y.0 && y == (a[i].0, a[i].1, a[i].2
                        || seq_deletes(b, y.0));
                assert(!seq_deletes(b, y.0));
                assert(a[i] == y);
            }
        }
    } else {
        let init = b.drop_last();
        let e = b.last();
        assert(b[b.len() - 1] == e);
        assert forall|i: int, j: int| 0 <= i < init.len() && 0 <= j < init.len() && i != j implies init[i].0
            != init[j].0 by {
            assert(init[i] == b[i] && init[j] == b[j]);
        }
        lemma_seq_merge_contents(a, init);
        lemma_seq_merge_records(a, init);
        let acc = seq_merge_entries(a, init);
        assert(e_all == seq_merge_step(acc, e));
        // e's identifier is not in init
        assert(!seq_has(init, e.0)) by {
            if seq_has(init, e.0) {
                let j = choose|j: int| 0 <= j < init.len() && (#[trigger] init[j]).0 == e.0;
                assert(b[j].0 == b[b.len() - 1].0);
            }
        }
        assert forall|x: SeqId| x != e.0 implies seq_deletes(b, x) == seq_deletes(init, x) by {
            if seq_deletes(b, x) {
                let j = choose|j: int| 0 <= j < b.len() && (#[trigger] b[j]).0 == x && b[j].2;
                assert(init[j] == b[j]);
            }
            if seq_deletes(init, x) {
                let j = choose|j: int| 0 <= j < init.len() && (#[trigger] init[j]).0 == x && init[j].2;
                assert(b[j] == init[j]);
            }
        }
        assert(seq_deletes(b, e.0) == e.2) by {
            if seq_deletes(b, e.0) {
                let j = choose|j: int| 0 <= j < b.len() && (#[trigger] b[j]).0 == e.0 && b[j].2;
                if j < init.len() {
                    assert(init[j] == b[j]);
                }
            }
            if e.2 {
                assert(b[b.len() - 1].0 == e.0 && b[b.len() - 1].2);
            }
        }
        assert(!seq_deletes(init, e.0)) by {
            if seq_deletes(init, e.0) {
                let j = choose|j: int| 0 <= j < init.len() && (#[trigger] init[j]).0 == e.0 && init[j].2;
            }
        }
        // other identifiers: the same entries as before
        assert forall|y: SeqEntry<T>| y.0 != e.0 implies seq_merge_holds(a, b, y) == seq_merge_holds(
            a,
            init,
            y,
        ) by {
            if seq_merge_holds(a, init, y) && !seq_has(a, y.0) {
                let j = choose|j: int| 0 <= j < init.len() && #[trigger] init[j] == y;
                assert(b[j] == y);
            }
            if seq_merge_holds(a, b, y) && !seq_has(a, y.0) {
                let j = choose|j: int| 0 <= j < b.len() && #[trigger] b[j] == y;
                if j == b.len() - 1 {
                    assert(y.0 == e.0);
                }
                assert(init[j] == y);
            }
        }
        let k = first_match(acc, seq_has_id::<T>(e.0));
        lemma_first_match_prefix(acc, seq_has_id::<T>(e.0));
        if k < 0 {
            assert(e_all == acc.push(e));
            // a lacks e's identifier
            assert(!seq_has(a, e.0)) by {
                if seq_has(a, e.0) {
                    let i = choose|i: int| 0 <= i < a.len() && (#[trigger] a[i]).0 == e.0;
                    let y = (a[i].0, a[i].1, a[i].2 || seq_deletes(init, e.0));
                    assert(seq_merge_holds(a, init, y));
                    assert(acc.contains(y));
                    let m = choose|m: int| 0 <= m < acc.len() && acc[m] == y;
                    assert(!seq_has_id::<T>(e.0)(acc[m]));
                }
            }
            assert forall|y: SeqEntry<T>| #[trigger] e_all.contains(y) <==> seq_merge_holds(a, b, y) by {
                if e_all.contains(y) {
                    let m = choose|m: int| 0 <= m < e_all.len() && e_all[m] == y;
                    if m < acc.len() {
                        assert(acc[m] == y);
                        assert(acc.contains(y));
                        assert(!seq_has_id::<T>(e.0)(acc[m]));
                    } else {
                        assert(b[b.len() - 1] == y);
                    }
                }
                if seq_merge_holds(a, b, y) {
                    if y.0 == e.0 {
                        let j = choose|j: int| 0 <= j < b.len() && #[trigger] b[j] == y;
                        if j < init.len() {
                            assert(init[j].0 == e.0);
                        }
                        assert(b[j] == e);
                        assert(e_all[acc.len() as int] == y);
                    } else {
                        assert(acc.contains(y));
                        let m = choose|m: int| 0 <= m < acc.len() && acc[m] == y;
                        assert(e_all[m] == y);
                    }
                }
            }
        } else {
            lemma_nth_match_found(acc, seq_has_id::<T>(e.0), 0);
            let old_entry = acc[k];
            assert(acc.contains(old_entry));
            assert(seq_merge_holds(a, init, old_entry));
            // the entry for e's identifier comes from a
            assert(!(!seq_has(a, e.0) && exists|j: int|
                0 <= j < init.len() && #[trigger] init[j] == old_entry)) by {
                if exists|j: int| 0 <= j < init.len() && #[trigger] init[j] == old_entry {
                    let j = choose|j: int| 0 <= j < init.len() && #[trigger] init[j] == old_entry;
                    assert(init[j].0 == e.0);
                }
            }
            let i = choose|i: int|
                0 <= i < a.len() && (#[trigger] a[i]).0 == old_entry.0 && old_entry == (a[i].0, a[i].1, a[i].2
                    || seq_deletes(init, old_entry.0));
            assert(old_entry == a[i]);
            let u = if e.2 {
                acc.update(k, seq_tombstone(acc[k]))
            } else {
                acc
            };
            assert(e_all == u);
            assert forall|y: SeqEntry<T>| #[trigger] e_all.contains(y) <==> seq_merge_holds(a, b, y) by {
                if e_all.contains(y) {
                    let m = choose|m: int| 0 <= m < e_all.len() && e_all[m] == y;
                    if m == k {
                        assert(y.0 == e.0);
                        assert(y == (a[i].0, a[i].1, a[i].2 || e.2));
                    } else {
                        assert(acc[m] == y);
                        assert(acc.contains(y));
                        assert(y.0 != e.0) by {
                            assert(acc[m].0 != acc[k].0);
                        }
                    }
                }
                if seq_merge_holds(a, b, y) {
                    if y.0 == e.0 {
                        assert(!(!seq_has(a, y.0))) by {
                            assert(a[i].0 == e.0);
                        }
                        let i2 = choose|i2: int|
                            0 <= i2 < a.len() && (#[trigger] a[i2]).0 == y.0 && y == (a[i2].0, a[i2].1,
                                a[i2].2 || seq_deletes(b, y.0));
                        assert(i2 == i);
                        assert(e_all[k] == y);
                    } else {
                        assert(acc.contains(y));
                        let m = choose|m: int| 0 <= m < acc.len() && acc[m] == y;
                        assert(m != k);
                        assert(e_all[m] == y);
                    }
                }
            }
        }
    }
}

/// Entries with a common identifier in `a` and `b` carry the same value.
pub open spec fn seq_values_agree<T>(a: Seq<SeqEntry<T>>, b: Seq<SeqEntry<T>>) -> bool {
    forall|i: int, j: int|
        0 <= i < a.len() && 0 <= j < b.len() && (#[trigger] a[i]).0 == (#[trigger] b[j]).0 ==> a[i].1
            == b[j].1
}

/// Entries of `s` with distinct identifiers have distinct timestamps.
pub open spec fn seq_stamps_distinct<T>(s: Seq<SeqEntry<T>>) -> bool {
    forall|i: int, j: int|
        0 <= i < s.len() && 0 <= j < s.len() && (#[trigger] s[i]).0 != (#[trigger] s[j]).0 ==> s[i].0.timestamp
            != s[j].0.timestamp
}

proof fn lemma_merge_holds_symmetric<T>(a: Seq<SeqEntry<T>>, b: Seq<SeqEntry<T>>, y: SeqEntry<T>)
    requires
        seq_ids_distinct(a),
        seq_ids_distinct(b),
        seq_values_agree(a, b),
        seq_merge_holds(a, b, y),
    ensures
        seq_merge_holds(b, a, y),
{
    if exists|i: int|
        0 <= i < a.len() && (#[trigger] a[i]).0 == y.0 && y == (a[i].0, a[i].1, a[i].2 || seq_deletes(
            b,
            y.0,
        )) {
        let i = choose|i: int|
            0 <= i < a.len() && (#[trigger] a[i]).0 == y.0 && y == (a[i].0, a[i].1, a[i].2
                || seq_deletes(b, y.0));
        assert(seq_deletes(a, y.0) == a[i].2) by {
            if seq_deletes(a, y.0) {
                let i2 = choose|i2: int| 0 <= i2 < a.len() && (#[trigger] a[i2]).0 == y.0 && a[i2].2;
                assert(i2 == i);
            }
        }
        if seq_has(b, y.0) {
            let j = choose|j: int| 0 <= j < b.len() && (#[trigger] b[j]).0 == y.0;
            assert(a[i].1 == b[j].1);
            assert(seq_deletes(b, y.0) == b[j].2) by {
                if seq_deletes(b, y.0) {
                    let j2 = choose|j2: int| 0 <= j2 < b.len() && (#[trigger] b[j2]).0 == y.0 && b[j2].2;
                    assert(j2 == j);
                }
            }
            assert(y == (b[j].0, b[j].1, b[j].2 || seq_deletes(a, y.0)));
        } else {
            assert(!seq_deletes(b, y.0));
            assert(a[i] == y);
        }
    } else {
        let j = choose|j: int| 0 <= j < b.len() && #[trigger] b[j] == y;
        assert(!seq_deletes(a, y.0));
        assert(b[j].0 == y.0 && y == (b[j].0, b[j].1, b[j].2 || seq_deletes(a, y.0)));
    }
}

/// Sorting by time keeps entries distinct.
proof fn lemma_sort_no_duplicates<T>(s: Seq<SeqEntry<T>>)
    requires
        s.no_duplicates(),
    ensures
        sort_by_time(s).no_duplicates(),
    decreases s.len(),
{
    if s.len() > 0 {
        let d = s.drop_last();
        let l = s.last();
        assert(d.no_duplicates()) by {
            assert forall|i: int, j: int| 0 <= i < d.len() && 0 <= j < d.len() && i != j implies d[i]
                != d[j] by {
                assert(d[i] == s[i] && d[j] == s[j]);
            }
        }
        lemma_sort_no_duplicates(d);
        lemma_sort_same_entries(d);
        let sd = sort_by_time(d);
        assert(!sd.contains(l)) by {
            if sd.contains(l) {
                assert(d.contains(l));
                let i = choose|i: int| 0 <= i < d.len() && d[i] == l;
                assert(s[i] == s[s.len() - 1]);
            }
        }
        let p = lemma_insert_is_insert(sd, l);
        let r = sd.insert(p, l);
        assert forall|i: int, j: int| 0 <= i < r.len() && 0 <= j < r.len() && i != j implies r[i] != r[j] by {
            let oi = if i < p {
                i
            } else {
                i - 1
            };
            let oj = if j < p {
                j
            } else {
                j - 1
            };
            if i != p && j != p {
                assert(r[i] == sd[oi] && r[j] == sd[oj]);
            } else if i == p {
                assert(r[j] == sd[oj]);
            } else {
                assert(r[i] == sd[oi]);
            }
        }
    }
}

/// Two time-sorted sequences of the same distinct entries, whose distinct
/// entries have distinct timestamps, are equal.
proof fn lemma_sorted_unique<T>(s: Seq<SeqEntry<T>>, t: Seq<SeqEntry<T>>)
    requires
        time_sorted(s),
        time_sorted(t),
        s.no_duplicates(),
        t.no_duplicates(),
        forall|x: SeqEntry<T>| #[trigger] s.contains(x) <==> t.contains(x),
        forall|i: int, j: int|
            0 <= i < s.len() && 0 <= j < s.len() && i != j ==> (#[trigger] s[i]).0.timestamp != (
            #[trigger] s[j]).0.timestamp,
    ensures
        s == t,
    decreases s.len(),
{
    if s.len() == 0 {
        if t.len() > 0 {
            assert(t.contains(t[0]));
            assert(s.contains(t[0]));
        }
        assert(s =~= t);
    } else if t.len() == 0 {
        assert(s.contains(s[0]));
    } else {
        let ls = s.last();
        let lt = t.last();
        assert(s.contains(ls));
        assert(t.contains(lt));
        assert(t.contains(ls));
        assert(s.contains(lt));
        let i = choose|i: int| 0 <= i < s.len() && s[i] == lt;
        let j = choose|j: int| 0 <= j < t.len() && t[j] == ls;
        if ls != lt {
            assert(i != s.len() - 1);
            assert(j != t.len() - 1);
            assert(!ls.0.timestamp.precedes(lt.0.timestamp));
            assert(!lt.0.timestamp.precedes(ls.0.timestamp));
            assert(ls.0.timestamp != lt.0.timestamp);
            crate::hlc::lemma_precedes_total(ls.0.timestamp, lt.0.timestamp);
        }
        assert(ls == lt);
        let sd = s.drop_last();
        let td = t.drop_last();
        lemma_sorted_drop_last(s);
        lemma_sorted_drop_last(t);
        assert forall|x: SeqEntry<T>| #[trigger] sd.contains(x) <==> td.contains(x) by {
            if sd.contains(x) {
                let a = choose|a: int| 0 <= a < sd.len() && sd[a] == x;
                assert(s[a] == x);
                assert(x != ls);
                assert(s.contains(x));
                let b = choose|b: int| 0 <= b < t.len() && t[b] == x;
                assert(b != t.len() - 1);
                assert(td[b] == x);
            }
            if td.contains(x) {
                let b = choose|b: int| 0 <= b < td.len() && td[b] == x;
                assert(t[b] == x);
                assert(x != lt);
                assert(t.contains(x));
                assert(s.contains(x));
                let a = choose|a: int| 0 <= a < s.len() && s[a] == x;
                assert(a != s.len() - 1);
                assert(sd[a] == x);
            }
        }
        assert(sd.no_duplicates()) by {
            assert forall|a: int, b: int| 0 <= a < sd.len() && 0 <= b < sd.len() && a != b implies sd[a]
                != sd[b] by {
                assert(sd[a] == s[a] && sd[b] == s[b]);
            }
        }
        assert(td.no_duplicates()) by {
            assert forall|a: int, b: int| 0 <= a < td.len() && 0 <= b < td.len() && a != b implies td[a]
                != td[b] by {
                assert(td[a] == t[a] && td[b] == t[b]);
            }
        }
        assert forall|a: int, b: int| 0 <= a < sd.len() && 0 <= b < sd.len() && a != b implies (
        #[trigger] sd[a]).0.timestamp != (#[trigger] sd[b]).0.timestamp by {
            assert(sd[a] == s[a] && sd[b] == s[b]);
        }
        lemma_sorted_unique(sd, td);
        assert(s =~= sd.push(ls));
        assert(t =~= td.push(lt));
    }
}

/// Merging two replicas converges: merging `b` into `a` and `a` into `b`
/// give the same entries, when each replica's identifiers are distinct, the
/// entries they share carry the same value, and entries with distinct
/// identifiers have distinct timestamps.
pub proof fn lemma_seq_merge_converges<T>(a: Seq<SeqEntry<T>>, b: Seq<SeqEntry<T>>)
    requires
        seq_ids_distinct(a),
        seq_ids_distinct(b),
        seq_values_agree(a, b),
        seq_stamps_distinct(a + b),
    ensures
        seq_merged(a, b) == seq_merged(b, a),
{
    let e1 = seq_merge_entries(a, b);
    let e2 = seq_merge_entries(b, a);
    lemma_seq_merge_contents(a, b);
    lemma_seq_merge_contents(b, a);
    lemma_seq_merge_records(a, b);
    lemma_seq_merge_records(b, a);
    assert(seq_values_agree(b, a));
    assert forall|y: SeqEntry<T>| #[trigger] e1.contains(y) <==> e2.contains(y) by {
        if e1.contains(y) {
            lemma_merge_holds_symmetric(a, b, y);
        }
        if e2.contains(y) {
            lemma_merge_holds_symmetric(b, a, y);
        }
    }
    let m1 = sort_by_time(e1);
    let m2 = sort_by_time(e2);
    lemma_sort_same_entries(e1);
    lemma_sort_same_entries(e2);
    lemma_sort_sorted(e1);
    lemma_sort_sorted(e2);
    assert(e1.no_duplicates()) by {
        assert forall|i: int, j: int| 0 <= i < e1.len() && 0 <= j < e1.len() && i != j implies e1[i]
            != e1[j] by {
            assert(e1[i].0 != e1[j].0);
        }
    }
    assert(e2.no_duplicates()) by {
        assert forall|i: int, j: int| 0 <= i < e2.len() && 0 <= j < e2.len() && i != j implies e2[i]
            != e2[j] by {
            assert(e2[i].0 != e2[j].0);
        }
    }
    lemma_sort_no_duplicates(e1);
    lemma_sort_no_duplicates(e2);
    let ab = a + b;
    // every entry of the merge has the identifier of an entry of a or b
    assert forall|y: SeqEntry<T>| #[trigger] e1.contains(y) implies exists|n: int|
        0 <= n < ab.len() && (#[trigger] ab[n]).0 == y.0 by {
        if exists|i: int|
            0 <= i < a.len() && (#[trigger] a[i]).0 == y.0 && y == (a[i].0, a[i].1, a[i].2
                || seq_deletes(b, y.0)) {
            let i = choose|i: int|
                0 <= i < a.len() && (#[trigger] a[i]).0 == y.0 && y == (a[i].0, a[i].1, a[i].2
                    || seq_deletes(b, y.0));
            assert(ab[i] == a[i]);
        } else {
            let j = choose|j: int| 0 <= j < b.len() && #[trigger] b[j] == y;
            assert(ab[a.len() + j] == b[j]);
        }
    }
    assert forall|i: int, j: int|
        0 <= i < m1.len() && 0 <= j < m1.len() && i != j implies (#[trigger] m1[i]).0.timestamp != (
        #[trigger] m1[j]).0.timestamp by {
        let x = m1[i];
        let y = m1[j];
        assert(m1.contains(x) && m1.contains(y));
        assert(e1.contains(x) && e1.contains(y));
        assert(x != y);
        let p = choose|p: int| 0 <= p < e1.len() && e1[p] == x;
        let q = choose|q: int| 0 <= q < e1.len() && e1[q] == y;
        assert(x.0 != y.0);
        let n1 = choose|n: int| 0 <= n < ab.len() && (#[trigger] ab[n]).0 == x.0;
        let n2 = choose|n: int| 0 <= n < ab.len() && (#[trigger] ab[n]).0 == y.0;
        assert(ab[n1].0 != ab[n2].0);
    }
    lemma_sorted_unique(m1, m2);
}

/// After `a` merges `b`, merging that result into `b` gives the same
/// entries: both replicas agree, under the conditions of convergence.
pub proof fn lemma_seq_merge_round_trip<T>(a: Seq<SeqEntry<T>>, b: Seq<SeqEntry<T>>)
    requires
        seq_ids_distinct(a),
        seq_ids_distinct(b),
        seq_values_agree(a, b),
        seq_stamps_distinct(a + b),
    ensures
        seq_merged(b, seq_merged(a, b)) == seq_merged(a, b),
{
    let e = seq_merge_entries(a, b);
    let m = sort_by_time(e);
    lemma_seq_merge_contents(a, b);
    lemma_seq_merge_records(a, b);
    lemma_sort_same_entries(e);
    assert(e.no_duplicates()) by {
        assert forall|i: int, j: int| 0 <= i < e.len() && 0 <= j < e.len() && i != j implies e[i] != e[j] by {
            assert(e[i].0 != e[j].0);
        }
    }
    lemma_sort_no_duplicates(e);
    // every entry of m is an entry of e, with an identifier of a or b
    assert forall|i: int, j: int| 0 <= i < m.len() && 0 <= j < m.len() && i != j implies m[i].0 != m[j].0 by {
        assert(m.contains(m[i]) && m.contains(m[j]));
        assert(e.contains(m[i]) && e.contains(m[j]));
        let p = choose|p: int| 0 <= p < e.len() && e[p] == m[i];
        let q = choose|q: int| 0 <= q < e.len() && e[q] == m[j];
        assert(m[i] != m[j]);
    }
    let ab = a + b;
    assert forall|y: SeqEntry<T>| #[trigger] e.contains(y) implies (exists|n: int|
        0 <= n < ab.len() && (#[trigger] ab[n]).0 == y.0) && (forall|j: int|
        0 <= j < b.len() && b[j].0 == y.0 ==> y.1 == b[j].1) by {
        if exists|i: int|
            0 <= i < a.len() && (#[trigger] a[i]).0 == y.0 && y == (a[i].0, a[i].1, a[i].2
                || seq_deletes(b, y.0)) {
            let i = choose|i: int|
                0 <= i < a.len() && (#[trigger] a[i]).0 == y.0 && y == (a[i].0, a[i].1, a[i].2
                    || seq_deletes(b, y.0));
            assert(ab[i] == a[i]);
            assert forall|j: int| 0 <= j < b.len() && b[j].0 == y.0 implies y.1 == b[j].1 by {
                assert(a[i].0 == b[j].0);
            }
        } else {
            let j0 = choose|j: int| 0 <= j < b.len() && #[trigger] b[j] == y;
            assert(ab[a.len() + j0] == b[j0]);
            assert forall|j: int| 0 <= j < b.len() && b[j].0 == y.0 implies y.1 == b[j].1 by {
                if j != j0 {
                    assert(b[j].0 != b[j0].0);
                }
            }
        }
    }
    // the conditions of convergence hold for b and m
    assert(seq_ids_distinct(m));
    assert(seq_values_agree(b, m)) by {
        assert forall|i: int, j: int|
            0 <= i < b.len() && 0 <= j < m.len() && (#[trigger] b[i]).0 == (#[trigger] m[j]).0 implies b[i].1
            == m[j].1 by {
            assert(m.contains(m[j]));
            assert(e.contains(m[j]));
        }
    }
    let bm = b + m;
    assert(seq_stamps_distinct(bm)) by {
        assert forall|i: int, j: int|
            0 <= i < bm.len() && 0 <= j < bm.len() && (#[trigger] bm[i]).0 != (#[trigger] bm[j]).0 implies bm[i].0.timestamp
            != bm[j].0.timestamp by {
            let ni = if i < b.len() {
                a.len() + i
            } else {
                let y = m[i - b.len()];
                assert(m.contains(y));
                assert(e.contains(y));
                choose|n: int| 0 <= n < ab.len() && (#[trigger] ab[n]).0 == y.0
            };
            let nj = if j < b.len() {
                a.len() + j
            } else {
                let y = m[j - b.len()];
                assert(m.contains(y));
                assert(e.contains(y));
                choose|n: int| 0 <= n < ab.len() && (#[trigger] ab[n]).0 == y.0
            };
            if i < b.len() {
                assert(ab[ni] == b[i]);
            }
            if j < b.len() {
                assert(ab[nj] == b[j]);
            }
            assert(ab[ni].0 == bm[i].0);
            assert(ab[nj].0 == bm[j].0);
        }
    }
    lemma_seq_merge_converges(b, m);
    lemma_seq_merge_idempotent(a, b);
}

/// In timestamp order, an item stamped by clock `ca` at reading `wa` comes
/// after an item stamped by clock `cb` at an earlier reading `wb`, when `wa`
/// is also later than both clocks' physical times.
pub proof fn lemma_later_reading_sorts_after<T>(
    s: Seq<SeqEntry<T>>,
    i: int,
    j: int,
    ca: HLC,
    wa: u64,
    cb: HLC,
    wb: u64,
)
    requires
        time_sorted(s),
        0 <= i < s.len(),
        0 <= j < s.len(),
        s[i].0.timestamp == ca.ticked(wa),
        s[j].0.timestamp == cb.ticked(wb),
        ca.can_tick(wa),
        cb.can_tick(wb),
        wa > ca.physical,
        wa > cb.physical,
        wa > wb,
    ensures
        j < i,
{
    crate::hlc::lemma_later_reading_is_later(ca, wa, cb, wb);
}

} // verus!
