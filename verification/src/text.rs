use crate::hlc::HLC;
use crate::CrdtValue;
use crate::strings::chars_of;
use crate::seqs::{
    count_matching, first_match, kept_values, lemma_count_concat,
    lemma_kept_members, lemma_count_full, lemma_count_prefix_grows,
    lemma_count_step, lemma_first_match_is, lemma_first_match_none, lemma_first_match_prefix,
    lemma_kept_concat, lemma_kept_full, lemma_kept_len, lemma_kept_step,
    lemma_kept_unmark, lemma_nth_match_found, lemma_nth_match_is, lemma_nth_match_none, nth_match,
};
use std::cmp::Ordering;
use vstd::prelude::*;

verus! {

/// Unique operation identifier.
#[derive(Clone, Copy, Debug, PartialEq, Eq, Structural, Hash)]
pub struct OpId {
    pub node_id: u128,
    pub timestamp: HLC,
}

impl OpId {
    /// Priority of two concurrent inserts after the same character: the one
    /// with the later timestamp comes first.
    fn priority_cmp(&self, other: &OpId) -> (r: Ordering)
        ensures
            r == (if other.timestamp.precedes(self.timestamp) {
                Ordering::Less
            } else if self.timestamp == other.timestamp {
                Ordering::Equal
            } else {
                Ordering::Greater
            }),
    {
        if self.timestamp.later_than(&other.timestamp) {
            Ordering::Less
        } else if self.timestamp == other.timestamp {
            Ordering::Equal
        } else {
            Ordering::Greater
        }
    }

    /// Whether an insert with this identifier goes after an existing
    /// element with identifier `existing`: it does when that one is newer.
    fn goes_after(&self, existing: &OpId) -> (r: bool)
        ensures
            r == self.timestamp.precedes(existing.timestamp),
    {
        proof {
            crate::hlc::lemma_precedes_total(self.timestamp, existing.timestamp);
        }
        match self.priority_cmp(existing) {
            Ordering::Greater => true,
            _ => false,
        }
    }
}

/// CRDT operation for text editing.
#[derive(Clone, Copy, Debug)]
pub enum TextOp {
    Insert { id: OpId, parent: Option<OpId>, ch: char },
    Delete { target: OpId },
}

/// A character of the text, with its identifier, the character it was
/// inserted after, and whether it has been deleted.
#[derive(Clone, Copy, Debug)]
pub struct Element {
    pub id: OpId,
    pub ch: char,
    pub deleted: bool,
    pub parent: Option<OpId>,
}

/// RGA-based text CRDT.
#[derive(Debug)]
pub struct TextCrdt {
    node_id: u128,
    clock: HLC,
    elements: Vec<Element>,
    ops_log: Vec<TextOp>,
}

/// The elements not deleted.
pub open spec fn text_live() -> spec_fn(Element) -> bool {
    |e: Element| !e.deleted
}

/// The elements deleted.
pub open spec fn text_dead() -> spec_fn(Element) -> bool {
    |e: Element| e.deleted
}

/// The character of an element.
pub open spec fn text_char() -> spec_fn(Element) -> char {
    |e: Element| e.ch
}

/// An element as itself.
pub open spec fn text_element() -> spec_fn(Element) -> Element {
    |e: Element| e
}

/// The elements with identifier `id`.
pub open spec fn text_has_id(id: OpId) -> spec_fn(Element) -> bool {
    |e: Element| e.id == id
}

/// The operations that are inserts.
pub open spec fn text_is_insert() -> spec_fn(TextOp) -> bool {
    |op: TextOp| op is Insert
}

/// An operation as itself.
pub open spec fn text_op() -> spec_fn(TextOp) -> TextOp {
    |op: TextOp| op
}

/// The visible text: the characters of the elements not deleted.
pub open spec fn text_of(s: Seq<Element>) -> Seq<char> {
    kept_values(s, text_live(), text_char())
}

/// `e` marked deleted.
pub open spec fn text_tombstone(e: Element) -> Element {
    Element { deleted: true, ..e }
}

/// From index `i` on, skip the elements stamped later than `ts`: the newer
/// siblings of an insert stamped `ts`, and what was inserted after them.
pub open spec fn skip_newer(s: Seq<Element>, i: int, ts: HLC) -> int
    decreases s.len() - i,
{
    if 0 <= i < s.len() && ts.precedes(s[i].id.timestamp) {
        skip_newer(s, i + 1, ts)
    } else {
        i
    }
}

/// Index at which a new element `e` is integrated: after its parent (at the
/// start when it has none), past the newer elements there, so that the most
/// recent sibling comes first; at the end when its parent is unknown.
pub open spec fn rga_position(s: Seq<Element>, e: Element) -> int {
    match e.parent {
        None => skip_newer(s, 0, e.id.timestamp),
        Some(p) => {
            let k = first_match(s, text_has_id(p));
            if k < 0 {
                s.len() as int
            } else {
                skip_newer(s, k + 1, e.id.timestamp)
            }
        },
    }
}

/// The elements after integrating the new element `e`.
pub open spec fn rga_insert(s: Seq<Element>, e: Element) -> Seq<Element> {
    s.insert(rga_position(s, e), e)
}

/// The elements after a deletion of `target`: the first element with that
/// identifier is marked deleted, if there is one.
pub open spec fn rga_delete(s: Seq<Element>, target: OpId) -> Seq<Element> {
    let k = first_match(s, text_has_id(target));
    if k >= 0 {
        s.update(k, text_tombstone(s[k]))
    } else {
        s
    }
}

/// The parent of a local insert at visible position `pos`: the visible
/// element before that position, or none at the start or past the end.
pub open spec fn local_parent(s: Seq<Element>, pos: int) -> Option<OpId> {
    if pos == 0 || pos > text_of(s).len() {
        None
    } else {
        Some(s[nth_match(s, text_live(), pos - 1)].id)
    }
}

/// No two elements share an identifier.
pub open spec fn ids_distinct(s: Seq<Element>) -> bool {
    forall|i: int, j: int| 0 <= i < s.len() && 0 <= j < s.len() && i != j ==> s[i].id != s[j].id
}

/// Every element was stamped no later than `clock`.
pub open spec fn stamped_by(s: Seq<Element>, clock: HLC) -> bool {
    forall|i: int| 0 <= i < s.len() ==> (#[trigger] s[i]).id.timestamp.precedes_or_eq(clock)
}

proof fn lemma_skip_newer_range(s: Seq<Element>, i: int, ts: HLC)
    requires
        0 <= i <= s.len(),
    ensures
        i <= skip_newer(s, i, ts) <= s.len(),
        forall|j: int| i <= j < skip_newer(s, i, ts) ==> ts.precedes((#[trigger] s[j]).id.timestamp),
        skip_newer(s, i, ts) < s.len() ==> !ts.precedes(s[skip_newer(s, i, ts)].id.timestamp),
    decreases s.len() - i,
{
    if i < s.len() && ts.precedes(s[i].id.timestamp) {
        lemma_skip_newer_range(s, i + 1, ts);
    }
}

proof fn lemma_skip_newer_is(s: Seq<Element>, i: int, ts: HLC, k: int)
    requires
        0 <= i <= k <= s.len(),
        forall|j: int| i <= j < k ==> ts.precedes((#[trigger] s[j]).id.timestamp),
        k == s.len() || !ts.precedes(s[k].id.timestamp),
    ensures
        skip_newer(s, i, ts) == k,
    decreases k - i,
{
    if i < k {
        lemma_skip_newer_is(s, i + 1, ts, k);
    }
}

proof fn lemma_rga_position_range(s: Seq<Element>, e: Element)
    ensures
        0 <= rga_position(s, e) <= s.len(),
{
    match e.parent {
        None => lemma_skip_newer_range(s, 0, e.id.timestamp),
        Some(p) => {
            let k = first_match(s, text_has_id(p));
            if k >= 0 {
                lemma_nth_match_found(s, text_has_id(p), 0);
                lemma_skip_newer_range(s, k + 1, e.id.timestamp);
            }
        },
    }
}

impl TextCrdt {
    /// The node this replica edits as.
    pub closed spec fn node(self) -> u128 {
        self.node_id
    }

    /// The replica's clock.
    pub closed spec fn clock(self) -> HLC {
        self.clock
    }

    /// All characters ever integrated, deleted ones included, in text order.
    pub closed spec fn elements(self) -> Seq<Element> {
        self.elements@
    }

    /// The operations this replica has applied, in order.
    pub closed spec fn ops_log(self) -> Seq<TextOp> {
        self.ops_log@
    }

    /// The visible text.
    pub open spec fn text(self) -> Seq<char> {
        text_of(self.elements())
    }

    /// Every operation of the log is reflected in the elements.
    pub open spec fn reflects_log(self) -> bool {
        log_reflected(self.elements(), self.ops_log())
    }

    /// The log accounts for the elements: every element was inserted by an
    /// operation of the log, and every deletion of the log follows the
    /// insert of its target.
    pub open spec fn covered_by_log(self) -> bool {
        log_covers(self.elements(), self.ops_log())
    }

    /// The largest logical counter the replica holds: its clock's, or one
    /// stamped on an operation of its log.
    pub open spec fn logical_high(self) -> nat {
        max_nat(self.clock().logical as nat, log_high(self.ops_log()))
    }

    /// The representation invariant: identifiers are unique and no element
    /// was stamped later than the clock.
    pub open spec fn wf(self) -> bool {
        &&& ids_distinct(self.elements())
        &&& stamped_by(self.elements(), self.clock())
    }

    /// An empty text for node `node_id`, with a clock started at the current time.
    pub fn new(node_id: u128) -> (t: Self)
        ensures
            t.wf(),
            t.node() == node_id,
            t.clock().node_id == node_id,
            t.clock().logical == 0,
            t.elements() == Seq::<Element>::empty(),
            t.ops_log() == Seq::<TextOp>::empty(),
            t.logical_high() == 0,
            t.reflects_log(),
            t.covered_by_log(),
    {
        let t = TextCrdt { node_id, clock: HLC::new(node_id), elements: Vec::new(), ops_log: Vec::new() };
        assert(t.covered_by_log()) by {
            assert forall|x: OpId| #[trigger] text_knows(t.elements(), x) implies inserts_id(t.ops_log(), x) by {
                lemma_nth_match_found(t.elements(), text_has_id(x), 0);
            }
        }
        t
    }

    pub fn node_id(&self) -> (n: u128)
        ensures
            n == self.node(),
    {
        self.node_id
    }

    /// Number of visible (non-deleted) characters.
    pub fn len(&self) -> (n: usize)
        ensures
            n == self.text().len(),
    {
        let ghost s = self.elements();
        let mut n: usize = 0;
        let mut i: usize = 0;
        while i < self.elements.len()
            invariant
                s == self.elements(),
                i <= s.len(),
                n == count_matching(s.take(i as int), text_live()),
            decreases self.elements.len() - i,
        {
            proof {
                lemma_count_step(s, text_live(), i as int);
                crate::seqs::lemma_count_le_len(s.take(i + 1), text_live());
            }
            if !self.elements[i].deleted {
                n += 1;
            }
            i += 1;
        }
        proof {
            lemma_count_full(s, text_live());
            lemma_kept_len(s, text_live(), text_char());
        }
        n
    }

    pub fn is_empty(&self) -> (b: bool)
        ensures
            b == (self.text().len() == 0),
    {
        self.len() == 0
    }

    /// Render the CRDT to a plain string.
    pub fn to_string(&self) -> (r: String)
        ensures
            r@ == self.text(),
    {
        let ghost s = self.elements();
        let mut r = String::new();
        let mut i: usize = 0;
        while i < self.elements.len()
            invariant
                s == self.elements(),
                i <= s.len(),
                r@ == text_of(s.take(i as int)),
            decreases self.elements.len() - i,
        {
            proof {
                lemma_kept_step(s, text_live(), text_char(), i as int);
            }
            if !self.elements[i].deleted {
                push_char(&mut r, self.elements[i].ch);
            }
            i += 1;
        }
        proof {
            lemma_kept_full(s, text_live(), text_char());
        }
        r
    }

    /// Number of tombstones (deleted characters still kept).
    pub fn tombstone_count(&self) -> (n: usize)
        ensures
            n == count_matching(self.elements(), text_dead()),
    {
        let ghost s = self.elements();
        let mut n: usize = 0;
        let mut i: usize = 0;
        while i < self.elements.len()
            invariant
                s == self.elements(),
                i <= s.len(),
                n == count_matching(s.take(i as int), text_dead()),
            decreases self.elements.len() - i,
        {
            proof {
                lemma_count_step(s, text_dead(), i as int);
                crate::seqs::lemma_count_le_len(s.take(i + 1), text_dead());
            }
            if self.elements[i].deleted {
                n += 1;
            }
            i += 1;
        }
        proof {
            lemma_count_full(s, text_dead());
        }
        n
    }

    /// Number of operations in the log.
    pub fn ops_count(&self) -> (n: usize)
        ensures
            n == self.ops_log().len(),
    {
        self.ops_log.len()
    }

    /// Operations since log index `from_index`.
    pub fn ops_since(&self, from_index: usize) -> (ops: &[TextOp])
        ensures
            from_index >= self.ops_log().len() ==> ops@ == Seq::<TextOp>::empty(),
            from_index < self.ops_log().len() ==> ops@ == self.ops_log().skip(from_index as int),
    {
        let n = self.ops_log.len();
        if from_index >= n {
            let r = vstd::slice::slice_subrange(self.ops_log.as_slice(), n, n);
            assert(r@ =~= Seq::<TextOp>::empty());
            r
        } else {
            let r = vstd::slice::slice_subrange(self.ops_log.as_slice(), from_index, n);
            assert(r@ =~= self.ops_log().skip(from_index as int));
            r
        }
    }

    /// Index of the first element with identifier `id`.
    fn find_element(&self, id: &OpId) -> (r: Option<usize>)
        ensures
            match r {
                Some(i) => i == first_match(self.elements(), text_has_id(*id)),
                None => first_match(self.elements(), text_has_id(*id)) < 0,
            },
    {
        let ghost s = self.elements();
        let mut i: usize = 0;
        while i < self.elements.len()
            invariant
                s == self.elements(),
                i <= s.len(),
                forall|j: int| 0 <= j < i ==> !text_has_id(*id)(#[trigger] s[j]),
            decreases self.elements.len() - i,
        {
            if self.elements[i].id == *id {
                proof {
                    lemma_first_match_is(s, text_has_id(*id), i as int);
                }
                return Some(i);
            }
            i += 1;
        }
        proof {
            lemma_first_match_none(s, text_has_id(*id));
        }
        None
    }

    /// Integrate a new element into the element list.
    fn integrate_insert(&mut self, id: OpId, parent: Option<OpId>, ch: char)
        ensures
            final(self).elements() == rga_insert(
                old(self).elements(),
                Element { id, ch, deleted: false, parent },
            ),
            final(self).node() == old(self).node(),
            final(self).clock() == old(self).clock(),
            final(self).ops_log() == old(self).ops_log(),
    {
        let new_elem = Element { id, ch, deleted: false, parent };
        let ghost s = self.elements();
        if self.elements.len() == 0 {
            proof {
                match parent {
                    None => lemma_skip_newer_is(s, 0, id.timestamp, 0),
                    Some(p) => lemma_first_match_none(s, text_has_id(p)),
                }
            }
            self.elements.push(new_elem);
            assert(self.elements() =~= rga_insert(s, new_elem));
            return;
        }
        let start_idx: usize = match &parent {
            None => 0,
            Some(pid) => match self.find_element(pid) {
                Some(pos) => {
                    proof {
                        lemma_nth_match_found(s, text_has_id(*pid), 0);
                    }
                    pos + 1
                },
                None => {
                    self.elements.push(new_elem);
                    assert(self.elements() =~= rga_insert(s, new_elem));
                    return;
                },
            },
        };
        let mut insert_idx = start_idx;
        while insert_idx < self.elements.len()
            invariant
                s == self.elements(),
                start_idx <= insert_idx <= s.len(),
                forall|j: int|
                    start_idx <= j < insert_idx ==> id.timestamp.precedes((#[trigger] s[j]).id.timestamp),
            ensures
                start_idx <= insert_idx <= s.len(),
                forall|j: int|
                    start_idx <= j < insert_idx ==> id.timestamp.precedes((#[trigger] s[j]).id.timestamp),
                insert_idx == s.len() || !id.timestamp.precedes(s[insert_idx as int].id.timestamp),
            decreases self.elements.len() - insert_idx,
        {
            let existing = &self.elements[insert_idx];
            if !id.goes_after(&existing.id) {
                break;
            }
            insert_idx += 1;
        }
        proof {
            lemma_skip_newer_is(s, start_idx as int, id.timestamp, insert_idx as int);
        }
        self.elements.insert(insert_idx, new_elem);
    }

    /// Mark the first element with identifier `target` deleted.
    fn integrate_delete(&mut self, target: &OpId)
        ensures
            final(self).elements() == rga_delete(old(self).elements(), *target),
            final(self).node() == old(self).node(),
            final(self).clock() == old(self).clock(),
            final(self).ops_log() == old(self).ops_log(),
    {
        let ghost s = self.elements();
        match self.find_element(target) {
            Some(i) => {
                proof {
                    lemma_nth_match_found(s, text_has_id(*target), 0);
                }
                self.elements.set(i, text_tombstone_exec(self.elements[i]));
                assert(self.elements() =~= rga_delete(s, *target));
            },
            None => {},
        }
    }
}

fn text_tombstone_exec(e: Element) -> (r: Element)
    ensures
        r == text_tombstone(e),
{
    Element { deleted: true, ..e }
}

/// Appends `c` to `s` with `String::push`.
#[verifier::external_body]
fn push_char(s: &mut String, c: char)
    ensures
        final(s)@ == old(s)@.push(c),
{
    s.push(c);
}

/// Replaying one operation of another replica during a merge: an insert
/// of an unknown identifier is integrated, a deletion of a known, not yet
/// deleted character is applied; each applied operation is logged.
pub open spec fn text_merge_step(d: (Seq<Element>, Seq<TextOp>), op: TextOp) -> (
    Seq<Element>,
    Seq<TextOp>,
) {
    match op {
        TextOp::Insert { id, parent, ch } => if first_match(d.0, text_has_id(id)) < 0 {
            (rga_insert(d.0, Element { id, ch, deleted: false, parent }), d.1.push(op))
        } else {
            d
        },
        TextOp::Delete { target } => {
            let k = first_match(d.0, text_has_id(target));
            if k >= 0 && !d.0[k].deleted {
                (rga_delete(d.0, target), d.1.push(op))
            } else {
                d
            }
        },
    }
}

/// Replaying the operations of another replica, in order.
pub open spec fn text_merge(d: (Seq<Element>, Seq<TextOp>), ops: Seq<TextOp>) -> (
    Seq<Element>,
    Seq<TextOp>,
)
    decreases ops.len(),
{
    if ops.len() == 0 {
        d
    } else {
        text_merge_step(text_merge(d, ops.drop_last()), ops.last())
    }
}

/// The larger of two counters.
pub open spec fn max_nat(a: nat, b: nat) -> nat {
    if a >= b {
        a
    } else {
        b
    }
}

/// The logical counter stamped on an operation: that of an insert's
/// timestamp, none for a deletion.
pub open spec fn op_logical(op: TextOp) -> nat {
    match op {
        TextOp::Insert { id, .. } => id.timestamp.logical as nat,
        TextOp::Delete { .. } => 0,
    }
}

/// The largest logical counter stamped on an operation of `log`, or 0.
pub open spec fn log_high(log: Seq<TextOp>) -> nat
    decreases log.len(),
{
    if log.len() == 0 {
        0
    } else {
        max_nat(log_high(log.drop_last()), op_logical(log.last()))
    }
}

/// The clock has room for merging `other` into `this`: the largest logical
/// counter either replica holds, plus one step for each operation of
/// `other`, stays below the counter's limit.
pub open spec fn merge_fits(this: TextCrdt, other: TextCrdt) -> bool {
    max_nat(this.logical_high(), other.logical_high()) + other.ops_log().len() < u64::MAX
}

proof fn lemma_log_high_push(log: Seq<TextOp>, op: TextOp)
    ensures
        log_high(log.push(op)) == max_nat(log_high(log), op_logical(op)),
{
    assert(log.push(op).drop_last() =~= log);
}

/// Every operation of a log is stamped no higher than its largest counter.
proof fn lemma_log_high_bounds(log: Seq<TextOp>)
    ensures
        forall|i: int| 0 <= i < log.len() ==> op_logical(#[trigger] log[i]) <= log_high(log),
    decreases log.len(),
{
    if log.len() > 0 {
        let init = log.drop_last();
        lemma_log_high_bounds(init);
        assert forall|i: int| 0 <= i < log.len() implies op_logical(#[trigger] log[i]) <= log_high(log) by {
            if i < init.len() {
                assert(log[i] == init[i]);
            }
        }
    }
}

/// Keeping the inserts of a log does not raise its largest counter.
proof fn lemma_log_high_kept(log: Seq<TextOp>)
    ensures
        log_high(kept_values(log, text_is_insert(), text_op())) <= log_high(log),
    decreases log.len(),
{
    if log.len() > 0 {
        let init = log.drop_last();
        lemma_log_high_kept(init);
        let k = kept_values(init, text_is_insert(), text_op());
        if text_is_insert()(log.last()) {
            lemma_log_high_push(k, log.last());
        }
    }
}

/// Inserting a visible element at index `q` inserts its character into the
/// text after the characters of the elements before `q`, and leaves the
/// tombstones as they were.
proof fn lemma_text_insert_at(s: Seq<Element>, q: int, e: Element)
    requires
        0 <= q <= s.len(),
        !e.deleted,
    ensures
        ({
            let c = count_matching(s.take(q), text_live());
            &&& c <= text_of(s).len()
            &&& text_of(s.insert(q, e)) == text_of(s).take(c as int) + seq![e.ch] + text_of(s).skip(c as int)
        }),
        count_matching(s.insert(q, e), text_dead()) == count_matching(s, text_dead()),
{
    let a = s.take(q);
    let b = s.skip(q);
    let one = seq![e];
    assert(s =~= a + b);
    assert(s.insert(q, e) =~= a + (one + b));
    lemma_kept_concat(a, b, text_live(), text_char());
    lemma_kept_concat(one, b, text_live(), text_char());
    lemma_kept_concat(a, one + b, text_live(), text_char());
    lemma_count_concat(a, b, text_dead());
    lemma_count_concat(one, b, text_dead());
    lemma_count_concat(a, one + b, text_dead());
    lemma_kept_len(a, text_live(), text_char());
    assert(one.drop_last() =~= Seq::<Element>::empty());
    assert(one.last() == e);
    assert(kept_values(one.drop_last(), text_live(), text_char()) =~= Seq::<char>::empty());
    assert(text_of(one) =~= seq![e.ch]);
    assert(count_matching(one.drop_last(), text_dead()) == 0);
    assert(count_matching(one, text_dead()) == 0);
    let ta = text_of(a);
    let tb = text_of(b);
    assert((ta + tb).take(ta.len() as int) =~= ta);
    assert((ta + tb).skip(ta.len() as int) =~= tb);
    assert(ta + (seq![e.ch] + tb) =~= ta + seq![e.ch] + tb);
}

/// A new element stamped later than every element lands where the scan starts.
proof fn lemma_newest_stops_at_start(s: Seq<Element>, i: int, ts: HLC, clock: HLC)
    requires
        stamped_by(s, clock),
        clock.precedes(ts),
        0 <= i <= s.len(),
    ensures
        skip_newer(s, i, ts) == i,
{
    if i < s.len() {
        let t = s[i].id.timestamp;
        assert(t.precedes_or_eq(clock));
        crate::hlc::lemma_precedes_total(ts, t);
        if ts.precedes(t) {
            if t.precedes(clock) {
                crate::hlc::lemma_precedes_transitive(ts, t, clock);
                crate::hlc::lemma_precedes_transitive(clock, ts, clock);
            } else {
                crate::hlc::lemma_precedes_transitive(clock, ts, clock);
            }
        }
    }
    lemma_skip_newer_is(s, i, ts, i);
}

/// Inserting a new element, stamped later than the clock, into well-formed
/// elements keeps them well formed under the new clock.
proof fn lemma_wf_insert(s: Seq<Element>, clock: HLC, p: int, e: Element, new_clock: HLC)
    requires
        ids_distinct(s),
        stamped_by(s, clock),
        0 <= p <= s.len(),
        first_match(s, text_has_id(e.id)) < 0,
        clock.precedes_or_eq(new_clock),
        e.id.timestamp.precedes_or_eq(new_clock),
    ensures
        ids_distinct(s.insert(p, e)),
        stamped_by(s.insert(p, e), new_clock),
{
    lemma_first_match_prefix(s, text_has_id(e.id));
    let t = s.insert(p, e);
    assert forall|i: int, j: int| 0 <= i < t.len() && 0 <= j < t.len() && i != j implies t[i].id
        != t[j].id by {
        let oi = if i < p { i } else { i - 1 };
        let oj = if j < p { j } else { j - 1 };
        if i != p && j != p {
            assert(t[i] == s[oi] && t[j] == s[oj]);
        } else if i == p {
            assert(t[j] == s[oj]);
            assert(!text_has_id(e.id)(s[oj]));
        } else {
            assert(t[i] == s[oi]);
            assert(!text_has_id(e.id)(s[oi]));
        }
    }
    assert forall|i: int| 0 <= i < t.len() implies (#[trigger] t[i]).id.timestamp.precedes_or_eq(
        new_clock,
    ) by {
        if i < p {
            assert(t[i] == s[i]);
            crate::hlc::lemma_precedes_or_eq_transitive(s[i].id.timestamp, clock, new_clock);
        } else if i > p {
            assert(t[i] == s[i - 1]);
            crate::hlc::lemma_precedes_or_eq_transitive(s[i - 1].id.timestamp, clock, new_clock);
        }
    }
}

/// Marking an element deleted keeps the elements well formed.
proof fn lemma_wf_update(s: Seq<Element>, clock: HLC, k: int)
    requires
        ids_distinct(s),
        stamped_by(s, clock),
        0 <= k < s.len(),
    ensures
        ids_distinct(s.update(k, text_tombstone(s[k]))),
        stamped_by(s.update(k, text_tombstone(s[k])), clock),
{
    let t = s.update(k, text_tombstone(s[k]));
    assert forall|i: int, j: int| 0 <= i < t.len() && 0 <= j < t.len() && i != j implies t[i].id
        != t[j].id by {
        assert(t[i].id == s[i].id && t[j].id == s[j].id);
    }
    assert forall|i: int| 0 <= i < t.len() implies (#[trigger] t[i]).id.timestamp.precedes_or_eq(
        clock,
    ) by {
        assert(t[i].id == s[i].id);
    }
}

/// The first element with the identifier of the element at `k` is that element.
proof fn lemma_unique_first(s: Seq<Element>, k: int)
    requires
        ids_distinct(s),
        0 <= k < s.len(),
    ensures
        first_match(s, text_has_id(s[k].id)) == k,
{
    lemma_first_match_is(s, text_has_id(s[k].id), k);
}

/// Keeping the elements of a well-formed sequence keeps it well formed.
proof fn lemma_wf_kept(s: Seq<Element>, clock: HLC, p: spec_fn(Element) -> bool)
    requires
        ids_distinct(s),
        stamped_by(s, clock),
    ensures
        ids_distinct(kept_values(s, p, text_element())),
        stamped_by(kept_values(s, p, text_element()), clock),
    decreases s.len(),
{
    if s.len() > 0 {
        let d = s.drop_last();
        assert(ids_distinct(d)) by {
            assert forall|i: int, j: int| 0 <= i < d.len() && 0 <= j < d.len() && i != j implies d[i].id
                != d[j].id by {
                assert(d[i] == s[i] && d[j] == s[j]);
            }
        }
        assert(stamped_by(d, clock)) by {
            assert forall|i: int| 0 <= i < d.len() implies (#[trigger] d[i]).id.timestamp.precedes_or_eq(
                clock,
            ) by {
                assert(d[i] == s[i]);
            }
        }
        lemma_wf_kept(d, clock, p);
        let kd = kept_values(d, p, text_element());
        if p(s.last()) {
            let k = kd.push(s.last());
            assert(kept_values(s, p, text_element()) == k);
            lemma_kept_members(d, p, text_element());
            assert forall|i: int, j: int| 0 <= i < k.len() && 0 <= j < k.len() && i != j implies k[i].id
                != k[j].id by {
                if i == kd.len() || j == kd.len() {
                    let o = if i == kd.len() { j } else { i };
                    assert(kd.contains(kd[o]));
                    let m = choose|m: int| 0 <= m < d.len() && d[m] == kd[o];
                    assert(s[m] == d[m]);
                    assert(s[s.len() - 1] == s.last());
                } else {
                    assert(k[i] == kd[i] && k[j] == kd[j]);
                }
            }
            assert forall|i: int| 0 <= i < k.len() implies (#[trigger] k[i]).id.timestamp.precedes_or_eq(
                clock,
            ) by {
                if i < kd.len() {
                    assert(k[i] == kd[i]);
                } else {
                    assert(s[s.len() - 1] == s.last());
                }
            }
        }
    }
}

impl TextCrdt {
    /// Insert a character at a visible position, stamped with a fresh
    /// timestamp of the replica's clock; returns the operation to send to
    /// other replicas. The new character goes right after the visible
    /// character before `pos`: it takes visible position `pos`, or the start
    /// when `pos` is past the end.
    pub fn insert(&mut self, pos: usize, ch: char) -> (op: TextOp)
        requires
            old(self).wf(),
            old(self).clock().logical < u64::MAX,
        ensures
            final(self).wf(),
            final(self).node() == old(self).node(),
            old(self).clock().precedes(final(self).clock()),
            exists|wall: u64| final(self).clock() == #[trigger] old(self).clock().ticked(wall),
            final(self).clock().node_id == old(self).clock().node_id,
            op == (TextOp::Insert {
                id: OpId { node_id: old(self).node(), timestamp: final(self).clock() },
                parent: local_parent(old(self).elements(), pos as int),
                ch,
            }),
            final(self).elements() == rga_insert(
                old(self).elements(),
                Element {
                    id: OpId { node_id: old(self).node(), timestamp: final(self).clock() },
                    ch,
                    deleted: false,
                    parent: local_parent(old(self).elements(), pos as int),
                },
            ),
            final(self).ops_log() == old(self).ops_log().push(op),
            final(self).elements() == text_step(old(self).elements(), op),
            text_ready(old(self).elements(), op),
            old(self).reflects_log() ==> final(self).reflects_log(),
            old(self).covered_by_log() ==> final(self).covered_by_log(),
            final(self).logical_high() <= old(self).logical_high() + 1,
            pos <= old(self).text().len() ==> final(self).text() == old(self).text().take(pos as int)
                + seq![ch] + old(self).text().skip(pos as int),
            pos > old(self).text().len() ==> final(self).text() == seq![ch] + old(self).text(),
            count_matching(final(self).elements(), text_dead()) == count_matching(
                old(self).elements(),
                text_dead(),
            ),
    {
        let ghost s = self.elements();
        let ghost c0 = self.clock;
        let id = OpId { node_id: self.node_id, timestamp: self.clock.now() };
        proof {
            lemma_kept_len(s, text_live(), text_char());
            lemma_count_full(s, text_live());
        }
        let parent = if pos == 0 {
            None
        } else {
            let mut count: usize = 0;
            let mut parent_id: Option<OpId> = None;
            let mut i: usize = 0;
            while i < self.elements.len()
                invariant_except_break
                    s == self.elements(),
                    i <= s.len(),
                    0 < pos,
                    text_of(s).len() == count_matching(s, text_live()),
                    count_matching(s.take(s.len() as int), text_live()) == count_matching(s, text_live()),
                    count == count_matching(s.take(i as int), text_live()),
                    count < pos,
                    parent_id is None,
                ensures
                    s == self.elements(),
                    parent_id == local_parent(s, pos as int),
                decreases self.elements.len() - i,
            {
                proof {
                    lemma_count_step(s, text_live(), i as int);
                }
                if !self.elements[i].deleted {
                    count += 1;
                    if count == pos {
                        parent_id = Some(self.elements[i].id);
                        proof {
                            lemma_nth_match_is(s, text_live(), pos - 1, i as int);
                            lemma_count_prefix_grows(s, text_live(), i as int, s.len() as int);
                            lemma_count_full(s, text_live());
                        }
                        break;
                    }
                }
                i += 1;
            }
            proof {
                if parent_id is None {
                    lemma_count_full(s, text_live());
                }
            }
            parent_id
        };
        let op = TextOp::Insert { id, parent, ch };
        let ghost e = Element { id, ch, deleted: false, parent };
        proof {
            assert forall|j: int| 0 <= j < s.len() implies !text_has_id(id)(#[trigger] s[j]) by {
                crate::hlc::lemma_precedes_total(s[j].id.timestamp, c0);
            }
            lemma_first_match_none(s, text_has_id(id));
            lemma_rga_position_range(s, e);
            lemma_wf_insert(s, c0, rga_position(s, e), e, self.clock);
        }
        let ghost log0 = self.ops_log@;
        self.integrate_insert(id, parent, ch);
        self.ops_log.push(op);
        proof {
            let wall = choose|wall: u64| self.clock == #[trigger] c0.ticked(wall);
            crate::hlc::lemma_tick_logical_bound(c0, wall);
            lemma_log_high_push(log0, op);
            if log_reflected(s, log0) {
                lemma_reflected_step(s, log0, op);
            }
            if log_covers(s, log0) {
                lemma_covers_step(s, log0, op);
            }
            if let Some(pid) = parent {
                crate::seqs::lemma_nth_match_exists(s, text_live(), pos - 1);
                lemma_nth_match_found(s, text_live(), pos - 1);
                assert(text_has_id(pid)(s[nth_match(s, text_live(), pos - 1)]));
                lemma_first_match_prefix(s, text_has_id(pid));
            }
            if pos == 0 || pos > text_of(s).len() {
                lemma_newest_stops_at_start(s, 0, id.timestamp, c0);
                assert(rga_position(s, e) == 0);
                lemma_text_insert_at(s, 0, e);
                assert(s.take(0) =~= Seq::<Element>::empty());
                assert(text_of(s).take(0) =~= Seq::<char>::empty());
                assert(text_of(s).skip(0) =~= text_of(s));
                assert(Seq::<char>::empty() + seq![ch] + text_of(s) =~= seq![ch] + text_of(s));
            } else {
                let k = nth_match(s, text_live(), pos - 1);
                lemma_count_full(s, text_live());
                crate::seqs::lemma_nth_match_exists(s, text_live(), pos - 1);
                lemma_nth_match_found(s, text_live(), pos - 1);
                lemma_unique_first(s, k);
                lemma_newest_stops_at_start(s, k + 1, id.timestamp, c0);
                assert(rga_position(s, e) == k + 1);
                lemma_count_step(s, text_live(), k);
                lemma_text_insert_at(s, k + 1, e);
            }
        }
        op
    }

    /// Delete the character at a visible position; returns the operation to
    /// send to other replicas, or `None` past the end of the text.
    pub fn delete(&mut self, pos: usize) -> (op: Option<TextOp>)
        requires
            old(self).wf(),
        ensures
            final(self).wf(),
            final(self).node() == old(self).node(),
            final(self).clock() == old(self).clock(),
            ({
                let k = nth_match(old(self).elements(), text_live(), pos as int);
                &&& (k < 0) == (pos >= old(self).text().len())
                &&& k < 0 ==> op is None && final(self).elements() == old(self).elements()
                    && final(self).ops_log() == old(self).ops_log()
                &&& k >= 0 ==> op == Some(TextOp::Delete { target: old(self).elements()[k].id })
                    && final(self).elements() == old(self).elements().update(
                    k,
                    text_tombstone(old(self).elements()[k]),
                ) && final(self).ops_log() == old(self).ops_log().push(op->0)
            }),
            pos < old(self).text().len() ==> final(self).text() == old(self).text().remove(
                pos as int,
            ),
            op matches Some(o) ==> final(self).elements() == text_step(old(self).elements(), o),
            op matches Some(TextOp::Delete { target }) ==> text_knows(old(self).elements(), target),
            final(self).logical_high() == old(self).logical_high(),
            old(self).reflects_log() ==> final(self).reflects_log(),
            old(self).covered_by_log() ==> final(self).covered_by_log(),
    {
        let ghost s = self.elements();
        proof {
            lemma_kept_len(s, text_live(), text_char());
            lemma_count_full(s, text_live());
        }
        let mut count: usize = 0;
        let mut target_id: Option<OpId> = None;
        let mut i: usize = 0;
        while i < self.elements.len()
            invariant_except_break
                s == self.elements(),
                i <= s.len(),
                count == count_matching(s.take(i as int), text_live()),
                count <= pos,
                target_id is None,
                count_matching(s.take(s.len() as int), text_live()) == count_matching(s, text_live()),
            ensures
                s == self.elements(),
                target_id is None ==> count_matching(s, text_live()) <= pos,
                target_id matches Some(t) ==> 0 <= i < s.len() && !s[i as int].deleted && count_matching(
                    s.take(i as int),
                    text_live(),
                ) == pos && t == s[i as int].id,
            decreases self.elements.len() - i,
        {
            proof {
                lemma_count_step(s, text_live(), i as int);
            }
            if !self.elements[i].deleted {
                if count == pos {
                    target_id = Some(self.elements[i].id);
                    break;
                }
                count += 1;
            }
            i += 1;
        }
        proof {
            if target_id is None {
                lemma_count_full(s, text_live());
            }
        }
        match target_id {
            None => {
                proof {
                    lemma_nth_match_none(s, text_live(), pos as int);
                }
                None
            },
            Some(target) => {
                let op = TextOp::Delete { target };
                proof {
                    lemma_nth_match_is(s, text_live(), pos as int, i as int);
                    lemma_unique_first(s, i as int);
                    lemma_wf_update(s, self.clock, i as int);
                    lemma_kept_unmark(s, text_live(), text_char(), i as int, text_tombstone(s[i as int]));
                    lemma_count_prefix_grows(s, text_live(), i as int, s.len() as int);
                    lemma_count_full(s, text_live());
                }
                let ghost log0 = self.ops_log@;
                self.integrate_delete(&target);
                self.ops_log.push(op);
                proof {
                    lemma_log_high_push(log0, op);
                    lemma_first_match_prefix(s, text_has_id(target));
                    assert(text_has_id(target)(s[i as int]));
                    if log_reflected(s, log0) {
                        lemma_reflected_step(s, log0, op);
                    }
                    if log_covers(s, log0) {
                        lemma_covers_step(s, log0, op);
                    }
                }
                Some(op)
            },
        }
    }

    /// Apply a remote operation: an insert is integrated unless its
    /// identifier is known (the clock then observes its timestamp); a
    /// deletion marks its target deleted. Applied operations are logged.
    pub fn apply(&mut self, op: &TextOp)
        requires
            old(self).wf(),
            *op matches TextOp::Insert { id, .. } ==> (first_match(old(self).elements(), text_has_id(id))
                < 0 ==> old(self).clock().logical < u64::MAX && id.timestamp.logical < u64::MAX),
        ensures
            final(self).wf(),
            final(self).node() == old(self).node(),
            old(self).clock().precedes_or_eq(final(self).clock()),
            final(self).logical_high() <= max_nat(old(self).logical_high(), op_logical(*op)) + 1,
            (match *op {
                TextOp::Insert { id, .. } => first_match(old(self).elements(), text_has_id(id)) < 0
                    ==> id.timestamp.precedes(final(self).clock()) && final(self).text().len()
                    == old(self).text().len() + 1 && final(self).ops_log().len() == old(
                    self,
                ).ops_log().len() + 1,
                TextOp::Delete { .. } => true,
            }),
            (*op matches TextOp::Delete { target } ==> text_knows(old(self).elements(), target)) ==> (
            old(self).reflects_log() ==> final(self).reflects_log()),
            (*op matches TextOp::Delete { target } ==> text_knows(old(self).elements(), target)) ==> (
            old(self).covered_by_log() ==> final(self).covered_by_log()),
            match *op {
                TextOp::Insert { id, parent, ch } => if first_match(
                    old(self).elements(),
                    text_has_id(id),
                ) >= 0 {
                    &&& final(self).elements() == old(self).elements()
                    &&& final(self).ops_log() == old(self).ops_log()
                    &&& final(self).clock() == old(self).clock()
                } else {
                    &&& final(self).elements() == rga_insert(
                        old(self).elements(),
                        Element { id, ch, deleted: false, parent },
                    )
                    &&& final(self).ops_log() == old(self).ops_log().push(*op)
                    &&& exists|wall: u64|
                        final(self).clock() == #[trigger] old(self).clock().received(
                            id.timestamp,
                            wall,
                        )
                },
                TextOp::Delete { target } => {
                    &&& final(self).elements() == rga_delete(old(self).elements(), target)
                    &&& final(self).ops_log() == old(self).ops_log().push(*op)
                    &&& final(self).clock() == old(self).clock()
                },
            },
    {
        let ghost s = self.elements();
        let ghost c0 = self.clock;
        match op {
            TextOp::Insert { id, parent, ch } => {
                if self.find_element(id).is_none() {
                    self.clock.receive(&id.timestamp);
                    proof {
                        let wall = choose|wall: u64| self.clock == #[trigger] c0.received(id.timestamp, wall);
                        crate::hlc::lemma_receive_advances(c0, id.timestamp, wall);
                        crate::hlc::lemma_dominates_precedes(self.clock, id.timestamp);
                        let e = Element { id: *id, ch: *ch, deleted: false, parent: *parent };
                        lemma_rga_position_range(s, e);
                        lemma_wf_insert(s, c0, rga_position(s, e), e, self.clock);
                    }
                    let ghost log0 = self.ops_log@;
                    self.integrate_insert(*id, *parent, *ch);
                    self.ops_log.push(*op);
                    proof {
                        let wall = choose|wall: u64| self.clock == #[trigger] c0.received(id.timestamp, wall);
                        crate::hlc::lemma_receive_logical_bound(c0, id.timestamp, wall);
                        lemma_log_high_push(log0, *op);
                        let e = Element { id: *id, ch: *ch, deleted: false, parent: *parent };
                        lemma_rga_position_range(s, e);
                        lemma_text_insert_at(s, rga_position(s, e), e);
                        if log_reflected(s, log0) {
                            lemma_reflected_step(s, log0, *op);
                        }
                        if log_covers(s, log0) {
                            lemma_covers_step(s, log0, *op);
                        }
                    }
                }
            },
            TextOp::Delete { target } => {
                proof {
                    let k = first_match(s, text_has_id(*target));
                    if k >= 0 {
                        lemma_nth_match_found(s, text_has_id(*target), 0);
                        lemma_wf_update(s, c0, k);
                    }
                }
                let ghost log0 = self.ops_log@;
                self.integrate_delete(target);
                self.ops_log.push(*op);
                proof {
                    lemma_log_high_push(log0, *op);
                    if text_knows(s, *target) {
                        if log_reflected(s, log0) {
                            lemma_reflected_step(s, log0, *op);
                        }
                        if log_covers(s, log0) {
                            lemma_covers_step(s, log0, *op);
                        }
                    }
                }
            },
        }
    }

    /// Merge all operations from another replica, replaying its log.
    pub fn merge(&mut self, other: &TextCrdt)
        requires
            old(self).wf(),
            merge_fits(*old(self), *other),
        ensures
            final(self).wf(),
            final(self).node() == old(self).node(),
            old(self).clock().precedes_or_eq(final(self).clock()),
            final(self).logical_high() <= max_nat(old(self).logical_high(), other.logical_high())
                + other.ops_log().len(),
            final(self).ops_log().len() <= old(self).ops_log().len() + other.ops_log().len(),
            old(self).reflects_log() ==> final(self).reflects_log(),
            old(self).covered_by_log() ==> final(self).covered_by_log(),
            (final(self).elements(), final(self).ops_log()) == text_merge(
                (old(self).elements(), old(self).ops_log()),
                other.ops_log(),
            ),
    {
        let ghost ops = other.ops_log();
        let ghost m = max_nat(old(self).logical_high(), other.logical_high());
        let n = other.ops_log.len();
        let mut i: usize = 0;
        assert(ops.take(0) =~= Seq::<TextOp>::empty());
        proof {
            lemma_log_high_bounds(ops);
        }
        while i < n
            invariant
                n == ops.len(),
                ops == other.ops_log(),
                m + n < u64::MAX,
                forall|j: int| 0 <= j < n ==> op_logical(#[trigger] ops[j]) <= m,
                i <= n,
                self.wf(),
                self.node() == old(self).node(),
                old(self).clock().precedes_or_eq(self.clock()),
                self.logical_high() <= m + i,
                self.ops_log().len() <= old(self).ops_log().len() + i,
                (self.elements(), self.ops_log()) == text_merge(
                    (old(self).elements(), old(self).ops_log()),
                    ops.take(i as int),
                ),
            decreases n - i,
        {
            let op = other.ops_log[i];
            assert(ops.take(i + 1).drop_last() =~= ops.take(i as int));
            assert(ops.take(i + 1).last() == ops[i as int]);
            let ghost c0 = self.clock;
            match op {
                TextOp::Insert { id, .. } => {
                    if self.find_element(&id).is_none() {
                        assert(op_logical(ops[i as int]) <= m);
                        self.apply(&op);
                        proof {
                            crate::hlc::lemma_precedes_or_eq_transitive(old(self).clock, c0, self.clock);
                        }
                    }
                },
                TextOp::Delete { target } => {
                    match self.find_element(&target) {
                        Some(k) => {
                            if !self.elements[k].deleted {
                                assert(op_logical(ops[i as int]) <= m);
                                self.apply(&op);
                                proof {
                                    crate::hlc::lemma_precedes_or_eq_transitive(old(self).clock, c0, self.clock);
                                }
                            }
                        },
                        None => {},
                    }
                },
            }
            i += 1;
        }
        assert(ops.take(n as int) =~= ops);
        proof {
            if log_reflected(old(self).elements(), old(self).ops_log()) {
                lemma_reflected_merge(old(self).elements(), old(self).ops_log(), ops);
            }
            if log_covers(old(self).elements(), old(self).ops_log()) {
                lemma_covers_merge(old(self).elements(), old(self).ops_log(), ops);
            }
        }
    }

    /// Create a fork for a different node: the same text and log, with a
    /// clock for `new_node_id` that has observed this replica's clock.
    pub fn fork(&self, new_node_id: u128) -> (f: Self)
        requires
            self.wf(),
            self.clock().logical < u64::MAX,
        ensures
            f.wf(),
            f.node() == new_node_id,
            f.elements() == self.elements(),
            f.ops_log() == self.ops_log(),
            f.clock().node_id == new_node_id,
            f.clock().dominates(self.clock()),
            f.clock().logical <= self.clock().logical + 1,
            f.logical_high() <= self.logical_high() + 1,
            exists|start: HLC, wall: u64|
                start.node_id == new_node_id && start.logical == 0 && f.clock() == #[trigger] start.received(
                    self.clock(),
                    wall,
                ),
    {
        let mut clock = HLC::new(new_node_id);
        let ghost start = clock;
        clock.receive(&self.clock);
        proof {
            let wall = choose|wall: u64| clock == #[trigger] start.received(self.clock, wall);
            crate::hlc::lemma_receive_advances(start, self.clock, wall);
            crate::hlc::lemma_receive_logical_bound(start, self.clock, wall);
            crate::hlc::lemma_dominates_precedes(clock, self.clock);
            assert forall|i: int| 0 <= i < self.elements@.len() implies (#[trigger] self.elements@[i]).id.timestamp.precedes_or_eq(
                clock,
            ) by {
                crate::hlc::lemma_precedes_or_eq_transitive(self.elements@[i].id.timestamp, self.clock, clock);
            }
        }
        let elements = self.elements.clone();
        let ops_log = self.ops_log.clone();
        assert(elements@ =~= self.elements@);
        assert(ops_log@ =~= self.ops_log@);
        TextCrdt { node_id: new_node_id, clock, elements, ops_log }
    }

    /// Garbage-collect tombstoned elements, and the deletions in the log.
    pub fn gc(&mut self)
        requires
            old(self).wf(),
        ensures
            final(self).wf(),
            final(self).node() == old(self).node(),
            final(self).clock() == old(self).clock(),
            final(self).elements() == kept_values(old(self).elements(), text_live(), text_element()),
            final(self).ops_log() == kept_values(old(self).ops_log(), text_is_insert(), text_op()),
            final(self).text() == old(self).text(),
            final(self).logical_high() <= old(self).logical_high(),
    {
        let ghost s = self.elements();
        let ghost o = self.ops_log();
        let mut elements: Vec<Element> = Vec::new();
        let mut i: usize = 0;
        while i < self.elements.len()
            invariant
                s == self.elements(),
                i <= s.len(),
                elements@ == kept_values(s.take(i as int), text_live(), text_element()),
            decreases self.elements.len() - i,
        {
            proof {
                lemma_kept_step(s, text_live(), text_element(), i as int);
            }
            if !self.elements[i].deleted {
                elements.push(self.elements[i]);
            }
            i += 1;
        }
        let mut ops_log: Vec<TextOp> = Vec::new();
        let mut j: usize = 0;
        while j < self.ops_log.len()
            invariant
                o == self.ops_log(),
                j <= o.len(),
                ops_log@ == kept_values(o.take(j as int), text_is_insert(), text_op()),
            decreases self.ops_log.len() - j,
        {
            proof {
                lemma_kept_step(o, text_is_insert(), text_op(), j as int);
            }
            let op = self.ops_log[j];
            match op {
                TextOp::Insert { .. } => ops_log.push(op),
                TextOp::Delete { .. } => {},
            }
            j += 1;
        }
        proof {
            lemma_kept_full(s, text_live(), text_element());
            lemma_kept_full(o, text_is_insert(), text_op());
            lemma_wf_kept(s, self.clock, text_live());
            lemma_gc_text(s);
            lemma_log_high_kept(o);
        }
        self.elements = elements;
        self.ops_log = ops_log;
    }
}

/// Dropping the deleted elements leaves the visible text unchanged.
proof fn lemma_gc_text(s: Seq<Element>)
    ensures
        text_of(kept_values(s, text_live(), text_element())) == text_of(s),
    decreases s.len(),
{
    if s.len() > 0 {
        lemma_gc_text(s.drop_last());
        let kd = kept_values(s.drop_last(), text_live(), text_element());
        if !s.last().deleted {
            assert(kd.push(s.last()).drop_last() =~= kd);
        }
    }
}

/// Length of the longest common prefix of `a` and `b`.
pub open spec fn common_prefix_len(a: Seq<char>, b: Seq<char>) -> int
    decreases a.len(),
{
    if a.len() == 0 || b.len() == 0 || a[0] != b[0] {
        0
    } else {
        1 + common_prefix_len(a.drop_first(), b.drop_first())
    }
}

/// Length of the longest common suffix of `a` and `b`.
pub open spec fn common_suffix_len(a: Seq<char>, b: Seq<char>) -> int
    decreases a.len(),
{
    if a.len() == 0 || b.len() == 0 || a.last() != b.last() {
        0
    } else {
        1 + common_suffix_len(a.drop_last(), b.drop_last())
    }
}

proof fn lemma_common_prefix_is(a: Seq<char>, b: Seq<char>, p: int)
    requires
        0 <= p <= a.len(),
        p <= b.len(),
        forall|j: int| 0 <= j < p ==> a[j] == b[j],
        p == a.len() || p == b.len() || a[p] != b[p],
    ensures
        common_prefix_len(a, b) == p,
    decreases p,
{
    if p > 0 {
        lemma_common_prefix_is(a.drop_first(), b.drop_first(), p - 1);
    }
}

proof fn lemma_common_suffix_is(a: Seq<char>, b: Seq<char>, q: int)
    requires
        0 <= q <= a.len(),
        q <= b.len(),
        a.subrange(a.len() - q, a.len() as int) == b.subrange(b.len() - q, b.len() as int),
        q == a.len() || q == b.len() || a[a.len() - 1 - q] != b[b.len() - 1 - q],
    ensures
        common_suffix_len(a, b) == q,
    decreases q,
{
    if q > 0 {
        let a1 = a.drop_last();
        let b1 = b.drop_last();
        assert(a.last() == a.subrange(a.len() - q, a.len() as int)[q - 1]);
        assert(b.last() == b.subrange(b.len() - q, b.len() as int)[q - 1]);
        assert(a1.subrange(a1.len() - (q - 1), a1.len() as int) =~= a.subrange(a.len() - q, a.len() as int).drop_last());
        assert(b1.subrange(b1.len() - (q - 1), b1.len() as int) =~= b.subrange(b.len() - q, b.len() as int).drop_last());
        lemma_common_suffix_is(a1, b1, q - 1);
    } else {
        if a.len() > 0 && b.len() > 0 {
            assert(a.last() == a[a.len() - 1 - 0]);
        }
    }
}

/// A local deletion at visible position `pos`, if there is a character there.
pub open spec fn local_delete(s: Seq<Element>, pos: int) -> Seq<Element> {
    let k = nth_match(s, text_live(), pos);
    if k >= 0 {
        s.update(k, text_tombstone(s[k]))
    } else {
        s
    }
}

/// Local deletions at the visible positions `hi - 1` down to `lo`.
pub open spec fn local_deletes(s: Seq<Element>, lo: int, hi: int) -> Seq<Element>
    decreases hi - lo,
{
    if hi <= lo {
        s
    } else {
        local_delete(local_deletes(s, lo + 1, hi), lo)
    }
}

/// A local insert of `ch` with identifier `id` at visible position `pos`.
pub open spec fn local_insert(s: Seq<Element>, pos: int, ch: char, id: OpId) -> Seq<Element> {
    rga_insert(s, Element { id, ch, deleted: false, parent: local_parent(s, pos) })
}

/// Local inserts of `chs[k]` with identifier `ids[k]` at visible position `pos + k`, in order.
pub open spec fn local_inserts(s: Seq<Element>, pos: int, chs: Seq<char>, ids: Seq<OpId>) -> Seq<
    Element,
>
    decreases chs.len(),
{
    if chs.len() == 0 {
        s
    } else {
        local_insert(
            local_inserts(s, pos, chs.drop_last(), ids.drop_last()),
            pos + chs.len() - 1,
            chs.last(),
            ids.last(),
        )
    }
}

/// The identifier of an insert operation.
pub open spec fn insert_id(op: TextOp) -> OpId {
    match op {
        TextOp::Insert { id, .. } => id,
        TextOp::Delete { target } => target,
    }
}

impl TextCrdt {
    /// Build a text from `text`, one character appended after another.
    pub fn from_text(node_id: u128, text: &str) -> (t: Self)
        requires
            text@.len() < u64::MAX,
        ensures
            t.wf(),
            t.node() == node_id,
            t.clock().node_id == node_id,
            t.clock().logical <= text@.len(),
            t.logical_high() <= text@.len(),
            t.reflects_log(),
            t.covered_by_log(),
            t.text() == text@,
            count_matching(t.elements(), text_dead()) == 0,
            t.ops_log().len() == text@.len(),
            forall|i: int|
                0 <= i < text@.len() ==> (#[trigger] t.ops_log()[i] matches TextOp::Insert { ch, .. }
                    && ch == text@[i]),
    {
        let mut crdt = Self::new(node_id);
        assert(crdt.text() =~= text@.take(0)) by {
            assert(crdt.elements() =~= Seq::<Element>::empty());
        }
        for ch in it: text.chars()
            invariant
                it.seq() == text@,
                text@.len() < u64::MAX,
                crdt.wf(),
                crdt.node() == node_id,
                crdt.clock().node_id == node_id,
                crdt.clock().logical <= it.index(),
                crdt.logical_high() <= it.index(),
                crdt.reflects_log(),
                crdt.covered_by_log(),
                crdt.text() == it.seq().take(it.index() as int),
                count_matching(crdt.elements(), text_dead()) == 0,
                crdt.ops_log().len() == it.index(),
                forall|i: int|
                    0 <= i < it.index() ==> (#[trigger] crdt.ops_log()[i] matches TextOp::Insert {
                        ch,
                        ..
                    } && ch == text@[i]),
        {
            let n = crdt.len();
            let ghost c0 = crdt.clock();
            crdt.insert(n, ch);
            proof {
                let wall = choose|wall: u64| crdt.clock() == #[trigger] c0.ticked(wall);
                crate::hlc::lemma_tick_logical_bound(c0, wall);
                assert(it.seq().take(it.index() + 1) =~= it.seq().take(it.index() as int).push(ch));
            }
        }
        assert(text@.take(text@.len() as int) =~= text@);
        crdt
    }

    /// Generate CRDT operations from a text diff: the characters between the
    /// common prefix and the common suffix of `old_text` and `new_text` are deleted
    /// from the last one down, then those of `new_text` inserted in order.
    #[verifier::rlimit(40)]
    pub fn apply_diff(&mut self, old_text: &str, new_text: &str) -> (ops: Vec<TextOp>)
        requires
            old(self).wf(),
            old(self).clock().logical + new_text@.len() < u64::MAX,
        ensures
            final(self).wf(),
            final(self).node() == old(self).node(),
            old(self).clock().precedes_or_eq(final(self).clock()),
            ({
                let p = common_prefix_len(old_text@, new_text@);
                let q = common_suffix_len(old_text@.skip(p), new_text@.skip(p));
                let de = old_text@.len() - q;
                let ie = new_text@.len() - q;
                let d = ops@.len() - (ie - p);
                &&& 0 <= d <= de - p
                &&& forall|j: int| 0 <= j < d ==> ops@[j] is Delete
                &&& forall|k: int|
                    0 <= k < ie - p ==> ((#[trigger] ops@[d + k]) matches TextOp::Insert { ch, .. }
                        && ch == new_text@[p + k])
                &&& final(self).ops_log() == old(self).ops_log() + ops@
                &&& final(self).elements() == local_inserts(
                    local_deletes(old(self).elements(), p, de),
                    p,
                    new_text@.subrange(p, ie),
                    ops@.skip(d).map_values(|op: TextOp| insert_id(op)),
                )
                &&& forall|k: int|
                    0 <= k < ie - p ==> old(self).clock().precedes(
                        (#[trigger] insert_id(ops@[d + k])).timestamp,
                    )
                &&& old(self).text() == old_text@ ==> d == de - p
            }),
            old(self).text() == old_text@ ==> final(self).text() == new_text@,
            final(self).logical_high() <= old(self).logical_high() + new_text@.len(),
            old(self).reflects_log() ==> final(self).reflects_log(),
            old(self).covered_by_log() ==> final(self).covered_by_log(),
            old_text@ == new_text@ ==> ops@.len() == 0 && final(self).clock() == old(self).clock()
                && final(self).elements() == old(self).elements() && final(self).ops_log() == old(
                self,
            ).ops_log(),
    {
        let mut ops: Vec<TextOp> = Vec::new();
        let old_chars = chars_of(old_text);
        let new_chars = chars_of(new_text);
        let mut common_prefix: usize = 0;
        while common_prefix < old_chars.len() && common_prefix < new_chars.len()
            && old_chars[common_prefix] == new_chars[common_prefix]
            invariant
                common_prefix <= old_chars@.len(),
                common_prefix <= new_chars@.len(),
                forall|j: int| 0 <= j < common_prefix ==> old_chars@[j] == new_chars@[j],
            decreases old_chars.len() - common_prefix,
        {
            common_prefix += 1;
        }
        let ghost p = common_prefix as int;
        proof {
            lemma_common_prefix_is(old_text@, new_text@, p);
        }
        let mut common_suffix: usize = 0;
        while common_suffix < old_chars.len() - common_prefix && common_suffix < new_chars.len()
            - common_prefix && old_chars[old_chars.len() - 1 - common_suffix] == new_chars[new_chars.len()
            - 1 - common_suffix]
            invariant
                common_prefix <= old_chars@.len(),
                common_prefix <= new_chars@.len(),
                common_suffix <= old_chars@.len() - common_prefix,
                common_suffix <= new_chars@.len() - common_prefix,
                old_chars@.subrange(old_chars@.len() - common_suffix, old_chars@.len() as int)
                    == new_chars@.subrange(new_chars@.len() - common_suffix, new_chars@.len() as int),
            decreases old_chars.len() - common_suffix,
        {
            let ghost c = common_suffix as int;
            let ghost ol = old_chars@.len() as int;
            let ghost nl = new_chars@.len() as int;
            assert(old_chars@.subrange(ol - (c + 1), ol) =~= seq![old_chars@[ol - 1 - c]] + old_chars@.subrange(ol - c, ol));
            assert(new_chars@.subrange(nl - (c + 1), nl) =~= seq![new_chars@[nl - 1 - c]] + new_chars@.subrange(nl - c, nl));
            common_suffix += 1;
        }
        let ghost q = common_suffix as int;
        proof {
            if old_text@ == new_text@ {
                assert(p == old_text@.len());
            }
            let a = old_text@.skip(p);
            let b = new_text@.skip(p);
            assert(a.subrange(a.len() - q, a.len() as int) =~= old_text@.subrange(old_text@.len() - q, old_text@.len() as int));
            assert(b.subrange(b.len() - q, b.len() as int) =~= new_text@.subrange(new_text@.len() - q, new_text@.len() as int));
            if q < a.len() && q < b.len() {
                assert(a[a.len() - 1 - q] == old_text@[old_text@.len() - 1 - q]);
                assert(b[b.len() - 1 - q] == new_text@[new_text@.len() - 1 - q]);
            }
            lemma_common_suffix_is(a, b, q);
        }
        let delete_end = old_chars.len() - common_suffix;
        let insert_end = new_chars.len() - common_suffix;
        let ghost s0 = self.elements();
        let ghost log0 = self.ops_log();
        let ghost c0 = self.clock();
        let ghost text_was_old = self.text() == old_text@;
        let mut i = delete_end;
        assert(local_deletes(s0, delete_end as int, delete_end as int) == s0);
        proof {
            if text_was_old {
                assert(old_text@.take(delete_end as int) + old_text@.skip(delete_end as int) =~= old_text@);
            }
        }
        while i > common_prefix
            invariant
                common_prefix <= i <= delete_end,
                delete_end <= old_text@.len(),
                self.wf(),
                self.node() == old(self).node(),
                self.clock() == c0,
                self.logical_high() == old(self).logical_high(),
                old(self).reflects_log() ==> self.reflects_log(),
                old(self).covered_by_log() ==> self.covered_by_log(),
                self.elements() == local_deletes(s0, i as int, delete_end as int),
                self.ops_log() == log0 + ops@,
                ops@.len() <= delete_end - i,
                forall|j: int| 0 <= j < ops@.len() ==> ops@[j] is Delete,
                text_was_old ==> ops@.len() == delete_end - i,
                text_was_old ==> self.text() == old_text@.take(i as int) + old_text@.skip(delete_end as int),
                text_was_old == (text_of(s0) == old_text@),
            decreases i,
        {
            i -= 1;
            let ghost before = self.elements();
            let ghost ops_before = ops@;
            let r = self.delete(i);
            match r {
                Some(op) => {
                    ops.push(op);
                },
                None => {},
            }
            proof {
                assert(self.ops_log() =~= log0 + ops@);
                if text_was_old {
                    assert((old_text@.take(i + 1) + old_text@.skip(delete_end as int)).remove(i as int)
                        =~= old_text@.take(i as int) + old_text@.skip(delete_end as int));
                }
            }
        }
        let ghost d = ops@.len() as int;
        let ghost s1 = self.elements();
        let ghost c1 = self.clock();
        let mut k = common_prefix;
        assert(new_text@.subrange(p, p) =~= Seq::<char>::empty());
        assert(ops@.skip(d).map_values(|op: TextOp| insert_id(op)) =~= Seq::<OpId>::empty());
        proof {
            assert(old_text@.take(p) =~= new_text@.take(p));
            assert(old_text@.skip(delete_end as int) =~= new_text@.skip(insert_end as int)) by {
                assert(old_text@.skip(delete_end as int) =~= old_chars@.subrange(
                    old_chars@.len() - q,
                    old_chars@.len() as int,
                ));
                assert(new_text@.skip(insert_end as int) =~= new_chars@.subrange(
                    new_chars@.len() - q,
                    new_chars@.len() as int,
                ));
            }
        }
        while k < insert_end
            invariant
                common_prefix <= k <= insert_end,
                p == common_prefix as int,
                insert_end <= new_text@.len(),
                new_chars@ == new_text@,
                c0.logical + new_text@.len() < u64::MAX,
                self.clock().logical <= c0.logical + (k - common_prefix),
                self.logical_high() <= old(self).logical_high() + (k - common_prefix),
                old(self).reflects_log() ==> self.reflects_log(),
                old(self).covered_by_log() ==> self.covered_by_log(),
                self.wf(),
                self.node() == old(self).node(),
                c0.precedes_or_eq(self.clock()),
                0 <= d <= ops@.len(),
                ops@.len() == d + (k - common_prefix),
                forall|j: int| 0 <= j < d ==> ops@[j] is Delete,
                forall|m: int|
                    0 <= m < k - common_prefix ==> ((#[trigger] ops@[d + m]) matches TextOp::Insert { ch, .. }
                        && ch == new_text@[p + m]),
                self.ops_log() == log0 + ops@,
                self.elements() == local_inserts(
                    s1,
                    p,
                    new_text@.subrange(p, k as int),
                    ops@.skip(d).map_values(|op: TextOp| insert_id(op)),
                ),
                forall|m: int|
                    0 <= m < k - common_prefix ==> c0.precedes(
                        (#[trigger] insert_id(ops@[d + m])).timestamp,
                    ),
                k == common_prefix ==> self.clock() == c1 && self.elements() == s1,
                old_text@.skip(delete_end as int) == new_text@.skip(insert_end as int),
                delete_end as int == old_text@.len() - q,
                insert_end as int == new_text@.len() - q,
                text_was_old ==> self.text() == new_text@.take(k as int) + old_text@.skip(
                    delete_end as int,
                ),
            decreases insert_end - k,
        {
            let ghost before = self.elements();
            let ghost cb = self.clock();
            let ghost ids_before = ops@.skip(d).map_values(|op: TextOp| insert_id(op));
            let ch = new_chars[k];
            let op = self.insert(k, ch);
            ops.push(op);
            proof {
                let wall = choose|wall: u64| self.clock() == #[trigger] cb.ticked(wall);
                crate::hlc::lemma_tick_logical_bound(cb, wall);
                crate::hlc::lemma_precedes_or_eq_transitive(c0, cb, self.clock());
                assert(self.ops_log() =~= log0 + ops@);
                let ids = ops@.skip(d).map_values(|op: TextOp| insert_id(op));
                let chs = new_text@.subrange(p, k + 1);
                assert(chs.drop_last() =~= new_text@.subrange(p, k as int));
                assert(ids.drop_last() =~= ids_before);
                assert(ids.last() == insert_id(op));
                assert(chs.last() == ch);
                assert(p + chs.len() - 1 == k);
                assert(c0.precedes(self.clock())) by {
                    if c0 != cb {
                        crate::hlc::lemma_precedes_transitive(c0, cb, self.clock());
                    }
                }
                assert(insert_id(ops@[d + (k - common_prefix)]) == insert_id(op));
                if text_was_old {
                    let tb = new_text@.take(k as int) + old_text@.skip(delete_end as int);
                    assert(tb.take(k as int) =~= new_text@.take(k as int));
                    assert(tb.skip(k as int) =~= old_text@.skip(delete_end as int));
                    assert(new_text@.take(k + 1) =~= new_text@.take(k as int).push(ch));
                    assert(new_text@.take(k as int) + seq![ch] + old_text@.skip(delete_end as int)
                        =~= new_text@.take(k + 1) + old_text@.skip(delete_end as int));
                }
            }
            k += 1;
        }
        proof {
            if text_was_old {
                assert(new_text@.take(insert_end as int) + new_text@.skip(insert_end as int)
                    =~= new_text@);
            }
        }
        ops
    }
}

impl Clone for TextCrdt {
    fn clone(&self) -> (r: Self)
        ensures
            r.node() == self.node(),
            r.clock() == self.clock(),
            r.elements() == self.elements(),
            r.ops_log() == self.ops_log(),
    {
        let elements = self.elements.clone();
        let ops_log = self.ops_log.clone();
        assert(elements@ =~= self.elements@);
        assert(ops_log@ =~= self.ops_log@);
        TextCrdt { node_id: self.node_id, clock: self.clock, elements, ops_log }
    }
}

impl TextCrdt {
    /// The replica's node, clock, elements and log, as plain values.
    pub fn to_parts(&self) -> (r: (u128, HLC, Vec<Element>, Vec<TextOp>))
        ensures
            r.0 == self.node(),
            r.1 == self.clock(),
            r.2@ == self.elements(),
            r.3@ == self.ops_log(),
    {
        let elements = self.elements.clone();
        let ops_log = self.ops_log.clone();
        assert(elements@ =~= self.elements@);
        assert(ops_log@ =~= self.ops_log@);
        (self.node_id, self.clock, elements, ops_log)
    }

    /// A replica from its parts, or `None` when they break the
    /// representation invariant: two elements share an identifier, or one
    /// was stamped later than the clock.
    pub fn from_parts(node_id: u128, clock: HLC, elements: Vec<Element>, ops_log: Vec<TextOp>) -> (r:
        Option<Self>)
        ensures
            r is Some <==> ids_distinct(elements@) && stamped_by(elements@, clock),
            r matches Some(t) ==> t.wf() && t.node() == node_id && t.clock() == clock && t.elements()
                == elements@ && t.ops_log() == ops_log@,
    {
        let n = elements.len();
        let mut i: usize = 0;
        while i < n
            invariant
                n == elements@.len(),
                i <= n,
                forall|a: int| 0 <= a < i ==> (#[trigger] elements@[a]).id.timestamp.precedes_or_eq(clock),
                forall|a: int, b: int| 0 <= a < i && 0 <= b < i && a != b ==> elements@[a].id != elements@[b].id,
            decreases n - i,
        {
            let e = elements[i];
            if e.id.timestamp.later_than(&clock) {
                proof {
                    crate::hlc::lemma_precedes_total(e.id.timestamp, clock);
                    assert(!elements@[i as int].id.timestamp.precedes_or_eq(clock));
                }
                return None;
            }
            proof {
                crate::hlc::lemma_precedes_total(e.id.timestamp, clock);
            }
            let mut j: usize = 0;
            while j < i
                invariant
                    n == elements@.len(),
                    j <= i < n,
                    e == elements@[i as int],
                    forall|b: int| 0 <= b < j ==> elements@[b].id != e.id,
                decreases i - j,
            {
                if elements[j].id == e.id {
                    assert(elements@[j as int].id == elements@[i as int].id);
                    return None;
                }
                j += 1;
            }
            i += 1;
        }
        Some(TextCrdt { node_id, clock, elements, ops_log })
    }
}

impl CrdtValue for TextCrdt {
    type Op = TextOp;

    open spec fn can_apply(&self, op: &TextOp) -> bool {
        &&& self.wf()
        &&& *op matches TextOp::Insert { id, .. } ==> (first_match(self.elements(), text_has_id(id))
            < 0 ==> self.clock().logical < u64::MAX && id.timestamp.logical < u64::MAX)
    }

    open spec fn can_merge(&self, other: &Self) -> bool {
        self.wf() && merge_fits(*self, *other)
    }

    /// As `TextCrdt::apply` states.
    open spec fn applied(old: Self, op: TextOp, new: Self) -> bool {
        &&& new.wf()
        &&& new.node() == old.node()
        &&& old.clock().precedes_or_eq(new.clock())
        &&& new.logical_high() <= max_nat(old.logical_high(), op_logical(op)) + 1
        &&& match op {
            TextOp::Insert { id, parent, ch } => if first_match(old.elements(), text_has_id(id))
                >= 0 {
                &&& new.elements() == old.elements()
                &&& new.ops_log() == old.ops_log()
                &&& new.clock() == old.clock()
            } else {
                &&& new.elements() == rga_insert(
                    old.elements(),
                    Element { id, ch, deleted: false, parent },
                )
                &&& new.ops_log() == old.ops_log().push(op)
                &&& exists|wall: u64| new.clock() == #[trigger] old.clock().received(id.timestamp, wall)
            },
            TextOp::Delete { target } => {
                &&& new.elements() == rga_delete(old.elements(), target)
                &&& new.ops_log() == old.ops_log().push(op)
                &&& new.clock() == old.clock()
            },
        }
    }

    /// As `TextCrdt::merge` states.
    open spec fn merged(old: Self, other: Self, new: Self) -> bool {
        &&& new.wf()
        &&& new.node() == old.node()
        &&& old.clock().precedes_or_eq(new.clock())
        &&& new.logical_high() <= max_nat(old.logical_high(), other.logical_high())
            + other.ops_log().len()
        &&& new.ops_log().len() <= old.ops_log().len() + other.ops_log().len()
        &&& (new.elements(), new.ops_log()) == text_merge(
            (old.elements(), old.ops_log()),
            other.ops_log(),
        )
    }

    fn apply(&mut self, op: &TextOp) {
        TextCrdt::apply(self, op);
    }

    fn merge(&mut self, other: &Self) {
        TextCrdt::merge(self, other);
    }
}

/// Where the insertion scan for children of `parent` starts: after the
/// parent, or at the start for no parent; -1 for an unknown parent.
pub open spec fn sibling_start(s: Seq<Element>, parent: Option<OpId>) -> int {
    match parent {
        None => 0,
        Some(p) => {
            let k = first_match(s, text_has_id(p));
            if k < 0 {
                -1
            } else {
                k + 1
            }
        },
    }
}

proof fn lemma_rga_position_known(s: Seq<Element>, e: Element)
    requires
        sibling_start(s, e.parent) >= 0,
    ensures
        rga_position(s, e) == skip_newer(s, sibling_start(s, e.parent), e.id.timestamp),
        sibling_start(s, e.parent) <= s.len(),
{
    match e.parent {
        None => {},
        Some(p) => {
            lemma_nth_match_found(s, text_has_id(p), 0);
        },
    }
}

/// Inserting an element after the parent's position leaves the scan start
/// for that parent in place.
proof fn lemma_sibling_start_kept(s: Seq<Element>, parent: Option<OpId>, q: int, x: Element)
    requires
        sibling_start(s, parent) >= 0,
        sibling_start(s, parent) <= q <= s.len(),
        parent matches Some(p) ==> x.id != p,
    ensures
        sibling_start(s.insert(q, x), parent) == sibling_start(s, parent),
{
    match parent {
        None => {},
        Some(p) => {
            let k = first_match(s, text_has_id(p));
            lemma_nth_match_found(s, text_has_id(p), 0);
            lemma_first_match_prefix(s, text_has_id(p));
            let t = s.insert(q, x);
            assert(t[k] == s[k]);
            assert forall|j: int| 0 <= j < k implies !text_has_id(p)(#[trigger] t[j]) by {
                assert(t[j] == s[j]);
            }
            lemma_first_match_is(t, text_has_id(p), k);
        },
    }
}

/// Deletions commute, and deleting twice is deleting once.
pub proof fn lemma_deletes_commute(s: Seq<Element>, a: OpId, b: OpId)
    ensures
        rga_delete(rga_delete(s, a), b) == rga_delete(rga_delete(s, b), a),
        rga_delete(rga_delete(s, a), a) == rga_delete(s, a),
{
    lemma_delete_keeps_ids(s, a);
    lemma_delete_keeps_ids(s, b);
    let sa = rga_delete(s, a);
    let sb = rga_delete(s, b);
    lemma_same_ids_same_first(s, sa, b);
    lemma_same_ids_same_first(s, sb, a);
    lemma_same_ids_same_first(s, sa, a);
    let ka = first_match(s, text_has_id(a));
    let kb = first_match(s, text_has_id(b));
    if ka >= 0 {
        lemma_nth_match_found(s, text_has_id(a), 0);
    }
    if kb >= 0 {
        lemma_nth_match_found(s, text_has_id(b), 0);
    }
    assert(rga_delete(sa, b) =~= rga_delete(sb, a));
    assert(rga_delete(sa, a) =~= sa);
}

proof fn lemma_delete_keeps_ids(s: Seq<Element>, a: OpId)
    ensures
        rga_delete(s, a).len() == s.len(),
        forall|j: int| 0 <= j < s.len() ==> (#[trigger] rga_delete(s, a)[j]).id == s[j].id,
{
    let k = first_match(s, text_has_id(a));
    if k >= 0 {
        lemma_nth_match_found(s, text_has_id(a), 0);
    }
}

proof fn lemma_same_ids_same_first(s: Seq<Element>, t: Seq<Element>, a: OpId)
    requires
        s.len() == t.len(),
        forall|j: int| 0 <= j < s.len() ==> (#[trigger] t[j]).id == s[j].id,
    ensures
        first_match(s, text_has_id(a)) == first_match(t, text_has_id(a)),
{
    crate::seqs::lemma_first_match_congruent(s, text_has_id(a), t, text_has_id(a));
}

proof fn lemma_skip_newer_congruent(s: Seq<Element>, t: Seq<Element>, i: int, ts: HLC)
    requires
        s.len() == t.len(),
        0 <= i <= s.len(),
        forall|j: int| 0 <= j < s.len() ==> (#[trigger] t[j]).id == s[j].id,
    ensures
        skip_newer(s, i, ts) == skip_newer(t, i, ts),
    decreases s.len() - i,
{
    if i < s.len() {
        assert(t[i].id == s[i].id);
        lemma_skip_newer_congruent(s, t, i + 1, ts);
    }
}

/// A deletion and the integration of a new element commute.
pub proof fn lemma_insert_delete_commute(s: Seq<Element>, e: Element, target: OpId)
    requires
        e.id != target,
    ensures
        rga_delete(rga_insert(s, e), target) == rga_insert(rga_delete(s, target), e),
{
    let d = rga_delete(s, target);
    lemma_delete_keeps_ids(s, target);
    let k = first_match(s, text_has_id(target));
    if k >= 0 {
        lemma_nth_match_found(s, text_has_id(target), 0);
    }
    assert forall|j: int| 0 <= j < s.len() implies (#[trigger] d[j]).id == s[j].id by {}
    // the new element lands at the same place
    match e.parent {
        None => {
            lemma_skip_newer_congruent(s, d, 0, e.id.timestamp);
        },
        Some(p) => {
            lemma_same_ids_same_first(s, d, p);
            let kp = first_match(s, text_has_id(p));
            if kp >= 0 {
                lemma_nth_match_found(s, text_has_id(p), 0);
                lemma_skip_newer_congruent(s, d, kp + 1, e.id.timestamp);
            }
        },
    }
    assert(rga_position(d, e) == rga_position(s, e));
    lemma_rga_position_range(s, e);
    let q = rga_position(s, e);
    let si = s.insert(q, e);
    // the target is found at the shifted index
    lemma_first_match_prefix(s, text_has_id(target));
    if k >= 0 {
        let k2 = if k < q { k } else { k + 1 };
        assert(si[k2] == s[k]);
        assert forall|j: int| 0 <= j < k2 implies !text_has_id(target)(#[trigger] si[j]) by {
            if j < q {
                assert(si[j] == s[j]);
            } else if j > q {
                assert(si[j] == s[j - 1]);
            }
        }
        lemma_first_match_is(si, text_has_id(target), k2);
        assert(rga_delete(si, target) =~= d.insert(q, e));
    } else {
        assert forall|j: int| 0 <= j < si.len() implies !text_has_id(target)(#[trigger] si[j]) by {
            if j < q {
                assert(si[j] == s[j]);
            } else if j > q {
                assert(si[j] == s[j - 1]);
            }
        }
        lemma_first_match_none(si, text_has_id(target));
        assert(rga_delete(si, target) =~= d.insert(q, e));
    }
}

/// `id` is the identifier of some element of `s`.
pub open spec fn text_knows(s: Seq<Element>, id: OpId) -> bool {
    first_match(s, text_has_id(id)) >= 0
}

/// The first element of `s` with identifier `id` is deleted.
pub open spec fn text_deleted(s: Seq<Element>, id: OpId) -> bool {
    text_knows(s, id) && s[first_match(s, text_has_id(id))].deleted
}

/// Every deletion in `ops` targets a character known before it: one of
/// `s`, or one inserted earlier in `ops`.
pub open spec fn deletes_follow_inserts(s: Seq<Element>, ops: Seq<TextOp>) -> bool {
    forall|j: int|
        0 <= j < ops.len() ==> (#[trigger] ops[j] matches TextOp::Delete { target } ==> text_knows(
            s,
            target,
        ) || exists|i: int|
            0 <= i < j && (#[trigger] ops[i] matches TextOp::Insert { id, .. } && id == target))
}

/// One step of a merge forgets no identifier and undeletes nothing; it
/// makes the identifier it inserts known, and deletes the known character
/// it targets.
proof fn lemma_merge_step_keeps(d: (Seq<Element>, Seq<TextOp>), op: TextOp, x: OpId)
    ensures
        text_knows(d.0, x) ==> text_knows(text_merge_step(d, op).0, x),
        text_deleted(d.0, x) ==> text_deleted(text_merge_step(d, op).0, x),
        op matches TextOp::Insert { id, .. } ==> text_knows(text_merge_step(d, op).0, id),
        op matches TextOp::Delete { target } ==> (text_knows(d.0, target) ==> text_deleted(
            text_merge_step(d, op).0,
            target,
        )),
{
    let s = d.0;
    match op {
        TextOp::Insert { id, parent, ch } => {
            if first_match(s, text_has_id(id)) < 0 {
                let e = Element { id, ch, deleted: false, parent };
                lemma_rga_position_range(s, e);
                let q = rga_position(s, e);
                let t = s.insert(q, e);
                assert(text_merge_step(d, op).0 == t);
                lemma_first_match_prefix(s, text_has_id(id));
                assert(t[q] == e);
                assert forall|j: int| 0 <= j < q implies !text_has_id(id)(#[trigger] t[j]) by {
                    assert(t[j] == s[j]);
                }
                lemma_first_match_is(t, text_has_id(id), q);
                if text_knows(s, x) {
                    let k = first_match(s, text_has_id(x));
                    lemma_nth_match_found(s, text_has_id(x), 0);
                    lemma_first_match_prefix(s, text_has_id(x));
                    assert(x != id) by {
                        assert(!text_has_id(id)(s[k]));
                    }
                    let k2 = if k < q {
                        k
                    } else {
                        k + 1
                    };
                    assert(t[k2] == s[k]);
                    assert forall|j: int| 0 <= j < k2 implies !text_has_id(x)(#[trigger] t[j]) by {
                        if j < q {
                            assert(t[j] == s[j]);
                        } else if j > q {
                            assert(t[j] == s[j - 1]);
                        }
                    }
                    lemma_first_match_is(t, text_has_id(x), k2);
                }
            }
        },
        TextOp::Delete { target } => {
            let k = first_match(s, text_has_id(target));
            if k >= 0 && !s[k].deleted {
                lemma_nth_match_found(s, text_has_id(target), 0);
                let t = rga_delete(s, target);
                assert(text_merge_step(d, op).0 == t);
                lemma_delete_keeps_ids(s, target);
                lemma_same_ids_same_first(s, t, x);
                lemma_same_ids_same_first(s, t, target);
            }
        },
    }
}

/// After a merge of `ops` that satisfies `deletes_follow_inserts`, every
/// identifier known before is still known, every inserted identifier is
/// known, and every targeted character is deleted.
proof fn lemma_merge_records(d: (Seq<Element>, Seq<TextOp>), ops: Seq<TextOp>)
    requires
        deletes_follow_inserts(d.0, ops),
    ensures
        forall|x: OpId| #[trigger] text_knows(d.0, x) ==> text_knows(text_merge(d, ops).0, x),
        forall|j: int|
            0 <= j < ops.len() ==> (#[trigger] ops[j] matches TextOp::Insert { id, .. } ==> text_knows(
                text_merge(d, ops).0,
                id,
            )),
        forall|j: int|
            0 <= j < ops.len() ==> (#[trigger] ops[j] matches TextOp::Delete { target } ==> text_deleted(
                text_merge(d, ops).0,
                target,
            )),
    decreases ops.len(),
{
    if ops.len() > 0 {
        let init = ops.drop_last();
        let op = ops.last();
        assert forall|j: int| 0 <= j < init.len() implies (#[trigger] init[j] matches TextOp::Delete {
            target,
        } ==> text_knows(d.0, target) || exists|i: int|
            0 <= i < j && (#[trigger] init[i] matches TextOp::Insert { id, .. } && id == target)) by {
            assert(init[j] == ops[j]);
            if let TextOp::Delete { target } = init[j] {
                if !text_knows(d.0, target) {
                    let i = choose|i: int|
                        0 <= i < j && (#[trigger] ops[i] matches TextOp::Insert { id, .. } && id == target);
                    assert(init[i] == ops[i]);
                }
            }
        }
        lemma_merge_records(d, init);
        let m0 = text_merge(d, init);
        let m = text_merge(d, ops);
        assert(m == text_merge_step(m0, op));
        assert forall|x: OpId| #[trigger] text_knows(d.0, x) implies text_knows(m.0, x) by {
            lemma_merge_step_keeps(m0, op, x);
        }
        assert forall|j: int|
            0 <= j < ops.len() implies (#[trigger] ops[j] matches TextOp::Insert { id, .. } ==> text_knows(
            m.0,
            id,
        )) by {
            if let TextOp::Insert { id, .. } = ops[j] {
                lemma_merge_step_keeps(m0, op, id);
                if j < init.len() {
                    assert(init[j] == ops[j]);
                }
            }
        }
        assert forall|j: int|
            0 <= j < ops.len() implies (#[trigger] ops[j] matches TextOp::Delete { target } ==> text_deleted(
            m.0,
            target,
        )) by {
            if let TextOp::Delete { target } = ops[j] {
                lemma_merge_step_keeps(m0, op, target);
                if j < init.len() {
                    assert(init[j] == ops[j]);
                } else {
                    if !text_knows(d.0, target) {
                        let i = choose|i: int|
                            0 <= i < j && (#[trigger] ops[i] matches TextOp::Insert { id, .. } && id
                                == target);
                        assert(init[i] == ops[i]);
                    }
                }
            }
        }
    }
}

/// Merging operations whose inserts are all known and whose targets are
/// all deleted changes nothing: a replica that merges its own log, or a log
/// it reflects, is unchanged.
pub proof fn lemma_merge_settled(d: (Seq<Element>, Seq<TextOp>), ops: Seq<TextOp>)
    requires
        forall|j: int|
            0 <= j < ops.len() ==> (#[trigger] ops[j] matches TextOp::Insert { id, .. } ==> text_knows(
                d.0,
                id,
            )),
        forall|j: int|
            0 <= j < ops.len() ==> (#[trigger] ops[j] matches TextOp::Delete { target } ==> text_deleted(
                d.0,
                target,
            )),
    ensures
        text_merge(d, ops) == d,
    decreases ops.len(),
{
    if ops.len() > 0 {
        let init = ops.drop_last();
        assert forall|j: int| 0 <= j < init.len() implies (#[trigger] init[j] matches TextOp::Insert {
            id,
            ..
        } ==> text_knows(d.0, id)) by {
            assert(init[j] == ops[j]);
        }
        assert forall|j: int| 0 <= j < init.len() implies (#[trigger] init[j] matches TextOp::Delete {
            target,
        } ==> text_deleted(d.0, target)) by {
            assert(init[j] == ops[j]);
        }
        lemma_merge_settled(d, init);
        let op = ops.last();
        assert(ops[ops.len() - 1] == op);
    }
}

/// Merging the same log a second time changes nothing, provided every
/// deletion in it targets a character known before it (true of a log that
/// replays a replica's own edits).
pub proof fn lemma_text_merge_idempotent(d: (Seq<Element>, Seq<TextOp>), ops: Seq<TextOp>)
    requires
        deletes_follow_inserts(d.0, ops),
    ensures
        text_merge(text_merge(d, ops), ops) == text_merge(d, ops),
{
    lemma_merge_records(d, ops);
    lemma_merge_settled(text_merge(d, ops), ops);
}

/// Inserting an element before the parent's position moves the scan start
/// for that parent one place on.
proof fn lemma_sibling_start_shift(s: Seq<Element>, parent: Option<OpId>, q: int, x: Element)
    requires
        0 <= q < sibling_start(s, parent),
        sibling_start(s, parent) <= s.len(),
        parent matches Some(p) ==> x.id != p,
    ensures
        sibling_start(s.insert(q, x), parent) == sibling_start(s, parent) + 1,
{
    match parent {
        None => {},
        Some(p) => {
            let k = first_match(s, text_has_id(p));
            lemma_nth_match_found(s, text_has_id(p), 0);
            lemma_first_match_prefix(s, text_has_id(p));
            let t = s.insert(q, x);
            assert(t[k + 1] == s[k]);
            assert forall|j: int| 0 <= j < k + 1 implies !text_has_id(p)(#[trigger] t[j]) by {
                if j < q {
                    assert(t[j] == s[j]);
                } else if j > q {
                    assert(t[j] == s[j - 1]);
                }
            }
            lemma_first_match_is(t, text_has_id(p), k + 1);
        },
    }
}

/// `y` lands in the same place after `x` was integrated, shifted past `x`
/// when `x` landed at or before it, when `x` landed before `y`'s scan
/// start.
proof fn lemma_insert_after_earlier(s: Seq<Element>, x: Element, y: Element)
    requires
        sibling_start(s, x.parent) >= 0,
        sibling_start(s, y.parent) >= 0,
        y.parent matches Some(p) ==> x.id != p,
        rga_position(s, x) < sibling_start(s, y.parent),
    ensures
        rga_position(s.insert(rga_position(s, x), x), y) == rga_position(s, y) + 1,
{
    let qx = rga_position(s, x);
    let sty = sibling_start(s, y.parent);
    lemma_rga_position_known(s, x);
    lemma_rga_position_known(s, y);
    lemma_rga_position_range(s, x);
    let qy = rga_position(s, y);
    lemma_skip_newer_range(s, sty, y.id.timestamp);
    let s1 = s.insert(qx, x);
    lemma_sibling_start_shift(s, y.parent, qx, x);
    lemma_rga_position_known(s1, y);
    assert forall|j: int| sty + 1 <= j < qy + 1 implies y.id.timestamp.precedes(
        (#[trigger] s1[j]).id.timestamp,
    ) by {
        assert(s1[j] == s[j - 1]);
    }
    if qy < s.len() {
        assert(s1[qy + 1] == s[qy]);
    }
    lemma_skip_newer_is(s1, sty + 1, y.id.timestamp, qy + 1);
}

/// `x` lands in the same place after `y` was integrated when `y` landed
/// after `x`'s stopping place.
proof fn lemma_insert_before_later(s: Seq<Element>, x: Element, y: Element)
    requires
        sibling_start(s, x.parent) >= 0,
        x.parent matches Some(p) ==> y.id != p,
        sibling_start(s, x.parent) <= rga_position(s, x) < rga_position(s, y) <= s.len(),
    ensures
        rga_position(s.insert(rga_position(s, y), y), x) == rga_position(s, x),
{
    let qx = rga_position(s, x);
    let qy = rga_position(s, y);
    let stx = sibling_start(s, x.parent);
    lemma_rga_position_known(s, x);
    lemma_skip_newer_range(s, stx, x.id.timestamp);
    let s2 = s.insert(qy, y);
    lemma_sibling_start_kept(s, x.parent, qy, y);
    lemma_rga_position_known(s2, x);
    assert forall|j: int| stx <= j < qx implies x.id.timestamp.precedes((#[trigger] s2[j]).id.timestamp) by {
        assert(s2[j] == s[j]);
    }
    assert(s2[qx] == s[qx]);
    lemma_skip_newer_is(s2, stx, x.id.timestamp, qx);
}

/// Concurrent inserts commute when `x` lands before the scan of `y` starts.
#[verifier::spinoff_prover]
#[verifier::rlimit(40)]
proof fn lemma_commute_apart(s: Seq<Element>, x: Element, y: Element)
    requires
        sibling_start(s, x.parent) >= 0,
        sibling_start(s, y.parent) >= 0,
        x.parent matches Some(p) ==> y.id != p,
        y.parent matches Some(p) ==> x.id != p,
        rga_position(s, x) < sibling_start(s, y.parent),
    ensures
        rga_insert(rga_insert(s, x), y) == rga_insert(rga_insert(s, y), x),
{
    lemma_rga_position_known(s, x);
    lemma_rga_position_known(s, y);
    lemma_skip_newer_range(s, sibling_start(s, x.parent), x.id.timestamp);
    lemma_skip_newer_range(s, sibling_start(s, y.parent), y.id.timestamp);
    let qx = rga_position(s, x);
    let qy = rga_position(s, y);
    lemma_insert_after_earlier(s, x, y);
    lemma_insert_before_later(s, x, y);
    assert(s.insert(qx, x).insert(qy + 1, y) =~= s.insert(qy, y).insert(qx, x));
}

/// Concurrent inserts commute when `x` lands inside the run that `y`
/// passes: `x` is then the newer, and `y` passes it too.
#[verifier::spinoff_prover]
#[verifier::rlimit(40)]
proof fn lemma_commute_inside(s: Seq<Element>, x: Element, y: Element)
    requires
        sibling_start(s, x.parent) >= 0,
        sibling_start(s, y.parent) >= 0,
        x.parent matches Some(p) ==> y.id != p,
        y.parent matches Some(p) ==> x.id != p,
        sibling_start(s, y.parent) <= rga_position(s, x) < rga_position(s, y),
        sibling_start(s, x.parent) <= rga_position(s, x),
    ensures
        rga_insert(rga_insert(s, x), y) == rga_insert(rga_insert(s, y), x),
{
    let tx = x.id.timestamp;
    let ty = y.id.timestamp;
    let sty = sibling_start(s, y.parent);
    lemma_rga_position_known(s, x);
    lemma_rga_position_known(s, y);
    let qx = rga_position(s, x);
    let qy = rga_position(s, y);
    lemma_skip_newer_range(s, sibling_start(s, x.parent), tx);
    lemma_skip_newer_range(s, sty, ty);
    let s1 = s.insert(qx, x);
    let tm = s[qx].id.timestamp;
    assert(ty.precedes(tm));
    assert(!tx.precedes(tm));
    assert(ty.precedes(tx)) by {
        crate::hlc::lemma_precedes_total(tx, tm);
        if tm != tx {
            crate::hlc::lemma_precedes_transitive(ty, tm, tx);
        }
    }
    lemma_sibling_start_kept(s, y.parent, qx, x);
    lemma_rga_position_known(s1, y);
    assert forall|j: int| sty <= j < qy + 1 implies ty.precedes((#[trigger] s1[j]).id.timestamp) by {
        if j < qx {
            assert(s1[j] == s[j]);
        } else if j > qx {
            assert(s1[j] == s[j - 1]);
        }
    }
    if qy < s.len() {
        assert(s1[qy + 1] == s[qy]);
    }
    lemma_skip_newer_is(s1, sty, ty, qy + 1);
    lemma_insert_before_later(s, x, y);
    assert(s1.insert(qy + 1, y) =~= s.insert(qy, y).insert(qx, x));
}

/// Concurrent inserts commute when both land at the same place: the newer
/// one comes first.
#[verifier::spinoff_prover]
#[verifier::rlimit(40)]
proof fn lemma_commute_same_place(s: Seq<Element>, x: Element, y: Element)
    requires
        sibling_start(s, x.parent) >= 0,
        sibling_start(s, y.parent) >= 0,
        x.parent matches Some(p) ==> y.id != p,
        y.parent matches Some(p) ==> x.id != p,
        sibling_start(s, y.parent) <= rga_position(s, x),
        sibling_start(s, x.parent) <= rga_position(s, y),
        rga_position(s, x) == rga_position(s, y),
        x.id.timestamp.precedes(y.id.timestamp),
    ensures
        rga_insert(rga_insert(s, x), y) == rga_insert(rga_insert(s, y), x),
{
    let tx = x.id.timestamp;
    let ty = y.id.timestamp;
    let stx = sibling_start(s, x.parent);
    let sty = sibling_start(s, y.parent);
    lemma_rga_position_known(s, x);
    lemma_rga_position_known(s, y);
    let q = rga_position(s, x);
    lemma_skip_newer_range(s, stx, tx);
    lemma_skip_newer_range(s, sty, ty);
    let s1 = s.insert(q, x);
    let s2 = s.insert(q, y);
    lemma_sibling_start_kept(s, y.parent, q, x);
    lemma_sibling_start_kept(s, x.parent, q, y);
    lemma_rga_position_known(s1, y);
    lemma_rga_position_known(s2, x);
    crate::hlc::lemma_precedes_total(tx, ty);
    assert forall|j: int| stx <= j < q + 1 implies tx.precedes((#[trigger] s2[j]).id.timestamp) by {
        if j < q {
            assert(s2[j] == s[j]);
        }
    }
    if q < s.len() {
        assert(s2[q + 1] == s[q]);
    }
    lemma_skip_newer_is(s2, stx, tx, q + 1);
    assert forall|j: int| sty <= j < q implies ty.precedes((#[trigger] s1[j]).id.timestamp) by {
        assert(s1[j] == s[j]);
    }
    assert(s1[q] == x);
    lemma_skip_newer_is(s1, sty, ty, q);
    assert(s2.insert(q + 1, x) =~= s1.insert(q, y));
}

/// Any two concurrent inserts commute: integrating them in either order
/// gives the same elements, provided both parents are known, neither new
/// element is the other's parent, and their timestamps differ.
pub proof fn lemma_concurrent_inserts_commute(s: Seq<Element>, x: Element, y: Element)
    requires
        sibling_start(s, x.parent) >= 0,
        sibling_start(s, y.parent) >= 0,
        x.parent matches Some(p) ==> y.id != p,
        y.parent matches Some(p) ==> x.id != p,
        x.id.timestamp != y.id.timestamp,
    ensures
        rga_insert(rga_insert(s, x), y) == rga_insert(rga_insert(s, y), x),
{
    lemma_rga_position_known(s, x);
    lemma_rga_position_known(s, y);
    lemma_skip_newer_range(s, sibling_start(s, x.parent), x.id.timestamp);
    lemma_skip_newer_range(s, sibling_start(s, y.parent), y.id.timestamp);
    let qx = rga_position(s, x);
    let qy = rga_position(s, y);
    crate::hlc::lemma_precedes_total(x.id.timestamp, y.id.timestamp);
    if qx < sibling_start(s, y.parent) {
        lemma_commute_apart(s, x, y);
    } else if qy < sibling_start(s, x.parent) {
        lemma_commute_apart(s, y, x);
    } else if qx < qy {
        lemma_commute_inside(s, x, y);
    } else if qy < qx {
        lemma_commute_inside(s, y, x);
    } else if x.id.timestamp.precedes(y.id.timestamp) {
        lemma_commute_same_place(s, x, y);
    } else {
        lemma_commute_same_place(s, y, x);
    }
}

/// One operation applied to the elements, as a merge applies it: an insert
/// of an unknown identifier is integrated, a deletion marks its target.
pub open spec fn text_step(s: Seq<Element>, op: TextOp) -> Seq<Element> {
    match op {
        TextOp::Insert { id, parent, ch } => if first_match(s, text_has_id(id)) < 0 {
            rga_insert(s, Element { id, ch, deleted: false, parent })
        } else {
            s
        },
        TextOp::Delete { target } => rga_delete(s, target),
    }
}

/// The operations `ops` applied to the elements `s`, in order.
pub open spec fn text_apply_all(s: Seq<Element>, ops: Seq<TextOp>) -> Seq<Element>
    decreases ops.len(),
{
    if ops.len() == 0 {
        s
    } else {
        text_step(text_apply_all(s, ops.drop_last()), ops.last())
    }
}

/// `ops` holds an insert with identifier `x`.
pub open spec fn inserts_id(ops: Seq<TextOp>, x: OpId) -> bool {
    exists|j: int| 0 <= j < ops.len() && (#[trigger] ops[j] matches TextOp::Insert { id, .. } && id == x)
}

/// `op` can be applied to `s`: an insert's parent is known (or it has
/// none) and its identifier is new.
pub open spec fn text_ready(s: Seq<Element>, op: TextOp) -> bool {
    match op {
        TextOp::Insert { id, parent, .. } => sibling_start(s, parent) >= 0 && !text_knows(s, id),
        TextOp::Delete { .. } => true,
    }
}

/// The operations `ops` can be applied to `s` in order: each insert's
/// parent is known in `s` or inserted earlier, its identifier is new to `s`,
/// and no two inserts share an identifier.
pub open spec fn text_ready_all(s: Seq<Element>, ops: Seq<TextOp>) -> bool {
    &&& forall|i: int|
        0 <= i < ops.len() ==> (#[trigger] ops[i] matches TextOp::Insert { id, parent, .. } ==> {
            &&& !text_knows(s, id)
            &&& (parent matches Some(p) ==> text_knows(s, p) || inserts_id(ops.take(i), p))
        })
    &&& forall|i: int, j: int|
        0 <= i < j < ops.len() ==> (#[trigger] ops[i] matches TextOp::Insert { id: a, .. } ==> (
        #[trigger] ops[j] matches TextOp::Insert { id: b, .. } ==> a != b))
}

/// Two operations are concurrent: neither inserts the other's parent or
/// target, and two inserts have distinct identifiers and timestamps.
pub open spec fn text_concurrent(a: TextOp, b: TextOp) -> bool {
    match (a, b) {
        (TextOp::Insert { id: x, parent: px, .. }, TextOp::Insert { id: y, parent: py, .. }) => {
            &&& x != y
            &&& x.timestamp != y.timestamp
            &&& px != Some(y)
            &&& py != Some(x)
        },
        (TextOp::Insert { id: x, .. }, TextOp::Delete { target }) => x != target,
        (TextOp::Delete { target }, TextOp::Insert { id: y, .. }) => y != target,
        (TextOp::Delete { .. }, TextOp::Delete { .. }) => true,
    }
}

/// An identifier is known after one operation exactly when it was known
/// before or the operation inserts it.
proof fn lemma_step_knows(s: Seq<Element>, op: TextOp, x: OpId)
    ensures
        text_knows(text_step(s, op), x) == (text_knows(s, x) || (op matches TextOp::Insert { id, .. }
            && id == x)),
{
    match op {
        TextOp::Insert { id, parent, ch } => {
            lemma_merge_step_keeps((s, Seq::<TextOp>::empty()), op, x);
            if first_match(s, text_has_id(id)) < 0 {
                let e = Element { id, ch, deleted: false, parent };
                lemma_rga_position_range(s, e);
                let q = rga_position(s, e);
                let t = s.insert(q, e);
                if text_knows(t, x) && x != id {
                    let k = first_match(t, text_has_id(x));
                    lemma_nth_match_found(t, text_has_id(x), 0);
                    let k0 = if k < q {
                        k
                    } else {
                        k - 1
                    };
                    assert(k != q);
                    assert(s[k0] == t[k]);
                    lemma_first_match_prefix(s, text_has_id(x));
                }
            } else {
                lemma_merge_step_keeps((s, Seq::<TextOp>::empty()), op, id);
            }
        },
        TextOp::Delete { target } => {
            lemma_delete_keeps_ids(s, target);
            lemma_same_ids_same_first(s, rga_delete(s, target), x);
        },
    }
}

/// An identifier is known after a run of operations exactly when it was
/// known before or one of them inserts it.
proof fn lemma_apply_knows(s: Seq<Element>, ops: Seq<TextOp>, x: OpId)
    ensures
        text_knows(text_apply_all(s, ops), x) == (text_knows(s, x) || inserts_id(ops, x)),
    decreases ops.len(),
{
    if ops.len() > 0 {
        let init = ops.drop_last();
        lemma_apply_knows(s, init, x);
        lemma_step_knows(text_apply_all(s, init), ops.last(), x);
        if inserts_id(init, x) {
            let j = choose|j: int|
                0 <= j < init.len() && (#[trigger] init[j] matches TextOp::Insert { id, .. } && id == x);
            assert(ops[j] == init[j]);
        }
        if inserts_id(ops, x) {
            let j = choose|j: int|
                0 <= j < ops.len() && (#[trigger] ops[j] matches TextOp::Insert { id, .. } && id == x);
            if j < init.len() {
                assert(init[j] == ops[j]);
            }
        }
        if ops.last() matches TextOp::Insert { id, .. } && id == x {
            assert(ops[ops.len() - 1] == ops.last());
        }
    }
}

/// A known parent keeps a scan start.
proof fn lemma_knows_start(s: Seq<Element>, parent: Option<OpId>)
    ensures
        (parent matches Some(p) ==> text_knows(s, p)) ==> sibling_start(s, parent) >= 0,
{
}

/// Two ready concurrent operations commute.
proof fn lemma_step_commute(t: Seq<Element>, a: TextOp, b: TextOp)
    requires
        text_ready(t, a),
        text_ready(t, b),
        text_concurrent(a, b),
    ensures
        text_step(text_step(t, a), b) == text_step(text_step(t, b), a),
{
    match (a, b) {
        (TextOp::Insert { id: x, parent: px, ch: cx }, TextOp::Insert { id: y, parent: py, ch: cy }) => {
            let ex = Element { id: x, ch: cx, deleted: false, parent: px };
            let ey = Element { id: y, ch: cy, deleted: false, parent: py };
            lemma_step_knows(t, a, y);
            lemma_step_knows(t, b, x);
            lemma_concurrent_inserts_commute(t, ex, ey);
        },
        (TextOp::Insert { id: x, parent: px, ch: cx }, TextOp::Delete { target }) => {
            let ex = Element { id: x, ch: cx, deleted: false, parent: px };
            lemma_step_knows(t, b, x);
            lemma_insert_delete_commute(t, ex, target);
        },
        (TextOp::Delete { target }, TextOp::Insert { id: y, parent: py, ch: cy }) => {
            let ey = Element { id: y, ch: cy, deleted: false, parent: py };
            lemma_step_knows(t, a, y);
            lemma_insert_delete_commute(t, ey, target);
        },
        (TextOp::Delete { target: ta }, TextOp::Delete { target: tb }) => {
            lemma_deletes_commute(t, ta, tb);
        },
    }
}

/// The operations of a ready run are each ready when their turn comes.
proof fn lemma_ready_at(s: Seq<Element>, ops: Seq<TextOp>, i: int)
    requires
        text_ready_all(s, ops),
        0 <= i < ops.len(),
    ensures
        text_ready(text_apply_all(s, ops.take(i)), ops[i]),
{
    let t = text_apply_all(s, ops.take(i));
    if let TextOp::Insert { id, parent, .. } = ops[i] {
        lemma_apply_knows(s, ops.take(i), id);
        if inserts_id(ops.take(i), id) {
            let j = choose|j: int|
                0 <= j < ops.take(i).len() && (#[trigger] ops.take(i)[j] matches TextOp::Insert {
                    id: z,
                    ..
                } && z == id);
            assert(ops.take(i)[j] == ops[j]);
        }
        if let Some(p) = parent {
            lemma_apply_knows(s, ops.take(i), p);
        }
        lemma_knows_start(t, parent);
    }
}

/// An operation concurrent with a ready run can be moved past it.
proof fn lemma_move_past(t: Seq<Element>, ops: Seq<TextOp>, b: TextOp)
    requires
        text_ready_all(t, ops),
        text_ready(t, b),
        forall|i: int| 0 <= i < ops.len() ==> text_concurrent(#[trigger] ops[i], b),
    ensures
        text_step(text_apply_all(t, ops), b) == text_apply_all(text_step(t, b), ops),
    decreases ops.len(),
{
    if ops.len() > 0 {
        let init = ops.drop_last();
        let a = ops.last();
        let n = ops.len() - 1;
        assert(ops.take(n) =~= init);
        assert(ops[n] == a);
        // the shorter run is ready, with b still concurrent
        assert forall|i: int| 0 <= i < init.len() implies (#[trigger] init[i] matches TextOp::Insert {
            id,
            parent,
            ..
        } ==> {
            &&& !text_knows(t, id)
            &&& (parent matches Some(p) ==> text_knows(t, p) || inserts_id(init.take(i), p))
        }) by {
            assert(init[i] == ops[i]);
            assert(init.take(i) =~= ops.take(i));
        }
        assert forall|i: int, j: int|
            0 <= i < j < init.len() implies (#[trigger] init[i] matches TextOp::Insert { id: x, .. } ==> (
        #[trigger] init[j] matches TextOp::Insert { id: y, .. } ==> x != y)) by {
            assert(init[i] == ops[i] && init[j] == ops[j]);
        }
        assert forall|i: int| 0 <= i < init.len() implies text_concurrent(#[trigger] init[i], b) by {
            assert(init[i] == ops[i]);
        }
        lemma_move_past(t, init, b);
        let m = text_apply_all(t, init);
        lemma_ready_at(t, ops, n);
        assert(text_ready(m, b)) by {
            if let TextOp::Insert { id, parent, .. } = b {
                lemma_apply_knows(t, init, id);
                if inserts_id(init, id) {
                    let j = choose|j: int|
                        0 <= j < init.len() && (#[trigger] init[j] matches TextOp::Insert { id: z, .. }
                            && z == id);
                    assert(init[j] == ops[j]);
                    assert(text_concurrent(ops[j], b));
                }
                if let Some(p) = parent {
                    lemma_apply_knows(t, init, p);
                }
                lemma_knows_start(t, parent);
                lemma_knows_start(m, parent);
            }
        }
        assert(text_concurrent(a, b));
        lemma_step_commute(m, a, b);
    }
}

/// Concurrent runs of operations converge: two replicas with the same
/// elements that apply the runs `a` and `b` in either order end with the
/// same elements, provided each run can be applied from those elements and
/// every operation of one run is concurrent with every operation of the
/// other.
pub proof fn lemma_concurrent_runs_converge(s: Seq<Element>, a: Seq<TextOp>, b: Seq<TextOp>)
    requires
        text_ready_all(s, a),
        text_ready_all(s, b),
        forall|i: int, j: int|
            0 <= i < a.len() && 0 <= j < b.len() ==> text_concurrent(#[trigger] a[i], #[trigger] b[j]),
    ensures
        text_apply_all(text_apply_all(s, a), b) == text_apply_all(text_apply_all(s, b), a),
    decreases b.len(),
{
    if b.len() > 0 {
        let init = b.drop_last();
        let n = b.len() - 1;
        let op = b.last();
        assert(b.take(n) =~= init);
        assert(b[n] == op);
        assert forall|i: int| 0 <= i < init.len() implies (#[trigger] init[i] matches TextOp::Insert {
            id,
            parent,
            ..
        } ==> {
            &&& !text_knows(s, id)
            &&& (parent matches Some(p) ==> text_knows(s, p) || inserts_id(init.take(i), p))
        }) by {
            assert(init[i] == b[i]);
            assert(init.take(i) =~= b.take(i));
        }
        assert forall|i: int, j: int|
            0 <= i < j < init.len() implies (#[trigger] init[i] matches TextOp::Insert { id: x, .. } ==> (
        #[trigger] init[j] matches TextOp::Insert { id: y, .. } ==> x != y)) by {
            assert(init[i] == b[i] && init[j] == b[j]);
        }
        assert forall|i: int, j: int|
            0 <= i < a.len() && 0 <= j < init.len() implies text_concurrent(#[trigger] a[i], #[trigger] init[j]) by {
            assert(init[j] == b[j]);
        }
        lemma_concurrent_runs_converge(s, a, init);
        let s2 = text_apply_all(s, init);
        // a is ready from s2
        assert forall|i: int| 0 <= i < a.len() implies (#[trigger] a[i] matches TextOp::Insert {
            id,
            parent,
            ..
        } ==> {
            &&& !text_knows(s2, id)
            &&& (parent matches Some(p) ==> text_knows(s2, p) || inserts_id(a.take(i), p))
        }) by {
            if let TextOp::Insert { id, parent, .. } = a[i] {
                lemma_apply_knows(s, init, id);
                if inserts_id(init, id) {
                    let j = choose|j: int|
                        0 <= j < init.len() && (#[trigger] init[j] matches TextOp::Insert { id: z, .. }
                            && z == id);
                    assert(text_concurrent(a[i], init[j]));
                }
                if let Some(p) = parent {
                    lemma_apply_knows(s, init, p);
                }
            }
        }
        assert(text_ready_all(s2, a));
        // the last operation of b is ready from s2
        lemma_ready_at(s, b, n);
        assert forall|i: int| 0 <= i < a.len() implies text_concurrent(#[trigger] a[i], op) by {
            assert(text_concurrent(a[i], b[n]));
        }
        lemma_move_past(s2, a, op);
    }
}

/// The elements after a merge are those of the operations applied in order.
pub proof fn lemma_text_merge_applies(d: (Seq<Element>, Seq<TextOp>), ops: Seq<TextOp>)
    ensures
        text_merge(d, ops).0 == text_apply_all(d.0, ops),
    decreases ops.len(),
{
    if ops.len() > 0 {
        lemma_text_merge_applies(d, ops.drop_last());
        let m = text_merge(d, ops.drop_last());
        if let TextOp::Delete { target } = ops.last() {
            let k = first_match(m.0, text_has_id(target));
            if k >= 0 {
                lemma_nth_match_found(m.0, text_has_id(target), 0);
                if m.0[k].deleted {
                    assert(text_tombstone(m.0[k]) == m.0[k]);
                    assert(m.0.update(k, text_tombstone(m.0[k])) =~= m.0);
                }
            }
        }
    }
}

/// Applying a run of operations one after another is applying their concatenation.
proof fn lemma_apply_concat(s: Seq<Element>, p: Seq<TextOp>, q: Seq<TextOp>)
    ensures
        text_apply_all(s, p + q) == text_apply_all(text_apply_all(s, p), q),
    decreases q.len(),
{
    if q.len() == 0 {
        assert(p + q =~= p);
    } else {
        lemma_apply_concat(s, p, q.drop_last());
        assert((p + q).drop_last() =~= p + q.drop_last());
        assert((p + q).last() == q.last());
    }
}

/// Applying operations forgets no identifier and undeletes nothing.
proof fn lemma_apply_keeps(s: Seq<Element>, ops: Seq<TextOp>, x: OpId)
    ensures
        text_knows(s, x) ==> text_knows(text_apply_all(s, ops), x),
        text_deleted(s, x) ==> text_deleted(text_apply_all(s, ops), x),
    decreases ops.len(),
{
    if ops.len() > 0 {
        let init = ops.drop_last();
        lemma_apply_keeps(s, init, x);
        let m = text_apply_all(s, init);
        let d = (m, Seq::<TextOp>::empty());
        lemma_merge_step_keeps(d, ops.last(), x);
        let one = seq![ops.last()];
        lemma_text_merge_applies(d, one);
        assert(one.drop_last() =~= Seq::<TextOp>::empty());
        assert(one.last() == ops.last());
        assert(text_merge(d, one.drop_last()) == d);
        assert(text_merge(d, one) == text_merge_step(d, ops.last()));
        assert(text_apply_all(m, one.drop_last()) == m);
        assert(text_apply_all(m, one) == text_step(m, ops.last()));
        assert(text_apply_all(s, ops) == text_step(m, ops.last()));
    }
}

/// Two replicas forked from elements `e0` with log `l0`, which reflect each
/// other (every insert of the log is known, every target deleted), that
/// then apply concurrent runs `a` and `b` of their own, converge when each
/// merges the other's log: their elements are equal.
pub proof fn lemma_forks_converge(
    e0: Seq<Element>,
    l0: Seq<TextOp>,
    a: Seq<TextOp>,
    b: Seq<TextOp>,
)
    requires
        log_reflected(e0, l0),
        text_ready_all(e0, a),
        text_ready_all(e0, b),
        forall|i: int, j: int|
            0 <= i < a.len() && 0 <= j < b.len() ==> text_concurrent(#[trigger] a[i], #[trigger] b[j]),
    ensures
        text_merge((text_apply_all(e0, a), l0 + a), l0 + b).0 == text_merge(
            (text_apply_all(e0, b), l0 + b),
            l0 + a,
        ).0,
{
    let xa = text_apply_all(e0, a);
    let xb = text_apply_all(e0, b);
    assert forall|j: int|
        0 <= j < l0.len() implies (#[trigger] l0[j] matches TextOp::Insert { id, .. } ==> text_knows(
        xa,
        id,
    )) && (l0[j] matches TextOp::Delete { target } ==> text_deleted(xa, target)) && (l0[j] matches TextOp::Insert {
        id,
        ..
    } ==> text_knows(xb, id)) && (l0[j] matches TextOp::Delete { target } ==> text_deleted(xb, target)) by {
        match l0[j] {
            TextOp::Insert { id, .. } => {
                lemma_apply_keeps(e0, a, id);
                lemma_apply_keeps(e0, b, id);
            },
            TextOp::Delete { target } => {
                lemma_apply_keeps(e0, a, target);
                lemma_apply_keeps(e0, b, target);
            },
        }
    }
    lemma_merge_settled((xa, l0 + a), l0);
    lemma_merge_settled((xb, l0 + b), l0);
    lemma_text_merge_applies((xa, l0 + a), l0);
    lemma_text_merge_applies((xb, l0 + b), l0);
    lemma_text_merge_applies((xa, l0 + a), l0 + b);
    lemma_text_merge_applies((xb, l0 + b), l0 + a);
    lemma_apply_concat(xa, l0, b);
    lemma_apply_concat(xb, l0, a);
    lemma_concurrent_runs_converge(e0, a, b);
}

/// A merge only appends to the log: the elements it leaves do not depend
/// on the log it starts from, and the operations it logs are appended to it.
proof fn lemma_merge_log_split(s: Seq<Element>, log: Seq<TextOp>, ops: Seq<TextOp>)
    ensures
        text_merge((s, log), ops).0 == text_merge((s, Seq::<TextOp>::empty()), ops).0,
        text_merge((s, log), ops).1 == log + text_merge((s, Seq::<TextOp>::empty()), ops).1,
    decreases ops.len(),
{
    let e = Seq::<TextOp>::empty();
    if ops.len() == 0 {
        assert(log + e =~= log);
    } else {
        lemma_merge_log_split(s, log, ops.drop_last());
        let m = text_merge((s, e), ops.drop_last());
        let op = ops.last();
        assert((log + m.1).push(op) =~= log + m.1.push(op));
    }
}

/// Every operation a merge logs is reflected in the elements it leaves: an
/// insert's identifier is known, a deletion's target is deleted.
proof fn lemma_merge_log_settled(s: Seq<Element>, ops: Seq<TextOp>)
    ensures
        ({
            let m = text_merge((s, Seq::<TextOp>::empty()), ops);
            &&& forall|j: int|
                0 <= j < m.1.len() ==> (#[trigger] m.1[j] matches TextOp::Insert { id, .. } ==> text_knows(
                    m.0,
                    id,
                ))
            &&& forall|j: int|
                0 <= j < m.1.len() ==> (#[trigger] m.1[j] matches TextOp::Delete { target } ==> text_deleted(
                    m.0,
                    target,
                ))
        }),
    decreases ops.len(),
{
    let e = Seq::<TextOp>::empty();
    if ops.len() > 0 {
        lemma_merge_log_settled(s, ops.drop_last());
        let m0 = text_merge((s, e), ops.drop_last());
        let op = ops.last();
        let m = text_merge_step(m0, op);
        assert(m == text_merge((s, e), ops));
        assert forall|j: int| 0 <= j < m.1.len() implies (#[trigger] m.1[j] matches TextOp::Insert {
            id,
            ..
        } ==> text_knows(m.0, id)) && (m.1[j] matches TextOp::Delete { target } ==> text_deleted(
            m.0,
            target,
        )) by {
            if j < m0.1.len() {
                assert(m.1[j] == m0.1[j]);
                match m0.1[j] {
                    TextOp::Insert { id, .. } => lemma_merge_step_keeps(m0, op, id),
                    TextOp::Delete { target } => lemma_merge_step_keeps(m0, op, target),
                }
            } else {
                assert(m.1[j] == op);
                match op {
                    TextOp::Insert { id, .. } => lemma_merge_step_keeps(m0, op, id),
                    TextOp::Delete { target } => lemma_merge_step_keeps(m0, op, target),
                }
            }
        }
    }
}

/// Two forks converge when they merge in turn: after the replica with
/// the run `a` merges the other's log, the replica with the run `b` merges
/// the log that results, and ends with the same elements. The forks start
/// from elements `e0` with log `l0` that reflect each other, and the runs
/// are ready and concurrent, as for `lemma_forks_converge`.
pub proof fn lemma_forks_converge_in_turn(
    e0: Seq<Element>,
    l0: Seq<TextOp>,
    a: Seq<TextOp>,
    b: Seq<TextOp>,
)
    requires
        log_reflected(e0, l0),
        text_ready_all(e0, a),
        text_ready_all(e0, b),
        forall|i: int, j: int|
            0 <= i < a.len() && 0 <= j < b.len() ==> text_concurrent(#[trigger] a[i], #[trigger] b[j]),
    ensures
        ({
            let first = text_merge((text_apply_all(e0, a), l0 + a), l0 + b);
            text_merge((text_apply_all(e0, b), l0 + b), first.1).0 == first.0
        }),
{
    let e = Seq::<TextOp>::empty();
    let xa = text_apply_all(e0, a);
    let xb = text_apply_all(e0, b);
    let first = text_merge((xa, l0 + a), l0 + b);
    // the elements of the first merge: b applied after a
    assert forall|j: int|
        0 <= j < l0.len() implies (#[trigger] l0[j] matches TextOp::Insert { id, .. } ==> text_knows(
        xa,
        id,
    )) && (l0[j] matches TextOp::Delete { target } ==> text_deleted(xa, target)) && (l0[j] matches TextOp::Insert {
        id,
        ..
    } ==> text_knows(xb, id)) && (l0[j] matches TextOp::Delete { target } ==> text_deleted(xb, target)) by {
        match l0[j] {
            TextOp::Insert { id, .. } => {
                lemma_apply_keeps(e0, a, id);
                lemma_apply_keeps(e0, b, id);
            },
            TextOp::Delete { target } => {
                lemma_apply_keeps(e0, a, target);
                lemma_apply_keeps(e0, b, target);
            },
        }
    }
    lemma_merge_settled((xa, l0 + a), l0);
    lemma_merge_settled((xb, l0 + b), l0);
    lemma_text_merge_applies((xa, l0 + a), l0);
    lemma_text_merge_applies((xb, l0 + b), l0);
    lemma_text_merge_applies((xa, l0 + a), l0 + b);
    lemma_apply_concat(xa, l0, b);
    let y = first.0;
    assert(y == text_apply_all(xa, b));
    // its log: l0, a, then what the merge applied
    lemma_merge_log_split(xa, l0 + a, l0 + b);
    let r = text_merge((xa, e), l0 + b).1;
    assert(first.1 == (l0 + a) + r);
    lemma_merge_log_settled(xa, l0 + b);
    lemma_merge_log_split(xa, e, l0 + b);
    // the second merge: l0 changes nothing, then a, then r changes nothing
    lemma_text_merge_applies((xb, l0 + b), first.1);
    assert((l0 + a) + r =~= l0 + (a + r));
    lemma_apply_concat(xb, l0, a + r);
    lemma_apply_concat(xb, a, r);
    lemma_concurrent_runs_converge(e0, a, b);
    let z = text_apply_all(xb, a);
    assert(z == y);
    lemma_merge_settled((z, e), r);
    lemma_text_merge_applies((z, e), r);
}

/// The log is reflected in the elements: every insert's identifier is
/// known, every deletion's target is deleted.
pub open spec fn log_reflected(s: Seq<Element>, log: Seq<TextOp>) -> bool {
    &&& forall|j: int|
        0 <= j < log.len() ==> (#[trigger] log[j] matches TextOp::Insert { id, .. } ==> text_knows(s, id))
    &&& forall|j: int|
        0 <= j < log.len() ==> (#[trigger] log[j] matches TextOp::Delete { target } ==> text_deleted(
            s,
            target,
        ))
}

/// One operation applied: known identifiers stay known, deleted targets stay
/// deleted, an insert's identifier becomes known, and a known target is
/// deleted.
proof fn lemma_step_keeps(s: Seq<Element>, op: TextOp, x: OpId)
    ensures
        text_knows(s, x) ==> text_knows(text_step(s, op), x),
        text_deleted(s, x) ==> text_deleted(text_step(s, op), x),
        op matches TextOp::Insert { id, .. } ==> text_knows(text_step(s, op), id),
        op matches TextOp::Delete { target } ==> (text_knows(s, target) ==> text_deleted(
            text_step(s, op),
            target,
        )),
{
    let d = (s, Seq::<TextOp>::empty());
    let one = seq![op];
    lemma_text_merge_applies(d, one);
    assert(one.drop_last() =~= Seq::<TextOp>::empty());
    assert(one.last() == op);
    assert(text_merge(d, one.drop_last()) == d);
    assert(text_apply_all(s, one.drop_last()) == s);
    assert(text_apply_all(s, one) == text_step(s, op));
    lemma_merge_step_keeps(d, op, x);
    match op {
        TextOp::Insert { id, .. } => lemma_merge_step_keeps(d, op, id),
        TextOp::Delete { target } => lemma_merge_step_keeps(d, op, target),
    }
}

/// Applying and logging an operation keeps the log reflected, when a
/// deletion targets a known character.
proof fn lemma_reflected_step(s: Seq<Element>, log: Seq<TextOp>, op: TextOp)
    requires
        log_reflected(s, log),
        op matches TextOp::Delete { target } ==> text_knows(s, target),
    ensures
        log_reflected(text_step(s, op), log.push(op)),
{
    let n = text_step(s, op);
    let l = log.push(op);
    assert forall|j: int| 0 <= j < l.len() implies (#[trigger] l[j] matches TextOp::Insert { id, .. }
        ==> text_knows(n, id)) && (l[j] matches TextOp::Delete { target } ==> text_deleted(n, target)) by {
        if j < log.len() {
            assert(l[j] == log[j]);
            match log[j] {
                TextOp::Insert { id, .. } => lemma_step_keeps(s, op, id),
                TextOp::Delete { target } => lemma_step_keeps(s, op, target),
            }
        } else {
            assert(l[j] == op);
            match op {
                TextOp::Insert { id, .. } => lemma_step_keeps(s, op, id),
                TextOp::Delete { target } => lemma_step_keeps(s, op, target),
            }
        }
    }
}

/// A merge keeps the log reflected.
proof fn lemma_reflected_merge(s: Seq<Element>, log: Seq<TextOp>, ops: Seq<TextOp>)
    requires
        log_reflected(s, log),
    ensures
        log_reflected(text_merge((s, log), ops).0, text_merge((s, log), ops).1),
{
    let e = Seq::<TextOp>::empty();
    lemma_merge_log_split(s, log, ops);
    lemma_merge_log_settled(s, ops);
    lemma_text_merge_applies((s, e), ops);
    let m = text_merge((s, log), ops);
    let r = text_merge((s, e), ops).1;
    assert forall|j: int| 0 <= j < m.1.len() implies (#[trigger] m.1[j] matches TextOp::Insert { id, .. }
        ==> text_knows(m.0, id)) && (m.1[j] matches TextOp::Delete { target } ==> text_deleted(
        m.0,
        target,
    )) by {
        if j < log.len() {
            assert(m.1[j] == log[j]);
            match log[j] {
                TextOp::Insert { id, .. } => lemma_apply_keeps(s, ops, id),
                TextOp::Delete { target } => lemma_apply_keeps(s, ops, target),
            }
        } else {
            assert(m.1[j] == r[j - log.len()]);
        }
    }
}

/// A run of operations that node `n` issued from the elements `s`, one after
/// another: each can be applied when its turn comes, each deletion targets a
/// character known at its turn, and each insert is stamped by `n`.
pub open spec fn local_run(s: Seq<Element>, ops: Seq<TextOp>, n: u128) -> bool {
    &&& text_ready_all(s, ops)
    &&& deletes_follow_inserts(s, ops)
    &&& forall|i: int|
        0 <= i < ops.len() ==> (#[trigger] ops[i] matches TextOp::Insert { id, .. } ==> id.node_id == n
            && id.timestamp.node_id == n)
}

/// A local run grows by one operation that node `n` issues from the
/// elements the run has reached; those elements are the run's, one step on.
pub proof fn lemma_local_run_push(s: Seq<Element>, ops: Seq<TextOp>, n: u128, op: TextOp)
    requires
        local_run(s, ops, n),
        text_ready(text_apply_all(s, ops), op),
        op matches TextOp::Insert { id, .. } ==> id.node_id == n && id.timestamp.node_id == n,
        op matches TextOp::Delete { target } ==> text_knows(text_apply_all(s, ops), target),
    ensures
        local_run(s, ops.push(op), n),
        text_apply_all(s, ops.push(op)) == text_step(text_apply_all(s, ops), op),
{
    let l = ops.push(op);
    let m = ops.len() as int;
    let t = text_apply_all(s, ops);
    assert(l.drop_last() =~= ops);
    assert(l.take(m) =~= ops);
    assert forall|i: int| 0 <= i < l.len() implies (#[trigger] l[i] matches TextOp::Insert {
        id,
        parent,
        ..
    } ==> {
        &&& !text_knows(s, id)
        &&& (parent matches Some(p) ==> text_knows(s, p) || inserts_id(l.take(i), p))
    }) by {
        if i < m {
            assert(l[i] == ops[i]);
            assert(l.take(i) =~= ops.take(i));
        } else if let TextOp::Insert { id, parent, .. } = op {
            lemma_apply_knows(s, ops, id);
            if let Some(p) = parent {
                lemma_apply_knows(s, ops, p);
            }
        }
    }
    assert forall|i: int, j: int|
        0 <= i < j < l.len() implies (#[trigger] l[i] matches TextOp::Insert { id: a, .. } ==> (
    #[trigger] l[j] matches TextOp::Insert { id: b, .. } ==> a != b)) by {
        assert(l[i] == ops[i]);
        if j < m {
            assert(l[j] == ops[j]);
        } else if let TextOp::Insert { id: a, .. } = ops[i] {
            if let TextOp::Insert { id: b, .. } = op {
                lemma_apply_knows(s, ops, b);
                assert(ops[i] matches TextOp::Insert { id, .. } && id == b ==> inserts_id(ops, b));
            }
        }
    }
    assert forall|j: int| 0 <= j < l.len() implies (#[trigger] l[j] matches TextOp::Delete { target }
        ==> text_knows(s, target) || exists|i: int|
        0 <= i < j && (#[trigger] l[i] matches TextOp::Insert { id, .. } && id == target)) by {
        if j < m {
            assert(l[j] == ops[j]);
            if let TextOp::Delete { target } = ops[j] {
                if !text_knows(s, target) {
                    let i = choose|i: int|
                        0 <= i < j && (#[trigger] ops[i] matches TextOp::Insert { id, .. } && id == target);
                    assert(l[i] == ops[i]);
                }
            }
        } else if let TextOp::Delete { target } = op {
            lemma_apply_knows(s, ops, target);
            if !text_knows(s, target) {
                let i = choose|i: int|
                    0 <= i < ops.len() && (#[trigger] ops[i] matches TextOp::Insert { id, .. } && id == target);
                assert(l[i] == ops[i]);
            }
        }
    }
    assert forall|i: int| 0 <= i < l.len() implies (#[trigger] l[i] matches TextOp::Insert { id, .. }
        ==> id.node_id == n && id.timestamp.node_id == n) by {
        if i < m {
            assert(l[i] == ops[i]);
        }
    }
}

/// Local runs of two different nodes from the same elements are
/// concurrent: every operation of one is concurrent with every operation
/// of the other.
pub proof fn lemma_local_runs_concurrent(
    s: Seq<Element>,
    a: Seq<TextOp>,
    b: Seq<TextOp>,
    na: u128,
    nb: u128,
)
    requires
        local_run(s, a, na),
        local_run(s, b, nb),
        na != nb,
    ensures
        forall|i: int, j: int|
            0 <= i < a.len() && 0 <= j < b.len() ==> text_concurrent(#[trigger] a[i], #[trigger] b[j]),
{
    assert forall|i: int, j: int| 0 <= i < a.len() && 0 <= j < b.len() implies text_concurrent(
        #[trigger] a[i],
        #[trigger] b[j],
    ) by {
        lemma_local_ops_apart(s, a, b, na, nb, i, j);
        lemma_local_ops_apart(s, b, a, nb, na, j, i);
    }
}

/// An operation of a local run of node `na` and one of a local run of
/// another node `nb` from the same elements: the first's parent, or the
/// target of a deletion, is not what the second inserts.
proof fn lemma_local_ops_apart(
    s: Seq<Element>,
    a: Seq<TextOp>,
    b: Seq<TextOp>,
    na: u128,
    nb: u128,
    i: int,
    j: int,
)
    requires
        local_run(s, a, na),
        local_run(s, b, nb),
        na != nb,
        0 <= i < a.len(),
        0 <= j < b.len(),
    ensures
        b[j] matches TextOp::Insert { id: y, .. } ==> {
            &&& (a[i] matches TextOp::Insert { id: x, parent: px, .. } ==> x != y && x.timestamp
                != y.timestamp && px != Some(y))
            &&& (a[i] matches TextOp::Delete { target } ==> target != y)
        },
{
    if let TextOp::Insert { id: y, .. } = b[j] {
        assert(!text_knows(s, y));
        assert(y.node_id == nb);
        match a[i] {
            TextOp::Insert { id: x, parent: px, .. } => {
                if px == Some(y) {
                    assert(text_knows(s, y) || inserts_id(a.take(i), y));
                    let k = choose|k: int|
                        0 <= k < a.take(i).len() && (#[trigger] a.take(i)[k] matches TextOp::Insert {
                            id,
                            ..
                        } && id == y);
                    assert(a.take(i)[k] == a[k]);
                }
            },
            TextOp::Delete { target } => {
                if target == y {
                    let k = choose|k: int|
                        0 <= k < i && (#[trigger] a[k] matches TextOp::Insert { id, .. } && id == target);
                }
            },
        }
    }
}

/// The log accounts for the elements `s`: every element was inserted by an
/// operation of the log, and every deletion of the log follows the insert
/// of its target.
pub open spec fn log_covers(s: Seq<Element>, log: Seq<TextOp>) -> bool {
    &&& forall|x: OpId| #[trigger] text_knows(s, x) ==> inserts_id(log, x)
    &&& deletes_follow_inserts(Seq::<Element>::empty(), log)
}

/// Applying and logging an operation keeps the log covering the elements,
/// when a deletion targets a known character.
proof fn lemma_covers_step(s: Seq<Element>, log: Seq<TextOp>, op: TextOp)
    requires
        log_covers(s, log),
        op matches TextOp::Delete { target } ==> text_knows(s, target),
    ensures
        log_covers(text_step(s, op), log.push(op)),
{
    let n = text_step(s, op);
    let l = log.push(op);
    let m = log.len() as int;
    assert(l[m] == op);
    assert forall|x: OpId| #[trigger] text_knows(n, x) implies inserts_id(l, x) by {
        lemma_step_knows(s, op, x);
        if text_knows(s, x) {
            let j = choose|j: int|
                0 <= j < log.len() && (#[trigger] log[j] matches TextOp::Insert { id, .. } && id == x);
            assert(l[j] == log[j]);
        }
    }
    assert forall|j: int| 0 <= j < l.len() implies (#[trigger] l[j] matches TextOp::Delete { target }
        ==> text_knows(Seq::<Element>::empty(), target) || exists|i: int|
        0 <= i < j && (#[trigger] l[i] matches TextOp::Insert { id, .. } && id == target)) by {
        if let TextOp::Delete { target } = l[j] {
            let i = if j < m {
                assert(l[j] == log[j]);
                if text_knows(Seq::<Element>::empty(), target) {
                    lemma_nth_match_found(Seq::<Element>::empty(), text_has_id(target), 0);
                }
                choose|i: int| 0 <= i < j && (#[trigger] log[i] matches TextOp::Insert { id, .. } && id == target)
            } else {
                choose|i: int|
                    0 <= i < log.len() && (#[trigger] log[i] matches TextOp::Insert { id, .. } && id == target)
            };
            assert(l[i] == log[i]);
        }
    }
}

/// A merge keeps the log covering the elements.
proof fn lemma_covers_merge(s: Seq<Element>, log: Seq<TextOp>, ops: Seq<TextOp>)
    requires
        log_covers(s, log),
    ensures
        log_covers(text_merge((s, log), ops).0, text_merge((s, log), ops).1),
    decreases ops.len(),
{
    if ops.len() > 0 {
        lemma_covers_merge(s, log, ops.drop_last());
        let m = text_merge((s, log), ops.drop_last());
        let op = ops.last();
        if text_merge_step(m, op) != m {
            if let TextOp::Delete { target } = op {
                lemma_nth_match_found(m.0, text_has_id(target), 0);
            }
            assert(text_merge_step(m, op) == (text_step(m.0, op), m.1.push(op)));
            lemma_covers_step(m.0, m.1, op);
        }
    }
}

/// A log that covers some elements can be merged into any replica: each of
/// its deletions follows the insert of its target.
pub proof fn lemma_covering_log_deletes_follow(s: Seq<Element>, log: Seq<TextOp>, t: Seq<Element>)
    requires
        log_covers(s, log),
    ensures
        deletes_follow_inserts(t, log),
{
    assert forall|j: int| 0 <= j < log.len() implies (#[trigger] log[j] matches TextOp::Delete { target }
        ==> text_knows(t, target) || exists|i: int|
        0 <= i < j && (#[trigger] log[i] matches TextOp::Insert { id, .. } && id == target)) by {
        if let TextOp::Delete { target } = log[j] {
            if text_knows(Seq::<Element>::empty(), target) {
                lemma_nth_match_found(Seq::<Element>::empty(), text_has_id(target), 0);
            }
        }
    }
}

/// Concurrent local edits converge: two replicas forked from elements `e0`
/// with log `l0` that reflect each other, whose distinct nodes `na` and `nb`
/// then edit locally (the runs `a` and `b`), end with the same elements
/// whether each merges the other's log or they merge in turn.
pub proof fn lemma_local_edits_converge(
    e0: Seq<Element>,
    l0: Seq<TextOp>,
    a: Seq<TextOp>,
    b: Seq<TextOp>,
    na: u128,
    nb: u128,
)
    requires
        log_reflected(e0, l0),
        local_run(e0, a, na),
        local_run(e0, b, nb),
        na != nb,
    ensures
        text_merge((text_apply_all(e0, a), l0 + a), l0 + b).0 == text_merge(
            (text_apply_all(e0, b), l0 + b),
            l0 + a,
        ).0,
        ({
            let first = text_merge((text_apply_all(e0, a), l0 + a), l0 + b);
            text_merge((text_apply_all(e0, b), l0 + b), first.1).0 == first.0
        }),
{
    lemma_local_runs_concurrent(e0, a, b, na, nb);
    lemma_forks_converge(e0, l0, a, b);
    lemma_forks_converge_in_turn(e0, l0, a, b);
}

} // verus!
