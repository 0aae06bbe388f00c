use std::cmp::Ordering;
use vstd::prelude::*;
use vstd::std_specs::cmp::PartialOrdSpecImpl;

verus! {

/// Hybrid Logical Clock for causal ordering in distributed systems.
///
/// Timestamps are ordered lexicographically by `(physical, logical, node_id)`;
/// the node identifier breaks ties deterministically.
#[derive(Clone, Copy, Debug, PartialEq, Eq, Structural, Hash, Ord)]
pub struct HLC {
    /// Physical time in milliseconds since UNIX epoch.
    pub physical: u64,
    /// Logical counter for ordering within the same physical time.
    pub logical: u64,
    /// Node identifier for deterministic tie-breaking.
    pub node_id: u128,
}

/// `std::time::SystemTime`, carried through as an opaque value.
#[verifier::external_type_specification]
#[verifier::external_body]
pub struct ExSystemTime(std::time::SystemTime);

/// Reads the system clock with `std::time::SystemTime::now`. Nothing is
/// promised of the reading: it is the time.
#[verifier::external_body]
fn system_now() -> std::time::SystemTime {
    std::time::SystemTime::now()
}

/// The time from the UNIX epoch to `t`, with `SystemTime::duration_since`;
/// `None` where that call returns its error (`t` before the epoch).
/// Nothing is promised of the value: it depends on the reading.
#[verifier::external_body]
fn since_epoch(t: &std::time::SystemTime) -> Option<std::time::Duration> {
    t.duration_since(std::time::UNIX_EPOCH).ok()
}

/// The whole milliseconds of `d`, with `Duration::as_millis`. Nothing is
/// promised of the value: `Duration` is opaque here.
#[verifier::external_body]
fn duration_millis(d: &std::time::Duration) -> u128 {
    d.as_millis()
}

impl HLC {
    /// `self` comes strictly before `other` in timestamp order.
    pub open spec fn precedes(self, other: HLC) -> bool {
        ||| self.physical < other.physical
        ||| (self.physical == other.physical && self.logical < other.logical)
        ||| (self.physical == other.physical && self.logical == other.logical && self.node_id
            < other.node_id)
    }

    /// `self` comes before `other` or equals it.
    pub open spec fn precedes_or_eq(self, other: HLC) -> bool {
        self.precedes(other) || self == other
    }

    /// `self` is strictly later than `other` on physical time and logical
    /// counter alone, whatever the node identifiers.
    pub open spec fn dominates(self, other: HLC) -> bool {
        ||| other.physical < self.physical
        ||| (other.physical == self.physical && other.logical < self.logical)
    }

    /// The clock state after issuing a timestamp when the wall clock reads `wall`.
    pub open spec fn ticked(self, wall: u64) -> HLC {
        if wall > self.physical {
            HLC { physical: wall, logical: 0, node_id: self.node_id }
        } else {
            HLC { logical: (self.logical + 1) as u64, ..self }
        }
    }

    /// Issuing a timestamp at wall time `wall` does not overflow the logical counter.
    pub open spec fn can_tick(self, wall: u64) -> bool {
        wall > self.physical || self.logical < u64::MAX
    }

    /// The clock state after observing `remote` when the wall clock reads `wall`.
    pub open spec fn received(self, remote: HLC, wall: u64) -> HLC {
        if wall > self.physical && wall > remote.physical {
            HLC { physical: wall, logical: 0, node_id: self.node_id }
        } else if self.physical == remote.physical {
            let m = if self.logical >= remote.logical {
                self.logical
            } else {
                remote.logical
            };
            HLC { logical: (m + 1) as u64, ..self }
        } else if remote.physical > self.physical {
            HLC { physical: remote.physical, logical: (remote.logical + 1) as u64, ..self }
        } else {
            HLC { logical: (self.logical + 1) as u64, ..self }
        }
    }

    /// Observing `remote` at wall time `wall` does not overflow the logical counter.
    pub open spec fn can_receive(self, remote: HLC, wall: u64) -> bool {
        ||| (wall > self.physical && wall > remote.physical)
        ||| (self.physical == remote.physical && self.logical < u64::MAX && remote.logical
            < u64::MAX)
        ||| (remote.physical > self.physical && remote.logical < u64::MAX)
        ||| (remote.physical < self.physical && self.logical < u64::MAX)
    }

    /// Reads the wall clock: milliseconds since the UNIX epoch (0 if the
    /// system clock is set before the epoch), truncated to 64 bits. The
    /// `_at` operations take such a reading as their argument.
    pub fn wall_time() -> u64 {
        let t = system_now();
        match since_epoch(&t) {
            Some(d) => {
                let ms = duration_millis(&d);
                ms as u64
            },
            None => 0,
        }
    }

    /// A clock for node `node_id`, started at wall time `wall`.
    pub fn new_at(node_id: u128, wall: u64) -> (clock: HLC)
        ensures
            clock == (HLC { physical: wall, logical: 0, node_id }),
    {
        HLC { physical: wall, logical: 0, node_id }
    }

    /// A clock for node `node_id`, started at the current wall time.
    pub fn new(node_id: u128) -> (clock: HLC)
        ensures
            clock.logical == 0,
            clock.node_id == node_id,
    {
        Self::new_at(node_id, Self::wall_time())
    }

    /// Issue a new timestamp, the wall clock reading `wall`.
    pub fn now_at(&mut self, wall: u64) -> (stamp: HLC)
        requires
            old(self).can_tick(wall),
        ensures
            *final(self) == old(self).ticked(wall),
            stamp == *final(self),
            old(self).precedes(stamp),
    {
        if wall > self.physical {
            self.physical = wall;
            self.logical = 0;
        } else {
            self.logical = self.logical + 1;
        }
        *self
    }

    /// Issue a new timestamp.
    pub fn now(&mut self) -> (stamp: HLC)
        requires
            old(self).logical < u64::MAX,
        ensures
            exists|wall: u64| *final(self) == #[trigger] old(self).ticked(wall),
            stamp == *final(self),
            old(self).precedes(stamp),
            stamp.node_id == old(self).node_id,
    {
        let wall = Self::wall_time();
        self.now_at(wall)
    }

    /// Update the local clock upon receiving `remote`, the wall clock reading `wall`.
    pub fn receive_at(&mut self, remote: &HLC, wall: u64)
        requires
            old(self).can_receive(*remote, wall),
        ensures
            *final(self) == old(self).received(*remote, wall),
            old(self).precedes(*final(self)),
            final(self).dominates(*remote),
    {
        if wall > self.physical && wall > remote.physical {
            self.physical = wall;
            self.logical = 0;
        } else if self.physical == remote.physical {
            let m = if self.logical >= remote.logical {
                self.logical
            } else {
                remote.logical
            };
            self.logical = m + 1;
        } else if remote.physical > self.physical {
            self.physical = remote.physical;
            self.logical = remote.logical + 1;
        } else {
            self.logical = self.logical + 1;
        }
    }

    /// Update the local clock upon receiving a remote timestamp.
    pub fn receive(&mut self, remote: &HLC)
        requires
            forall|wall: u64| old(self).can_receive(*remote, wall),
        ensures
            exists|wall: u64| *final(self) == #[trigger] old(self).received(*remote, wall),
            old(self).precedes(*final(self)),
            final(self).node_id == old(self).node_id,
    {
        let wall = Self::wall_time();
        self.receive_at(remote, wall);
    }

    /// Whether `self` is strictly later than `other` in timestamp order.
    pub fn later_than(&self, other: &HLC) -> (later: bool)
        ensures
            later == other.precedes(*self),
    {
        self.physical > other.physical || (self.physical == other.physical && (self.logical
            > other.logical || (self.logical == other.logical && self.node_id > other.node_id)))
    }
}

impl PartialOrd for HLC {
    fn partial_cmp(&self, other: &HLC) -> (r: Option<Ordering>) {
        if other.later_than(self) {
            Some(Ordering::Less)
        } else if self.later_than(other) {
            Some(Ordering::Greater)
        } else {
            Some(Ordering::Equal)
        }
    }
}

impl PartialOrdSpecImpl for HLC {
    open spec fn obeys_partial_cmp_spec() -> bool {
        true
    }

    open spec fn partial_cmp_spec(&self, other: &HLC) -> Option<Ordering> {
        if self.precedes(*other) {
            Some(Ordering::Less)
        } else if other.precedes(*self) {
            Some(Ordering::Greater)
        } else {
            Some(Ordering::Equal)
        }
    }
}

/// Timestamp order is irreflexive.
pub proof fn lemma_precedes_irreflexive(a: HLC)
    ensures
        !a.precedes(a),
{
}

/// Timestamp order is transitive.
pub proof fn lemma_precedes_transitive(a: HLC, b: HLC, c: HLC)
    requires
        a.precedes(b),
        b.precedes(c),
    ensures
        a.precedes(c),
{
}

/// Timestamp order is total: two distinct timestamps are ordered one way,
/// and never both ways.
pub proof fn lemma_precedes_total(a: HLC, b: HLC)
    ensures
        a != b ==> (a.precedes(b) || b.precedes(a)),
        !(a.precedes(b) && b.precedes(a)),
{
}

/// Two timestamps that agree on physical time and logical counter are ordered
/// by node identifier.
pub proof fn lemma_node_id_breaks_ties(a: HLC, b: HLC)
    requires
        a.physical == b.physical,
        a.logical == b.logical,
        a.node_id < b.node_id,
    ensures
        a.precedes(b),
{
}

/// Each timestamp a clock issues is strictly later than every timestamp it
/// issued before: `t1` issued from `c0`, `t2` from `c1`, where the clock only
/// moved forward in between.
pub proof fn lemma_issued_timestamps_increase(c0: HLC, w1: u64, c1: HLC, w2: u64)
    requires
        c0.can_tick(w1),
        c0.ticked(w1).precedes_or_eq(c1),
        c1.can_tick(w2),
    ensures
        c0.ticked(w1).precedes(c1.ticked(w2)),
{
}

/// After observing a remote timestamp, the local clock is strictly later than
/// both its former state and the remote timestamp in (physical, logical) order.
pub proof fn lemma_receive_advances(local: HLC, remote: HLC, wall: u64)
    requires
        local.can_receive(remote, wall),
    ensures
        local.precedes(local.received(remote, wall)),
        local.received(remote, wall).dominates(remote),
        local.received(remote, wall).dominates(local),
{
}

/// Issuing a timestamp raises the logical counter by at most one.
pub proof fn lemma_tick_logical_bound(c: HLC, wall: u64)
    requires
        c.can_tick(wall),
    ensures
        c.ticked(wall).logical <= c.logical + 1,
        c.ticked(wall).node_id == c.node_id,
{
}

/// Observing a remote timestamp leaves the logical counter at most one above
/// the larger of the two counters.
pub proof fn lemma_receive_logical_bound(c: HLC, remote: HLC, wall: u64)
    requires
        c.can_receive(remote, wall),
    ensures
        c.received(remote, wall).logical <= c.logical + 1 || c.received(remote, wall).logical
            <= remote.logical + 1,
        c.received(remote, wall).node_id == c.node_id,
{
}

/// A timestamp that dominates another on physical time and logical counter
/// comes after it.
pub proof fn lemma_dominates_precedes(a: HLC, b: HLC)
    requires
        a.dominates(b),
    ensures
        b.precedes(a),
{
}

/// Timestamp order with equality is transitive.
pub proof fn lemma_precedes_or_eq_transitive(a: HLC, b: HLC, c: HLC)
    requires
        a.precedes_or_eq(b),
        b.precedes_or_eq(c),
    ensures
        a.precedes_or_eq(c),
{
}

/// Issuing a timestamp at wall reading `wall` follows the wall clock: the
/// physical time becomes the later of the clock's and the reading, the
/// logical counter restarts at 0 when the reading is later than the clock and
/// counts one up otherwise, and the node stays.
pub proof fn lemma_tick_follows_wall(c: HLC, wall: u64)
    requires
        c.can_tick(wall),
    ensures
        c.ticked(wall).physical >= wall,
        c.ticked(wall).physical >= c.physical,
        c.ticked(wall).physical == wall || c.ticked(wall).physical == c.physical,
        wall > c.physical ==> c.ticked(wall).logical == 0,
        wall <= c.physical ==> c.ticked(wall).logical == c.logical + 1,
        c.ticked(wall).node_id == c.node_id,
{
}

/// Observing `remote` at wall reading `wall` follows the wall clock: the
/// physical time becomes the latest of the clock's, the remote's and the
/// reading, the logical counter restarts at 0 exactly when the reading is
/// later than both, and the node stays.
pub proof fn lemma_receive_follows_wall(c: HLC, remote: HLC, wall: u64)
    requires
        c.can_receive(remote, wall),
    ensures
        c.received(remote, wall).physical >= wall,
        c.received(remote, wall).physical >= c.physical,
        c.received(remote, wall).physical >= remote.physical,
        c.received(remote, wall).physical == wall || c.received(remote, wall).physical == c.physical
            || c.received(remote, wall).physical == remote.physical,
        (c.received(remote, wall).logical == 0) == (wall > c.physical && wall > remote.physical),
        c.received(remote, wall).node_id == c.node_id,
{
}

/// Timestamps follow the wall clock across nodes: a timestamp issued at a
/// reading later than the physical time of both clocks, and later than the
/// reading at which the other clock issued its timestamp, comes after that
/// timestamp, whatever the logical counters and nodes.
pub proof fn lemma_later_reading_is_later(a: HLC, wa: u64, b: HLC, wb: u64)
    requires
        a.can_tick(wa),
        b.can_tick(wb),
        wa > a.physical,
        wa > b.physical,
        wa > wb,
    ensures
        b.ticked(wb).precedes(a.ticked(wa)),
        !a.ticked(wa).precedes(b.ticked(wb)),
{
}

} // verus!
