pub mod hlc;
pub mod lww;
pub mod map;
pub mod seqs;
pub mod sequence;
pub mod set;
mod str_map;
pub mod strings;
pub mod text;

use vstd::prelude::*;

verus! {

/// Trait that all CRDT values implement; it lets CRDTs nest (a `MapCrdt`
/// holds values of any CRDT type).
pub trait CrdtValue: Sized + Clone {
    /// The operation a replica sends to the others.
    type Op: Clone;

    /// `op` may be applied to this value: the value is well formed and the
    /// operation cannot overflow its clock.
    spec fn can_apply(&self, op: &Self::Op) -> bool;

    /// `other` may be merged into this value: both are well formed and the
    /// merge cannot overflow the clock.
    spec fn can_merge(&self, other: &Self) -> bool;

    /// `new` is what applying `op` to `old` gives.
    spec fn applied(old: Self, op: Self::Op, new: Self) -> bool;

    /// `new` is what merging `other` into `old` gives.
    spec fn merged(old: Self, other: Self, new: Self) -> bool;

    /// Apply an operation received from another replica.
    fn apply(&mut self, op: &Self::Op)
        requires
            old(self).can_apply(op),
        ensures
            Self::applied(*old(self), *op, *final(self)),
    ;

    /// Merge the state of another replica into this one.
    fn merge(&mut self, other: &Self)
        requires
            old(self).can_merge(other),
        ensures
            Self::merged(*old(self), *other, *final(self)),
    ;
}

} // verus!
