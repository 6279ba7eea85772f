//! Client identifiers, per-client counters, and operation identifiers.

use vstd::prelude::*;

verus! {

/// A replica's stable identifier.
pub type ClientID = u64;

/// A per-client, monotonically increasing operation counter.
pub type Counter = u64;

/// A globally unique operation identifier: one client plus one position in
/// that client's history.
#[derive(Clone, Copy, Debug, PartialEq, Eq, Hash, Structural)]
pub struct OpID {
    pub client: ClientID,
    pub counter: Counter,
}

impl OpID {
    /// The total order used by last-writer-wins resolution and by the text
    /// tie-break: compare counters first, then clients. Replica-independent
    /// and deterministic.
    pub open spec fn gt_spec(self, other: OpID) -> bool {
        self.counter > other.counter
            || (self.counter == other.counter && self.client > other.client)
    }

    /// Executable form of [`OpID::gt_spec`].
    pub fn gt(&self, other: &OpID) -> (r: bool)
        ensures
            r == self.gt_spec(*other),
    {
        self.counter > other.counter
            || (self.counter == other.counter && self.client > other.client)
    }
}

/// Distinct operation identifiers are always strictly ordered one way or the
/// other, and never both ways.
pub proof fn lemma_op_order_total(a: OpID, b: OpID)
    requires
        a != b,
    ensures
        a.gt_spec(b) <==> !b.gt_spec(a),
{
}

} // verus!
