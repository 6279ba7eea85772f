//! Operations and changes: the units of history that replicas exchange.

use vstd::prelude::*;

use crate::container::{ContainerID, ContainerType};
use crate::id::{ClientID, Counter, OpID};
use crate::version::VersionVector;

verus! {

/// A single operation's payload, specific to the container variant it
/// addresses.
#[derive(Clone, Copy, Debug)]
pub enum OpContent {
    /// Write `value` under `key`; `None` is the tombstone a delete writes.
    MapSet { key: u64, value: Option<u64> },
    /// Insert `content` immediately to the right of the element `origin`
    /// (at the start of the text when `None`).
    TextInsert { origin: Option<OpID>, content: char },
    /// Tombstone the element inserted by `target`.
    TextDelete { target: OpID },
}

impl OpContent {
    /// The container variant this payload is meant for.
    pub open spec fn kind_spec(self) -> ContainerType {
        match self {
            OpContent::MapSet { .. } => ContainerType::MapType,
            OpContent::TextInsert { .. } => ContainerType::TextType,
            OpContent::TextDelete { .. } => ContainerType::TextType,
        }
    }
}

/// One operation as it travels between replicas: payload, addressed
/// container, and its position in the author's history.
#[derive(Clone, Copy, Debug)]
pub struct RemoteOp {
    pub container: ContainerID,
    pub content: OpContent,
    pub counter: Counter,
}

/// A sealed, contiguous batch of one client's operations together with the
/// causal frontier the author depended on.
#[derive(Clone, Debug)]
pub struct Change {
    /// The authoring client.
    pub client: ClientID,
    /// The counter of the first operation of the batch.
    pub start_counter: Counter,
    /// The operations, occupying counters
    /// `[start_counter, start_counter + ops.len())` contiguously.
    pub ops: Vec<RemoteOp>,
    /// For each other client the author had seen, the latest operation known
    /// from that client; all must be present in an importing store before
    /// this change may apply.
    pub deps: Vec<OpID>,
    /// Wall-clock metadata carried for observability; never used to resolve
    /// conflicts.
    pub timestamp: u64,
}

/// A change's content as mathematics: the same fields with the vectors read
/// as sequences, so that two physically distinct copies of one change are
/// the same value.
pub struct ChangeData {
    pub client: ClientID,
    pub start_counter: Counter,
    pub ops: Seq<RemoteOp>,
    pub deps: Seq<OpID>,
    pub timestamp: u64,
}

impl ChangeData {
    /// One past the last counter of this batch.
    pub open spec fn end_spec(self) -> int {
        self.start_counter + self.ops.len()
    }

    /// Whether `vv` already contains every operation of this change.
    pub open spec fn covered_by_spec(self, vv: VersionVector) -> bool {
        vv.get_spec(self.client) >= self.end_spec()
    }
}

impl View for Change {
    type V = ChangeData;

    open spec fn view(&self) -> ChangeData {
        ChangeData {
            client: self.client,
            start_counter: self.start_counter,
            ops: self.ops@,
            deps: self.deps@,
            timestamp: self.timestamp,
        }
    }
}

impl Change {
    /// One past the last counter of this batch.
    pub open spec fn end_spec(self) -> int {
        self.start_counter + self.ops@.len()
    }

    /// A change is well formed when its counters fit the machine, its
    /// operations sit contiguously at `start_counter`, every payload
    /// matches the variant of the container it addresses, and its
    /// dependencies name other clients, at most once each.
    pub open spec fn wf(self) -> bool {
        &&& self.end_spec() <= u64::MAX
        &&& forall|i: int|
            0 <= i < self.ops@.len() ==> self.ops@[i].counter == self.start_counter + i
        &&& forall|i: int|
            0 <= i < self.ops@.len()
                ==> self.ops@[i].content.kind_spec() == self.ops@[i].container.kind_spec()
        &&& forall|i: int, j: int|
            0 <= i < j < self.deps@.len() ==> self.deps@[i].client != self.deps@[j].client
        &&& forall|i: int|
            0 <= i < self.deps@.len() ==> (#[trigger] self.deps@[i]).client != self.client
    }

    /// Whether every dependency of this change is already inside `vv`.
    pub open spec fn deps_met_spec(self, vv: VersionVector) -> bool {
        forall|i: int| 0 <= i < self.deps@.len() ==> vv.includes_spec(self.deps@[i])
    }

    /// Whether `vv` already contains every operation of this change.
    pub open spec fn covered_by_spec(self, vv: VersionVector) -> bool {
        vv.get_spec(self.client) >= self.end_spec()
    }

    /// Whether this change is the immediate next batch for its client and
    /// all its dependencies are met, so it may apply against `vv`.
    pub open spec fn applicable_spec(self, vv: VersionVector) -> bool {
        vv.get_spec(self.client) == self.start_counter && self.deps_met_spec(vv)
    }

    /// One past the last counter of this batch.
    pub fn end(&self) -> (r: u64)
        requires
            self.wf(),
        ensures
            r == self.end_spec(),
    {
        self.start_counter + self.ops.len() as u64
    }

    /// Executable form of [`Change::deps_met_spec`].
    pub fn deps_met(&self, vv: &VersionVector) -> (r: bool)
        requires
            vv.wf(),
        ensures
            r == self.deps_met_spec(*vv),
    {
        let mut i: usize = 0;
        while i < self.deps.len()
            invariant
                vv.wf(),
                i <= self.deps@.len(),
                forall|j: int| 0 <= j < i ==> vv.includes_spec(self.deps@[j]),
            decreases self.deps@.len() - i,
        {
            if !vv.includes(&self.deps[i]) {
                return false;
            }
            i += 1;
        }
        true
    }

    /// A copy of this change, equal to it as a value.
    pub fn snapshot(&self) -> (r: Change)
        ensures
            r@ == self@,
    {
        let mut ops: Vec<RemoteOp> = Vec::new();
        let mut i: usize = 0;
        while i < self.ops.len()
            invariant
                i <= self.ops@.len(),
                ops@ == self.ops@.take(i as int),
            decreases self.ops@.len() - i,
        {
            ops.push(self.ops[i]);
            proof {
                assert(ops@ =~= self.ops@.take(i as int + 1));
            }
            i += 1;
        }
        let mut deps: Vec<OpID> = Vec::new();
        let mut j: usize = 0;
        while j < self.deps.len()
            invariant
                j <= self.deps@.len(),
                deps@ == self.deps@.take(j as int),
            decreases self.deps@.len() - j,
        {
            deps.push(self.deps[j]);
            proof {
                assert(deps@ =~= self.deps@.take(j as int + 1));
            }
            j += 1;
        }
        proof {
            assert(self.ops@.take(self.ops@.len() as int) =~= self.ops@);
            assert(self.deps@.take(self.deps@.len() as int) =~= self.deps@);
        }
        Change {
            client: self.client,
            start_counter: self.start_counter,
            ops,
            deps,
            timestamp: self.timestamp,
        }
    }
}

} // verus!
