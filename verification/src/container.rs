//! Container identifiers and the closed set of container variants.

use vstd::prelude::*;

use crate::id::OpID;

verus! {

/// The closed set of container variants this engine supports.
#[derive(Clone, Copy, Debug, PartialEq, Eq, Structural)]
pub enum ContainerType {
    MapType,
    TextType,
}

/// The variant other than `kind`.
pub open spec fn other_kind(kind: ContainerType) -> ContainerType {
    match kind {
        ContainerType::MapType => ContainerType::TextType,
        ContainerType::TextType => ContainerType::MapType,
    }
}

impl ContainerType {
    /// Executable form of [`other_kind`].
    pub fn other(&self) -> (r: ContainerType)
        ensures
            r == other_kind(*self),
    {
        match self {
            ContainerType::MapType => ContainerType::TextType,
            ContainerType::TextType => ContainerType::MapType,
        }
    }
}

/// A container's address, stable across replicas.
///
/// A root container is named by its author; a nested container is addressed
/// by the identifier of the operation that created it, so any replica that
/// has seen that operation can resolve it deterministically.
#[derive(Clone, Copy, Debug, PartialEq, Eq, Structural)]
pub enum ContainerID {
    Root { name: u64, kind: ContainerType },
    Normal { op: OpID, kind: ContainerType },
}

impl ContainerID {
    /// The variant this identifier addresses.
    pub open spec fn kind_spec(self) -> ContainerType {
        match self {
            ContainerID::Root { kind, .. } => kind,
            ContainerID::Normal { kind, .. } => kind,
        }
    }

    /// Executable form of [`ContainerID::kind_spec`].
    pub fn kind(&self) -> (r: ContainerType)
        ensures
            r == self.kind_spec(),
    {
        match self {
            ContainerID::Root { kind, .. } => *kind,
            ContainerID::Normal { kind, .. } => *kind,
        }
    }
}

} // verus!
