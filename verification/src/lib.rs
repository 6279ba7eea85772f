//! A replicated-state synchronization engine built on conflict-free
//! replicated data types (CRDTs).
//!
//! Each replica keeps an append-only log of its own operations, a version
//! vector summarizing the causal frontier it has incorporated, and a registry
//! of containers (last-writer-wins maps and tombstone-keeping text sequences)
//! whose materialized values are rebuilt deterministically from the operation
//! history. Replicas converge by exchanging change batches through
//! [`LoroCore::export`] and [`LoroCore::import`].

use vstd::prelude::*;

pub mod change;
pub mod container;
pub mod errors;
pub mod id;
pub mod map_state;
pub mod registry;
pub mod store;
pub mod text_state;
pub mod version;

use crate::change::{Change, OpContent, RemoteOp};
use crate::container::{ContainerID, ContainerType};
use crate::errors::LoroError;
use crate::id::{ClientID, OpID};
use crate::registry::{
    apply_op_model, map_value_model, root_name_conflict, text_model_of, text_origin_spec,
    ContainerInstance,
};
use crate::store::{
    all_covered, all_wf, seq_applicable, some_blocked, vv_advance_from, LogStore,
};
use crate::version::VersionVector;

verus! {

/// Store construction options. The engine recognizes none beyond the
/// defaults today; the type marks the place where they would be supplied.
pub struct Configure {}

impl Default for Configure {
    /// The default options.
    fn default() -> (r: Configure) {
        Configure {}
    }
}

/// One replica's top-level handle: the log store behind a single facade.
pub struct LoroCore {
    /// The store holding this replica's history, frontier, and containers.
    pub log_store: LogStore,
}

impl Default for LoroCore {
    /// A fresh replica under a generated client identifier.
    fn default() -> (r: LoroCore)
        ensures
            r.wf(),
            forall|c: ClientID| r.log_store.vv.get_spec(c) == 0,
            r.log_store.changes@.len() == 0,
    {
        LoroCore::new(Configure {}, None)
    }
}

/// A handle addressing one map container of a store.
#[derive(Clone, Copy, Debug)]
pub struct MapHandle {
    /// The container this handle addresses.
    pub id: ContainerID,
}

/// A handle addressing one text container of a store.
#[derive(Clone, Copy, Debug)]
pub struct TextHandle {
    /// The container this handle addresses.
    pub id: ContainerID,
}

impl LoroCore {
    /// The facade is well formed exactly when its store is.
    pub open spec fn wf(self) -> bool {
        self.log_store.wf()
    }

    /// A fresh, empty replica. A caller that supplies no client identifier
    /// gets a generated one.
    pub fn new(cfg: Configure, client_id: Option<ClientID>) -> (r: LoroCore)
        ensures
            r.wf(),
            client_id matches Some(c) ==> r.log_store.client == c,
            forall|c: ClientID| r.log_store.vv.get_spec(c) == 0,
            r.log_store.changes@.len() == 0,
            r.log_store.model() == Map::<
                ContainerID,
                crate::registry::ContainerModel,
            >::empty(),
    {
        let _ = cfg;
        LoroCore { log_store: LogStore::new(client_id) }
    }

    /// A snapshot of the current causal frontier (a copy, not a live view).
    pub fn vv(&self) -> (r: VersionVector)
        requires
            self.wf(),
        ensures
            r.wf(),
            forall|c: ClientID| r.get_spec(c) == self.log_store.vv.get_spec(c),
    {
        self.log_store.vv.snapshot()
    }

    /// The map container named `name`, created empty on first use. A name
    /// already registered under the text variant is a type conflict: the
    /// call fails and mutates nothing.
    pub fn get_map(&mut self, name: u64) -> (r: Result<MapHandle, LoroError>)
        requires
            old(self).wf(),
        ensures
            final(self).wf(),
            final(self).log_store.client == old(self).log_store.client,
            final(self).log_store.vv == old(self).log_store.vv,
            final(self).log_store.changes@ == old(self).log_store.changes@,
            r is Err <==> root_name_conflict(
                old(self).log_store.model(),
                name,
                ContainerType::MapType,
            ),
            r is Err ==> r == Err::<MapHandle, LoroError>(LoroError::ContainerTypeConflict)
                && *final(self) == *old(self),
            r matches Ok(h) ==> h.id == (ContainerID::Root { name, kind: ContainerType::MapType })
                && final(self).log_store.model() == (if old(self).log_store.model().dom().contains(
                h.id,
            ) {
                old(self).log_store.model()
            } else {
                old(self).log_store.model().insert(
                    h.id,
                    crate::registry::empty_model(ContainerType::MapType),
                )
            }) && final(self).log_store.model().dom().contains(h.id),
    {
        match self.log_store.registry.get_or_create_root(name, ContainerType::MapType) {
            Ok(_) => Ok(
                MapHandle { id: ContainerID::Root { name, kind: ContainerType::MapType } },
            ),
            Err(e) => Err(e),
        }
    }

    /// The text container named `name`, created empty on first use. A name
    /// already registered under the map variant is a type conflict: the
    /// call fails and mutates nothing.
    pub fn get_text(&mut self, name: u64) -> (r: Result<TextHandle, LoroError>)
        requires
            old(self).wf(),
        ensures
            final(self).wf(),
            final(self).log_store.client == old(self).log_store.client,
            final(self).log_store.vv == old(self).log_store.vv,
            final(self).log_store.changes@ == old(self).log_store.changes@,
            r is Err <==> root_name_conflict(
                old(self).log_store.model(),
                name,
                ContainerType::TextType,
            ),
            r is Err ==> r == Err::<TextHandle, LoroError>(LoroError::ContainerTypeConflict)
                && *final(self) == *old(self),
            r matches Ok(h) ==> h.id == (ContainerID::Root { name, kind: ContainerType::TextType })
                && final(self).log_store.model() == (if old(self).log_store.model().dom().contains(
                h.id,
            ) {
                old(self).log_store.model()
            } else {
                old(self).log_store.model().insert(
                    h.id,
                    crate::registry::empty_model(ContainerType::TextType),
                )
            }) && final(self).log_store.model().dom().contains(h.id),
    {
        match self.log_store.registry.get_or_create_root(name, ContainerType::TextType) {
            Ok(_) => Ok(
                TextHandle { id: ContainerID::Root { name, kind: ContainerType::TextType } },
            ),
            Err(e) => Err(e),
        }
    }

    /// A read-only snapshot of a container's state; `None` when the
    /// identifier was never created.
    pub fn get_container(&self, id: &ContainerID) -> (r: Option<ContainerInstance>)
        requires
            self.wf(),
        ensures
            (r is Some) == self.log_store.model().dom().contains(*id),
            r matches Some(inst) ==> inst.wf() && inst.model() == self.log_store.model()[*id],
    {
        self.log_store.get_container(id)
    }

    /// The changes a peer at frontier `remote_vv` is missing: the full
    /// multi-client suffix of this store's history past that frontier,
    /// grouped by client, ascending by counter. Never mutates.
    pub fn export(&self, remote_vv: VersionVector) -> (r: Vec<Change>)
        requires
            self.wf(),
            remote_vv.wf(),
        ensures
            r@.len() == self.log_store.export_spec(
                remote_vv,
                self.log_store.vv.entries@.len() as int,
            ).len(),
            forall|k: int|
                0 <= k < r@.len() ==> (#[trigger] r@[k])@ == self.log_store.export_spec(
                    remote_vv,
                    self.log_store.vv.entries@.len() as int,
                )[k],
    {
        self.log_store.export(&remote_vv)
    }

    /// Merges a batch of changes from a peer. Duplicates are skipped and
    /// counted in the `Ok` value; changes whose dependencies are unmet stay
    /// pending without touching any state, and if none of them can ever
    /// apply the import reports the missing history, keeping whatever
    /// progress was made. The containers change exactly by the applied
    /// changes' operations, routed in application order; pending and
    /// duplicate changes touch nothing. Importing a batch twice leaves the
    /// store exactly as one import left it.
    pub fn import(&mut self, changes: Vec<Change>) -> (r: Result<usize, LoroError>)
        requires
            old(self).wf(),
            all_wf(changes@),
        ensures
            final(self).wf(),
            final(self).log_store.client == old(self).log_store.client,
            forall|c: ClientID|
                old(self).log_store.vv.get_spec(c) <= final(self).log_store.vv.get_spec(c),
            vv_advance_from(changes@, old(self).log_store.vv, final(self).log_store.vv),
            old(self).log_store.changes@.is_prefix_of(final(self).log_store.changes@),
            forall|k: int|
                old(self).log_store.changes@.len() <= k < final(self).log_store.changes@.len()
                    ==> crate::store::in_seq(#[trigger] final(self).log_store.changes@[k], changes@),
            final(self).log_store.model() == crate::store::apply_changes_model(
                old(self).log_store.model(),
                final(self).log_store.changes@.skip(old(self).log_store.changes@.len() as int),
            ),
            r matches Ok(d) ==> d <= changes@.len() && all_covered(
                changes@,
                final(self).log_store.vv,
            ),
            all_covered(changes@, old(self).log_store.vv) ==> *final(self) == *old(self) && r
                == Ok::<usize, LoroError>(changes@.len() as usize),
            r is Err ==> r == Err::<usize, LoroError>(LoroError::MissingDependency)
                && some_blocked(changes@, final(self).log_store.vv),
            (changes@.len() == 1 && !changes@[0].covered_by_spec(old(self).log_store.vv)
                && !changes@[0].applicable_spec(old(self).log_store.vv)) ==> *final(self) == *old(
                self,
            ) && r is Err,
            seq_applicable(old(self).log_store.vv, changes@) ==> r is Ok,
            r is Ok <==> !some_blocked(changes@, final(self).log_store.vv),
    {
        self.log_store.import(changes)
    }

    /// A summary for inspection: how many changes the log holds and how
    /// many containers exist.
    pub fn debug_inspect(&self) -> (r: (usize, usize))
        requires
            self.wf(),
        ensures
            r.0 == self.log_store.changes@.len(),
            r.1 == self.log_store.registry.containers@.len(),
    {
        (self.log_store.changes.len(), self.log_store.registry.containers.len())
    }
}

impl MapHandle {
    /// A handle is well formed when it addresses a map container.
    pub open spec fn wf(self) -> bool {
        self.id.kind_spec() == ContainerType::MapType
    }

    /// Writes `value` under `key`, as a new local operation of the store's
    /// client.
    pub fn insert(&self, store: &mut LoroCore, key: u64, value: u64)
        requires
            self.wf(),
            old(store).wf(),
            old(store).log_store.vv.get_spec(old(store).log_store.client) < u64::MAX,
        ensures
            final(store).wf(),
            final(store).log_store.client == old(store).log_store.client,
            final(store).log_store.model() == apply_op_model(
                old(store).log_store.model(),
                old(store).log_store.client,
                (RemoteOp {
                    container: self.id,
                    content: OpContent::MapSet { key, value: Some(value) },
                    counter: old(store).log_store.vv.get_spec(old(store).log_store.client),
                }),
            ),
            final(store).log_store.vv.get_spec(old(store).log_store.client) == old(
                store,
            ).log_store.vv.get_spec(old(store).log_store.client) + 1,
            forall|c: ClientID|
                c != old(store).log_store.client ==> final(store).log_store.vv.get_spec(c) == old(
                    store,
                ).log_store.vv.get_spec(c),
            final(store).log_store.changes@.len() == old(store).log_store.changes@.len() + 1,
    {
        store.log_store.append_local(self.id, OpContent::MapSet { key, value: Some(value) });
    }

    /// Deletes `key`: writes the tombstone under it, by the same
    /// last-writer-wins rule as any other write.
    pub fn delete(&self, store: &mut LoroCore, key: u64)
        requires
            self.wf(),
            old(store).wf(),
            old(store).log_store.vv.get_spec(old(store).log_store.client) < u64::MAX,
        ensures
            final(store).wf(),
            final(store).log_store.client == old(store).log_store.client,
            final(store).log_store.model() == apply_op_model(
                old(store).log_store.model(),
                old(store).log_store.client,
                (RemoteOp {
                    container: self.id,
                    content: OpContent::MapSet { key, value: None },
                    counter: old(store).log_store.vv.get_spec(old(store).log_store.client),
                }),
            ),
            final(store).log_store.vv.get_spec(old(store).log_store.client) == old(
                store,
            ).log_store.vv.get_spec(old(store).log_store.client) + 1,
            forall|c: ClientID|
                c != old(store).log_store.client ==> final(store).log_store.vv.get_spec(c) == old(
                    store,
                ).log_store.vv.get_spec(c),
            final(store).log_store.changes@.len() == old(store).log_store.changes@.len() + 1,
    {
        store.log_store.append_local(self.id, OpContent::MapSet { key, value: None });
    }

    /// The materialized value under `key`; `None` when never written or
    /// tombstoned.
    pub fn get(&self, store: &LoroCore, key: u64) -> (r: Option<u64>)
        requires
            store.wf(),
        ensures
            r == map_value_model(store.log_store.model(), self.id, key),
    {
        store.log_store.registry.map_get(&self.id, key)
    }
}

impl TextHandle {
    /// A handle is well formed when it addresses a text container.
    pub open spec fn wf(self) -> bool {
        self.id.kind_spec() == ContainerType::TextType
    }

    /// The container's visible text in this store.
    pub open spec fn text_spec(self, store: LoroCore) -> Seq<char> {
        crate::text_state::visible(
            text_model_of(store.log_store.model(), self.id),
            text_model_of(store.log_store.model(), self.id).len() as int,
        )
    }

    /// Inserts `content` at visible position `pos`, as a new local
    /// operation of the store's client anchored to the visible element just
    /// left of the position.
    pub fn insert(&self, store: &mut LoroCore, pos: usize, content: char)
        requires
            self.wf(),
            old(store).wf(),
            pos <= self.text_spec(*old(store)).len(),
            old(store).log_store.vv.get_spec(old(store).log_store.client) < u64::MAX,
        ensures
            final(store).wf(),
            final(store).log_store.client == old(store).log_store.client,
            final(store).log_store.model() == apply_op_model(
                old(store).log_store.model(),
                old(store).log_store.client,
                (RemoteOp {
                    container: self.id,
                    content: OpContent::TextInsert {
                        origin: text_origin_spec(
                            text_model_of(old(store).log_store.model(), self.id),
                            pos as int,
                        ),
                        content,
                    },
                    counter: old(store).log_store.vv.get_spec(old(store).log_store.client),
                }),
            ),
            final(store).log_store.vv.get_spec(old(store).log_store.client) == old(
                store,
            ).log_store.vv.get_spec(old(store).log_store.client) + 1,
            forall|c: ClientID|
                c != old(store).log_store.client ==> final(store).log_store.vv.get_spec(c) == old(
                    store,
                ).log_store.vv.get_spec(c),
            final(store).log_store.changes@.len() == old(store).log_store.changes@.len() + 1,
    {
        let origin: Option<OpID> = if pos == 0 {
            None
        } else {
            store.log_store.registry.text_origin_for(&self.id, pos)
        };
        store.log_store.append_local(self.id, OpContent::TextInsert { origin, content });
    }

    /// Tombstones the visible character at position `pos`, as a new local
    /// operation of the store's client. The element is kept so that
    /// operations that causally preceded the delete stay addressable.
    pub fn delete(&self, store: &mut LoroCore, pos: usize)
        requires
            self.wf(),
            old(store).wf(),
            pos < self.text_spec(*old(store)).len(),
            old(store).log_store.vv.get_spec(old(store).log_store.client) < u64::MAX,
        ensures
            final(store).wf(),
            final(store).log_store.client == old(store).log_store.client,
            final(store).log_store.model() == apply_op_model(
                old(store).log_store.model(),
                old(store).log_store.client,
                (RemoteOp {
                    container: self.id,
                    content: OpContent::TextDelete {
                        target: crate::text_state::vis_ids(
                            text_model_of(old(store).log_store.model(), self.id),
                            text_model_of(old(store).log_store.model(), self.id).len() as int,
                        )[pos as int],
                    },
                    counter: old(store).log_store.vv.get_spec(old(store).log_store.client),
                }),
            ),
            final(store).log_store.vv.get_spec(old(store).log_store.client) == old(
                store,
            ).log_store.vv.get_spec(old(store).log_store.client) + 1,
            forall|c: ClientID|
                c != old(store).log_store.client ==> final(store).log_store.vv.get_spec(c) == old(
                    store,
                ).log_store.vv.get_spec(c),
            final(store).log_store.changes@.len() == old(store).log_store.changes@.len() + 1,
    {
        let target = store.log_store.registry.text_target_at(&self.id, pos);
        store.log_store.append_local(self.id, OpContent::TextDelete { target });
    }

    /// The container's visible text, materialized.
    pub fn chars(&self, store: &LoroCore) -> (r: Vec<char>)
        requires
            store.wf(),
        ensures
            r@ == self.text_spec(*store),
    {
        store.log_store.registry.text_chars(&self.id)
    }
}


} // verus!
