//! The container registry: identifier to container-instance mapping.
//!
//! Creation is the only mutating operation besides routing an operation to
//! the instance it addresses; a lookup that finds nothing means the
//! container does not yet exist.

use vstd::prelude::*;

use crate::change::{OpContent, RemoteOp};
use crate::container::{ContainerID, ContainerType};
use crate::errors::LoroError;
use crate::id::{ClientID, OpID};
use crate::map_state::{lww_write, MapRecord, MapState};
use crate::text_state::{delete_spec, insert_spec, TextElem, TextState};

verus! {

/// One container's state, over the closed set of variants.
pub enum ContainerInstance {
    MapInstance(MapState),
    TextInstance(TextState),
}

/// A container's state as mathematics: the key-to-record map of a map
/// container, or the element sequence of a text container.
pub enum ContainerModel {
    MapModel(Map<u64, MapRecord>),
    TextModel(Seq<TextElem>),
}

impl ContainerInstance {
    /// The variant this instance is.
    pub open spec fn kind_spec(self) -> ContainerType {
        match self {
            ContainerInstance::MapInstance(_) => ContainerType::MapType,
            ContainerInstance::TextInstance(_) => ContainerType::TextType,
        }
    }

    /// Representation invariant of the wrapped state.
    pub open spec fn wf(self) -> bool {
        match self {
            ContainerInstance::MapInstance(m) => m.wf(),
            ContainerInstance::TextInstance(t) => t.wf(),
        }
    }

    /// The instance's mathematical model.
    pub open spec fn model(self) -> ContainerModel {
        match self {
            ContainerInstance::MapInstance(m) => ContainerModel::MapModel(m.as_map()),
            ContainerInstance::TextInstance(t) => ContainerModel::TextModel(t.elems@),
        }
    }

    /// A fresh, empty instance of the requested variant.
    pub fn empty(kind: ContainerType) -> (r: ContainerInstance)
        ensures
            r.wf(),
            r.kind_spec() == kind,
            r.model() == empty_model(kind),
    {
        match kind {
            ContainerType::MapType => ContainerInstance::MapInstance(MapState::new()),
            ContainerType::TextType => ContainerInstance::TextInstance(TextState::new()),
        }
    }

    /// A copy of this instance.
    pub fn snapshot(&self) -> (r: ContainerInstance)
        requires
            self.wf(),
        ensures
            r.wf(),
            r.kind_spec() == self.kind_spec(),
            r.model() == self.model(),
    {
        match self {
            ContainerInstance::MapInstance(m) => {
                let mut records: Vec<(u64, MapRecord)> = Vec::new();
                let mut i: usize = 0;
                while i < m.records.len()
                    invariant
                        i <= m.records@.len(),
                        records@ == m.records@.take(i as int),
                    decreases m.records@.len() - i,
                {
                    records.push(m.records[i]);
                    proof {
                        assert(records@ =~= m.records@.take(i as int + 1));
                    }
                    i += 1;
                }
                proof {
                    assert(m.records@.take(m.records@.len() as int) =~= m.records@);
                }
                ContainerInstance::MapInstance(MapState { records })
            },
            ContainerInstance::TextInstance(t) => {
                let mut elems: Vec<TextElem> = Vec::new();
                let mut i: usize = 0;
                while i < t.elems.len()
                    invariant
                        i <= t.elems@.len(),
                        elems@ == t.elems@.take(i as int),
                    decreases t.elems@.len() - i,
                {
                    elems.push(t.elems[i]);
                    proof {
                        assert(elems@ =~= t.elems@.take(i as int + 1));
                    }
                    i += 1;
                }
                proof {
                    assert(t.elems@.take(t.elems@.len() as int) =~= t.elems@);
                }
                ContainerInstance::TextInstance(TextState { elems })
            },
        }
    }
}

/// The model of a container that was never written.
pub open spec fn empty_model(kind: ContainerType) -> ContainerModel {
    match kind {
        ContainerType::MapType => ContainerModel::MapModel(Map::empty()),
        ContainerType::TextType => ContainerModel::TextModel(Seq::empty()),
    }
}

/// What one operation's payload, authored by `id`, does to a container
/// model. A payload aimed at the other variant leaves the model unchanged;
/// well-formed changes never contain one.
pub open spec fn content_apply(m: ContainerModel, id: OpID, content: OpContent) -> ContainerModel {
    match (m, content) {
        (ContainerModel::MapModel(mm), OpContent::MapSet { key, value }) => ContainerModel::MapModel(
            lww_write(mm, key, value, id),
        ),
        (ContainerModel::TextModel(t), OpContent::TextInsert { origin, content }) => ContainerModel::TextModel(
            insert_spec(t, id, origin, content),
        ),
        (ContainerModel::TextModel(t), OpContent::TextDelete { target }) => ContainerModel::TextModel(
            delete_spec(t, target),
        ),
        (other, _) => other,
    }
}

/// What routing one operation authored by `client` does to the whole
/// registry model: the addressed container is created empty on first touch,
/// then rewritten by the payload.
pub open spec fn apply_op_model(
    m: Map<ContainerID, ContainerModel>,
    client: ClientID,
    op: RemoteOp,
) -> Map<ContainerID, ContainerModel> {
    let cur = if m.dom().contains(op.container) {
        m[op.container]
    } else {
        empty_model(op.container.kind_spec())
    };
    m.insert(
        op.container,
        content_apply(cur, (OpID { client, counter: op.counter }), op.content),
    )
}

/// The index at which `id`'s container sits, scanning from the back;
/// -1 when it was never created.
pub open spec fn reg_find(s: Seq<(ContainerID, ContainerInstance)>, id: ContainerID) -> int
    decreases s.len(),
{
    if s.len() == 0 {
        -1
    } else if s.last().0 == id {
        s.len() - 1
    } else {
        reg_find(s.drop_last(), id)
    }
}

/// No container identifier occurs twice.
pub open spec fn unique_cids(s: Seq<(ContainerID, ContainerInstance)>) -> bool {
    forall|i: int, j: int| 0 <= i < j < s.len() ==> s[i].0 != s[j].0
}

/// The identifier-to-model map a registry sequence denotes.
pub open spec fn reg_model(s: Seq<(ContainerID, ContainerInstance)>) -> Map<ContainerID, ContainerModel>
    decreases s.len(),
{
    if s.len() == 0 {
        Map::empty()
    } else {
        reg_model(s.drop_last()).insert(s.last().0, s.last().1.model())
    }
}

/// The registry: every container this store has ever created, addressable
/// by identifier.
pub struct ContainerRegistry {
    /// One entry per container. Identifiers are unique; order carries no
    /// meaning.
    pub containers: Vec<(ContainerID, ContainerInstance)>,
}

impl ContainerRegistry {
    /// Representation invariant: unique identifiers, well-formed instances,
    /// and every instance of the variant its identifier names.
    pub open spec fn wf(self) -> bool {
        &&& unique_cids(self.containers@)
        &&& forall|i: int|
            0 <= i < self.containers@.len() ==> (#[trigger] self.containers@[i]).1.wf()
        &&& forall|i: int|
            0 <= i < self.containers@.len()
                ==> (#[trigger] self.containers@[i]).1.kind_spec() == self.containers@[i].0.kind_spec()
    }

    /// The registry as an identifier-to-model map.
    pub open spec fn model(self) -> Map<ContainerID, ContainerModel> {
        reg_model(self.containers@)
    }

    /// An empty registry.
    pub fn new() -> (r: ContainerRegistry)
        ensures
            r.wf(),
            r.model() == Map::<ContainerID, ContainerModel>::empty(),
    {
        proof {
            assert(reg_model(Seq::<(ContainerID, ContainerInstance)>::empty())
                =~= Map::<ContainerID, ContainerModel>::empty());
        }
        ContainerRegistry { containers: Vec::new() }
    }

    /// The position of `id`'s container, if it exists.
    pub fn find_idx(&self, id: &ContainerID) -> (r: Option<usize>)
        requires
            self.wf(),
        ensures
            match r {
                Some(i) => i < self.containers@.len() && reg_find(self.containers@, *id) == i
                    && self.containers@[i as int].0 == *id,
                None => reg_find(self.containers@, *id) == -1,
            },
            (r is Some) == self.model().dom().contains(*id),
    {
        proof {
            lemma_reg_model_props(self.containers@);
        }
        let n = self.containers.len();
        let mut i: usize = 0;
        while i < n
            invariant
                self.wf(),
                n == self.containers@.len(),
                i <= n,
                forall|j: int| 0 <= j < i ==> self.containers@[j].0 != *id,
            decreases n - i,
        {
            if self.containers[i].0 == *id {
                proof {
                    lemma_reg_find_at(self.containers@, i as int, *id);
                    lemma_reg_model_at(self.containers@, i as int, *id);
                }
                return Some(i);
            }
            i += 1;
        }
        proof {
            lemma_reg_find_absent(self.containers@, *id);
        }
        None
    }

    /// Returns the position of `id`'s container, creating it empty first if
    /// this is its first reference. Idempotent.
    pub fn ensure(&mut self, id: &ContainerID) -> (r: usize)
        requires
            old(self).wf(),
        ensures
            final(self).wf(),
            r < final(self).containers@.len(),
            final(self).containers@[r as int].0 == *id,
            reg_find(final(self).containers@, *id) == r,
            final(self).model() == if old(self).model().dom().contains(*id) {
                old(self).model()
            } else {
                old(self).model().insert(*id, empty_model(id.kind_spec()))
            },
            old(self).model().dom().contains(*id)
                ==> *final(self) == *old(self),
            final(self).model().dom().contains(*id),
            final(self).model()[*id] == if old(self).model().dom().contains(*id) {
                old(self).model()[*id]
            } else {
                empty_model(id.kind_spec())
            },
    {
        proof {
            lemma_reg_model_props(self.containers@);
        }
        match self.find_idx(id) {
            Some(i) => {
                proof {
                    lemma_reg_model_at(self.containers@, i as int, *id);
                }
                i
            },
            None => {
                let inst = ContainerInstance::empty(id.kind());
                let n = self.containers.len();
                proof {
                    lemma_reg_find_absent_all(self.containers@, *id);
                    lemma_reg_model_push(self.containers@, *id, inst);
                }
                self.containers.push((*id, inst));
                proof {
                    assert(self.containers@.last().0 == *id);
                }
                n
            },
        }
    }

    /// Looks the root container `name` up under `kind`, creating it when
    /// the name is new. A name already registered under the other variant
    /// is a conflict: the call fails and mutates nothing.
    pub fn get_or_create_root(&mut self, name: u64, kind: ContainerType) -> (r: Result<
        usize,
        LoroError,
    >)
        requires
            old(self).wf(),
        ensures
            final(self).wf(),
            r is Err <==> root_name_conflict(old(self).model(), name, kind),
            r is Err ==> r == Err::<usize, LoroError>(LoroError::ContainerTypeConflict)
                && *final(self) == *old(self),
            r matches Ok(i) ==> i < final(self).containers@.len()
                && final(self).containers@[i as int].0 == (ContainerID::Root { name, kind })
                && final(self).model() == (if old(self).model().dom().contains(
                    (ContainerID::Root { name, kind }),
                ) {
                    old(self).model()
                } else {
                    old(self).model().insert((ContainerID::Root { name, kind }), empty_model(kind))
                }),
    {
        let twin = ContainerID::Root { name, kind: kind.other() };
        if self.find_idx(&twin).is_some() {
            return Err(LoroError::ContainerTypeConflict);
        }
        Ok(self.ensure(&(ContainerID::Root { name, kind })))
    }

    /// Looks a container up, honouring the requested variant: a mismatch
    /// between the identifier and the requested type, or a root name
    /// already registered under the other variant, is a conflict and
    /// mutates nothing.
    pub fn get_or_create_container(&mut self, id: &ContainerID, kind: ContainerType) -> (r: Result<
        usize,
        LoroError,
    >)
        requires
            old(self).wf(),
        ensures
            final(self).wf(),
            r is Err <==> id.kind_spec() != kind || (id matches ContainerID::Root { name, .. }
                && root_name_conflict(old(self).model(), *name, kind)),
            r is Err ==> r == Err::<usize, LoroError>(LoroError::ContainerTypeConflict)
                && *final(self) == *old(self),
            r matches Ok(i) ==> i < final(self).containers@.len()
                && final(self).containers@[i as int].0 == *id
                && final(self).model() == (if old(self).model().dom().contains(*id) {
                    old(self).model()
                } else {
                    old(self).model().insert(*id, empty_model(id.kind_spec()))
                }),
    {
        if id.kind() != kind {
            return Err(LoroError::ContainerTypeConflict);
        }
        match id {
            ContainerID::Root { name, .. } => self.get_or_create_root(*name, kind),
            ContainerID::Normal { .. } => Ok(self.ensure(id)),
        }
    }

    /// Routes one operation authored by `client` to the container it
    /// addresses, creating that container on first touch.
    pub fn apply_op(&mut self, client: ClientID, op: &RemoteOp)
        requires
            old(self).wf(),
            op.content.kind_spec() == op.container.kind_spec(),
        ensures
            final(self).wf(),
            final(self).model() == apply_op_model(old(self).model(), client, *op),
    {
        let ghost m0 = self.model();
        let i = self.ensure(&op.container);
        let ghost s1 = self.containers@;
        let ghost m1 = self.model();
        let (cid, mut inst) = self.containers.remove(i);
        let ghost inst0 = inst;
        proof {
            lemma_reg_model_at(s1, i as int, cid);
        }
        let id = OpID { client, counter: op.counter };
        match (&mut inst, &op.content) {
            (ContainerInstance::MapInstance(m), OpContent::MapSet { key, value }) => {
                m.apply_set(*key, *value, id);
            },
            (ContainerInstance::TextInstance(t), OpContent::TextInsert { origin, content }) => {
                t.apply_insert(id, *origin, *content);
            },
            (ContainerInstance::TextInstance(t), OpContent::TextDelete { target }) => {
                t.apply_delete(*target);
            },
            _ => {},
        }
        proof {
            assert(inst.model() == content_apply(inst0.model(), id, op.content));
            assert(inst.kind_spec() == inst0.kind_spec());
        }
        self.containers.insert(i, (cid, inst));
        proof {
            assert(self.containers@ =~= s1.update(i as int, (cid, inst)));
            assert(unique_cids(s1.update(i as int, (cid, inst))));
            lemma_reg_model_update(s1, i as int, cid, inst);
            assert(m1.insert(cid, inst.model()) =~= apply_op_model(m0, client, *op));
        }
    }
}

/// Whether the root name is already taken by the other container variant:
/// the one condition under which creating a root container is refused.
pub open spec fn root_name_conflict(
    m: Map<ContainerID, ContainerModel>,
    name: u64,
    kind: ContainerType,
) -> bool {
    m.dom().contains((ContainerID::Root { name, kind: crate::container::other_kind(kind) }))
}

/// The materialized value under `key` of the map container `id` in a
/// registry model; `None` when the container, the key, or the value is
/// absent or tombstoned.
pub open spec fn map_value_model(
    m: Map<ContainerID, ContainerModel>,
    id: ContainerID,
    key: u64,
) -> Option<u64> {
    if m.dom().contains(id) {
        match m[id] {
            ContainerModel::MapModel(mm) => if mm.dom().contains(key) {
                mm[key].value
            } else {
                None
            },
            _ => None,
        }
    } else {
        None
    }
}

/// The element sequence of the text container `id` in a registry model;
/// empty when the container is absent.
pub open spec fn text_model_of(m: Map<ContainerID, ContainerModel>, id: ContainerID) -> Seq<
    TextElem,
> {
    if m.dom().contains(id) {
        match m[id] {
            ContainerModel::TextModel(t) => t,
            _ => Seq::empty(),
        }
    } else {
        Seq::empty()
    }
}

/// The anchor a local insertion at visible position `pos` names: the
/// visible element just left of the position, or nothing at the start.
pub open spec fn text_origin_spec(t: Seq<TextElem>, pos: int) -> Option<OpID> {
    if pos == 0 {
        None
    } else {
        Some(crate::text_state::vis_ids(t, t.len() as int)[pos - 1])
    }
}

impl ContainerRegistry {
    /// The materialized value under `key` of the map container `id`.
    pub fn map_get(&self, id: &ContainerID, key: u64) -> (r: Option<u64>)
        requires
            self.wf(),
        ensures
            r == map_value_model(self.model(), *id, key),
    {
        match self.find_idx(id) {
            Some(i) => {
                proof {
                    lemma_reg_model_at(self.containers@, i as int, *id);
                }
                match &self.containers[i].1 {
                    ContainerInstance::MapInstance(m) => m.get(key),
                    ContainerInstance::TextInstance(_) => None,
                }
            },
            None => None,
        }
    }

    /// The visible text of the text container `id`, empty when absent.
    pub fn text_chars(&self, id: &ContainerID) -> (r: Vec<char>)
        requires
            self.wf(),
        ensures
            r@ == crate::text_state::visible(
                text_model_of(self.model(), *id),
                text_model_of(self.model(), *id).len() as int,
            ),
    {
        match self.find_idx(id) {
            Some(i) => {
                proof {
                    lemma_reg_model_at(self.containers@, i as int, *id);
                }
                match &self.containers[i].1 {
                    ContainerInstance::TextInstance(t) => t.value(),
                    ContainerInstance::MapInstance(_) => Vec::new(),
                }
            },
            None => Vec::new(),
        }
    }

    /// The anchor for a local insertion at visible position `pos` of the
    /// text container `id`.
    pub fn text_origin_for(&self, id: &ContainerID, pos: usize) -> (r: Option<OpID>)
        requires
            self.wf(),
            0 < pos <= crate::text_state::visible(
                text_model_of(self.model(), *id),
                text_model_of(self.model(), *id).len() as int,
            ).len(),
        ensures
            r == text_origin_spec(text_model_of(self.model(), *id), pos as int),
    {
        match self.find_idx(id) {
            Some(i) => {
                proof {
                    lemma_reg_model_at(self.containers@, i as int, *id);
                }
                match &self.containers[i].1 {
                    ContainerInstance::TextInstance(t) => {
                        proof {
                            crate::text_state::lemma_vis_lens(t.elems@, t.elems@.len() as int);
                        }
                        Some(t.visible_id_at(pos - 1))
                    },
                    ContainerInstance::MapInstance(_) => {
                        proof {
                            assert(false);
                        }
                        None
                    },
                }
            },
            None => {
                proof {
                    assert(false);
                }
                None
            },
        }
    }

    /// The identifier of the visible element at position `pos` of the text
    /// container `id`: what a local deletion at that position tombstones.
    pub fn text_target_at(&self, id: &ContainerID, pos: usize) -> (r: OpID)
        requires
            self.wf(),
            pos < crate::text_state::visible(
                text_model_of(self.model(), *id),
                text_model_of(self.model(), *id).len() as int,
            ).len(),
        ensures
            r == crate::text_state::vis_ids(
                text_model_of(self.model(), *id),
                text_model_of(self.model(), *id).len() as int,
            )[pos as int],
    {
        match self.find_idx(id) {
            Some(i) => {
                proof {
                    lemma_reg_model_at(self.containers@, i as int, *id);
                }
                match &self.containers[i].1 {
                    ContainerInstance::TextInstance(t) => {
                        proof {
                            crate::text_state::lemma_vis_lens(t.elems@, t.elems@.len() as int);
                        }
                        t.visible_id_at(pos)
                    },
                    ContainerInstance::MapInstance(_) => {
                        proof {
                            assert(false);
                        }
                        OpID { client: 0, counter: 0 }
                    },
                }
            },
            None => {
                proof {
                    assert(false);
                }
                OpID { client: 0, counter: 0 }
            },
        }
    }
}

/// The denoted model agrees with the back-to-front scan on every
/// identifier.
pub proof fn lemma_reg_model_props(s: Seq<(ContainerID, ContainerInstance)>)
    ensures
        forall|id: ContainerID| #[trigger] reg_model(s).dom().contains(id) <==> reg_find(s, id) >= 0,
    decreases s.len(),
{
    if s.len() > 0 {
        lemma_reg_model_props(s.drop_last());
        assert forall|id: ContainerID| #[trigger] reg_model(s).dom().contains(id) <==> reg_find(s, id)
            >= 0 by {
            assert(reg_model(s.drop_last()).dom().contains(id) <==> reg_find(s.drop_last(), id) >= 0);
            assert(reg_model(s) == reg_model(s.drop_last()).insert(s.last().0, s.last().1.model()));
        }
    }
}

/// A container sitting at position `i` of a duplicate-free registry is the
/// one the scan finds.
pub proof fn lemma_reg_find_at(s: Seq<(ContainerID, ContainerInstance)>, i: int, id: ContainerID)
    requires
        unique_cids(s),
        0 <= i < s.len(),
        s[i].0 == id,
    ensures
        reg_find(s, id) == i,
    decreases s.len(),
{
    if i == s.len() - 1 {
    } else {
        assert(s.last().0 != id);
        assert(s.drop_last()[i] == s[i]);
        lemma_reg_find_at(s.drop_last(), i, id);
    }
}

/// An identifier that appears nowhere is not found.
pub proof fn lemma_reg_find_absent(s: Seq<(ContainerID, ContainerInstance)>, id: ContainerID)
    requires
        forall|i: int| 0 <= i < s.len() ==> s[i].0 != id,
    ensures
        reg_find(s, id) == -1,
    decreases s.len(),
{
    if s.len() > 0 {
        lemma_reg_find_absent(s.drop_last(), id);
    }
}

/// When an identifier is not found, no entry carries it.
pub proof fn lemma_reg_find_absent_all(s: Seq<(ContainerID, ContainerInstance)>, id: ContainerID)
    requires
        unique_cids(s),
        reg_find(s, id) == -1,
    ensures
        forall|i: int| 0 <= i < s.len() ==> s[i].0 != id,
{
    assert forall|i: int| 0 <= i < s.len() implies s[i].0 != id by {
        if s[i].0 == id {
            lemma_reg_find_at(s, i, id);
        }
    }
}

/// The model reads at `id` what position `i` holds.
pub proof fn lemma_reg_model_at(s: Seq<(ContainerID, ContainerInstance)>, i: int, id: ContainerID)
    requires
        unique_cids(s),
        0 <= i < s.len(),
        s[i].0 == id,
    ensures
        reg_model(s).dom().contains(id),
        reg_model(s)[id] == s[i].1.model(),
    decreases s.len(),
{
    if i == s.len() - 1 {
    } else {
        assert(s.last().0 != id);
        assert(s.drop_last()[i] == s[i]);
        lemma_reg_model_at(s.drop_last(), i, id);
    }
}

/// Appending a container for a fresh identifier denotes inserting its model.
pub proof fn lemma_reg_model_push(s: Seq<(ContainerID, ContainerInstance)>, id: ContainerID, inst: ContainerInstance)
    ensures
        reg_model(s.push((id, inst))) == reg_model(s).insert(id, inst.model()),
{
    assert(s.push((id, inst)).drop_last() =~= s);
}

/// Replacing the container at position `i` denotes overwriting its model.
pub proof fn lemma_reg_model_update(s: Seq<(ContainerID, ContainerInstance)>, i: int, id: ContainerID, inst: ContainerInstance)
    requires
        unique_cids(s),
        0 <= i < s.len(),
        s[i].0 == id,
    ensures
        reg_model(s.update(i, (id, inst))) == reg_model(s).insert(id, inst.model()),
    decreases s.len(),
{
    let t = s.update(i, (id, inst));
    if i == s.len() - 1 {
        assert(t.last() == (id, inst));
        assert(t.drop_last() =~= s.drop_last());
    } else {
        assert(s.last().0 != id);
        assert(t.last() == s.last());
        assert(t.drop_last() =~= s.drop_last().update(i, (id, inst)));
        assert(s.drop_last()[i] == s[i]);
        lemma_reg_model_update(s.drop_last(), i, id, inst);
        assert(reg_model(t) == reg_model(s.drop_last()).insert(id, inst.model()).insert(s.last().0, s.last().1.model()));
        assert(reg_model(s).insert(id, inst.model())
            =~= reg_model(s.drop_last()).insert(id, inst.model()).insert(s.last().0, s.last().1.model()));
    }
}

} // verus!
