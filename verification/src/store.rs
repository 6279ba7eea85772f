//! The log store: single source of truth for the change history, the
//! merged version vector, and the container registry.

use vstd::prelude::*;

use crate::change::{Change, ChangeData, OpContent, RemoteOp};
use crate::container::ContainerID;
use crate::errors::LoroError;
use crate::id::{ClientID, OpID};
use crate::registry::{apply_op_model, ContainerInstance, ContainerModel, ContainerRegistry};
use crate::version::{seq_get, VersionVector};

verus! {

/// The larger of two integers.
pub open spec fn max_int(a: int, b: int) -> int {
    if a >= b {
        a
    } else {
        b
    }
}

/// How far client `c`'s history extends over the first `n` changes of the
/// log: the end of the last of `c`'s changes among them, 0 when there is
/// none.
pub open spec fn client_end(chs: Seq<Change>, c: ClientID, n: int) -> int
    decreases n,
{
    if n <= 0 {
        0
    } else if chs[n - 1].client == c {
        chs[n - 1].end_spec()
    } else {
        client_end(chs, c, n - 1)
    }
}

/// What routing a prefix of `n` operations authored by `client` does to the
/// registry model, operation by operation.
pub open spec fn apply_ops_model(
    m: Map<ContainerID, ContainerModel>,
    client: ClientID,
    ops: Seq<RemoteOp>,
    n: int,
) -> Map<ContainerID, ContainerModel>
    decreases n,
{
    if n <= 0 {
        m
    } else {
        apply_op_model(apply_ops_model(m, client, ops, n - 1), client, ops[n - 1])
    }
}

/// The dependency list a local change carries: one entry per other client
/// the author has seen anything from, naming the latest operation known.
pub open spec fn deps_complete(deps: Seq<OpID>, vv: VersionVector, client: ClientID) -> bool {
    &&& forall|j: int|
        0 <= j < deps.len() ==> (#[trigger] deps[j]).client != client && vv.get_spec(deps[j].client)
            == deps[j].counter + 1
    &&& forall|c: ClientID|
        c != client && vv.get_spec(c) > 0 ==> exists|j: int|
            0 <= j < deps.len() && (#[trigger] deps[j]).client == c
}

/// Whether `ch` is a value occurring in `s`.
pub open spec fn in_seq(ch: Change, s: Seq<Change>) -> bool {
    exists|i: int| 0 <= i < s.len() && s[i] == ch
}

/// Whether every change of the batch is well formed.
pub open spec fn all_wf(chs: Seq<Change>) -> bool {
    forall|i: int| 0 <= i < chs.len() ==> (#[trigger] chs[i]).wf()
}

/// Whether `vv` already contains every operation of every change of the
/// batch.
pub open spec fn all_covered(chs: Seq<Change>, vv: VersionVector) -> bool {
    forall|i: int| 0 <= i < chs.len() ==> (#[trigger] chs[i]).covered_by_spec(vv)
}

/// Whether `vv1` differs from `vv0` only by ending exactly at the end of
/// some change of the batch, client by client: the frontier never moves but
/// to account for an applied change.
pub open spec fn vv_advance_from(chs: Seq<Change>, vv0: VersionVector, vv1: VersionVector) -> bool {
    forall|c: ClientID|
        #![trigger vv1.get_spec(c)]
        vv1.get_spec(c) == vv0.get_spec(c) || exists|i: int|
            0 <= i < chs.len() && chs[i].client == c && vv1.get_spec(c) == chs[i].end_spec()
}

/// Whether some change of the batch is neither covered by `vv` nor able to
/// apply against it.
pub open spec fn some_blocked(chs: Seq<Change>, vv: VersionVector) -> bool {
    exists|i: int|
        0 <= i < chs.len() && !(#[trigger] chs[i]).covered_by_spec(vv) && !chs[i].applicable_spec(
            vv,
        )
}

/// The frontier for client `c` after the first `n` changes of a batch have
/// been run in order against a store whose frontier was `vv`, each either
/// skipped as already covered or applied.
pub open spec fn vv_after(vv: VersionVector, chs: Seq<Change>, n: int, c: ClientID) -> int
    decreases n,
{
    if n <= 0 {
        vv.get_spec(c) as int
    } else if chs[n - 1].client == c {
        max_int(vv_after(vv, chs, n - 1, c), chs[n - 1].end_spec())
    } else {
        vv_after(vv, chs, n - 1, c)
    }
}

/// Whether the `k`-th change of the batch finds its dependencies met at the
/// frontier the batch itself has built up to that point.
pub open spec fn deps_met_at(vv: VersionVector, chs: Seq<Change>, k: int) -> bool {
    forall|j: int|
        0 <= j < chs[k].deps@.len() ==> vv_after(vv, chs, k, (#[trigger] chs[k].deps@[j]).client)
            > chs[k].deps@[j].counter
}

/// A batch that succeeds in one pass: run in order, every change is either
/// already covered or exactly the next batch for its client with its
/// dependencies met.
pub open spec fn seq_applicable(vv: VersionVector, chs: Seq<Change>) -> bool {
    forall|k: int|
        0 <= k < chs.len() ==> vv_after(vv, chs, k, (#[trigger] chs[k]).client) >= chs[k].end_spec()
            || (vv_after(vv, chs, k, chs[k].client) == chs[k].start_counter && deps_met_at(
            vv,
            chs,
            k,
        ))
}

/// The changes of client `c` among the first `n` whose counter range
/// reaches past `after`, in log order.
pub open spec fn filt_changes(chs: Seq<Change>, c: ClientID, after: int, n: int) -> Seq<ChangeData>
    decreases n,
{
    if n <= 0 {
        Seq::empty()
    } else {
        let rest = filt_changes(chs, c, after, n - 1);
        if chs[n - 1].client == c && chs[n - 1].end_spec() > after {
            rest.push(chs[n - 1]@)
        } else {
            rest
        }
    }
}

/// What applying the changes in order does to the registry model: each
/// change's operations routed to their containers, change after change.
pub open spec fn apply_changes_model(
    m: Map<ContainerID, ContainerModel>,
    chs: Seq<Change>,
) -> Map<ContainerID, ContainerModel>
    decreases chs.len(),
{
    if chs.len() == 0 {
        m
    } else {
        apply_ops_model(
            apply_changes_model(m, chs.drop_last()),
            chs.last().client,
            chs.last().ops@,
            chs.last().ops@.len() as int,
        )
    }
}

/// Walking one element into a suffix: its head, and the suffix one further.
pub proof fn lemma_skip_head(s: Seq<Change>, p: int)
    requires
        0 <= p < s.len(),
    ensures
        s.skip(p).len() == s.len() - p,
        s.skip(p)[0] == s[p],
        s.skip(p).skip(1) == s.skip(p + 1),
{
    assert(s.skip(p).skip(1) =~= s.skip(p + 1));
}

/// Extending the log does not change what a prefix shows.
pub proof fn lemma_client_end_push(chs: Seq<Change>, x: Change, c: ClientID, n: int)
    requires
        0 <= n <= chs.len(),
    ensures
        client_end(chs.push(x), c, n) == client_end(chs, c, n),
    decreases n,
{
    if n > 0 {
        lemma_client_end_push(chs, x, c, n - 1);
    }
}

/// The store: the full change history, the merged frontier, and the
/// containers the history has touched.
pub struct LogStore {
    /// The client identifier local operations are authored under.
    pub client: ClientID,
    /// The causal frontier: everything this store has applied.
    pub vv: VersionVector,
    /// Every change applied so far, local and imported, in application
    /// order.
    pub changes: Vec<Change>,
    /// The containers, addressable by identifier.
    pub registry: ContainerRegistry,
}

impl LogStore {
    /// The store invariant: a well-formed frontier and registry, and a log
    /// whose changes are well formed, sit contiguously per client, account
    /// exactly for the frontier, and whose dependencies — checked when each
    /// change applied — all lie inside the frontier.
    pub open spec fn wf(self) -> bool {
        &&& self.vv.wf()
        &&& self.registry.wf()
        &&& forall|i: int| 0 <= i < self.changes@.len() ==> (#[trigger] self.changes@[i]).wf()
        &&& forall|i: int|
            0 <= i < self.changes@.len() ==> (#[trigger] self.changes@[i]).start_counter
                == client_end(self.changes@, self.changes@[i].client, i)
        &&& forall|c: ClientID|
            #[trigger] self.vv.get_spec(c) == client_end(self.changes@, c, self.changes@.len() as int)
        &&& forall|i: int, j: int|
            0 <= i < self.changes@.len() && 0 <= j < self.changes@[i].deps@.len()
                ==> self.vv.includes_spec(#[trigger] self.changes@[i].deps@[j])
    }

    /// The registry model: every container's mathematical state.
    pub open spec fn model(self) -> Map<ContainerID, ContainerModel> {
        self.registry.model()
    }

    /// What this store's export hands a peer whose frontier is `remote`:
    /// the whole sequence, every known client included.
    pub open spec fn exported_spec(self, remote: VersionVector) -> Seq<ChangeData> {
        self.export_spec(remote, self.vv.entries@.len() as int)
    }

    /// Whether `remote` sits on change boundaries of this store's log:
    /// every change reaching past it lies wholly past it. Frontiers built
    /// by exchange are of this shape, since a frontier only ever moves to
    /// the end of an applied change.
    pub open spec fn aligned_frontier(self, remote: VersionVector) -> bool {
        forall|i: int|
            0 <= i < self.changes@.len() && (#[trigger] self.changes@[i]).end_spec()
                > remote.get_spec(self.changes@[i].client) ==> self.changes@[i].start_counter
                >= remote.get_spec(self.changes@[i].client)
    }

    /// What this store would hand a peer whose frontier is `remote`,
    /// grouped by client in the order the frontier lists them.
    pub open spec fn export_spec(self, remote: VersionVector, m: int) -> Seq<ChangeData>
        decreases m,
    {
        if m <= 0 {
            Seq::empty()
        } else {
            self.export_spec(remote, m - 1) + filt_changes(
                self.changes@,
                self.vv.entries@[m - 1].0,
                remote.get_spec(self.vv.entries@[m - 1].0) as int,
                self.changes@.len() as int,
            )
        }
    }

    /// A fresh store for `client_id`; when none is supplied one is drawn
    /// from the wall clock, unique enough not to collide with peers.
    pub fn new(client_id: Option<ClientID>) -> (r: LogStore)
        ensures
            r.wf(),
            client_id matches Some(c) ==> r.client == c,
            forall|c: ClientID| r.vv.get_spec(c) == 0,
            r.changes@.len() == 0,
            r.model() == Map::<ContainerID, ContainerModel>::empty(),
    {
        let client = match client_id {
            Some(c) => c,
            None => generated_client_id(),
        };
        LogStore {
            client,
            vv: VersionVector::new(),
            changes: Vec::new(),
            registry: ContainerRegistry::new(),
        }
    }

    /// Looks a container up, creating it when the identifier is new. A
    /// request whose type does not match the identifier, or whose root
    /// name is already registered under the other variant, is refused and
    /// mutates nothing.
    pub fn get_or_create_container(&mut self, id: &ContainerID, kind: crate::container::ContainerType) -> (r: Result<(), LoroError>)
        requires
            old(self).wf(),
        ensures
            final(self).wf(),
            final(self).client == old(self).client,
            final(self).vv == old(self).vv,
            final(self).changes@ == old(self).changes@,
            r is Err <==> id.kind_spec() != kind || (id matches ContainerID::Root { name, .. }
                && crate::registry::root_name_conflict(old(self).model(), *name, kind)),
            r is Err ==> r == Err::<(), LoroError>(LoroError::ContainerTypeConflict)
                && *final(self) == *old(self),
            r is Ok ==> final(self).model() == (if old(self).model().dom().contains(*id) {
                old(self).model()
            } else {
                old(self).model().insert(*id, crate::registry::empty_model(id.kind_spec()))
            }),
    {
        match self.registry.get_or_create_container(id, kind) {
            Ok(_) => Ok(()),
            Err(e) => Err(e),
        }
    }

    /// A read-only snapshot of a container's state; `None` when the
    /// identifier was never created.
    pub fn get_container(&self, id: &ContainerID) -> (r: Option<ContainerInstance>)
        requires
            self.wf(),
        ensures
            (r is Some) == self.model().dom().contains(*id),
            r matches Some(inst) ==> inst.wf() && inst.model() == self.model()[*id],
    {
        match self.registry.find_idx(id) {
            Some(i) => {
                proof {
                    crate::registry::lemma_reg_model_at(self.registry.containers@, i as int, *id);
                }
                Some(self.registry.containers[i].1.snapshot())
            },
            None => None,
        }
    }

    /// Appends one locally authored operation: assigns it the client's next
    /// counter, seals it as a one-operation change depending on everything
    /// else the store has seen, applies it to its container, and advances
    /// the frontier.
    pub fn append_local(&mut self, container: ContainerID, content: OpContent)
        requires
            old(self).wf(),
            content.kind_spec() == container.kind_spec(),
            old(self).vv.get_spec(old(self).client) < u64::MAX,
        ensures
            final(self).wf(),
            final(self).client == old(self).client,
            final(self).vv.get_spec(old(self).client) == old(self).vv.get_spec(old(self).client)
                + 1,
            forall|c: ClientID|
                c != old(self).client ==> final(self).vv.get_spec(c) == old(self).vv.get_spec(c),
            final(self).changes@.len() == old(self).changes@.len() + 1,
            forall|i: int|
                0 <= i < old(self).changes@.len() ==> final(self).changes@[i] == old(
                    self,
                ).changes@[i],
            final(self).changes@.last()@.client == old(self).client,
            final(self).changes@.last()@.start_counter == old(self).vv.get_spec(old(self).client),
            final(self).changes@.last()@.ops == seq![
                (RemoteOp {
                    container,
                    content,
                    counter: old(self).vv.get_spec(old(self).client),
                }),
            ],
            deps_complete(final(self).changes@.last()@.deps, old(self).vv, old(self).client),
            final(self).model() == apply_op_model(
                old(self).model(),
                old(self).client,
                (RemoteOp { container, content, counter: old(self).vv.get_spec(old(self).client) }),
            ),
    {
        let ghost m0 = self.model();
        let counter = self.vv.get(self.client);
        let op = RemoteOp { container, content, counter };
        let deps = self.frontier_deps();
        let mut ops: Vec<RemoteOp> = Vec::new();
        ops.push(op);
        let ch = Change {
            client: self.client,
            start_counter: counter,
            ops,
            deps,
            timestamp: 0,
        };
        proof {
            assert(ch.wf());
            assert(ch@.ops =~= seq![op]);
            assert forall|j: int| 0 <= j < ch.deps@.len() implies self.vv.includes_spec(
                #[trigger] ch.deps@[j],
            ) by {
                assert(self.vv.get_spec(ch.deps@[j].client) == ch.deps@[j].counter + 1);
            }
        }
        self.apply_change(ch);
        proof {
            assert(self.changes@.last() == ch);
            assert(ch.ops@.len() == 1 && ch.ops@[0] == op);
            assert(apply_ops_model(m0, ch.client, ch.ops@, 0) == m0);
            assert(apply_ops_model(m0, ch.client, ch.ops@, 1) == apply_op_model(m0, ch.client, op));
        }
    }

    /// The current frontier, as the dependency list of a new local change:
    /// the latest known operation of every other client.
    fn frontier_deps(&self) -> (r: Vec<OpID>)
        requires
            self.wf(),
        ensures
            deps_complete(r@, self.vv, self.client),
            forall|i: int, j: int| 0 <= i < j < r@.len() ==> r@[i].client != r@[j].client,
    {
        let mut out: Vec<OpID> = Vec::new();
        let n = self.vv.entries.len();
        let mut i: usize = 0;
        while i < n
            invariant
                self.wf(),
                n == self.vv.entries@.len(),
                i <= n,
                forall|j: int|
                    0 <= j < out@.len() ==> (#[trigger] out@[j]).client != self.client
                        && self.vv.get_spec(out@[j].client) == out@[j].counter + 1,
                forall|j: int|
                    0 <= j < out@.len() ==> exists|k: int|
                        0 <= k < i && (#[trigger] out@[j]).client == self.vv.entries@[k].0,
                forall|j1: int, j2: int|
                    0 <= j1 < j2 < out@.len() ==> out@[j1].client != out@[j2].client,
                forall|c: ClientID|
                    c != self.client && seq_get(self.vv.entries@.take(i as int), c) > 0
                        ==> exists|j: int|
                        0 <= j < out@.len() && (#[trigger] out@[j]).client == c,
            decreases n - i,
        {
            let (c, v) = self.vv.entries[i];
            proof {
                crate::version::lemma_seq_get_at(self.vv.entries@, i as int, c);
                crate::version::lemma_seq_get_take_absent(self.vv.entries@, i as int, c);
                assert(self.vv.entries@.take(i as int + 1).drop_last() =~= self.vv.entries@.take(
                    i as int,
                ));
            }
            let ghost out_before = out@;
            if c != self.client && v > 0 {
                out.push(OpID { client: c, counter: v - 1 });
            }
            proof {
                assert forall|j1: int, j2: int|
                    0 <= j1 < j2 < out@.len() implies out@[j1].client != out@[j2].client by {
                    if j2 == out_before.len() {
                        let k1 = choose|k: int|
                            0 <= k < i && (#[trigger] out_before[j1]).client
                                == self.vv.entries@[k].0;
                        assert(self.vv.entries@[k1].0 != self.vv.entries@[i as int].0);
                    } else {
                        assert(out@[j1] == out_before[j1] && out@[j2] == out_before[j2]);
                    }
                }
                assert forall|j: int| 0 <= j < out@.len() implies exists|k: int|
                    0 <= k < i + 1 && (#[trigger] out@[j]).client == self.vv.entries@[k].0 by {
                    if j < out_before.len() {
                        let k0 = choose|k: int|
                            0 <= k < i && (#[trigger] out_before[j]).client
                                == self.vv.entries@[k].0;
                        assert(out@[j].client == self.vv.entries@[k0].0);
                    } else {
                        assert(out@[j].client == self.vv.entries@[i as int].0);
                    }
                }
                let t1 = self.vv.entries@.take(i as int + 1);
                assert forall|c2: ClientID|
                    c2 != self.client && seq_get(t1, c2) > 0 implies exists|j: int|
                    0 <= j < out@.len() && (#[trigger] out@[j]).client == c2 by {
                    if c2 == c {
                        assert(seq_get(t1, c) == v);
                        assert(out@[out@.len() - 1].client == c);
                    } else {
                        assert(seq_get(t1, c2) == seq_get(self.vv.entries@.take(i as int), c2));
                        let j0 = choose|j: int|
                            0 <= j < out_before.len() && (#[trigger] out_before[j]).client == c2;
                        assert(out@[j0].client == c2);
                    }
                }
            }
            i += 1;
        }
        proof {
            assert(self.vv.entries@.take(n as int) =~= self.vv.entries@);
        }
        out
    }

    /// Applies one change that is exactly the next batch for its client:
    /// routes its operations to their containers in order, advances the
    /// frontier to the change's end, and records the change in the log.
    pub fn apply_change(&mut self, ch: Change)
        requires
            old(self).wf(),
            ch.wf(),
            old(self).vv.get_spec(ch.client) == ch.start_counter,
            ch.deps_met_spec(old(self).vv),
        ensures
            final(self).wf(),
            final(self).client == old(self).client,
            final(self).changes@ == old(self).changes@.push(ch),
            final(self).vv.get_spec(ch.client) == ch.end_spec(),
            forall|c: ClientID|
                c != ch.client ==> final(self).vv.get_spec(c) == old(self).vv.get_spec(c),
            final(self).model() == apply_ops_model(
                old(self).model(),
                ch.client,
                ch.ops@,
                ch.ops@.len() as int,
            ),
    {
        let ghost m0 = self.model();
        let end = ch.end();
        let n = ch.ops.len();
        let mut i: usize = 0;
        while i < n
            invariant
                self.registry.wf(),
                self.vv == old(self).vv,
                self.changes@ == old(self).changes@,
                self.client == old(self).client,
                ch.wf(),
                n == ch.ops@.len(),
                i <= n,
                self.model() == apply_ops_model(m0, ch.client, ch.ops@, i as int),
            decreases n - i,
        {
            let op = ch.ops[i];
            self.registry.apply_op(ch.client, &op);
            i += 1;
        }
        let res = self.vv.set_end(ch.client, end);
        proof {
            assert(res is Ok);
        }
        let ghost chs0 = self.changes@;
        self.changes.push(ch);
        proof {
            let chs1 = self.changes@;
            assert(chs1 == chs0.push(ch));
            assert forall|i2: int| 0 <= i2 < chs1.len() implies (#[trigger] chs1[i2]).start_counter
                == client_end(chs1, chs1[i2].client, i2) by {
                lemma_client_end_push(chs0, ch, chs1[i2].client, i2);
                if i2 < chs0.len() {
                    assert(chs1[i2] == chs0[i2]);
                } else {
                    assert(chs1[i2] == ch);
                    assert(old(self).vv.get_spec(ch.client) == client_end(chs0, ch.client, chs0.len() as int));
                }
            }
            assert forall|c: ClientID| #[trigger] self.vv.get_spec(c) == client_end(
                chs1,
                c,
                chs1.len() as int,
            ) by {
                lemma_client_end_push(chs0, ch, c, chs0.len() as int);
                if c == ch.client {
                } else {
                    assert(old(self).vv.get_spec(c) == client_end(chs0, c, chs0.len() as int));
                }
            }
            assert forall|c: ClientID| old(self).vv.get_spec(c) <= self.vv.get_spec(c) by {
                assert(ch.start_counter <= ch.end_spec());
            }
            assert forall|i2: int, j2: int|
                0 <= i2 < chs1.len() && 0 <= j2 < chs1[i2].deps@.len() implies self.vv.includes_spec(
                #[trigger] chs1[i2].deps@[j2],
            ) by {
                if i2 < chs0.len() {
                    assert(chs1[i2] == chs0[i2]);
                    assert(old(self).vv.includes_spec(chs0[i2].deps@[j2]));
                } else {
                    assert(chs1[i2] == ch);
                    assert(old(self).vv.includes_spec(ch.deps@[j2]));
                }
            }
        }
    }

    /// Merges a batch of changes, possibly from many clients and out of
    /// causal order. Changes the frontier already covers are skipped and
    /// counted; the rest are applied as soon as their dependencies are met,
    /// by repeated passes over the still-pending set; if a full pass helps
    /// nothing and changes are still pending, the batch is missing history
    /// and the import stops, keeping the progress already made. The
    /// containers change exactly by the applied changes' operations, in
    /// application order; pending and duplicate changes touch nothing.
    #[verifier::rlimit(100)]
    #[verifier::loop_isolation(false)]
    pub fn import(&mut self, changes: Vec<Change>) -> (r: Result<usize, LoroError>)
        requires
            old(self).wf(),
            all_wf(changes@),
        ensures
            final(self).wf(),
            final(self).client == old(self).client,
            old(self).changes@.is_prefix_of(final(self).changes@),
            forall|k: int|
                old(self).changes@.len() <= k < final(self).changes@.len() ==> in_seq(
                    #[trigger] final(self).changes@[k],
                    changes@,
                ),
            final(self).model() == apply_changes_model(
                old(self).model(),
                final(self).changes@.skip(old(self).changes@.len() as int),
            ),
            forall|c: ClientID| old(self).vv.get_spec(c) <= final(self).vv.get_spec(c),
            vv_advance_from(changes@, old(self).vv, final(self).vv),
            r matches Ok(d) ==> d <= changes@.len() && all_covered(changes@, final(self).vv),
            all_covered(changes@, old(self).vv) ==> *final(self) == *old(self) && r
                == Ok::<usize, LoroError>(changes@.len() as usize),
            r is Err ==> r == Err::<usize, LoroError>(LoroError::MissingDependency)
                && some_blocked(changes@, final(self).vv),
            (changes@.len() == 1 && !changes@[0].covered_by_spec(old(self).vv)
                && !changes@[0].applicable_spec(old(self).vv)) ==> *final(self) == *old(self)
                && r is Err,
            seq_applicable(old(self).vv, changes@) ==> r is Ok,
            r is Ok <==> !some_blocked(changes@, final(self).vv),
    {
        let n_input: usize = changes.len();
        let ghost input = changes@;
        let mut pending = changes;
        let mut dup: usize = 0;
        let ghost mut applied_total: int = 0;
        proof {
            assert(self.changes@.skip(old(self).changes@.len() as int) =~= Seq::<Change>::empty());
        }
        loop
            invariant
                self.wf(),
                self.client == old(self).client,
                old(self).changes@.is_prefix_of(self.changes@),
                forall|k: int|
                    old(self).changes@.len() <= k < self.changes@.len() ==> in_seq(
                        #[trigger] self.changes@[k],
                        input,
                    ),
                self.model() == apply_changes_model(
                    old(self).model(),
                    self.changes@.skip(old(self).changes@.len() as int),
                ),
                n_input == input.len(),
                all_wf(input),
                dup + applied_total + pending@.len() == input.len(),
                0 <= applied_total,
                forall|k: int| 0 <= k < pending@.len() ==> in_seq(#[trigger] pending@[k], input),
                forall|c: ClientID| old(self).vv.get_spec(c) <= self.vv.get_spec(c),
                vv_advance_from(input, old(self).vv, self.vv),
                forall|i: int|
                    0 <= i < input.len() ==> (#[trigger] input[i]).covered_by_spec(self.vv)
                        || in_seq(input[i], pending@),
                all_covered(input, old(self).vv) ==> *self == *old(self) && applied_total == 0
                    && dup == 0 && pending@ == input,
                (input.len() == 1 && !input[0].covered_by_spec(old(self).vv)
                    && !input[0].applicable_spec(old(self).vv)) ==> *self == *old(self) && dup == 0
                    && applied_total == 0 && pending@ == input,
                seq_applicable(old(self).vv, input) ==> *self == *old(self) && dup == 0
                    && applied_total == 0 && pending@ == input,
            decreases pending@.len(),
        {
            let ghost pass_vv = self.vv;
            let ghost pend0 = pending@;
            let ghost applied_entry = applied_total;
            let ghost dup_entry = dup;
            let mut next: Vec<Change> = Vec::new();
            let mut progress = false;
            while pending.len() > 0
                invariant
                    self.wf(),
                    self.client == old(self).client,
                    old(self).changes@.is_prefix_of(self.changes@),
                    forall|k: int|
                        old(self).changes@.len() <= k < self.changes@.len() ==> in_seq(
                            #[trigger] self.changes@[k],
                            input,
                        ),
                    self.model() == apply_changes_model(
                        old(self).model(),
                        self.changes@.skip(old(self).changes@.len() as int),
                    ),
                    n_input == input.len(),
                    all_wf(input),
                    dup + applied_total + pending@.len() + next@.len() == input.len(),
                    applied_entry <= applied_total,
                    dup_entry <= dup,
                    forall|k: int|
                        0 <= k < pending@.len() ==> in_seq(#[trigger] pending@[k], input),
                    forall|k: int| 0 <= k < next@.len() ==> in_seq(#[trigger] next@[k], input),
                    forall|c: ClientID| old(self).vv.get_spec(c) <= self.vv.get_spec(c),
                    vv_advance_from(input, old(self).vv, self.vv),
                    forall|i: int|
                        0 <= i < input.len() ==> (#[trigger] input[i]).covered_by_spec(self.vv)
                            || in_seq(input[i], pending@) || in_seq(input[i], next@),
                    !progress ==> self.vv == pass_vv && applied_total == applied_entry,
                    !progress ==> forall|k: int|
                        0 <= k < next@.len() ==> !(#[trigger] next@[k]).covered_by_spec(self.vv)
                            && !next@[k].applicable_spec(self.vv),
                    progress ==> applied_entry < applied_total,
                    all_covered(input, old(self).vv) ==> *self == *old(self) && applied_total == 0
                        && next@.len() == 0,
                    (input.len() == 1 && !input[0].covered_by_spec(old(self).vv)
                        && !input[0].applicable_spec(old(self).vv)) ==> *self == *old(self) && dup
                        == 0 && applied_total == 0 && !progress && (pending@ == input || next@
                        == input),
                    seq_applicable(old(self).vv, input) ==> next@.len() == 0 && pending@
                        == input.skip(input.len() - pending@.len()) && (forall|c: ClientID|
                        #![trigger self.vv.get_spec(c)]
                        self.vv.get_spec(c) == vv_after(
                            old(self).vv,
                            input,
                            input.len() - pending@.len(),
                            c,
                        )),
                decreases pending@.len(),
            {
                let ghost pend_cur = pending@;
                let ghost p = input.len() - pend_cur.len();
                let ch = pending.remove(0);
                proof {
                    assert(pending@ =~= pend_cur.skip(1));
                    assert(in_seq(ch, input));
                    let i0 = choose|i: int| 0 <= i < input.len() && input[i] == ch;
                    assert(input[i0].wf());
                    assert(ch.wf());
                }
                let cend = ch.end();
                let cur = self.vv.get(ch.client);
                let ghost s_mid = *self;
                if cur >= cend {
                    proof {
                        assert(dup < n_input);
                        assert(ch.covered_by_spec(self.vv));
                        assert forall|i: int|
                            0 <= i < input.len() implies (#[trigger] input[i]).covered_by_spec(
                            self.vv,
                        ) || in_seq(input[i], pending@) || in_seq(input[i], next@) by {
                            if !input[i].covered_by_spec(self.vv) && in_seq(input[i], pend_cur) {
                                let k0 = choose|k: int|
                                    0 <= k < pend_cur.len() && pend_cur[k] == input[i];
                                if k0 == 0 {
                                    assert(input[i] == ch);
                                } else {
                                    assert(pending@[k0 - 1] == input[i]);
                                }
                            }
                        }
                        if seq_applicable(old(self).vv, input) {
                            assert(pend_cur == input.skip(p as int));
                            lemma_skip_head(input, p);
                            assert(pend_cur[0] == input[p]);
                            assert(pending@ =~= input.skip(p + 1));
                            assert forall|c: ClientID|
                                #![trigger self.vv.get_spec(c)]
                                self.vv.get_spec(c) == vv_after(
                                    old(self).vv,
                                    input,
                                    p + 1,
                                    c,
                                ) by {
                                assert(self.vv.get_spec(c) == vv_after(old(self).vv, input, p, c));
                            }
                        }
                        if input.len() == 1 && !input[0].covered_by_spec(old(self).vv)
                            && !input[0].applicable_spec(old(self).vv) {
                            assert(ch == input[0]);
                            assert(false);
                        }
                    }
                    dup = dup + 1;
                } else if cur == ch.start_counter && ch.deps_met(&self.vv) {
                    proof {
                        if all_covered(input, old(self).vv) {
                            let i0 = choose|i: int| 0 <= i < input.len() && input[i] == ch;
                            assert(input[i0].covered_by_spec(old(self).vv));
                            assert(false);
                        }
                        if input.len() == 1 && !input[0].covered_by_spec(old(self).vv)
                            && !input[0].applicable_spec(old(self).vv) {
                            assert(ch == input[0]);
                            assert(false);
                        }
                    }
                    self.apply_change(ch);
                    progress = true;
                    proof {
                        applied_total = applied_total + 1;
                        let plen = old(self).changes@.len() as int;
                        assert(self.changes@ == s_mid.changes@.push(ch));
                        assert(self.changes@.skip(plen) =~= s_mid.changes@.skip(plen).push(ch));
                        assert(self.changes@.skip(plen).drop_last() =~= s_mid.changes@.skip(plen));
                        assert forall|k2: int|
                            plen <= k2 < self.changes@.len() implies in_seq(
                            #[trigger] self.changes@[k2],
                            input,
                        ) by {
                            if k2 < self.changes@.len() - 1 {
                                assert(self.changes@[k2] == s_mid.changes@[k2]);
                            } else {
                                assert(self.changes@[k2] == ch);
                            }
                        }
                        assert(ch.covered_by_spec(self.vv));
                        assert forall|i: int|
                            0 <= i < input.len() implies (#[trigger] input[i]).covered_by_spec(
                            self.vv,
                        ) || in_seq(input[i], pending@) || in_seq(input[i], next@) by {
                            if input[i].covered_by_spec(s_mid.vv) {
                                assert(s_mid.vv.get_spec(input[i].client) <= self.vv.get_spec(
                                    input[i].client,
                                ));
                            } else if in_seq(input[i], pend_cur) {
                                let k0 = choose|k: int|
                                    0 <= k < pend_cur.len() && pend_cur[k] == input[i];
                                if k0 == 0 {
                                    assert(input[i] == ch);
                                } else {
                                    assert(pending@[k0 - 1] == input[i]);
                                }
                            }
                        }
                        assert forall|c: ClientID|
                            #![trigger self.vv.get_spec(c)]
                            old(self).vv.get_spec(c) <= self.vv.get_spec(c) by {
                            assert(old(self).vv.get_spec(c) <= s_mid.vv.get_spec(c));
                        }
                        if seq_applicable(old(self).vv, input) {
                            assert(pend_cur == input.skip(p as int));
                            lemma_skip_head(input, p);
                            assert(pend_cur[0] == input[p]);
                            assert(pending@ =~= input.skip(p + 1));
                            assert forall|c: ClientID|
                                #![trigger self.vv.get_spec(c)]
                                self.vv.get_spec(c) == vv_after(
                                    old(self).vv,
                                    input,
                                    p + 1,
                                    c,
                                ) by {
                                assert(s_mid.vv.get_spec(c) == vv_after(old(self).vv, input, p, c));
                            }
                        }
                    }
                } else {
                    proof {
                        if all_covered(input, old(self).vv) {
                            let i0 = choose|i: int| 0 <= i < input.len() && input[i] == ch;
                            assert(input[i0].covered_by_spec(old(self).vv));
                            assert(false);
                        }
                        if seq_applicable(old(self).vv, input) {
                            assert(pend_cur == input.skip(p as int));
                            lemma_skip_head(input, p);
                            assert(pend_cur[0] == input[p]);
                            assert(self.vv.get_spec(ch.client) == vv_after(
                                old(self).vv,
                                input,
                                p,
                                ch.client,
                            ));
                            if cur == ch.start_counter {
                                assert forall|j: int|
                                    0 <= j < ch.deps@.len() implies self.vv.includes_spec(
                                    #[trigger] ch.deps@[j],
                                ) by {
                                    assert(vv_after(
                                        old(self).vv,
                                        input,
                                        p,
                                        ch.deps@[j].client,
                                    ) > ch.deps@[j].counter);
                                    assert(self.vv.get_spec(ch.deps@[j].client) == vv_after(
                                        old(self).vv,
                                        input,
                                        p,
                                        ch.deps@[j].client,
                                    ));
                                }
                                assert(ch.deps_met_spec(self.vv));
                                assert(false);
                            } else {
                                assert(false);
                            }
                        }
                    }
                    let ghost next0 = next@;
                    next.push(ch);
                    proof {
                        assert(next@.last() == ch);
                        assert forall|i: int|
                            0 <= i < input.len() implies (#[trigger] input[i]).covered_by_spec(
                            self.vv,
                        ) || in_seq(input[i], pending@) || in_seq(input[i], next@) by {
                            if !input[i].covered_by_spec(self.vv) {
                                if in_seq(input[i], pend_cur) {
                                    let k0 = choose|k: int|
                                        0 <= k < pend_cur.len() && pend_cur[k] == input[i];
                                    if k0 == 0 {
                                        assert(input[i] == ch);
                                        assert(next@[next@.len() - 1] == input[i]);
                                    } else {
                                        assert(pending@[k0 - 1] == input[i]);
                                    }
                                } else if in_seq(input[i], next0) {
                                    let k1 = choose|k: int|
                                        0 <= k < next0.len() && next0[k] == input[i];
                                    assert(next@[k1] == input[i]);
                                }
                            }
                        }
                    }
                }
            }
            if next.len() == 0 {
                proof {
                    if all_covered(input, old(self).vv) {
                        assert(dup == input.len());
                    }
                    assert(all_covered(input, self.vv));
                }
                return Ok(dup);
            }
            if !progress {
                proof {
                    assert(!next@[0].covered_by_spec(self.vv) && !next@[0].applicable_spec(
                        self.vv,
                    ));
                    assert(in_seq(next@[0], input));
                    let i0 = choose|i: int| 0 <= i < input.len() && input[i] == next@[0];
                    assert(!(input[i0]).covered_by_spec(self.vv) && !input[i0].applicable_spec(
                        self.vv,
                    ));
                    assert(some_blocked(input, self.vv));
                    if all_covered(input, old(self).vv) {
                        assert(false);
                    }
                    if seq_applicable(old(self).vv, input) {
                        assert(false);
                    }
                }
                return Err(LoroError::MissingDependency);
            }
            proof {
                assert(next@.len() < pend0.len());
            }
            pending = next;
        }
    }
    /// The changes a peer at frontier `remote` is missing: for every client
    /// this store knows, every change reaching past what the peer already
    /// has, grouped by client and ascending by counter.
    pub fn export(&self, remote: &VersionVector) -> (r: Vec<Change>)
        requires
            self.wf(),
            remote.wf(),
        ensures
            r@.len() == self.export_spec(*remote, self.vv.entries@.len() as int).len(),
            forall|k: int|
                0 <= k < r@.len() ==> (#[trigger] r@[k])@ == self.export_spec(
                    *remote,
                    self.vv.entries@.len() as int,
                )[k],
    {
        let mut out: Vec<Change> = Vec::new();
        let m_total = self.vv.entries.len();
        let n_total = self.changes.len();
        let mut m: usize = 0;
        while m < m_total
            invariant
                self.wf(),
                remote.wf(),
                m_total == self.vv.entries@.len(),
                n_total == self.changes@.len(),
                m <= m_total,
                out@.len() == self.export_spec(*remote, m as int).len(),
                forall|k: int|
                    0 <= k < out@.len() ==> (#[trigger] out@[k])@ == self.export_spec(
                        *remote,
                        m as int,
                    )[k],
            decreases m_total - m,
        {
            let c = self.vv.entries[m].0;
            let after = remote.get(c);
            let ghost base = self.export_spec(*remote, m as int);
            let mut n: usize = 0;
            while n < n_total
                invariant
                    self.wf(),
                    remote.wf(),
                    n_total == self.changes@.len(),
                    n <= n_total,
                    c == self.vv.entries@[m as int].0,
                    after == remote.get_spec(c),
                    out@.len() == base.len() + filt_changes(
                        self.changes@,
                        c,
                        after as int,
                        n as int,
                    ).len(),
                    forall|k: int|
                        0 <= k < out@.len() ==> (#[trigger] out@[k])@ == (base + filt_changes(
                            self.changes@,
                            c,
                            after as int,
                            n as int,
                        ))[k],
                decreases n_total - n,
            {
                let ch = &self.changes[n];
                if ch.client == c && ch.end() > after {
                    out.push(ch.snapshot());
                }
                n += 1;
            }
            m += 1;
        }
        out
    }
}

/// Every element of the filtered sequence is one of the log's changes of
/// the right client, reaching past `after`.
pub proof fn lemma_filt_elements(chs: Seq<Change>, c: ClientID, after: int, n: int, k: int)
    requires
        0 <= n <= chs.len(),
        0 <= k < filt_changes(chs, c, after, n).len(),
    ensures
        exists|i: int|
            0 <= i < n && #[trigger] chs[i]@ == filt_changes(chs, c, after, n)[k] && chs[i].client
                == c && chs[i].end_spec() > after,
    decreases n,
{
    let f = filt_changes(chs, c, after, n);
    if chs[n - 1].client == c && chs[n - 1].end_spec() > after && k == f.len() - 1 {
        assert(chs[n - 1]@ == f[k]);
    } else {
        lemma_filt_elements(chs, c, after, n - 1, k);
        let i = choose|i: int|
            0 <= i < n - 1 && #[trigger] chs[i]@ == filt_changes(chs, c, after, n - 1)[k]
                && chs[i].client == c && chs[i].end_spec() > after;
        assert(chs[i]@ == f[k]);
    }
}

/// Every element of an export is one of the log's changes, reaching past
/// the remote frontier for its client.
pub proof fn lemma_export_elements(a: LogStore, remote: VersionVector, m: int, k: int)
    requires
        a.vv.wf(),
        0 <= m <= a.vv.entries@.len(),
        0 <= k < a.export_spec(remote, m).len(),
    ensures
        exists|i: int|
            0 <= i < a.changes@.len() && #[trigger] a.changes@[i]@ == a.export_spec(remote, m)[k]
                && a.changes@[i].end_spec() > remote.get_spec(a.changes@[i].client),
    decreases m,
{
    let base = a.export_spec(remote, m - 1);
    if k < base.len() {
        lemma_export_elements(a, remote, m - 1, k);
        let i = choose|i: int|
            0 <= i < a.changes@.len() && #[trigger] a.changes@[i]@ == a.export_spec(
                remote,
                m - 1,
            )[k] && a.changes@[i].end_spec() > remote.get_spec(a.changes@[i].client);
        assert(a.changes@[i]@ == a.export_spec(remote, m)[k]);
    } else {
        let c = a.vv.entries@[m - 1].0;
        let after = remote.get_spec(c) as int;
        lemma_filt_elements(a.changes@, c, after, a.changes@.len() as int, k - base.len());
        let i = choose|i: int|
            0 <= i < a.changes@.len() && #[trigger] a.changes@[i]@ == filt_changes(
                a.changes@,
                c,
                after,
                a.changes@.len() as int,
            )[k - base.len()] && a.changes@[i].client == c && a.changes@[i].end_spec() > after;
        assert(a.changes@[i]@ == a.export_spec(remote, m)[k]);
    }
}

/// Every counter below a client's log extent lies inside one of that
/// client's changes: the log has no gaps.
pub proof fn lemma_containing_change(chs: Seq<Change>, c: ClientID, n: int, k: int)
    requires
        0 <= n <= chs.len(),
        forall|i: int|
            0 <= i < chs.len() ==> (#[trigger] chs[i]).start_counter == client_end(
                chs,
                chs[i].client,
                i,
            ),
        0 <= k < client_end(chs, c, n),
    ensures
        exists|i: int|
            0 <= i < n && (#[trigger] chs[i]).client == c && chs[i].start_counter <= k
                < chs[i].end_spec(),
    decreases n,
{
    if chs[n - 1].client == c {
        if k >= chs[n - 1].start_counter {
            assert(chs[n - 1].client == c && chs[n - 1].start_counter <= k < chs[n - 1].end_spec());
        } else {
            assert(chs[n - 1].start_counter == client_end(chs, c, n - 1));
            lemma_containing_change(chs, c, n - 1, k);
        }
    } else {
        lemma_containing_change(chs, c, n - 1, k);
    }
}

/// A nonzero per-client log extent is the end of one of that client's
/// changes.
pub proof fn lemma_client_end_witness(chs: Seq<Change>, c: ClientID, n: int)
    requires
        0 <= n <= chs.len(),
    ensures
        client_end(chs, c, n) == 0 || exists|i: int|
            0 <= i < n && (#[trigger] chs[i]).client == c && chs[i].end_spec() == client_end(
                chs,
                c,
                n,
            ),
    decreases n,
{
    if n > 0 {
        if chs[n - 1].client == c {
            assert(chs[n - 1].client == c && chs[n - 1].end_spec() == client_end(chs, c, n));
        } else {
            lemma_client_end_witness(chs, c, n - 1);
        }
    }
}

/// A change of the right client reaching past `after` occurs in the
/// filtered sequence.
pub proof fn lemma_filt_contains(chs: Seq<Change>, c: ClientID, after: int, n: int, i: int)
    requires
        0 <= i < n <= chs.len(),
        chs[i].client == c,
        chs[i].end_spec() > after,
    ensures
        exists|k: int|
            0 <= k < filt_changes(chs, c, after, n).len() && #[trigger] filt_changes(
                chs,
                c,
                after,
                n,
            )[k] == chs[i]@,
    decreases n,
{
    if i == n - 1 {
        let f = filt_changes(chs, c, after, n);
        assert(f[f.len() - 1] == chs[i]@);
    } else {
        lemma_filt_contains(chs, c, after, n - 1, i);
        let k = choose|k: int|
            0 <= k < filt_changes(chs, c, after, n - 1).len() && #[trigger] filt_changes(
                chs,
                c,
                after,
                n - 1,
            )[k] == chs[i]@;
        assert(filt_changes(chs, c, after, n)[k] == chs[i]@);
    }
}

/// Every element of one client's filtered segment occurs in the whole
/// export.
pub proof fn lemma_export_contains(a: LogStore, remote: VersionVector, m: int, j: int, k: int)
    requires
        0 <= j < m <= a.vv.entries@.len(),
        0 <= k < filt_changes(
            a.changes@,
            a.vv.entries@[j].0,
            remote.get_spec(a.vv.entries@[j].0) as int,
            a.changes@.len() as int,
        ).len(),
    ensures
        exists|k2: int|
            0 <= k2 < a.export_spec(remote, m).len() && #[trigger] a.export_spec(remote, m)[k2]
                == filt_changes(
                a.changes@,
                a.vv.entries@[j].0,
                remote.get_spec(a.vv.entries@[j].0) as int,
                a.changes@.len() as int,
            )[k],
    decreases m,
{
    let seg = filt_changes(
        a.changes@,
        a.vv.entries@[j].0,
        remote.get_spec(a.vv.entries@[j].0) as int,
        a.changes@.len() as int,
    );
    if j == m - 1 {
        let k2 = a.export_spec(remote, m - 1).len() + k;
        assert(a.export_spec(remote, m)[k2 as int] == seg[k]);
    } else {
        lemma_export_contains(a, remote, m - 1, j, k);
        let k2 = choose|k2: int|
            0 <= k2 < a.export_spec(remote, m - 1).len() && #[trigger] a.export_spec(
                remote,
                m - 1,
            )[k2] == seg[k];
        assert(a.export_spec(remote, m)[k2] == seg[k]);
    }
}

/// The export/import round trip dominates: when a peer whose frontier was
/// `remote` has imported everything `a` exported against `remote` — its
/// frontier `b_vv` covers every exported change and is no older than
/// `remote` was — that frontier dominates `a`'s frontier at export time,
/// pointwise for every client.
pub proof fn lemma_round_trip(a: LogStore, remote: VersionVector, b_vv: VersionVector)
    requires
        a.wf(),
        forall|k: int|
            0 <= k < a.export_spec(remote, a.vv.entries@.len() as int).len()
                ==> (#[trigger] a.export_spec(remote, a.vv.entries@.len() as int)[k]).covered_by_spec(
                b_vv,
            ),
        forall|c: ClientID| remote.get_spec(c) <= b_vv.get_spec(c),
    ensures
        forall|c: ClientID| a.vv.get_spec(c) <= b_vv.get_spec(c),
{
    let chs = a.changes@;
    let n = chs.len() as int;
    let m = a.vv.entries@.len() as int;
    assert forall|c: ClientID| a.vv.get_spec(c) <= b_vv.get_spec(c) by {
        if a.vv.get_spec(c) > remote.get_spec(c) {
            assert(a.vv.get_spec(c) == client_end(chs, c, n));
            lemma_client_end_witness(chs, c, n);
            let i = choose|i: int|
                0 <= i < n && (#[trigger] chs[i]).client == c && chs[i].end_spec() == client_end(
                    chs,
                    c,
                    n,
                );
            crate::version::lemma_seq_get_nonzero_exists(a.vv.entries@, c);
            let j = choose|j: int|
                0 <= j < a.vv.entries@.len() && (#[trigger] a.vv.entries@[j]).0 == c;
            lemma_filt_contains(chs, c, remote.get_spec(c) as int, n, i);
            let k = choose|k: int|
                0 <= k < filt_changes(chs, c, remote.get_spec(c) as int, n).len()
                    && #[trigger] filt_changes(chs, c, remote.get_spec(c) as int, n)[k] == chs[i]@;
            lemma_export_contains(a, remote, m, j, k);
            let k2 = choose|k2: int|
                0 <= k2 < a.export_spec(remote, m).len() && #[trigger] a.export_spec(remote, m)[k2]
                    == filt_changes(chs, c, remote.get_spec(c) as int, n)[k];
            assert(a.export_spec(remote, m)[k2].covered_by_spec(b_vv));
            assert(chs[i]@.end_spec() == chs[i].end_spec());
        }
    }
}

/// The export is complete: every locally known operation the remote
/// frontier lacks lies inside some exported change.
pub proof fn lemma_export_complete(a: LogStore, remote: VersionVector, c: ClientID, k: int)
    requires
        a.wf(),
        remote.get_spec(c) <= k < a.vv.get_spec(c),
    ensures
        exists|idx: int|
            0 <= idx < a.exported_spec(remote).len() && (#[trigger] a.exported_spec(remote)[idx]).client
                == c && a.exported_spec(remote)[idx].start_counter <= k < a.exported_spec(
                remote,
            )[idx].end_spec(),
{
    let chs = a.changes@;
    let n = chs.len() as int;
    assert(a.vv.get_spec(c) == client_end(chs, c, n));
    lemma_containing_change(chs, c, n, k);
    let i = choose|i: int|
        0 <= i < n && (#[trigger] chs[i]).client == c && chs[i].start_counter <= k
            < chs[i].end_spec();
    assert(chs[i].end_spec() > remote.get_spec(c));
    lemma_filt_contains(chs, c, remote.get_spec(c) as int, n, i);
    let k2 = choose|k2: int|
        0 <= k2 < filt_changes(chs, c, remote.get_spec(c) as int, n).len() && #[trigger] filt_changes(
            chs,
            c,
            remote.get_spec(c) as int,
            n,
        )[k2] == chs[i]@;
    crate::version::lemma_seq_get_nonzero_exists(a.vv.entries@, c);
    let j = choose|j: int| 0 <= j < a.vv.entries@.len() && (#[trigger] a.vv.entries@[j]).0 == c;
    lemma_export_contains(a, remote, a.vv.entries@.len() as int, j, k2);
    let idx = choose|idx: int|
        0 <= idx < a.exported_spec(remote).len() && #[trigger] a.exported_spec(remote)[idx]
            == filt_changes(chs, c, remote.get_spec(c) as int, n)[k2];
    assert(a.exported_spec(remote)[idx] == chs[i]@);
    assert(a.exported_spec(remote)[idx].client == c && a.exported_spec(remote)[idx].start_counter
        <= k < a.exported_spec(remote)[idx].end_spec());
}

/// Against a change-aligned remote frontier the export re-sends nothing:
/// every operation of every exported change has a counter the remote did
/// not yet know. With [`lemma_export_complete`], the export is then exactly
/// the multi-client suffix of the log past the remote frontier.
pub proof fn lemma_export_exact_suffix(a: LogStore, remote: VersionVector)
    requires
        a.wf(),
        a.aligned_frontier(remote),
    ensures
        forall|k: int, o: int|
            #![trigger a.exported_spec(remote)[k].ops[o]]
            0 <= k < a.exported_spec(remote).len() && 0 <= o < a.exported_spec(remote)[k].ops.len()
                ==> a.exported_spec(remote)[k].ops[o].counter >= remote.get_spec(
                a.exported_spec(remote)[k].client,
            ),
{
    assert forall|k: int, o: int|
        #![trigger a.exported_spec(remote)[k].ops[o]]
        0 <= k < a.exported_spec(remote).len() && 0 <= o < a.exported_spec(remote)[k].ops.len()
            implies a.exported_spec(remote)[k].ops[o].counter >= remote.get_spec(
            a.exported_spec(remote)[k].client,
        ) by {
        lemma_export_elements(a, remote, a.vv.entries@.len() as int, k);
        let i = choose|i: int|
            0 <= i < a.changes@.len() && #[trigger] a.changes@[i]@ == a.exported_spec(remote)[k]
                && a.changes@[i].end_spec() > remote.get_spec(a.changes@[i].client);
        assert(a.changes@[i].start_counter >= remote.get_spec(a.changes@[i].client));
        assert(a.changes@[i].wf());
        assert(a.changes@[i].ops@[o].counter == a.changes@[i].start_counter + o);
    }
}

/// Every dependency of every exported change is satisfied by the remote
/// frontier or by another exported change: the export is the full
/// multi-client suffix, importable as one batch without missing history.
pub proof fn lemma_export_deps_covered(a: LogStore, remote: VersionVector)
    requires
        a.wf(),
    ensures
        forall|k: int, j: int|
            #![trigger a.exported_spec(remote)[k].deps[j]]
            0 <= k < a.exported_spec(remote).len() && 0 <= j < a.exported_spec(
                remote,
            )[k].deps.len() ==> remote.includes_spec(a.exported_spec(remote)[k].deps[j]) || exists|
                idx: int,
            |
                0 <= idx < a.exported_spec(remote).len() && (#[trigger] a.exported_spec(
                    remote,
                )[idx]).client == a.exported_spec(remote)[k].deps[j].client && a.exported_spec(
                    remote,
                )[idx].start_counter <= a.exported_spec(remote)[k].deps[j].counter < a.exported_spec(
                    remote,
                )[idx].end_spec(),
{
    assert forall|k: int, j: int|
        #![trigger a.exported_spec(remote)[k].deps[j]]
        0 <= k < a.exported_spec(remote).len() && 0 <= j < a.exported_spec(remote)[k].deps.len()
            implies remote.includes_spec(a.exported_spec(remote)[k].deps[j]) || exists|idx: int|
            0 <= idx < a.exported_spec(remote).len() && (#[trigger] a.exported_spec(
                remote,
            )[idx]).client == a.exported_spec(remote)[k].deps[j].client && a.exported_spec(
                remote,
            )[idx].start_counter <= a.exported_spec(remote)[k].deps[j].counter < a.exported_spec(
                remote,
            )[idx].end_spec() by {
        lemma_export_elements(a, remote, a.vv.entries@.len() as int, k);
        let i = choose|i: int|
            0 <= i < a.changes@.len() && #[trigger] a.changes@[i]@ == a.exported_spec(remote)[k]
                && a.changes@[i].end_spec() > remote.get_spec(a.changes@[i].client);
        let d = a.exported_spec(remote)[k].deps[j];
        assert(a.changes@[i].deps@[j] == d);
        assert(a.vv.includes_spec(d));
        if remote.get_spec(d.client) <= d.counter {
            lemma_export_complete(a, remote, d.client, d.counter as int);
        }
    }
}

/// Relies on std::time::SystemTime::now for a fresh client identifier when
/// the caller supplies none; nothing is assumed of the value.
#[verifier::external_body]
fn generated_client_id() -> ClientID {
    match std::time::SystemTime::now().duration_since(std::time::UNIX_EPOCH) {
        Ok(d) => (d.as_nanos() as u64) | 1,
        Err(_) => 1,
    }
}

} // verus!
