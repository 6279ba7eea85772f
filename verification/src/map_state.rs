//! The map container: per-key last-writer-wins records.

use vstd::prelude::*;

use crate::id::OpID;

verus! {

/// One key's record: the winning value so far and the operation that wrote
/// it. A `None` value is a delete's tombstone.
#[derive(Clone, Copy, Debug)]
pub struct MapRecord {
    pub value: Option<u64>,
    pub writer: OpID,
}

/// The record stored for `key`, scanning from the back.
pub open spec fn seq_record(s: Seq<(u64, MapRecord)>, key: u64) -> Option<MapRecord>
    decreases s.len(),
{
    if s.len() == 0 {
        None
    } else if s.last().0 == key {
        Some(s.last().1)
    } else {
        seq_record(s.drop_last(), key)
    }
}

/// No key occurs twice.
pub open spec fn unique_keys(s: Seq<(u64, MapRecord)>) -> bool {
    forall|i: int, j: int| 0 <= i < j < s.len() ==> s[i].0 != s[j].0
}

/// One last-writer-wins write, at the level of the key-to-record model:
/// the operation wins when the key is fresh or its identifier exceeds the
/// stored writer's under the total order of [`OpID::gt_spec`].
pub open spec fn lww_write(
    m: Map<u64, MapRecord>,
    key: u64,
    value: Option<u64>,
    id: OpID,
) -> Map<u64, MapRecord> {
    if !m.dom().contains(key) || id.gt_spec(m[key].writer) {
        m.insert(key, MapRecord { value, writer: id })
    } else {
        m
    }
}

/// A map container's state.
pub struct MapState {
    /// One entry per written key. Keys are unique; order carries no meaning.
    pub records: Vec<(u64, MapRecord)>,
}

impl MapState {
    /// Representation invariant.
    pub open spec fn wf(self) -> bool {
        unique_keys(self.records@)
    }

    /// The state as a key-to-record map.
    pub open spec fn as_map(self) -> Map<u64, MapRecord>
        decreases self.records@.len(),
    {
        seq_as_map(self.records@)
    }

    /// The materialized value under `key`: the winning record's value, with
    /// the tombstone and the never-written case both reading as `None`.
    pub open spec fn value_spec(self, key: u64) -> Option<u64> {
        if self.as_map().dom().contains(key) {
            self.as_map()[key].value
        } else {
            None
        }
    }

    /// A map container holding nothing.
    pub fn new() -> (r: MapState)
        ensures
            r.wf(),
            r.as_map() == Map::<u64, MapRecord>::empty(),
    {
        proof {
            assert(seq_as_map(Seq::<(u64, MapRecord)>::empty()) =~= Map::<u64, MapRecord>::empty());
        }
        MapState { records: Vec::new() }
    }

    /// The position of `key`'s record, if present.
    fn find_idx(&self, key: u64) -> (r: Option<usize>)
        ensures
            match r {
                Some(i) => i < self.records@.len() && self.records@[i as int].0 == key,
                None => forall|i: int|
                    0 <= i < self.records@.len() ==> self.records@[i].0 != key,
            },
    {
        let mut i: usize = 0;
        while i < self.records.len()
            invariant
                i <= self.records@.len(),
                forall|j: int| 0 <= j < i ==> self.records@[j].0 != key,
            decreases self.records@.len() - i,
        {
            if self.records[i].0 == key {
                return Some(i);
            }
            i += 1;
        }
        None
    }

    /// Applies one set (or delete, when `value` is `None`) authored by `id`.
    /// The outcome is exactly [`lww_write`] on the key-to-record model.
    pub fn apply_set(&mut self, key: u64, value: Option<u64>, id: OpID)
        requires
            old(self).wf(),
        ensures
            final(self).wf(),
            final(self).as_map() == lww_write(old(self).as_map(), key, value, id),
    {
        proof {
            lemma_seq_as_map_props(self.records@);
        }
        match self.find_idx(key) {
            Some(i) => {
                proof {
                    lemma_seq_record_at(self.records@, i as int, key);
                }
                if id.gt(&self.records[i].1.writer) {
                    proof {
                        lemma_seq_as_map_update(self.records@, i as int, key, MapRecord { value, writer: id });
                    }
                    self.records.set(i, (key, MapRecord { value, writer: id }));
                }
            },
            None => {
                proof {
                    lemma_seq_record_absent(self.records@, key);
                    lemma_seq_as_map_push(self.records@, key, MapRecord { value, writer: id });
                }
                self.records.push((key, MapRecord { value, writer: id }));
            },
        }
    }

    /// The materialized value under `key`.
    pub fn get(&self, key: u64) -> (r: Option<u64>)
        requires
            self.wf(),
        ensures
            r == self.value_spec(key),
    {
        proof {
            lemma_seq_as_map_props(self.records@);
        }
        match self.find_idx(key) {
            Some(i) => {
                proof {
                    lemma_seq_record_at(self.records@, i as int, key);
                }
                self.records[i].1.value
            },
            None => {
                proof {
                    lemma_seq_record_absent(self.records@, key);
                }
                None
            },
        }
    }
}

/// The key-to-record map a record sequence denotes.
pub open spec fn seq_as_map(s: Seq<(u64, MapRecord)>) -> Map<u64, MapRecord>
    decreases s.len(),
{
    if s.len() == 0 {
        Map::empty()
    } else {
        seq_as_map(s.drop_last()).insert(s.last().0, s.last().1)
    }
}

/// The denoted map agrees with the back-to-front scan on every key.
pub proof fn lemma_seq_as_map_props(s: Seq<(u64, MapRecord)>)
    ensures
        forall|k: u64| #[trigger] seq_as_map(s).dom().contains(k) <==> seq_record(s, k) is Some,
        forall|k: u64|
            seq_record(s, k) matches Some(r) ==> #[trigger] seq_as_map(s)[k] == r,
    decreases s.len(),
{
    if s.len() > 0 {
        lemma_seq_as_map_props(s.drop_last());
    }
}

/// A key that appears nowhere scans to `None`.
pub proof fn lemma_seq_record_absent(s: Seq<(u64, MapRecord)>, key: u64)
    requires
        forall|i: int| 0 <= i < s.len() ==> s[i].0 != key,
    ensures
        seq_record(s, key) is None,
    decreases s.len(),
{
    if s.len() > 0 {
        lemma_seq_record_absent(s.drop_last(), key);
    }
}

/// The record stored at position `i` of a duplicate-free sequence is what
/// the scan finds for its key.
pub proof fn lemma_seq_record_at(s: Seq<(u64, MapRecord)>, i: int, key: u64)
    requires
        unique_keys(s),
        0 <= i < s.len(),
        s[i].0 == key,
    ensures
        seq_record(s, key) == Some(s[i].1),
    decreases s.len(),
{
    if i == s.len() - 1 {
    } else {
        assert(s.last().0 != key);
        assert(s.drop_last()[i] == s[i]);
        lemma_seq_record_at(s.drop_last(), i, key);
    }
}

/// Appending a record for a fresh key denotes inserting it into the map.
pub proof fn lemma_seq_as_map_push(s: Seq<(u64, MapRecord)>, key: u64, rec: MapRecord)
    ensures
        seq_as_map(s.push((key, rec))) == seq_as_map(s).insert(key, rec),
{
    assert(s.push((key, rec)).drop_last() =~= s);
}

/// Updating the record that holds `key` denotes overwriting it in the map.
pub proof fn lemma_seq_as_map_update(s: Seq<(u64, MapRecord)>, i: int, key: u64, rec: MapRecord)
    requires
        unique_keys(s),
        0 <= i < s.len(),
        s[i].0 == key,
    ensures
        seq_as_map(s.update(i, (key, rec))) == seq_as_map(s).insert(key, rec),
    decreases s.len(),
{
    let t = s.update(i, (key, rec));
    if i == s.len() - 1 {
        assert(t.last() == (key, rec));
        assert(t.drop_last() =~= s.drop_last());
    } else {
        assert(s.last().0 != key);
        assert(t.last() == s.last());
        assert(t.drop_last() =~= s.drop_last().update(i, (key, rec)));
        assert(s.drop_last()[i] == s[i]);
        lemma_seq_as_map_update(s.drop_last(), i, key, rec);
        assert(seq_as_map(t) == seq_as_map(s.drop_last()).insert(key, rec).insert(s.last().0, s.last().1));
        assert(seq_as_map(s).insert(key, rec)
            =~= seq_as_map(s.drop_last()).insert(key, rec).insert(s.last().0, s.last().1));
    }
}

/// Replaying a last-writer-wins write changes nothing: the stored writer
/// is never beaten by itself.
pub proof fn lemma_lww_idempotent(m: Map<u64, MapRecord>, k: u64, v: Option<u64>, id: OpID)
    ensures
        lww_write(lww_write(m, k, v, id), k, v, id) == lww_write(m, k, v, id),
{
    assert(lww_write(lww_write(m, k, v, id), k, v, id) =~= lww_write(m, k, v, id));
}

/// One write, as a value: what one map-set operation carries.
#[derive(Clone, Copy, Debug)]
pub struct MapWrite {
    pub key: u64,
    pub value: Option<u64>,
    pub id: OpID,
}

/// No two writes share an operation identifier. Identifiers are globally
/// unique, so any honest history satisfies this.
pub open spec fn distinct_write_ids(ws: Seq<MapWrite>) -> bool {
    forall|i: int, j: int| 0 <= i < j < ws.len() ==> ws[i].id != ws[j].id
}

/// The map that applying the writes in order leaves behind.
pub open spec fn lww_fold(m: Map<u64, MapRecord>, ws: Seq<MapWrite>) -> Map<u64, MapRecord>
    decreases ws.len(),
{
    if ws.len() == 0 {
        m
    } else {
        lww_write(lww_fold(m, ws.drop_last()), ws.last().key, ws.last().value, ws.last().id)
    }
}

/// A write with a fresh identifier can be slid from any position to the
/// end of the sequence without changing the resulting map.
proof fn lemma_fold_insert(m: Map<u64, MapRecord>, ws: Seq<MapWrite>, i: int, w: MapWrite)
    requires
        0 <= i <= ws.len(),
        forall|j: int| 0 <= j < ws.len() ==> (#[trigger] ws[j]).id != w.id,
    ensures
        lww_fold(m, ws.insert(i, w)) == lww_fold(m, ws.push(w)),
    decreases ws.len(),
{
    if i == ws.len() {
        assert(ws.insert(i, w) =~= ws.push(w));
    } else {
        let ws2 = ws.insert(i, w);
        assert(ws2.drop_last() =~= ws.drop_last().insert(i, w));
        assert(ws2.last() == ws.last());
        assert(forall|j: int|
            0 <= j < ws.drop_last().len() ==> (#[trigger] ws.drop_last()[j]).id != w.id);
        lemma_fold_insert(m, ws.drop_last(), i, w);
        assert(ws.drop_last().push(w).drop_last() =~= ws.drop_last());
        assert(lww_fold(m, ws.drop_last().push(w)) == lww_write(
            lww_fold(m, ws.drop_last()),
            w.key,
            w.value,
            w.id,
        ));
        assert(ws[ws.len() - 1].id != w.id);
        lemma_lww_commutes(
            lww_fold(m, ws.drop_last()),
            w.key,
            w.value,
            w.id,
            ws.last().key,
            ws.last().value,
            ws.last().id,
        );
        assert(ws.push(w).drop_last() =~= ws);
        assert(lww_fold(m, ws2) == lww_write(
            lww_fold(m, ws2.drop_last()),
            ws2.last().key,
            ws2.last().value,
            ws2.last().id,
        ));
        assert(lww_fold(m, ws) == lww_write(
            lww_fold(m, ws.drop_last()),
            ws.last().key,
            ws.last().value,
            ws.last().id,
        ));
        assert(lww_fold(m, ws.push(w)) == lww_write(lww_fold(m, ws), w.key, w.value, w.id));
    }
}

/// Applying the same collection of writes in any order leaves the same
/// map: the map container converges, whatever order concurrent operations
/// arrive in.
pub proof fn lemma_map_order_independent(
    m: Map<u64, MapRecord>,
    a: Seq<MapWrite>,
    b: Seq<MapWrite>,
)
    requires
        a.to_multiset() == b.to_multiset(),
        distinct_write_ids(a),
    ensures
        lww_fold(m, a) == lww_fold(m, b),
    decreases a.len(),
{
    broadcast use vstd::seq_lib::group_to_multiset_ensures;

    if a.len() == 0 {
        assert(b.to_multiset().len() == 0);
        assert(b.len() == 0);
    } else {
        let w = a.last();
        assert(a[a.len() - 1] == w);
        assert(a.contains(w));
        assert(b.to_multiset().count(w) > 0);
        assert(b.contains(w));
        let j = choose|j: int| 0 <= j < b.len() && b[j] == w;
        let b2 = b.remove(j);
        assert(a.drop_last().push(w) =~= a);
        assert(a.to_multiset() =~= a.drop_last().to_multiset().insert(w));
        assert(b2.to_multiset() =~= b.to_multiset().remove(w));
        assert(b2.to_multiset() =~= a.drop_last().to_multiset());
        assert(forall|i1: int, j1: int|
            0 <= i1 < j1 < a.drop_last().len() ==> a.drop_last()[i1].id != a.drop_last()[j1].id);
        lemma_map_order_independent(m, a.drop_last(), b2);
        assert forall|k: int| 0 <= k < b2.len() implies (#[trigger] b2[k]).id != w.id by {
            if b2[k].id == w.id {
                assert(b2.contains(b2[k]));
                assert(b2.to_multiset().count(b2[k]) > 0);
                assert(a.drop_last().to_multiset().count(b2[k]) > 0);
                assert(a.drop_last().contains(b2[k]));
                let idx = choose|idx: int|
                    0 <= idx < a.drop_last().len() && a.drop_last()[idx] == b2[k];
                assert(a[idx] == b2[k]);
                assert(a[idx].id == a[a.len() - 1].id);
                assert(false);
            }
        }
        lemma_fold_insert(m, b2, j, w);
        assert(b2.insert(j, w) =~= b);
        assert(b2.push(w).drop_last() =~= b2);
        assert(lww_fold(m, b) == lww_write(lww_fold(m, b2), w.key, w.value, w.id));
    }
}

/// Two last-writer-wins writes with distinct operation identifiers land on
/// the same map whichever is applied first: the heart of map convergence.
pub proof fn lemma_lww_commutes(
    m: Map<u64, MapRecord>,
    k1: u64,
    v1: Option<u64>,
    id1: OpID,
    k2: u64,
    v2: Option<u64>,
    id2: OpID,
)
    requires
        id1 != id2,
    ensures
        lww_write(lww_write(m, k1, v1, id1), k2, v2, id2)
            == lww_write(lww_write(m, k2, v2, id2), k1, v1, id1),
{
    crate::id::lemma_op_order_total(id1, id2);
    if k1 != k2 {
        assert(lww_write(lww_write(m, k1, v1, id1), k2, v2, id2)
            =~= lww_write(lww_write(m, k2, v2, id2), k1, v1, id1));
    } else {
        assert(lww_write(lww_write(m, k1, v1, id1), k2, v2, id2)
            =~= lww_write(lww_write(m, k2, v2, id2), k1, v1, id1));
    }
}

} // verus!
