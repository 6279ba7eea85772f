//! The text container: a tombstone-keeping sequence of characters, each
//! tagged with the operation that inserted it.
//!
//! Every element names as its origin the element it was inserted to the
//! right of (`None` for the start of the text). Concurrent insertions with
//! the same origin are ordered by operation identifier, the higher
//! identifier settling closer to the origin — so of two concurrent
//! insertions at one spot, the one with the higher identifier ends up on
//! the left. Replaying the same operations in any causally valid order
//! therefore rebuilds the same sequence.

use vstd::prelude::*;

use crate::id::OpID;

verus! {

/// One inserted character, kept forever: deletion only tombstones it, so
/// operations that causally preceded the delete can still address it.
#[derive(Clone, Copy, Debug)]
pub struct TextElem {
    /// The operation that inserted this element.
    pub id: OpID,
    /// The element this one was inserted after; `None` for the text start.
    pub origin: Option<OpID>,
    /// Whether a delete has tombstoned this element.
    pub deleted: bool,
    /// The character itself.
    pub content: char,
}

/// The position of the element `id` inserted, scanning from the back;
/// -1 when no such element exists.
pub open spec fn find_idx(s: Seq<TextElem>, id: OpID) -> int
    decreases s.len(),
{
    if s.len() == 0 {
        -1
    } else if s.last().id == id {
        s.len() - 1
    } else {
        find_idx(s.drop_last(), id)
    }
}

/// No insertion identifier occurs twice.
pub open spec fn unique_ids(s: Seq<TextElem>) -> bool {
    forall|i: int, j: int| 0 <= i < j < s.len() ==> s[i].id != s[j].id
}

/// An anchor's rank: one past its element's position, or 0 for the text
/// start (and for an anchor that cannot be resolved).
pub open spec fn rank(s: Seq<TextElem>, origin: Option<OpID>) -> int {
    match origin {
        None => 0,
        Some(o) => find_idx(s, o) + 1,
    }
}

/// Where an insertion with anchor rank `oi` and identifier `id` lands:
/// starting at `j`, walk right past every element that sits in a subtree
/// hanging off a position right of the anchor (`rank > oi`) and past every
/// same-anchor sibling with a greater identifier; stop at the first
/// same-anchor sibling with a smaller identifier or at the first element
/// outside the anchor's reach.
pub open spec fn scan_pos(s: Seq<TextElem>, j: int, oi: int, id: OpID) -> int
    decreases s.len() - j,
{
    if j < 0 || j >= s.len() {
        s.len() as int
    } else {
        let xr = rank(s, s[j].origin);
        if xr > oi || (xr == oi && s[j].id.gt_spec(id)) {
            scan_pos(s, j + 1, oi, id)
        } else {
            j
        }
    }
}

/// What applying an insertion does to the element sequence. A duplicate
/// delivery and an insertion whose named anchor is unknown both leave the
/// sequence unchanged.
pub open spec fn insert_spec(s: Seq<TextElem>, id: OpID, origin: Option<OpID>, content: char) -> Seq<TextElem> {
    if find_idx(s, id) >= 0 {
        s
    } else if origin matches Some(o) && find_idx(s, o) == -1 {
        s
    } else {
        s.insert(
            scan_pos(s, rank(s, origin), rank(s, origin), id),
            TextElem { id, origin, deleted: false, content },
        )
    }
}

/// What applying a deletion does: tombstone the addressed element if it is
/// here, do nothing otherwise.
pub open spec fn delete_spec(s: Seq<TextElem>, target: OpID) -> Seq<TextElem> {
    let i = find_idx(s, target);
    if i >= 0 {
        s.update(i, TextElem { deleted: true, ..s[i] })
    } else {
        s
    }
}

/// The visible characters of the first `n` elements, in order.
pub open spec fn visible(s: Seq<TextElem>, n: int) -> Seq<char>
    decreases n,
{
    if n <= 0 {
        Seq::empty()
    } else if s[n - 1].deleted {
        visible(s, n - 1)
    } else {
        visible(s, n - 1).push(s[n - 1].content)
    }
}

/// The identifiers of the visible elements among the first `n`, in order.
pub open spec fn vis_ids(s: Seq<TextElem>, n: int) -> Seq<OpID>
    decreases n,
{
    if n <= 0 {
        Seq::empty()
    } else if s[n - 1].deleted {
        vis_ids(s, n - 1)
    } else {
        vis_ids(s, n - 1).push(s[n - 1].id)
    }
}

/// A text container's state.
pub struct TextState {
    /// All elements ever inserted, in document order, tombstones included.
    pub elems: Vec<TextElem>,
}

impl TextState {
    /// Representation invariant.
    pub open spec fn wf(self) -> bool {
        unique_ids(self.elems@)
    }

    /// The number of elements, tombstones included.
    pub open spec fn len_spec(self) -> int {
        self.elems@.len() as int
    }

    /// The visible text.
    pub open spec fn visible_spec(self) -> Seq<char> {
        visible(self.elems@, self.len_spec())
    }

    /// An empty text.
    pub fn new() -> (r: TextState)
        ensures
            r.wf(),
            r.elems@ == Seq::<TextElem>::empty(),
    {
        TextState { elems: Vec::new() }
    }

    /// The position of the element `id` inserted, if it is here.
    fn find(&self, id: &OpID) -> (r: Option<usize>)
        requires
            self.wf(),
        ensures
            match r {
                Some(i) => i < self.elems@.len() && find_idx(self.elems@, *id) == i,
                None => find_idx(self.elems@, *id) == -1,
            },
    {
        let mut i: usize = 0;
        while i < self.elems.len()
            invariant
                self.wf(),
                i <= self.elems@.len(),
                forall|j: int| 0 <= j < i ==> self.elems@[j].id != *id,
            decreases self.elems@.len() - i,
        {
            if self.elems[i].id == *id {
                proof {
                    lemma_find_at(self.elems@, i as int, *id);
                }
                return Some(i);
            }
            i += 1;
        }
        proof {
            lemma_find_absent(self.elems@, *id);
        }
        None
    }

    /// The rank of `origin` in the current sequence.
    fn rank_of(&self, origin: &Option<OpID>) -> (r: usize)
        requires
            self.wf(),
        ensures
            r == rank(self.elems@, *origin),
            r <= self.elems@.len(),
    {
        let n = self.elems.len();
        match origin {
            None => 0,
            Some(o) => match self.find(o) {
                Some(i) => {
                    assert(i < n);
                    i + 1
                },
                None => 0,
            },
        }
    }

    /// Applies one insertion. The outcome is exactly [`insert_spec`].
    pub fn apply_insert(&mut self, id: OpID, origin: Option<OpID>, content: char)
        requires
            old(self).wf(),
        ensures
            final(self).wf(),
            final(self).elems@ == insert_spec(old(self).elems@, id, origin, content),
    {
        let ghost s = self.elems@;
        if self.find(&id).is_some() {
            return;
        }
        if let Some(o) = origin {
            if self.find(&o).is_none() {
                return;
            }
        }
        let oi = self.rank_of(&origin);
        let mut j: usize = oi;
        let mut stopped = false;
        while !stopped && j < self.elems.len()
            invariant
                self.wf(),
                self.elems@ == s,
                oi <= j <= self.elems@.len(),
                scan_pos(s, oi as int, oi as int, id) == if stopped {
                    j as int
                } else {
                    scan_pos(s, j as int, oi as int, id)
                },
            decreases self.elems@.len() - j, if stopped { 0int } else { 1int },
        {
            let x = self.elems[j];
            let xr = self.rank_of(&x.origin);
            if xr > oi || (xr == oi && x.id.gt(&id)) {
                j += 1;
            } else {
                stopped = true;
            }
        }
        let elem = TextElem { id, origin, deleted: false, content };
        proof {
            lemma_absent_of_find(s, id);
            lemma_unique_insert(s, j as int, elem);
        }
        self.elems.insert(j, elem);
    }

    /// Applies one deletion. The outcome is exactly [`delete_spec`].
    pub fn apply_delete(&mut self, target: OpID)
        requires
            old(self).wf(),
        ensures
            final(self).wf(),
            final(self).elems@ == delete_spec(old(self).elems@, target),
    {
        match self.find(&target) {
            Some(i) => {
                let old_elem = self.elems[i];
                let elem = TextElem { deleted: true, ..old_elem };
                self.elems.set(i, elem);
            },
            None => {},
        }
    }

    /// The visible text, materialized.
    pub fn value(&self) -> (r: Vec<char>)
        requires
            self.wf(),
        ensures
            r@ == self.visible_spec(),
    {
        let mut out: Vec<char> = Vec::new();
        let mut i: usize = 0;
        while i < self.elems.len()
            invariant
                i <= self.elems@.len(),
                out@ == visible(self.elems@, i as int),
            decreases self.elems@.len() - i,
        {
            if !self.elems[i].deleted {
                out.push(self.elems[i].content);
            }
            i += 1;
        }
        out
    }

    /// The number of visible characters.
    pub fn visible_len(&self) -> (r: usize)
        requires
            self.wf(),
        ensures
            r == self.visible_spec().len(),
    {
        let v = self.value();
        v.len()
    }

    /// The identifier of the `k`-th visible element.
    pub fn visible_id_at(&self, k: usize) -> (r: OpID)
        requires
            self.wf(),
            k < self.visible_spec().len(),
        ensures
            r == vis_ids(self.elems@, self.len_spec())[k as int],
    {
        proof {
            lemma_vis_lens(self.elems@, self.len_spec());
        }
        let n = self.elems.len();
        let mut i: usize = 0;
        let mut c: usize = 0;
        while i < n
            invariant
                self.wf(),
                n == self.elems@.len(),
                i <= n,
                c == vis_ids(self.elems@, i as int).len(),
                c <= k,
                k < vis_ids(self.elems@, self.len_spec()).len(),
            decreases n - i,
        {
            let x = self.elems[i];
            if !x.deleted {
                if c == k {
                    proof {
                        lemma_vis_ids_mono(self.elems@, i as int + 1, self.len_spec());
                        assert(vis_ids(self.elems@, i as int + 1)[k as int] == x.id);
                    }
                    return x.id;
                }
                c += 1;
            }
            i += 1;
        }
        proof {
            assert(false);
        }
        vstd::pervasive::unreached()
    }
}

/// An element's identifier is found at its position when identifiers are
/// unique.
pub proof fn lemma_find_at(s: Seq<TextElem>, i: int, id: OpID)
    requires
        unique_ids(s),
        0 <= i < s.len(),
        s[i].id == id,
    ensures
        find_idx(s, id) == i,
    decreases s.len(),
{
    if i == s.len() - 1 {
    } else {
        assert(s.last().id != id);
        assert(s.drop_last()[i] == s[i]);
        lemma_find_at(s.drop_last(), i, id);
    }
}

/// An identifier that appears nowhere is not found.
pub proof fn lemma_find_absent(s: Seq<TextElem>, id: OpID)
    requires
        forall|i: int| 0 <= i < s.len() ==> s[i].id != id,
    ensures
        find_idx(s, id) == -1,
    decreases s.len(),
{
    if s.len() > 0 {
        lemma_find_absent(s.drop_last(), id);
    }
}

/// When an identifier is not found, no element carries it.
pub proof fn lemma_absent_of_find(s: Seq<TextElem>, id: OpID)
    requires
        unique_ids(s),
        find_idx(s, id) == -1,
    ensures
        forall|i: int| 0 <= i < s.len() ==> s[i].id != id,
{
    assert forall|i: int| 0 <= i < s.len() implies s[i].id != id by {
        if s[i].id == id {
            lemma_find_at(s, i, id);
        }
    }
}

/// Inserting an element with a fresh identifier keeps identifiers unique.
pub proof fn lemma_unique_insert(s: Seq<TextElem>, j: int, e: TextElem)
    requires
        unique_ids(s),
        0 <= j <= s.len(),
        forall|i: int| 0 <= i < s.len() ==> s[i].id != e.id,
    ensures
        unique_ids(s.insert(j, e)),
{
    let t = s.insert(j, e);
    assert forall|a: int, b: int| 0 <= a < b < t.len() implies t[a].id != t[b].id by {
        assert(t[a] == if a < j { s[a] } else if a == j { e } else { s[a - 1] });
        assert(t[b] == if b < j { s[b] } else if b == j { e } else { s[b - 1] });
    }
}

/// Earlier prefixes of the visible-identifier sequence are prefixes of later
/// ones.
pub proof fn lemma_vis_ids_mono(s: Seq<TextElem>, n: int, m: int)
    requires
        0 <= n <= m <= s.len(),
    ensures
        vis_ids(s, n).len() <= vis_ids(s, m).len(),
        forall|k: int|
            0 <= k < vis_ids(s, n).len() ==> vis_ids(s, m)[k] == vis_ids(s, n)[k],
    decreases m - n,
{
    if n < m {
        lemma_vis_ids_mono(s, n, m - 1);
    }
}

/// Two sequences with the same identifiers in the same places are scanned
/// alike.
pub proof fn lemma_find_same_ids(s: Seq<TextElem>, t: Seq<TextElem>, id: OpID)
    requires
        s.len() == t.len(),
        forall|j: int| 0 <= j < s.len() ==> (#[trigger] s[j]).id == t[j].id,
    ensures
        find_idx(s, id) == find_idx(t, id),
    decreases s.len(),
{
    if s.len() > 0 {
        assert(forall|j: int|
            0 <= j < s.drop_last().len() ==> (#[trigger] s.drop_last()[j]).id
                == t.drop_last()[j].id);
        lemma_find_same_ids(s.drop_last(), t.drop_last(), id);
    }
}

/// Tombstoning the same element twice is the same as once.
pub proof fn lemma_delete_idempotent(s: Seq<TextElem>, target: OpID)
    ensures
        delete_spec(delete_spec(s, target), target) == delete_spec(s, target),
{
    let i = find_idx(s, target);
    if i >= 0 {
        lemma_delete_keeps_ids(s, target);
        lemma_find_in_bounds(s, target);
        let s2 = delete_spec(s, target);
        lemma_find_same_ids(s, s2, target);
        assert forall|j: int| 0 <= j < s2.len() implies delete_spec(s2, target)[j] == s2[j] by {
            if j == i {
                assert(s2[j] == (TextElem { deleted: true, ..s[j] }));
                assert(delete_spec(s2, target)[j] == (TextElem { deleted: true, ..s2[j] }));
            }
        }
        assert(delete_spec(s2, target) =~= s2);
    }
}

/// Tombstoning never moves an element or changes an identifier or anchor.
pub proof fn lemma_delete_keeps_ids(s: Seq<TextElem>, target: OpID)
    ensures
        delete_spec(s, target).len() == s.len(),
        forall|j: int|
            0 <= j < s.len() ==> (#[trigger] s[j]).id == delete_spec(s, target)[j].id,
        forall|j: int|
            0 <= j < s.len() ==> (#[trigger] s[j]).origin == delete_spec(s, target)[j].origin,
{
    let i = find_idx(s, target);
    if i >= 0 {
        lemma_find_in_bounds(s, target);
        let s2 = s.update(i, TextElem { deleted: true, ..s[i] });
        assert forall|j: int| 0 <= j < s.len() implies (#[trigger] s[j]).id == s2[j].id && s[j].origin
            == s2[j].origin by {
            if j == i {
                assert(s2[j].id == s[j].id && s2[j].origin == s[j].origin);
            }
        }
    }
}

/// Two sequences with the same identifiers and anchors in the same places
/// scan to the same insertion position.
pub proof fn lemma_scan_same(s: Seq<TextElem>, t: Seq<TextElem>, j: int, oi: int, id: OpID)
    requires
        s.len() == t.len(),
        forall|k: int| 0 <= k < s.len() ==> (#[trigger] s[k]).id == t[k].id,
        forall|k: int| 0 <= k < s.len() ==> (#[trigger] s[k]).origin == t[k].origin,
    ensures
        scan_pos(s, j, oi, id) == scan_pos(t, j, oi, id),
    decreases s.len() - j,
{
    if 0 <= j < s.len() {
        match s[j].origin {
            Some(o) => {
                lemma_find_same_ids(s, t, o);
            },
            None => (),
        }
        assert(rank(s, s[j].origin) == rank(t, t[j].origin));
        lemma_scan_same(s, t, j + 1, oi, id);
    }
}

/// A found index is a position of the sequence.
pub proof fn lemma_find_in_bounds(s: Seq<TextElem>, id: OpID)
    requires
        find_idx(s, id) >= 0,
    ensures
        find_idx(s, id) < s.len(),
        s[find_idx(s, id)].id == id,
    decreases s.len(),
{
    if s.len() > 0 && s.last().id != id {
        lemma_find_in_bounds(s.drop_last(), id);
        assert(s.drop_last()[find_idx(s.drop_last(), id)] == s[find_idx(s, id)]);
    }
}

/// Two tombstoning operations land on the same sequence whichever is
/// applied first: deletions commute.
pub proof fn lemma_delete_commutes(s: Seq<TextElem>, t1: OpID, t2: OpID)
    ensures
        delete_spec(delete_spec(s, t1), t2) == delete_spec(delete_spec(s, t2), t1),
{
    if t1 == t2 {
        lemma_delete_idempotent(s, t1);
    } else {
        lemma_delete_keeps_ids(s, t1);
        lemma_delete_keeps_ids(s, t2);
        let s1 = delete_spec(s, t1);
        let s2 = delete_spec(s, t2);
        lemma_find_same_ids(s, s1, t2);
        lemma_find_same_ids(s, s2, t1);
        if find_idx(s, t1) >= 0 {
            lemma_find_in_bounds(s, t1);
        }
        if find_idx(s, t2) >= 0 {
            lemma_find_in_bounds(s, t2);
        }
        assert(delete_spec(s1, t2) =~= delete_spec(s2, t1));
    }
}

/// The scan never returns a position below its start or past the end.
pub proof fn lemma_scan_bounds(s: Seq<TextElem>, j: int, oi: int, id: OpID)
    requires
        0 <= j,
    ensures
        j <= scan_pos(s, j, oi, id) || scan_pos(s, j, oi, id) == s.len(),
        scan_pos(s, j, oi, id) <= s.len(),
    decreases s.len() - j,
{
    if j < s.len() {
        lemma_scan_bounds(s, j + 1, oi, id);
    }
}

/// A scan for an identifier lands at -1 or inside the sequence.
pub proof fn lemma_find_range(s: Seq<TextElem>, id: OpID)
    ensures
        -1 <= find_idx(s, id) < s.len(),
    decreases s.len(),
{
    if s.len() > 0 && s.last().id != id {
        lemma_find_range(s.drop_last(), id);
    }
}

/// Replaying an insertion changes nothing: the second delivery finds its
/// own identifier already present.
pub proof fn lemma_insert_idempotent(s: Seq<TextElem>, id: OpID, origin: Option<OpID>, content: char)
    requires
        unique_ids(s),
    ensures
        insert_spec(insert_spec(s, id, origin, content), id, origin, content) == insert_spec(
            s,
            id,
            origin,
            content,
        ),
{
    let s1 = insert_spec(s, id, origin, content);
    lemma_find_range(s, id);
    match origin {
        Some(o) => lemma_find_range(s, o),
        None => (),
    }
    if find_idx(s, id) >= 0 {
    } else if origin matches Some(o) && find_idx(s, o) == -1 {
    } else {
        let oi = rank(s, origin);
        let p = scan_pos(s, oi, oi, id);
        lemma_scan_bounds(s, oi, oi, id);
        let e = TextElem { id, origin, deleted: false, content };
        lemma_absent_of_find(s, id);
        lemma_unique_insert(s, p, e);
        assert(s1[p] == e);
        lemma_find_range(s1, id);
        if find_idx(s1, id) == -1 {
            lemma_absent_of_find(s1, id);
            assert(false);
        }
        assert(find_idx(s1, id) >= 0);
    }
}

/// A concurrent insertion and deletion of distinct elements land on the
/// same sequence whichever is applied first.
pub proof fn lemma_insert_delete_commute(
    s: Seq<TextElem>,
    id: OpID,
    origin: Option<OpID>,
    content: char,
    target: OpID,
)
    requires
        unique_ids(s),
        id != target,
    ensures
        delete_spec(insert_spec(s, id, origin, content), target) == insert_spec(
            delete_spec(s, target),
            id,
            origin,
            content,
        ),
{
    let sd = delete_spec(s, target);
    lemma_delete_keeps_ids(s, target);
    lemma_find_same_ids(s, sd, id);
    match origin {
        Some(o) => lemma_find_same_ids(s, sd, o),
        None => (),
    }
    lemma_find_range(s, id);
    lemma_find_range(s, target);
    if find_idx(s, id) >= 0 {
        assert(insert_spec(s, id, origin, content) == s);
        assert(insert_spec(sd, id, origin, content) == sd);
    } else if origin matches Some(o) && find_idx(s, o) == -1 {
        assert(insert_spec(s, id, origin, content) == s);
        assert(insert_spec(sd, id, origin, content) == sd);
    } else {
        let oi = rank(s, origin);
        match origin {
            Some(o) => {
                lemma_find_range(s, o);
            },
            None => (),
        }
        assert(0 <= oi);
        let p = scan_pos(s, oi, oi, id);
        lemma_scan_bounds(s, oi, oi, id);
        assert(rank(sd, origin) == oi);
        lemma_scan_same(s, sd, oi, oi, id);
        let e = TextElem { id, origin, deleted: false, content };
        let si = s.insert(p, e);
        lemma_absent_of_find(s, id);
        lemma_unique_insert(s, p, e);
        assert(insert_spec(sd, id, origin, content) == sd.insert(p, e));
        assert(insert_spec(s, id, origin, content) == si);
        if find_idx(s, target) == -1 {
            assert(sd == s);
            lemma_absent_of_find(s, target);
            assert forall|q: int| 0 <= q < si.len() implies si[q].id != target by {
                if q < p {
                    assert(si[q] == s[q]);
                } else if q == p {
                    assert(si[q] == e);
                } else {
                    assert(si[q] == s[q - 1]);
                }
            }
            lemma_find_absent(si, target);
            assert(delete_spec(si, target) == si);
        } else {
            let t = find_idx(s, target);
            lemma_find_in_bounds(s, target);
            let tq: int = if t < p {
                t
            } else {
                t + 1
            };
            assert(si[tq] == s[t]);
            lemma_find_at(si, tq, target);
            let lhs = si.update(tq, TextElem { deleted: true, ..si[tq] });
            assert(delete_spec(si, target) == lhs);
            let rhs = sd.insert(p, e);
            assert(sd == s.update(t, TextElem { deleted: true, ..s[t] }));
            assert forall|q: int| 0 <= q < lhs.len() implies lhs[q] == rhs[q] by {
                if q == tq {
                    if t < p {
                        assert(rhs[q] == sd[q]);
                        assert(sd[q] == (TextElem { deleted: true, ..s[t] }));
                    } else {
                        assert(q > p);
                        assert(rhs[q] == sd[q - 1]);
                        assert(sd[q - 1] == (TextElem { deleted: true, ..s[t] }));
                    }
                    assert(lhs[q] == (TextElem { deleted: true, ..s[t] }));
                } else if q < p {
                    assert(lhs[q] == si[q]);
                    assert(si[q] == s[q]);
                    assert(rhs[q] == sd[q]);
                    assert(sd[q] == s[q]);
                } else if q == p {
                    assert(lhs[q] == si[q]);
                    assert(si[q] == e);
                    assert(rhs[q] == e);
                } else {
                    assert(lhs[q] == si[q]);
                    assert(si[q] == s[q - 1]);
                    assert(rhs[q] == sd[q - 1]);
                    assert(sd[q - 1] == s[q - 1]);
                }
            }
            assert(lhs =~= rhs);
        }
    }
}

/// The sequence that applying the deletions in order leaves behind.
pub open spec fn delete_fold(s: Seq<TextElem>, ts: Seq<OpID>) -> Seq<TextElem>
    decreases ts.len(),
{
    if ts.len() == 0 {
        s
    } else {
        delete_spec(delete_fold(s, ts.drop_last()), ts.last())
    }
}

/// A deletion can be slid from any position to the end of the sequence
/// without changing the result.
proof fn lemma_delete_fold_insert(s: Seq<TextElem>, ts: Seq<OpID>, i: int, t: OpID)
    requires
        0 <= i <= ts.len(),
    ensures
        delete_fold(s, ts.insert(i, t)) == delete_fold(s, ts.push(t)),
    decreases ts.len(),
{
    if i == ts.len() {
        assert(ts.insert(i, t) =~= ts.push(t));
    } else {
        let ts2 = ts.insert(i, t);
        assert(ts2.drop_last() =~= ts.drop_last().insert(i, t));
        assert(ts2.last() == ts.last());
        lemma_delete_fold_insert(s, ts.drop_last(), i, t);
        assert(ts.drop_last().push(t).drop_last() =~= ts.drop_last());
        lemma_delete_commutes(delete_fold(s, ts.drop_last()), t, ts.last());
        assert(ts.push(t).drop_last() =~= ts);
        assert(delete_fold(s, ts2) == delete_spec(delete_fold(s, ts2.drop_last()), ts2.last()));
        assert(delete_fold(s, ts) == delete_spec(delete_fold(s, ts.drop_last()), ts.last()));
        assert(delete_fold(s, ts.push(t)) == delete_spec(delete_fold(s, ts), t));
    }
}

/// Applying the same collection of deletions in any order leaves the same
/// sequence: tombstoning converges, whatever order concurrent deletions
/// arrive in.
pub proof fn lemma_delete_order_independent(s: Seq<TextElem>, a: Seq<OpID>, b: Seq<OpID>)
    requires
        a.to_multiset() == b.to_multiset(),
    ensures
        delete_fold(s, a) == delete_fold(s, b),
    decreases a.len(),
{
    broadcast use vstd::seq_lib::group_to_multiset_ensures;

    if a.len() == 0 {
        assert(b.to_multiset().len() == 0);
        assert(b.len() == 0);
    } else {
        let t = a.last();
        assert(a[a.len() - 1] == t);
        assert(a.contains(t));
        assert(b.to_multiset().count(t) > 0);
        assert(b.contains(t));
        let j = choose|j: int| 0 <= j < b.len() && b[j] == t;
        let b2 = b.remove(j);
        assert(a.drop_last().push(t) =~= a);
        assert(a.to_multiset() =~= a.drop_last().to_multiset().insert(t));
        assert(b2.to_multiset() =~= b.to_multiset().remove(t));
        assert(b2.to_multiset() =~= a.drop_last().to_multiset());
        lemma_delete_order_independent(s, a.drop_last(), b2);
        lemma_delete_fold_insert(s, b2, j, t);
        assert(b2.insert(j, t) =~= b);
        assert(b2.push(t).drop_last() =~= b2);
        assert(delete_fold(s, b) == delete_spec(delete_fold(s, b2), t));
    }
}

/// The visible text and the visible identifiers walk in step.
pub proof fn lemma_vis_lens(s: Seq<TextElem>, n: int)
    ensures
        visible(s, n).len() == vis_ids(s, n).len(),
    decreases n,
{
    if n > 0 {
        lemma_vis_lens(s, n - 1);
    }
}

} // verus!
