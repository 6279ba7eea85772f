//! The causal frontier: a mapping from client to the length of that client's
//! history prefix that this replica has incorporated.

use vstd::prelude::*;

use crate::errors::LoroError;
use crate::id::{ClientID, Counter, OpID};

verus! {

/// The larger of two counters.
pub open spec fn max_counter(a: Counter, b: Counter) -> Counter {
    if a >= b {
        a
    } else {
        b
    }
}

/// The counter stored for `client` in `s`, scanning from the back; 0 when the
/// client is absent. Entry order is irrelevant once clients are unique.
pub open spec fn seq_get(s: Seq<(ClientID, Counter)>, client: ClientID) -> Counter
    decreases s.len(),
{
    if s.len() == 0 {
        0
    } else if s.last().0 == client {
        s.last().1
    } else {
        seq_get(s.drop_last(), client)
    }
}

/// No client identifier occurs twice.
pub open spec fn unique_clients(s: Seq<(ClientID, Counter)>) -> bool {
    forall|i: int, j: int| 0 <= i < j < s.len() ==> s[i].0 != s[j].0
}

/// A version vector: for every client, the number of contiguous operations of
/// that client this replica knows. Gaps are not representable; a client's
/// known history is always a prefix.
pub struct VersionVector {
    /// One entry per known client. Clients are unique; order carries no
    /// meaning.
    pub entries: Vec<(ClientID, Counter)>,
}

impl VersionVector {
    /// Representation invariant.
    pub open spec fn wf(self) -> bool {
        unique_clients(self.entries@)
    }

    /// The frontier as a total function: 0 for clients never seen.
    pub open spec fn get_spec(self, client: ClientID) -> Counter {
        seq_get(self.entries@, client)
    }

    /// Whether this frontier contains the given operation.
    pub open spec fn includes_spec(self, op: OpID) -> bool {
        self.get_spec(op.client) > op.counter
    }

    /// Pointwise comparison: everything `self` knows, `other` knows too.
    pub open spec fn le_spec(self, other: VersionVector) -> bool {
        forall|c: ClientID| self.get_spec(c) <= other.get_spec(c)
    }

    /// An empty frontier: nothing of any client is known.
    pub fn new() -> (r: VersionVector)
        ensures
            r.wf(),
            forall|c: ClientID| r.get_spec(c) == 0,
    {
        VersionVector { entries: Vec::new() }
    }

    /// The position of `client`'s entry, if present.
    fn find_idx(&self, client: ClientID) -> (r: Option<usize>)
        ensures
            match r {
                Some(i) => i < self.entries@.len() && self.entries@[i as int].0 == client,
                None => forall|i: int|
                    0 <= i < self.entries@.len() ==> self.entries@[i].0 != client,
            },
    {
        let mut i: usize = 0;
        while i < self.entries.len()
            invariant
                i <= self.entries@.len(),
                forall|j: int| 0 <= j < i ==> self.entries@[j].0 != client,
            decreases self.entries@.len() - i,
        {
            if self.entries[i].0 == client {
                return Some(i);
            }
            i += 1;
        }
        None
    }

    /// The highest contiguous counter known for `client`; 0 if the client was
    /// never seen.
    pub fn get(&self, client: ClientID) -> (r: Counter)
        requires
            self.wf(),
        ensures
            r == self.get_spec(client),
    {
        match self.find_idx(client) {
            Some(i) => {
                proof {
                    lemma_seq_get_at(self.entries@, i as int, client);
                }
                self.entries[i].1
            },
            None => {
                proof {
                    lemma_seq_get_absent(self.entries@, client);
                }
                0
            },
        }
    }

    /// Whether this frontier contains `op`.
    pub fn includes(&self, op: &OpID) -> (r: bool)
        requires
            self.wf(),
        ensures
            r == self.includes_spec(*op),
    {
        self.get(op.client) > op.counter
    }

    /// Advances `client`'s entry to `counter`. The frontier only ever grows:
    /// moving an entry backward is refused and leaves the vector unchanged.
    pub fn set_end(&mut self, client: ClientID, counter: Counter) -> (r: Result<(), LoroError>)
        requires
            old(self).wf(),
        ensures
            final(self).wf(),
            r is Ok <==> counter >= old(self).get_spec(client),
            r is Err ==> r == Err::<(), LoroError>(LoroError::CausalityViolation)
                && *final(self) == *old(self),
            r is Ok ==> final(self).get_spec(client) == counter && (forall|c: ClientID|
                c != client ==> final(self).get_spec(c) == old(self).get_spec(c)),
    {
        match self.find_idx(client) {
            Some(i) => {
                proof {
                    lemma_seq_get_at(self.entries@, i as int, client);
                }
                if counter < self.entries[i].1 {
                    Err(LoroError::CausalityViolation)
                } else {
                    proof {
                        lemma_seq_get_update(self.entries@, i as int, client, counter);
                    }
                    self.entries.set(i, (client, counter));
                    Ok(())
                }
            },
            None => {
                proof {
                    lemma_seq_get_absent(self.entries@, client);
                    lemma_seq_get_push(self.entries@, client, counter);
                }
                self.entries.push((client, counter));
                Ok(())
            },
        }
    }

    /// Takes the pointwise maximum with `other`.
    pub fn merge(&mut self, other: &VersionVector)
        requires
            old(self).wf(),
            other.wf(),
        ensures
            final(self).wf(),
            forall|c: ClientID|
                final(self).get_spec(c) == max_counter(
                    old(self).get_spec(c),
                    other.get_spec(c),
                ),
    {
        let mut i: usize = 0;
        while i < other.entries.len()
            invariant
                self.wf(),
                other.wf(),
                i <= other.entries@.len(),
                forall|c: ClientID|
                    self.get_spec(c) == max_counter(
                        old(self).get_spec(c),
                        seq_get(other.entries@.take(i as int), c),
                    ),
            decreases other.entries@.len() - i,
        {
            let (c, v) = other.entries[i];
            proof {
                lemma_seq_get_take_absent(other.entries@, i as int, c);
                assert(other.entries@.take(i as int + 1).drop_last()
                    =~= other.entries@.take(i as int));
                assert forall|c2: ClientID| c2 != c implies seq_get(
                    other.entries@.take(i as int + 1),
                    c2,
                ) == seq_get(other.entries@.take(i as int), c2) by {}
            }
            let cur = self.get(c);
            if v > cur {
                let res = self.set_end(c, v);
            }
            i += 1;
        }
        proof {
            assert(other.entries@.take(other.entries@.len() as int) =~= other.entries@);
        }
    }

    /// Whether this frontier contains everything `other` does. Two
    /// frontiers where neither dominates the other are concurrent.
    pub fn dominates(&self, other: &VersionVector) -> (r: bool)
        requires
            self.wf(),
            other.wf(),
        ensures
            r == other.le_spec(*self),
    {
        let n = other.entries.len();
        let mut i: usize = 0;
        while i < n
            invariant
                self.wf(),
                other.wf(),
                n == other.entries@.len(),
                i <= n,
                forall|j: int|
                    0 <= j < i ==> other.get_spec((#[trigger] other.entries@[j]).0)
                        <= self.get_spec(other.entries@[j].0),
            decreases n - i,
        {
            let (c, v) = other.entries[i];
            proof {
                lemma_seq_get_at(other.entries@, i as int, c);
            }
            if self.get(c) < v {
                return false;
            }
            i += 1;
        }
        proof {
            assert forall|c: ClientID| other.get_spec(c) <= self.get_spec(c) by {
                if other.get_spec(c) != 0 {
                    lemma_seq_get_nonzero_exists(other.entries@, c);
                    let j = choose|j: int|
                        0 <= j < other.entries@.len() && (#[trigger] other.entries@[j]).0 == c;
                    assert(other.get_spec(other.entries@[j].0) <= self.get_spec(
                        other.entries@[j].0,
                    ));
                }
            }
        }
        true
    }

    /// A copy of this frontier (a snapshot, not a live view).
    pub fn snapshot(&self) -> (r: VersionVector)
        requires
            self.wf(),
        ensures
            r.wf(),
            r.entries@ == self.entries@,
            forall|c: ClientID| r.get_spec(c) == self.get_spec(c),
    {
        let mut out: Vec<(ClientID, Counter)> = Vec::new();
        let mut i: usize = 0;
        while i < self.entries.len()
            invariant
                i <= self.entries@.len(),
                out@ == self.entries@.take(i as int),
            decreases self.entries@.len() - i,
        {
            out.push(self.entries[i]);
            proof {
                assert(out@ =~= self.entries@.take(i as int + 1));
            }
            i += 1;
        }
        proof {
            assert(self.entries@.take(self.entries@.len() as int) =~= self.entries@);
        }
        VersionVector { entries: out }
    }
}

/// When `client` sits at position `i` of a duplicate-free sequence, the scan
/// returns that entry's counter.
pub proof fn lemma_seq_get_at(s: Seq<(ClientID, Counter)>, i: int, client: ClientID)
    requires
        unique_clients(s),
        0 <= i < s.len(),
        s[i].0 == client,
    ensures
        seq_get(s, client) == s[i].1,
    decreases s.len(),
{
    if i == s.len() - 1 {
    } else {
        assert(s.last().0 != client);
        assert(s.drop_last()[i] == s[i]);
        lemma_seq_get_at(s.drop_last(), i, client);
    }
}

/// A client that appears nowhere scans to 0.
pub proof fn lemma_seq_get_absent(s: Seq<(ClientID, Counter)>, client: ClientID)
    requires
        forall|i: int| 0 <= i < s.len() ==> s[i].0 != client,
    ensures
        seq_get(s, client) == 0,
    decreases s.len(),
{
    if s.len() > 0 {
        lemma_seq_get_absent(s.drop_last(), client);
    }
}

/// Appending an entry for an absent client makes the scan return its counter
/// and leaves every other client's result untouched.
pub proof fn lemma_seq_get_push(s: Seq<(ClientID, Counter)>, client: ClientID, counter: Counter)
    ensures
        seq_get(s.push((client, counter)), client) == counter,
        forall|c2: ClientID|
            c2 != client ==> seq_get(s.push((client, counter)), c2) == seq_get(s, c2),
{
    assert(s.push((client, counter)).drop_last() =~= s);
}

/// Updating the entry that holds `client` rewrites that client's result and
/// no other's.
pub proof fn lemma_seq_get_update(s: Seq<(ClientID, Counter)>, i: int, client: ClientID, counter: Counter)
    requires
        unique_clients(s),
        0 <= i < s.len(),
        s[i].0 == client,
    ensures
        seq_get(s.update(i, (client, counter)), client) == counter,
        forall|c2: ClientID|
            c2 != client ==> seq_get(s.update(i, (client, counter)), c2) == seq_get(s, c2),
    decreases s.len(),
{
    let t = s.update(i, (client, counter));
    if i == s.len() - 1 {
        assert(t.last() == (client, counter));
        assert(t.drop_last() =~= s.drop_last());
        assert forall|c2: ClientID| c2 != client implies seq_get(t, c2) == seq_get(s, c2) by {
            assert(seq_get(t, c2) == seq_get(t.drop_last(), c2));
            assert(seq_get(s, c2) == seq_get(s.drop_last(), c2));
        }
    } else {
        assert(s.last().0 != client);
        assert(t.last() == s.last());
        assert(t.drop_last() =~= s.drop_last().update(i, (client, counter)));
        assert(s.drop_last()[i] == s[i]);
        lemma_seq_get_update(s.drop_last(), i, client, counter);
        assert forall|c2: ClientID| c2 != client implies seq_get(t, c2) == seq_get(s, c2) by {
            if t.last().0 == c2 {
            } else {
                assert(seq_get(t, c2) == seq_get(t.drop_last(), c2));
                assert(seq_get(s, c2) == seq_get(s.drop_last(), c2));
            }
        }
    }
}

/// A client whose scan is not 0 occurs somewhere.
pub proof fn lemma_seq_get_nonzero_exists(s: Seq<(ClientID, Counter)>, client: ClientID)
    requires
        seq_get(s, client) != 0,
    ensures
        exists|i: int| 0 <= i < s.len() && (#[trigger] s[i]).0 == client,
    decreases s.len(),
{
    if s.len() > 0 {
        if s.last().0 == client {
            assert(s[s.len() - 1].0 == client);
        } else {
            lemma_seq_get_nonzero_exists(s.drop_last(), client);
            let i = choose|i: int| 0 <= i < s.drop_last().len() && (#[trigger] s.drop_last()[i]).0 == client;
            assert(s[i].0 == client);
        }
    }
}

/// In a duplicate-free sequence, a client sitting at position `i` is absent
/// from the prefix before `i`.
pub proof fn lemma_seq_get_take_absent(s: Seq<(ClientID, Counter)>, i: int, client: ClientID)
    requires
        unique_clients(s),
        0 <= i < s.len(),
        s[i].0 == client,
    ensures
        seq_get(s.take(i), client) == 0,
{
    assert(forall|j: int| 0 <= j < i ==> s.take(i)[j] == s[j]);
    lemma_seq_get_absent(s.take(i), client);
}

} // verus!
