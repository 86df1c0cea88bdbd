//! The connection-affinity table: a capacity-bounded mapping from client
//! identity to the backend chosen for that flow, with least-recently-used
//! eviction.
//!
//! The table is modelled as a sequence of `(ClientKey, Backend)` pairs with
//! pairwise-distinct keys, ordered by recency: index 0 is the most recently
//! used entry and the last index is the least recently used one. A lookup
//! refreshes its entry's recency; an insert at capacity evicts exactly the
//! last entry.

use vstd::prelude::*;
use crate::types::{Backend, ClientKey, CONNECTIONS_CAPACITY};

verus! {

/// The backend recorded for `k`: the value of the first (and, with distinct
/// keys, only) entry whose key is `k`.
pub open spec fn aff_lookup(s: Seq<(ClientKey, Backend)>, k: ClientKey) -> Option<Backend>
    decreases s.len(),
{
    if s.len() == 0 {
        None
    } else if s[0].0 == k {
        Some(s[0].1)
    } else {
        aff_lookup(s.drop_first(), k)
    }
}

/// The table with the first entry for `k` removed; unchanged when `k` is
/// absent.
pub open spec fn aff_remove(s: Seq<(ClientKey, Backend)>, k: ClientKey) -> Seq<(ClientKey, Backend)>
    decreases s.len(),
{
    if s.len() == 0 {
        s
    } else if s[0].0 == k {
        s.drop_first()
    } else {
        seq![s[0]] + aff_remove(s.drop_first(), k)
    }
}

/// The table after a lookup of a present key `k` refreshed its recency: the
/// entry moves to the front, everything else keeps its order.
pub open spec fn aff_refresh(s: Seq<(ClientKey, Backend)>, k: ClientKey) -> Seq<(ClientKey, Backend)> {
    seq![(k, aff_lookup(s, k).unwrap())] + aff_remove(s, k)
}

/// The table after recording `k -> b` in a table bounded by `cap`: a present
/// key is re-bound and moved to the front; a new key enters at the front,
/// evicting the least-recently-used (last) entry when the table is full.
pub open spec fn aff_insert(
    s: Seq<(ClientKey, Backend)>,
    k: ClientKey,
    b: Backend,
    cap: int,
) -> Seq<(ClientKey, Backend)> {
    if aff_lookup(s, k).is_some() {
        seq![(k, b)] + aff_remove(s, k)
    } else if s.len() >= cap {
        seq![(k, b)] + s.drop_last()
    } else {
        seq![(k, b)] + s
    }
}

/// No two entries share a client key.
pub open spec fn unique_client_keys(s: Seq<(ClientKey, Backend)>) -> bool {
    forall|i: int, j: int|
        0 <= i < j < s.len() ==> (#[trigger] s[i]).0 != (#[trigger] s[j]).0
}

/// `aff_lookup` misses exactly when no entry carries the key.
pub proof fn lemma_aff_lookup_none_iff(s: Seq<(ClientKey, Backend)>, k: ClientKey)
    ensures
        aff_lookup(s, k) is None <==> (forall|i: int| 0 <= i < s.len() ==> (#[trigger] s[i]).0 != k),
    decreases s.len(),
{
    if s.len() > 0 {
        lemma_aff_lookup_none_iff(s.drop_first(), k);
        if aff_lookup(s, k) is None {
            assert forall|i: int| 0 <= i < s.len() implies (#[trigger] s[i]).0 != k by {
                if i > 0 {
                    assert(s.drop_first()[i - 1] == s[i]);
                }
            }
        } else if s[0].0 != k {
            let j = choose|j: int|
                0 <= j < s.drop_first().len() && (#[trigger] s.drop_first()[j]).0 == k;
            assert(s[j + 1].0 == k);
        }
    }
}

/// When `i` is the first index carrying `k`, the lookup returns that entry's
/// backend.
pub proof fn lemma_aff_lookup_at(s: Seq<(ClientKey, Backend)>, k: ClientKey, i: int)
    requires
        0 <= i < s.len(),
        s[i].0 == k,
        forall|j: int| 0 <= j < i ==> (#[trigger] s[j]).0 != k,
    ensures
        aff_lookup(s, k) == Some(s[i].1),
    decreases i,
{
    if i > 0 {
        assert(s.drop_first()[i - 1] == s[i]);
        assert(forall|j: int| 0 <= j < i - 1 ==> #[trigger] s.drop_first()[j] == s[j + 1]);
        lemma_aff_lookup_at(s.drop_first(), k, i - 1);
    }
}

/// When `i` is the first index carrying `k`, removing `k` removes exactly
/// that index.
pub proof fn lemma_aff_remove_at(s: Seq<(ClientKey, Backend)>, k: ClientKey, i: int)
    requires
        0 <= i < s.len(),
        s[i].0 == k,
        forall|j: int| 0 <= j < i ==> (#[trigger] s[j]).0 != k,
    ensures
        aff_remove(s, k) == s.remove(i),
    decreases i,
{
    if i == 0 {
        assert(aff_remove(s, k) =~= s.remove(0));
    } else {
        assert(s.drop_first()[i - 1] == s[i]);
        assert(forall|j: int| 0 <= j < i - 1 ==> #[trigger] s.drop_first()[j] == s[j + 1]);
        lemma_aff_remove_at(s.drop_first(), k, i - 1);
        assert(aff_remove(s, k) =~= s.remove(i));
    }
}

/// Removing an absent key changes nothing.
pub proof fn lemma_aff_remove_absent(s: Seq<(ClientKey, Backend)>, k: ClientKey)
    requires
        forall|i: int| 0 <= i < s.len() ==> (#[trigger] s[i]).0 != k,
    ensures
        aff_remove(s, k) == s,
    decreases s.len(),
{
    if s.len() > 0 {
        assert(forall|i: int| 0 <= i < s.drop_first().len() ==> #[trigger] s.drop_first()[i] == s[i + 1]);
        lemma_aff_remove_absent(s.drop_first(), k);
        assert(aff_remove(s, k) =~= s);
    }
}

/// The per-client connection table with least-recently-used eviction.
pub struct AffinityTable {
    entries: Vec<(ClientKey, Backend)>,
    capacity: usize,
}

impl View for AffinityTable {
    type V = Seq<(ClientKey, Backend)>;

    closed spec fn view(&self) -> Seq<(ClientKey, Backend)> {
        self.entries@
    }
}

impl AffinityTable {
    /// The bound on how many flows the table tracks at once.
    pub closed spec fn spec_capacity(&self) -> int {
        self.capacity as int
    }

    /// Bounded size, at least one slot, and pairwise-distinct client keys.
    pub open spec fn wf(&self) -> bool {
        &&& self@.len() <= self.spec_capacity()
        &&& self.spec_capacity() >= 1
        &&& unique_client_keys(self@)
    }

    /// An empty table that will hold at most `capacity` flows.
    pub fn new(capacity: usize) -> (r: AffinityTable)
        requires
            capacity >= 1,
        ensures
            r.wf(),
            r@ == Seq::<(ClientKey, Backend)>::empty(),
            r.spec_capacity() == capacity,
    {
        let r = AffinityTable { entries: Vec::new(), capacity };
        proof {
            assert(r@ =~= Seq::<(ClientKey, Backend)>::empty());
        }
        r
    }

    /// An empty table with the default capacity of
    /// [`CONNECTIONS_CAPACITY`] tracked flows.
    pub fn with_default_capacity() -> (r: AffinityTable)
        ensures
            r.wf(),
            r@ == Seq::<(ClientKey, Backend)>::empty(),
            r.spec_capacity() == CONNECTIONS_CAPACITY as int,
    {
        Self::new(CONNECTIONS_CAPACITY)
    }

    /// The configured capacity.
    pub fn capacity(&self) -> (c: usize)
        ensures
            c == self.spec_capacity(),
    {
        self.capacity
    }

    /// How many flows are currently tracked.
    pub fn len(&self) -> (n: usize)
        ensures
            n == self@.len(),
    {
        self.entries.len()
    }

    /// The index of the entry for `k`, when one exists; the hit is unique
    /// because keys are pairwise distinct.
    fn find_index(&self, k: &ClientKey) -> (r: Option<usize>)
        ensures
            r matches Some(i) ==> 0 <= i < self@.len() && self@[i as int].0 == *k && (forall|j: int|
                0 <= j < i ==> (#[trigger] self@[j]).0 != *k),
            r is None ==> forall|i: int| 0 <= i < self@.len() ==> (#[trigger] self@[i]).0 != *k,
    {
        let mut i: usize = 0;
        while i < self.entries.len()
            invariant
                i <= self@.len(),
                forall|j: int| 0 <= j < i ==> (#[trigger] self@[j]).0 != *k,
            decreases self@.len() - i,
        {
            if self.entries[i].0 == *k {
                return Some(i);
            }
            i += 1;
        }
        None
    }

    /// Look up the backend affined to `k` and, on a hit, refresh the entry's
    /// recency by moving it to the front.
    pub fn lookup(&mut self, k: &ClientKey) -> (r: Option<Backend>)
        requires
            old(self).wf(),
        ensures
            final(self).wf(),
            final(self).spec_capacity() == old(self).spec_capacity(),
            r == aff_lookup(old(self)@, *k),
            r is Some ==> final(self)@ == aff_refresh(old(self)@, *k),
            r is None ==> final(self)@ == old(self)@,
    {
        match self.find_index(k) {
            None => {
                proof {
                    lemma_aff_lookup_none_iff(self@, *k);
                }
                None
            },
            Some(i) => {
                proof {
                    lemma_aff_lookup_at(self@, *k, i as int);
                    lemma_aff_remove_at(self@, *k, i as int);
                }
                let entry = self.entries.remove(i);
                self.entries.insert(0, entry);
                proof {
                    let s = old(self)@;
                    assert(self@ =~= aff_refresh(s, *k));
                    assert forall|p: int, q: int| 0 <= p < q < self@.len() implies
                        (#[trigger] self@[p]).0 != (#[trigger] self@[q]).0
                    by {
                        let rem = s.remove(i as int);
                        if p == 0 {
                            // every entry of the remainder came from an index of s
                            // other than i, whose key differs from k by uniqueness
                            if q - 1 < i {
                                assert(rem[q - 1] == s[q - 1]);
                            } else {
                                assert(rem[q - 1] == s[q]);
                            }
                        } else {
                            let p0 = if p - 1 < i { p - 1 } else { p };
                            let q0 = if q - 1 < i { q - 1 } else { q };
                            assert(rem[p - 1] == s[p0]);
                            assert(rem[q - 1] == s[q0]);
                        }
                    }
                }
                Some(entry.1)
            },
        }
    }

    /// Record `k -> b`: re-bind and refresh a present key, or admit a new
    /// key at the front, evicting the least-recently-used entry when full.
    pub fn insert(&mut self, k: ClientKey, b: Backend)
        requires
            old(self).wf(),
        ensures
            final(self).wf(),
            final(self).spec_capacity() == old(self).spec_capacity(),
            final(self)@ == aff_insert(old(self)@, k, b, old(self).spec_capacity()),
    {
        let ghost s = self@;
        match self.find_index(&k) {
            Some(i) => {
                proof {
                    lemma_aff_lookup_at(s, k, i as int);
                    lemma_aff_remove_at(s, k, i as int);
                }
                self.entries.remove(i);
                self.entries.insert(0, (k, b));
                proof {
                    assert(self@ =~= aff_insert(s, k, b, old(self).spec_capacity()));
                    Self::lemma_unique_after_front_insert(s, i as int, k, b, self@);
                }
            },
            None => {
                proof {
                    lemma_aff_lookup_none_iff(s, k);
                }
                if self.entries.len() >= self.capacity {
                    self.entries.pop();
                    self.entries.insert(0, (k, b));
                    proof {
                        assert(self@ =~= aff_insert(s, k, b, old(self).spec_capacity()));
                        assert forall|p: int, q: int| 0 <= p < q < self@.len() implies
                            (#[trigger] self@[p]).0 != (#[trigger] self@[q]).0
                        by {
                            if p > 0 {
                                assert(self@[p] == s[p - 1]);
                            }
                            assert(self@[q] == s[q - 1]);
                        }
                    }
                } else {
                    self.entries.insert(0, (k, b));
                    proof {
                        assert(self@ =~= aff_insert(s, k, b, old(self).spec_capacity()));
                        assert forall|p: int, q: int| 0 <= p < q < self@.len() implies
                            (#[trigger] self@[p]).0 != (#[trigger] self@[q]).0
                        by {
                            if p > 0 {
                                assert(self@[p] == s[p - 1]);
                            }
                            assert(self@[q] == s[q - 1]);
                        }
                    }
                }
            },
        }
    }

    /// Distinct keys survive removing index `i` of `s` and pushing a fresh
    /// front entry keyed `k`, when `i` was the only index keyed `k`.
    proof fn lemma_unique_after_front_insert(
        s: Seq<(ClientKey, Backend)>,
        i: int,
        k: ClientKey,
        b: Backend,
        t: Seq<(ClientKey, Backend)>,
    )
        requires
            unique_client_keys(s),
            0 <= i < s.len(),
            s[i].0 == k,
            t == s.remove(i).insert(0, (k, b)),
        ensures
            unique_client_keys(t),
    {
        assert forall|p: int, q: int| 0 <= p < q < t.len() implies
            (#[trigger] t[p]).0 != (#[trigger] t[q]).0
        by {
            let rem = s.remove(i);
            let q0 = if q - 1 < i { q - 1 } else { q };
            assert(rem[q - 1] == s[q0]);
            if p > 0 {
                let p0 = if p - 1 < i { p - 1 } else { p };
                assert(rem[p - 1] == s[p0]);
            }
        }
    }

    /// Drop the affinity entry for `k`, if any: used when a connection reset
    /// ends the flow.
    pub fn remove(&mut self, k: &ClientKey)
        requires
            old(self).wf(),
        ensures
            final(self).wf(),
            final(self).spec_capacity() == old(self).spec_capacity(),
            final(self)@ == aff_remove(old(self)@, *k),
    {
        let ghost s = self@;
        match self.find_index(k) {
            Some(i) => {
                proof {
                    lemma_aff_remove_at(s, *k, i as int);
                }
                self.entries.remove(i);
                proof {
                    assert forall|p: int, q: int| 0 <= p < q < self@.len() implies
                        (#[trigger] self@[p]).0 != (#[trigger] self@[q]).0
                    by {
                        let p0 = if p < i { p } else { p + 1 };
                        let q0 = if q < i { q } else { q + 1 };
                        assert(self@[p] == s[p0]);
                        assert(self@[q] == s[q0]);
                    }
                }
            },
            None => {
                proof {
                    lemma_aff_remove_absent(s, *k);
                }
            },
        }
    }
}

} // verus!
