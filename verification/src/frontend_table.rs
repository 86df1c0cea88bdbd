//! The frontend table: a capacity-bounded mapping from a frontend identity
//! to its backend pool, viewed abstractly as a `Map<Frontend, BackendList>`.
//!
//! The control plane populates and replaces entries wholesale; the
//! forwarding engine reads an entry on every packet and writes back a bumped
//! rotation cursor. A full table rejects new identities; replacing a present
//! identity always succeeds.

use vstd::prelude::*;
use crate::types::{BackendList, Frontend, FRONTEND_TABLE_CAPACITY};

verus! {

/// The pool recorded for `f`: the value of the first (and, with distinct
/// keys, only) entry whose key is `f`.
pub open spec fn ft_lookup(s: Seq<(Frontend, BackendList)>, f: Frontend) -> Option<BackendList>
    decreases s.len(),
{
    if s.len() == 0 {
        None
    } else if s[0].0 == f {
        Some(s[0].1)
    } else {
        ft_lookup(s.drop_first(), f)
    }
}

/// The entry sequence read as a map; an earlier entry wins over a later one
/// with the same key, though well-formed tables never hold two.
pub open spec fn ft_as_map(s: Seq<(Frontend, BackendList)>) -> Map<Frontend, BackendList>
    decreases s.len(),
{
    if s.len() == 0 {
        Map::empty()
    } else {
        ft_as_map(s.drop_first()).insert(s[0].0, s[0].1)
    }
}

/// No two entries share a frontend key.
pub open spec fn unique_frontend_keys(s: Seq<(Frontend, BackendList)>) -> bool {
    forall|i: int, j: int|
        0 <= i < j < s.len() ==> (#[trigger] s[i]).0 != (#[trigger] s[j]).0
}

/// The map view agrees with the first-match scan.
proof fn lemma_as_map_is_lookup(s: Seq<(Frontend, BackendList)>, f: Frontend)
    ensures
        ft_as_map(s).contains_key(f) <==> ft_lookup(s, f).is_some(),
        ft_as_map(s).contains_key(f) ==> ft_as_map(s)[f] == ft_lookup(s, f).unwrap(),
    decreases s.len(),
{
    if s.len() > 0 {
        lemma_as_map_is_lookup(s.drop_first(), f);
    }
}

/// When `i` is the first index carrying `f`, the scan returns that entry's
/// pool.
proof fn lemma_ft_lookup_at(s: Seq<(Frontend, BackendList)>, f: Frontend, i: int)
    requires
        0 <= i < s.len(),
        s[i].0 == f,
        forall|j: int| 0 <= j < i ==> (#[trigger] s[j]).0 != f,
    ensures
        ft_lookup(s, f) == Some(s[i].1),
    decreases i,
{
    if i > 0 {
        assert(s.drop_first()[i - 1] == s[i]);
        assert(forall|j: int| 0 <= j < i - 1 ==> #[trigger] s.drop_first()[j] == s[j + 1]);
        lemma_ft_lookup_at(s.drop_first(), f, i - 1);
    }
}

/// The scan misses exactly when no entry carries the key.
proof fn lemma_ft_lookup_none_iff(s: Seq<(Frontend, BackendList)>, f: Frontend)
    ensures
        ft_lookup(s, f) is None <==> (forall|i: int|
            0 <= i < s.len() ==> (#[trigger] s[i]).0 != f),
    decreases s.len(),
{
    if s.len() > 0 {
        lemma_ft_lookup_none_iff(s.drop_first(), f);
        if ft_lookup(s, f) is None {
            assert forall|i: int| 0 <= i < s.len() implies (#[trigger] s[i]).0 != f by {
                if i > 0 {
                    assert(s.drop_first()[i - 1] == s[i]);
                }
            }
        } else if s[0].0 != f {
            let j = choose|j: int|
                0 <= j < s.drop_first().len() && (#[trigger] s.drop_first()[j]).0 == f;
            assert(s[j + 1].0 == f);
        }
    }
}

/// Rebinding the first index carrying a key updates the map view in place.
proof fn lemma_as_map_update_at(s: Seq<(Frontend, BackendList)>, i: int, v: BackendList)
    requires
        0 <= i < s.len(),
        forall|j: int| 0 <= j < i ==> (#[trigger] s[j]).0 != s[i].0,
    ensures
        ft_as_map(s.update(i, (s[i].0, v))) == ft_as_map(s).insert(s[i].0, v),
    decreases i,
{
    let k = s[i].0;
    let u = s.update(i, (k, v));
    if i == 0 {
        assert(u.drop_first() =~= s.drop_first());
        assert(ft_as_map(s.drop_first()).insert(k, s[0].1).insert(k, v) =~= ft_as_map(
            s.drop_first(),
        ).insert(k, v));
    } else {
        assert(u[0] == s[0]);
        assert(u.drop_first() =~= s.drop_first().update(i - 1, (k, v)));
        assert(s.drop_first()[i - 1] == s[i]);
        assert(forall|j: int| 0 <= j < i - 1 ==> #[trigger] s.drop_first()[j] == s[j + 1]);
        lemma_as_map_update_at(s.drop_first(), i - 1, v);
        assert(ft_as_map(s.drop_first()).insert(k, v).insert(s[0].0, s[0].1) =~= ft_as_map(
            s.drop_first(),
        ).insert(s[0].0, s[0].1).insert(k, v));
    }
}

/// Appending an absent key inserts it into the map view.
proof fn lemma_as_map_push(s: Seq<(Frontend, BackendList)>, f: Frontend, v: BackendList)
    requires
        ft_lookup(s, f) is None,
    ensures
        ft_as_map(s.push((f, v))) == ft_as_map(s).insert(f, v),
    decreases s.len(),
{
    if s.len() == 0 {
        assert(s.push((f, v)).drop_first() =~= s);
        assert(ft_as_map(s.push((f, v))) =~= ft_as_map(s).insert(f, v));
    } else {
        assert(s.push((f, v))[0] == s[0]);
        assert(s.push((f, v)).drop_first() =~= s.drop_first().push((f, v)));
        lemma_as_map_push(s.drop_first(), f, v);
        assert(ft_as_map(s.drop_first()).insert(f, v).insert(s[0].0, s[0].1) =~= ft_as_map(
            s.drop_first(),
        ).insert(s[0].0, s[0].1).insert(f, v));
    }
}

/// Removing the only index carrying a key removes it from the map view.
proof fn lemma_as_map_remove_at(s: Seq<(Frontend, BackendList)>, i: int)
    requires
        unique_frontend_keys(s),
        0 <= i < s.len(),
    ensures
        ft_as_map(s.remove(i)) == ft_as_map(s).remove(s[i].0),
    decreases i,
{
    let k = s[i].0;
    if i == 0 {
        assert(s.remove(0) =~= s.drop_first());
        assert forall|j: int| 0 <= j < s.drop_first().len() implies (#[trigger] s.drop_first()[j]).0
            != k by {
            assert(s.drop_first()[j] == s[j + 1]);
        }
        lemma_ft_lookup_none_iff(s.drop_first(), k);
        lemma_as_map_is_lookup(s.drop_first(), k);
        assert(ft_as_map(s.drop_first()).insert(k, s[0].1).remove(k) =~= ft_as_map(
            s.drop_first(),
        ));
    } else {
        assert(s.remove(i)[0] == s[0]);
        assert(s.remove(i).drop_first() =~= s.drop_first().remove(i - 1));
        assert(forall|p: int, q: int|
            0 <= p < q < s.drop_first().len() ==> (#[trigger] s.drop_first()[p]).0
                != (#[trigger] s.drop_first()[q]).0) by {
            assert(forall|p: int|
                0 <= p < s.drop_first().len() ==> #[trigger] s.drop_first()[p] == s[p + 1]);
        }
        assert(s.drop_first()[i - 1] == s[i]);
        lemma_as_map_remove_at(s.drop_first(), i - 1);
        assert(ft_as_map(s.drop_first()).remove(k).insert(s[0].0, s[0].1) =~= ft_as_map(
            s.drop_first(),
        ).insert(s[0].0, s[0].1).remove(k));
    }
}

/// The frontend table: frontend identity to backend pool.
pub struct FrontendTable {
    entries: Vec<(Frontend, BackendList)>,
}

impl View for FrontendTable {
    type V = Map<Frontend, BackendList>;

    closed spec fn view(&self) -> Map<Frontend, BackendList> {
        ft_as_map(self.entries@)
    }
}

impl FrontendTable {
    /// Number of configured frontends.
    pub closed spec fn spec_len(&self) -> int {
        self.entries@.len() as int
    }

    /// Bounded size, pairwise-distinct keys, and every stored pool well
    /// formed.
    pub closed spec fn wf(&self) -> bool {
        &&& self.entries@.len() <= FRONTEND_TABLE_CAPACITY as int
        &&& unique_frontend_keys(self.entries@)
        &&& forall|i: int|
            0 <= i < self.entries@.len() ==> (#[trigger] self.entries@[i]).1.wf()
    }

    /// An empty table.
    pub fn new() -> (r: FrontendTable)
        ensures
            r.wf(),
            r@ == Map::<Frontend, BackendList>::empty(),
            r.spec_len() == 0,
    {
        let r = FrontendTable { entries: Vec::new() };
        proof {
            assert(r@ =~= Map::<Frontend, BackendList>::empty());
        }
        r
    }

    /// Number of configured frontends.
    pub fn len(&self) -> (n: usize)
        ensures
            n == self.spec_len(),
    {
        self.entries.len()
    }

    /// The index of the entry for `f`, when one exists.
    fn find_index(&self, f: &Frontend) -> (r: Option<usize>)
        ensures
            r matches Some(i) ==> 0 <= i < self.entries@.len() && self.entries@[i as int].0 == *f
                && (forall|j: int| 0 <= j < i ==> (#[trigger] self.entries@[j]).0 != *f),
            r is None ==> forall|i: int|
                0 <= i < self.entries@.len() ==> (#[trigger] self.entries@[i]).0 != *f,
    {
        let mut i: usize = 0;
        while i < self.entries.len()
            invariant
                i <= self.entries@.len(),
                forall|j: int| 0 <= j < i ==> (#[trigger] self.entries@[j]).0 != *f,
            decreases self.entries@.len() - i,
        {
            if self.entries[i].0 == *f {
                return Some(i);
            }
            i += 1;
        }
        None
    }

    /// Read-only snapshot of the pool configured for `f`, rotation cursor
    /// included. A miss means no frontend is configured at that identity.
    pub fn lookup(&self, f: &Frontend) -> (r: Option<BackendList>)
        requires
            self.wf(),
        ensures
            r is Some <==> self@.contains_key(*f),
            r matches Some(bl) ==> bl == self@[*f] && bl.wf(),
    {
        match self.find_index(f) {
            Some(i) => {
                proof {
                    lemma_ft_lookup_at(self.entries@, *f, i as int);
                    lemma_as_map_is_lookup(self.entries@, *f);
                }
                Some(self.entries[i].1)
            },
            None => {
                proof {
                    lemma_ft_lookup_none_iff(self.entries@, *f);
                    lemma_as_map_is_lookup(self.entries@, *f);
                }
                None
            },
        }
    }

    /// Insert or replace the pool for `f` wholesale. Replacement always
    /// succeeds; a new identity is rejected exactly when the table is full,
    /// and the table is then unchanged.
    pub fn upsert(&mut self, f: Frontend, bl: BackendList) -> (ok: bool)
        requires
            old(self).wf(),
            bl.wf(),
        ensures
            final(self).wf(),
            ok <==> (old(self)@.contains_key(f) || old(self).spec_len()
                < FRONTEND_TABLE_CAPACITY as int),
            ok ==> final(self)@ == old(self)@.insert(f, bl),
            !ok ==> final(self)@ == old(self)@ && final(self).spec_len() == old(self).spec_len(),
            final(self).spec_len() == if old(self)@.contains_key(f) || !ok {
                old(self).spec_len()
            } else {
                old(self).spec_len() + 1
            },
    {
        let ghost s = self.entries@;
        match self.find_index(&f) {
            Some(i) => {
                proof {
                    lemma_ft_lookup_at(s, f, i as int);
                    lemma_as_map_is_lookup(s, f);
                    lemma_as_map_update_at(s, i as int, bl);
                }
                self.entries[i] = (f, bl);
                proof {
                    assert(self.entries@ =~= s.update(i as int, (f, bl)));
                    assert forall|p: int, q: int| 0 <= p < q < self.entries@.len() implies
                        (#[trigger] self.entries@[p]).0 != (#[trigger] self.entries@[q]).0
                    by {
                        assert(s[p].0 != s[q].0);
                    }
                }
                true
            },
            None => {
                proof {
                    lemma_ft_lookup_none_iff(s, f);
                    lemma_as_map_is_lookup(s, f);
                }
                if self.entries.len() < FRONTEND_TABLE_CAPACITY {
                    proof {
                        lemma_as_map_push(s, f, bl);
                    }
                    self.entries.push((f, bl));
                    proof {
                        assert forall|p: int, q: int| 0 <= p < q < self.entries@.len() implies
                            (#[trigger] self.entries@[p]).0 != (#[trigger] self.entries@[q]).0
                        by {
                            if q < s.len() {
                                assert(s[p].0 != s[q].0);
                            }
                        }
                    }
                    true
                } else {
                    false
                }
            },
        }
    }

    /// Delete the entry for `f`, if any.
    pub fn remove(&mut self, f: &Frontend)
        requires
            old(self).wf(),
        ensures
            final(self).wf(),
            final(self)@ == old(self)@.remove(*f),
    {
        let ghost s = self.entries@;
        match self.find_index(f) {
            Some(i) => {
                proof {
                    lemma_as_map_remove_at(s, i as int);
                }
                self.entries.remove(i);
                proof {
                    assert forall|p: int, q: int| 0 <= p < q < self.entries@.len() implies
                        (#[trigger] self.entries@[p]).0 != (#[trigger] self.entries@[q]).0
                    by {
                        let p0 = if p < i { p } else { p + 1 };
                        let q0 = if q < i { q } else { q + 1 };
                        assert(self.entries@[p] == s[p0]);
                        assert(self.entries@[q] == s[q0]);
                    }
                }
            },
            None => {
                proof {
                    lemma_ft_lookup_none_iff(s, *f);
                    lemma_as_map_is_lookup(s, *f);
                    assert(self@ =~= old(self)@.remove(*f));
                }
            },
        }
    }
}

} // verus!
