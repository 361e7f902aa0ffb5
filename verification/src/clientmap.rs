//! The association map for the client index, keyed by 16-byte client
//! identities. It mirrors [`crate::idmap::ClientMap`] for the wider key type:
//! a vector of entries with pairwise-distinct keys, viewed as a `Map`.

use vstd::prelude::*;
use vstd::map::*;

verus! {

/// Whether some entry of `s` has key `k`.
pub open spec fn cid_seq_has_key(s: Seq<(u128, usize)>, k: u128) -> bool {
    exists|i: int| 0 <= i < s.len() && (#[trigger] s[i]).0 == k
}

/// The index of the entry with key `k`, when the keys of `s` are distinct.
pub open spec fn cid_seq_index_of(s: Seq<(u128, usize)>, k: u128) -> int {
    choose|i: int| 0 <= i < s.len() && (#[trigger] s[i]).0 == k
}

/// Pairwise-distinct keys.
pub open spec fn cid_distinct_keys(s: Seq<(u128, usize)>) -> bool {
    forall|i: int, j: int|
        0 <= i < j < s.len() ==> (#[trigger] s[i]).0 != (#[trigger] s[j]).0
}

/// The map an entry sequence stands for.
pub open spec fn cid_seq_as_map(s: Seq<(u128, usize)>) -> Map<u128, usize> {
    Map::new(|k: u128| cid_seq_has_key(s, k), |k: u128| s[cid_seq_index_of(s, k)].1)
}

proof fn lemma_cid_index_unique(s: Seq<(u128, usize)>, k: u128, i: int)
    requires
        cid_distinct_keys(s),
        0 <= i < s.len(),
        s[i].0 == k,
    ensures
        cid_seq_index_of(s, k) == i,
        cid_seq_has_key(s, k),
{
    assert(cid_seq_has_key(s, k));
    let j = cid_seq_index_of(s, k);
    if i < j {
        assert(s[i].0 != s[j].0);
    } else if j < i {
        assert(s[j].0 != s[i].0);
    }
}

/// A map from 16-byte client identities to connection-table tokens.
pub struct ClientMap {
    entries: Vec<(u128, usize)>,
}

impl View for ClientMap {
    type V = Map<u128, usize>;

    closed spec fn view(&self) -> Map<u128, usize> {
        cid_seq_as_map(self.entries@)
    }
}

impl ClientMap {
    /// The representation invariant: entry keys are pairwise distinct.
    pub closed spec fn wf(&self) -> bool {
        cid_distinct_keys(self.entries@)
    }

    /// An empty map.
    pub fn new() -> (r: ClientMap)
        ensures
            r@ == Map::<u128, usize>::empty(),
            r.wf(),
    {
        let r = ClientMap { entries: Vec::new() };
        proof {
            assert(r@ =~= Map::<u128, usize>::empty());
        }
        r
    }

    /// Looks `k` up.
    pub fn get(&self, k: u128) -> (r: Option<usize>)
        requires
            self.wf(),
        ensures
            r == if self@.contains_key(k) {
                Some(self@[k])
            } else {
                None::<usize>
            },
    {
        let n = self.entries.len();
        let mut i: usize = 0;
        while i < n
            invariant
                cid_distinct_keys(self.entries@),
                n == self.entries@.len(),
                i <= n,
                forall|j: int| 0 <= j < i ==> (#[trigger] self.entries@[j]).0 != k,
            decreases n - i,
        {
            if self.entries[i].0 == k {
                proof {
                    lemma_cid_index_unique(self.entries@, k, i as int);
                }
                return Some(self.entries[i].1);
            }
            i = i + 1;
        }
        proof {
            assert(!cid_seq_has_key(self.entries@, k));
        }
        None
    }

    /// Whether `k` is present.
    pub fn contains(&self, k: u128) -> (r: bool)
        requires
            self.wf(),
        ensures
            r == self@.contains_key(k),
    {
        self.get(k).is_some()
    }

    /// Binds `k` to `v`, returning the value it displaced, if any.
    pub fn insert(&mut self, k: u128, v: usize) -> (displaced: Option<usize>)
        requires
            old(self).wf(),
        ensures
            final(self).wf(),
            final(self)@ == old(self)@.insert(k, v),
            displaced == if old(self)@.contains_key(k) {
                Some(old(self)@[k])
            } else {
                None::<usize>
            },
    {
        let ghost s0 = self.entries@;
        let n = self.entries.len();
        let mut i: usize = 0;
        while i < n
            invariant
                cid_distinct_keys(s0),
                n == self.entries@.len(),
                i <= n,
                self.entries@ == s0,
                s0 == old(self).entries@,
                forall|j: int| 0 <= j < i ==> (#[trigger] self.entries@[j]).0 != k,
            decreases n - i,
        {
            if self.entries[i].0 == k {
                let prev = self.entries[i].1;
                self.entries[i] = (k, v);
                proof {
                    let s1 = self.entries@;
                    assert(forall|j: int|
                        0 <= j < s1.len() ==> (#[trigger] s1[j]).0 == s0[j].0);
                    assert(cid_distinct_keys(s1));
                    lemma_cid_index_unique(s0, k, i as int);
                    lemma_cid_index_unique(s1, k, i as int);
                    assert forall|k2: u128| #![auto] true implies {
                        &&& cid_seq_has_key(s1, k2) == cid_seq_as_map(s0).insert(k, v).contains_key(k2)
                        &&& cid_seq_has_key(s1, k2) ==> cid_seq_as_map(s1)[k2] == cid_seq_as_map(s0).insert(
                            k,
                            v,
                        )[k2]
                    } by {
                        if k2 == k {
                            assert(cid_seq_has_key(s1, k));
                            assert(cid_seq_as_map(s1)[k] == v);
                        } else {
                            if cid_seq_has_key(s1, k2) {
                                let j = cid_seq_index_of(s1, k2);
                                lemma_cid_index_unique(s1, k2, j);
                                assert(s0[j].0 == k2);
                                lemma_cid_index_unique(s0, k2, j);
                            }
                            if cid_seq_has_key(s0, k2) {
                                let j = cid_seq_index_of(s0, k2);
                                lemma_cid_index_unique(s0, k2, j);
                                assert(s1[j].0 == k2);
                                lemma_cid_index_unique(s1, k2, j);
                            }
                        }
                    }
                    assert(cid_seq_as_map(s1) =~= cid_seq_as_map(s0).insert(k, v));
                }
                return Some(prev);
            }
            i = i + 1;
        }
        self.entries.push((k, v));
        proof {
            let s1 = self.entries@;
            assert(!cid_seq_has_key(s0, k));
            assert(forall|j: int| 0 <= j < s0.len() ==> (#[trigger] s1[j]) == s0[j]);
            assert(cid_distinct_keys(s1));
            lemma_cid_index_unique(s1, k, s0.len() as int);
            assert forall|k2: u128| #![auto] k2 != k implies {
                &&& cid_seq_has_key(s1, k2) == cid_seq_has_key(s0, k2)
                &&& cid_seq_has_key(s1, k2) ==> cid_seq_as_map(s1)[k2] == cid_seq_as_map(s0)[k2]
            } by {
                if cid_seq_has_key(s1, k2) {
                    let j = cid_seq_index_of(s1, k2);
                    lemma_cid_index_unique(s1, k2, j);
                    assert(j < s0.len());
                    assert(s0[j].0 == k2);
                    lemma_cid_index_unique(s0, k2, j);
                }
                if cid_seq_has_key(s0, k2) {
                    let j = cid_seq_index_of(s0, k2);
                    lemma_cid_index_unique(s0, k2, j);
                    assert(s1[j].0 == k2);
                    lemma_cid_index_unique(s1, k2, j);
                }
            }
            assert(cid_seq_as_map(s1) =~= cid_seq_as_map(s0).insert(k, v));
        }
        None
    }

    /// Unbinds `k`, returning the value it was bound to, if any.
    pub fn remove(&mut self, k: u128) -> (removed: Option<usize>)
        requires
            old(self).wf(),
        ensures
            final(self).wf(),
            final(self)@ == old(self)@.remove(k),
            removed == if old(self)@.contains_key(k) {
                Some(old(self)@[k])
            } else {
                None::<usize>
            },
    {
        let ghost s0 = self.entries@;
        let n = self.entries.len();
        let mut i: usize = 0;
        while i < n
            invariant
                cid_distinct_keys(s0),
                n == self.entries@.len(),
                i <= n,
                self.entries@ == s0,
                s0 == old(self).entries@,
                forall|j: int| 0 <= j < i ==> (#[trigger] self.entries@[j]).0 != k,
            decreases n - i,
        {
            if self.entries[i].0 == k {
                let prev = self.entries[i].1;
                let last = self.entries.len() - 1;
                let moved = self.entries[last];
                self.entries[i] = moved;
                self.entries.pop();
                proof {
                    let s1 = self.entries@;
                    lemma_cid_index_unique(s0, k, i as int);
                    assert(s1 =~= s0.update(i as int, s0[s0.len() - 1]).drop_last());
                    assert forall|j: int| 0 <= j < s1.len() implies (#[trigger] s1[j]).0 != k by {
                        if j == i {
                            if i as int != s0.len() - 1 {
                                assert(s0[i as int].0 != s0[s0.len() - 1].0);
                            }
                        } else {
                            assert(s1[j] == s0[j]);
                        }
                    }
                    assert forall|a: int, b: int| 0 <= a < b < s1.len() implies (
                    #[trigger] s1[a]).0 != (#[trigger] s1[b]).0 by {
                        let oa = if a == i { s0.len() - 1 } else { a };
                        let ob = if b == i { s0.len() - 1 } else { b };
                        assert(s1[a] == s0[oa]);
                        assert(s1[b] == s0[ob]);
                    }
                    assert(cid_distinct_keys(s1));
                    assert forall|k2: u128| #![auto] k2 != k implies {
                        &&& cid_seq_has_key(s1, k2) == cid_seq_has_key(s0, k2)
                        &&& cid_seq_has_key(s1, k2) ==> cid_seq_as_map(s1)[k2] == cid_seq_as_map(s0)[k2]
                    } by {
                        if cid_seq_has_key(s1, k2) {
                            let j = cid_seq_index_of(s1, k2);
                            lemma_cid_index_unique(s1, k2, j);
                            let oj = if j == i {
                                s0.len() - 1
                            } else {
                                j
                            };
                            assert(s1[j] == s0[oj]);
                            lemma_cid_index_unique(s0, k2, oj);
                            assert(cid_seq_as_map(s0)[k2] == s0[oj].1);
                            assert(cid_seq_as_map(s1)[k2] == s1[j].1);
                        }
                        if cid_seq_has_key(s0, k2) {
                            let j = cid_seq_index_of(s0, k2);
                            lemma_cid_index_unique(s0, k2, j);
                            if j == s0.len() - 1 {
                                if i as int == j {
                                    assert(s0[j].0 == k);
                                } else {
                                    assert(s1[i as int] == s0[j]);
                                    lemma_cid_index_unique(s1, k2, i as int);
                                }
                            } else {
                                if j == i {
                                    assert(s0[j].0 == k);
                                } else {
                                    assert(s1[j] == s0[j]);
                                    lemma_cid_index_unique(s1, k2, j);
                                }
                            }
                        }
                    }
                    assert(!cid_seq_has_key(s1, k));
                    assert(cid_seq_as_map(s1) =~= cid_seq_as_map(s0).remove(k));
                }
                return Some(prev);
            }
            i = i + 1;
        }
        proof {
            assert(!cid_seq_has_key(s0, k));
            assert(cid_seq_as_map(s0) =~= cid_seq_as_map(s0).remove(k));
        }
        None
    }

    /// Empties the map, handing back every entry it held.
    pub fn drain(&mut self) -> (r: Vec<(u128, usize)>)
        requires
            old(self).wf(),
        ensures
            final(self).wf(),
            final(self)@ == Map::<u128, usize>::empty(),
            forall|i: int|
                0 <= i < r@.len() ==> old(self)@.contains_key((#[trigger] r@[i]).0)
                    && old(self)@[r@[i].0] == r@[i].1,
            forall|k: u128|
                old(self)@.contains_key(k) ==> exists|i: int|
                    0 <= i < r@.len() && (#[trigger] r@[i]).0 == k,
            forall|i: int, j: int|
                0 <= i < j < r@.len() ==> (#[trigger] r@[i]).0 != (#[trigger] r@[j]).0,
    {
        let mut tmp: Vec<(u128, usize)> = Vec::new();
        core::mem::swap(&mut self.entries, &mut tmp);
        proof {
            assert(self@ =~= Map::<u128, usize>::empty());
            assert forall|i: int|
                0 <= i < tmp@.len() implies cid_seq_as_map(tmp@).contains_key(
                (#[trigger] tmp@[i]).0,
            ) && cid_seq_as_map(tmp@)[tmp@[i].0] == tmp@[i].1 by {
                lemma_cid_index_unique(tmp@, tmp@[i].0, i);
            }
        }
        tmp
    }
}

} // verus!
