//! An ordered association map from `u64` keys to values.
//!
//! The persistent store underneath the orchestrator is a plain key-value
//! mapping, and every key in this application (table id, tournament id,
//! player id, account id) is a `u64`.  `IdMap` mirrors one such keyed
//! collection as an owned value: a vector of entries kept strictly sorted by
//! key.  Keeping the entries sorted gives every loop over a map a
//! deterministic, ascending-key order, which the tournament rebalancer relies
//! on to make its plans reproducible.

use vstd::prelude::*;

verus! {

pub struct IdMap<V> {
    entries: Vec<(u64, V)>,
}

impl<V> IdMap<V> {
    /// The raw entry sequence, in ascending key order.
    pub closed spec fn entry_seq(self) -> Seq<(u64, V)> {
        self.entries@
    }

    /// Entries are strictly sorted by key; keys are therefore unique.
    pub open spec fn wf(self) -> bool {
        forall|i: int, j: int|
            0 <= i < j < self.entry_seq().len() ==> (#[trigger] self.entry_seq()[i]).0 < (
            #[trigger] self.entry_seq()[j]).0
    }

    pub open spec fn spec_len(self) -> nat {
        self.entry_seq().len()
    }

    pub open spec fn contains_key(self, k: u64) -> bool {
        exists|i: int| 0 <= i < self.entry_seq().len() && (#[trigger] self.entry_seq()[i]).0 == k
    }

    /// The value bound to `k`; meaningful only when `contains_key(k)`.
    pub open spec fn spec_get(self, k: u64) -> V {
        let i = choose|i: int|
            0 <= i < self.entry_seq().len() && (#[trigger] self.entry_seq()[i]).0 == k;
        self.entry_seq()[i].1
    }

    /// In a well-formed map each key names at most one entry.
    pub proof fn lemma_key_unique(self, i: int, j: int)
        requires
            self.wf(),
            0 <= i < self.entry_seq().len(),
            0 <= j < self.entry_seq().len(),
            self.entry_seq()[i].0 == self.entry_seq()[j].0,
        ensures
            i == j,
    {
    }

    /// An entry at a valid index is the binding of its own key.
    pub proof fn lemma_entry_is_get(self, i: int)
        requires
            self.wf(),
            0 <= i < self.entry_seq().len(),
        ensures
            self.contains_key(self.entry_seq()[i].0),
            self.spec_get(self.entry_seq()[i].0) == self.entry_seq()[i].1,
    {
        let k = self.entry_seq()[i].0;
        assert(self.contains_key(k));
        let j = choose|j: int|
            0 <= j < self.entry_seq().len() && (#[trigger] self.entry_seq()[j]).0 == k;
        self.lemma_key_unique(i, j);
    }

    pub fn new() -> (r: Self)
        ensures
            r.wf(),
            r.spec_len() == 0,
            forall|k: u64| !r.contains_key(k),
    {
        IdMap { entries: Vec::new() }
    }

    pub fn len(&self) -> (n: usize)
        ensures
            n == self.spec_len(),
    {
        self.entries.len()
    }

    pub fn get(&self, k: u64) -> (r: Option<&V>)
        requires
            self.wf(),
        ensures
            match r {
                Some(v) => self.contains_key(k) && *v == self.spec_get(k),
                None => !self.contains_key(k),
            },
    {
        let n = self.entries.len();
        let mut i: usize = 0;
        while i < n
            invariant
                n == self.entry_seq().len(),
                0 <= i <= n,
                forall|j: int| 0 <= j < i ==> (#[trigger] self.entry_seq()[j]).0 != k,
                self.wf(),
            decreases n - i,
        {
            if self.entries[i].0 == k {
                proof {
                    self.lemma_entry_is_get(i as int);
                }
                return Some(&self.entries[i].1);
            }
            i += 1;
        }
        None
    }

    pub fn contains(&self, k: u64) -> (r: bool)
        requires
            self.wf(),
        ensures
            r == self.contains_key(k),
    {
        self.get(k).is_some()
    }

    /// Bind `k` to `v`, replacing any previous binding.
    pub fn insert(&mut self, k: u64, v: V)
        requires
            old(self).wf(),
        ensures
            final(self).wf(),
            final(self).contains_key(k),
            final(self).spec_get(k) == v,
            forall|k2: u64|
                k2 != k ==> final(self).contains_key(k2) == old(self).contains_key(k2),
            forall|k2: u64|
                k2 != k && old(self).contains_key(k2) ==> final(self).spec_get(k2) == old(self).spec_get(k2),
            final(self).spec_len() == old(self).spec_len() + (if old(self).contains_key(k) {
                0int
            } else {
                1int
            }),
    {
        let n = self.entries.len();
        let mut i: usize = 0;
        while i < n && self.entries[i].0 < k
            invariant
                n == self.entry_seq().len(),
                0 <= i <= n,
                forall|j: int| 0 <= j < i ==> (#[trigger] self.entry_seq()[j]).0 < k,
                self.wf(),
                self == old(self),
            decreases n - i,
        {
            i += 1;
        }
        let ghost oe = old(self).entry_seq();
        if i < n && self.entries[i].0 == k {
            // Replace the value in place; the key layout is untouched.
            proof {
                self.lemma_entry_is_get(i as int);
            }
            let slot = &mut self.entries[i];
            *slot = (k, v);
            proof {
                assert(self.entry_seq() == oe.update(i as int, (k, v)));
                assert forall|a: int|
                    0 <= a < self.entry_seq().len() implies (#[trigger] self.entry_seq()[a]).0
                    == oe[a].0 by {}
                assert(self.wf());
                assert((self.entry_seq()[i as int]).0 == k);
                self.lemma_entry_is_get(i as int);
                assert forall|k2: u64| k2 != k implies self.contains_key(k2) == old(self).contains_key(k2) by {
                    if old(self).contains_key(k2) {
                        let j = choose|j: int| 0 <= j < oe.len() && (#[trigger] oe[j]).0 == k2;
                        assert((self.entry_seq()[j]).0 == k2);
                    }
                    if self.contains_key(k2) {
                        let j = choose|j: int|
                            0 <= j < self.entry_seq().len() && (#[trigger] self.entry_seq()[j]).0
                                == k2;
                        assert((old(self).entry_seq()[j]).0 == k2);
                    }
                }
                assert forall|k2: u64|
                    k2 != k && old(self).contains_key(k2) implies self.spec_get(k2) == old(self).spec_get(k2) by {
                    let j = choose|j: int| 0 <= j < oe.len() && (#[trigger] oe[j]).0 == k2;
                    old(self).lemma_entry_is_get(j);
                    assert(self.entry_seq()[j] == oe[j]);
                    self.lemma_entry_is_get(j);
                }
            }
        } else {
            // No binding for `k`; insert at position `i`, keeping the sort.
            proof {
                assert(i < n ==> (self.entry_seq()[i as int]).0 > k);
                assert(!old(self).contains_key(k)) by {
                    if old(self).contains_key(k) {
                        let j = choose|j: int| 0 <= j < oe.len() && (#[trigger] oe[j]).0 == k;
                        assert(j >= i as int);
                        assert(i < n);
                        if j > i as int {
                            assert(oe[i as int].0 < oe[j].0);
                        }
                    }
                }
            }
            self.entries.insert(i, (k, v));
            proof {
                oe.insert_ensures(i as int, (k, v));
                assert(self.entry_seq() == oe.insert(i as int, (k, v)));
                assert forall|a: int, b: int|
                    0 <= a < b < self.entry_seq().len() implies (
                #[trigger] self.entry_seq()[a]).0 < (#[trigger] self.entry_seq()[b]).0 by {
                    if b < i as int {
                        assert(self.entry_seq()[a] == oe[a]);
                        assert(self.entry_seq()[b] == oe[b]);
                    } else if b == i as int {
                        assert(self.entry_seq()[a] == oe[a]);
                        assert(oe[a].0 < k);
                    } else {
                        assert(self.entry_seq()[b] == oe[b - 1]);
                        assert(oe[b - 1].0 > k) by {
                            if b - 1 > i as int {
                                assert(oe[i as int].0 < oe[b - 1].0);
                            }
                        }
                        if a < i as int {
                            assert(self.entry_seq()[a] == oe[a]);
                            assert(oe[a].0 < k);
                        } else if a == i as int {
                            assert(self.entry_seq()[a].0 == k);
                        } else {
                            assert(self.entry_seq()[a] == oe[a - 1]);
                            assert(oe[a - 1].0 < oe[b - 1].0);
                        }
                    }
                }
                assert(self.wf());
                assert((self.entry_seq()[i as int]).0 == k);
                self.lemma_entry_is_get(i as int);
                assert forall|k2: u64| k2 != k implies self.contains_key(k2) == old(self).contains_key(k2) by {
                    if old(self).contains_key(k2) {
                        let j = choose|j: int| 0 <= j < oe.len() && (#[trigger] oe[j]).0 == k2;
                        if j < i as int {
                            assert((self.entry_seq()[j]).0 == k2);
                        } else {
                            assert((self.entry_seq()[j + 1]).0 == k2);
                        }
                    }
                    if self.contains_key(k2) {
                        let j = choose|j: int|
                            0 <= j < self.entry_seq().len() && (#[trigger] self.entry_seq()[j]).0
                                == k2;
                        assert(j != i as int);
                        if j < i as int {
                            assert((old(self).entry_seq()[j]).0 == k2);
                        } else {
                            assert((old(self).entry_seq()[j - 1]).0 == k2);
                        }
                    }
                }
                assert forall|k2: u64|
                    k2 != k && old(self).contains_key(k2) implies self.spec_get(k2) == old(self).spec_get(k2) by {
                    let j = choose|j: int| 0 <= j < oe.len() && (#[trigger] oe[j]).0 == k2;
                    old(self).lemma_entry_is_get(j);
                    if j < i as int {
                        assert(self.entry_seq()[j] == oe[j]);
                        self.lemma_entry_is_get(j);
                    } else {
                        assert(self.entry_seq()[j + 1] == oe[j]);
                        self.lemma_entry_is_get(j + 1);
                    }
                }
            }
        }
    }

    /// Drop the binding for `k`, if any.
    pub fn remove(&mut self, k: u64)
        requires
            old(self).wf(),
        ensures
            final(self).wf(),
            !final(self).contains_key(k),
            forall|k2: u64|
                k2 != k ==> final(self).contains_key(k2) == old(self).contains_key(k2),
            forall|k2: u64|
                k2 != k && old(self).contains_key(k2) ==> final(self).spec_get(k2) == old(self).spec_get(k2),
            final(self).spec_len() == old(self).spec_len() - (if old(self).contains_key(k) {
                1int
            } else {
                0int
            }),
    {
        let n = self.entries.len();
        let mut i: usize = 0;
        while i < n && self.entries[i].0 != k
            invariant
                n == self.entry_seq().len(),
                0 <= i <= n,
                forall|j: int| 0 <= j < i ==> (#[trigger] self.entry_seq()[j]).0 != k,
                self.wf(),
                self == old(self),
            decreases n - i,
        {
            i += 1;
        }
        let ghost oe = old(self).entry_seq();
        if i < n {
            proof {
                assert((oe[i as int]).0 == k);
                self.lemma_entry_is_get(i as int);
            }
            self.entries.remove(i);
            proof {
                oe.remove_ensures(i as int);
                assert(self.entry_seq() == oe.remove(i as int));
                assert forall|a: int, b: int|
                    0 <= a < b < self.entry_seq().len() implies (
                #[trigger] self.entry_seq()[a]).0 < (#[trigger] self.entry_seq()[b]).0 by {
                    if a < i as int {
                        assert(self.entry_seq()[a] == oe[a]);
                    } else {
                        assert(self.entry_seq()[a] == oe[a + 1]);
                    }
                    if b < i as int {
                        assert(self.entry_seq()[b] == oe[b]);
                    } else {
                        assert(self.entry_seq()[b] == oe[b + 1]);
                    }
                }
                assert(self.wf());
                assert(!self.contains_key(k)) by {
                    if self.contains_key(k) {
                        let j = choose|j: int|
                            0 <= j < self.entry_seq().len() && (#[trigger] self.entry_seq()[j]).0
                                == k;
                        if j < i as int {
                            assert(oe[j].0 == k);
                            old(self).lemma_key_unique(i as int, j);
                        } else {
                            assert(oe[j + 1].0 == k);
                            old(self).lemma_key_unique(i as int, j + 1);
                        }
                    }
                }
                assert forall|k2: u64| k2 != k implies self.contains_key(k2) == old(self).contains_key(k2) by {
                    if old(self).contains_key(k2) {
                        let j = choose|j: int| 0 <= j < oe.len() && (#[trigger] oe[j]).0 == k2;
                        assert(j != i as int);
                        if j < i as int {
                            assert((self.entry_seq()[j]).0 == k2);
                        } else {
                            assert((self.entry_seq()[j - 1]).0 == k2);
                        }
                    }
                    if self.contains_key(k2) {
                        let j = choose|j: int|
                            0 <= j < self.entry_seq().len() && (#[trigger] self.entry_seq()[j]).0
                                == k2;
                        if j < i as int {
                            assert((old(self).entry_seq()[j]).0 == k2);
                        } else {
                            assert((old(self).entry_seq()[j + 1]).0 == k2);
                        }
                    }
                }
                assert forall|k2: u64|
                    k2 != k && old(self).contains_key(k2) implies self.spec_get(k2) == old(self).spec_get(k2) by {
                    let j = choose|j: int| 0 <= j < oe.len() && (#[trigger] oe[j]).0 == k2;
                    old(self).lemma_entry_is_get(j);
                    assert(j != i as int);
                    if j < i as int {
                        assert(self.entry_seq()[j] == oe[j]);
                        self.lemma_entry_is_get(j);
                    } else {
                        assert(self.entry_seq()[j - 1] == oe[j]);
                        self.lemma_entry_is_get(j - 1);
                    }
                }
            }
        } else {
            proof {
                assert(!old(self).contains_key(k));
            }
        }
    }

    /// Check the binding for `k` out of the map, taking ownership of it.
    ///
    /// Together with `insert` this gives the load-mutate-store cycle that the
    /// orchestrator uses for every stored entity: an entry is checked out as
    /// an owned value, modified, and checked back in.
    pub fn take(&mut self, k: u64) -> (r: Option<V>)
        requires
            old(self).wf(),
        ensures
            final(self).wf(),
            !final(self).contains_key(k),
            forall|k2: u64|
                k2 != k ==> final(self).contains_key(k2) == old(self).contains_key(k2),
            forall|k2: u64|
                k2 != k && old(self).contains_key(k2) ==> final(self).spec_get(k2) == old(self).spec_get(k2),
            match r {
                Some(v) => old(self).contains_key(k) && v == old(self).spec_get(k)
                    && final(self).spec_len() == old(self).spec_len() - 1,
                None => !old(self).contains_key(k) && *final(self) == *old(self),
            },
            old(self).contains_key(k) ==> exists|i: int|
                0 <= i < old(self).entry_seq().len() && (#[trigger] old(self).entry_seq()[i]).0
                    == k && final(self).entry_seq() == old(self).entry_seq().remove(i),
    {
        let n = self.entries.len();
        let mut i: usize = 0;
        while i < n && self.entries[i].0 != k
            invariant
                n == self.entry_seq().len(),
                0 <= i <= n,
                forall|j: int| 0 <= j < i ==> (#[trigger] self.entry_seq()[j]).0 != k,
                self.wf(),
                self == old(self),
            decreases n - i,
        {
            i += 1;
        }
        if i < n {
            proof {
                self.lemma_entry_is_get(i as int);
            }
            let (_, v) = self.entries.remove(i);
            proof {
                let oe = old(self).entry_seq();
                oe.remove_ensures(i as int);
                assert(self.entry_seq() == oe.remove(i as int));
                assert forall|a: int, b: int|
                    0 <= a < b < self.entry_seq().len() implies (
                #[trigger] self.entry_seq()[a]).0 < (#[trigger] self.entry_seq()[b]).0 by {
                    if a < i as int {
                        assert(self.entry_seq()[a] == oe[a]);
                    } else {
                        assert(self.entry_seq()[a] == oe[a + 1]);
                    }
                    if b < i as int {
                        assert(self.entry_seq()[b] == oe[b]);
                    } else {
                        assert(self.entry_seq()[b] == oe[b + 1]);
                    }
                }
                assert(self.wf());
                assert(!self.contains_key(k)) by {
                    if self.contains_key(k) {
                        let j = choose|j: int|
                            0 <= j < self.entry_seq().len() && (#[trigger] self.entry_seq()[j]).0
                                == k;
                        if j < i as int {
                            assert(oe[j].0 == k);
                            old(self).lemma_key_unique(i as int, j);
                        } else {
                            assert(oe[j + 1].0 == k);
                            old(self).lemma_key_unique(i as int, j + 1);
                        }
                    }
                }
                assert forall|k2: u64| k2 != k implies self.contains_key(k2) == old(
                    self,
                ).contains_key(k2) by {
                    if old(self).contains_key(k2) {
                        let j = choose|j: int| 0 <= j < oe.len() && (#[trigger] oe[j]).0 == k2;
                        assert(j != i as int);
                        if j < i as int {
                            assert((self.entry_seq()[j]).0 == k2);
                        } else {
                            assert((self.entry_seq()[j - 1]).0 == k2);
                        }
                    }
                    if self.contains_key(k2) {
                        let j = choose|j: int|
                            0 <= j < self.entry_seq().len() && (#[trigger] self.entry_seq()[j]).0
                                == k2;
                        if j < i as int {
                            assert((old(self).entry_seq()[j]).0 == k2);
                        } else {
                            assert((old(self).entry_seq()[j + 1]).0 == k2);
                        }
                    }
                }
                assert forall|k2: u64|
                    k2 != k && old(self).contains_key(k2) implies self.spec_get(k2) == old(self).spec_get(k2) by {
                    let j = choose|j: int| 0 <= j < oe.len() && (#[trigger] oe[j]).0 == k2;
                    old(self).lemma_entry_is_get(j);
                    assert(j != i as int);
                    if j < i as int {
                        assert(self.entry_seq()[j] == oe[j]);
                        self.lemma_entry_is_get(j);
                    } else {
                        assert(self.entry_seq()[j - 1] == oe[j]);
                        self.lemma_entry_is_get(j - 1);
                    }
                }
            }
            Some(v)
        } else {
            proof {
                assert(!old(self).contains_key(k));
            }
            None
        }
    }

    /// The position of the entry bound to `k`, if any.
    pub fn index_of(&self, k: u64) -> (r: Option<usize>)
        requires
            self.wf(),
        ensures
            match r {
                Some(i) => i < self.spec_len() && self.entry_seq()[i as int].0 == k
                    && self.contains_key(k) && self.spec_get(k) == self.entry_seq()[i as int].1,
                None => !self.contains_key(k),
            },
    {
        let n = self.entries.len();
        let mut i: usize = 0;
        while i < n
            invariant
                n == self.entry_seq().len(),
                0 <= i <= n,
                forall|j: int| 0 <= j < i ==> (#[trigger] self.entry_seq()[j]).0 != k,
                self.wf(),
            decreases n - i,
        {
            if self.entries[i].0 == k {
                proof {
                    self.lemma_entry_is_get(i as int);
                }
                return Some(i);
            }
            i += 1;
        }
        None
    }

    /// The key of the `i`-th entry in ascending key order.
    pub fn key_at(&self, i: usize) -> (k: u64)
        requires
            self.wf(),
            i < self.spec_len(),
        ensures
            k == self.entry_seq()[i as int].0,
            self.contains_key(k),
            self.spec_get(k) == self.entry_seq()[i as int].1,
    {
        proof {
            self.lemma_entry_is_get(i as int);
        }
        self.entries[i].0
    }

    /// The value of the `i`-th entry in ascending key order.
    pub fn val_at(&self, i: usize) -> (v: &V)
        requires
            self.wf(),
            i < self.spec_len(),
        ensures
            *v == self.entry_seq()[i as int].1,
            *v == self.spec_get(self.entry_seq()[i as int].0),
    {
        proof {
            self.lemma_entry_is_get(i as int);
        }
        &self.entries[i].1
    }

    /// Replace the value of the `i`-th entry, keeping its key.
    pub fn set_val_at(&mut self, i: usize, v: V)
        requires
            old(self).wf(),
            i < old(self).spec_len(),
        ensures
            final(self).wf(),
            final(self).entry_seq() == old(self).entry_seq().update(
                i as int,
                (old(self).entry_seq()[i as int].0, v),
            ),
            final(self).spec_len() == old(self).spec_len(),
            forall|k2: u64| final(self).contains_key(k2) == old(self).contains_key(k2),
            final(self).spec_get(old(self).entry_seq()[i as int].0) == v,
            forall|k2: u64|
                k2 != old(self).entry_seq()[i as int].0 && old(self).contains_key(k2) ==> final(self).spec_get(k2) == old(self).spec_get(k2),
    {
        let k = self.entries[i].0;
        let slot = &mut self.entries[i];
        *slot = (k, v);
        proof {
            let oe = old(self).entry_seq();
            assert(self.entry_seq() == oe.update(i as int, (k, v)));
            assert forall|a: int|
                0 <= a < self.entry_seq().len() implies (#[trigger] self.entry_seq()[a]).0
                == oe[a].0 by {}
            assert(self.wf());
            assert forall|k2: u64| self.contains_key(k2) == old(self).contains_key(k2) by {
                if old(self).contains_key(k2) {
                    let j = choose|j: int| 0 <= j < oe.len() && (#[trigger] oe[j]).0 == k2;
                    assert((self.entry_seq()[j]).0 == k2);
                }
                if self.contains_key(k2) {
                    let j = choose|j: int|
                        0 <= j < self.entry_seq().len() && (#[trigger] self.entry_seq()[j]).0
                            == k2;
                    assert((old(self).entry_seq()[j]).0 == k2);
                }
            }
            self.lemma_entry_is_get(i as int);
            assert forall|k2: u64|
                k2 != oe[i as int].0 && old(self).contains_key(k2) implies self.spec_get(k2)
                == old(self).spec_get(k2) by {
                let j = choose|j: int| 0 <= j < oe.len() && (#[trigger] oe[j]).0 == k2;
                old(self).lemma_entry_is_get(j);
                assert(j != i as int);
                assert(self.entry_seq()[j] == oe[j]);
                self.lemma_entry_is_get(j);
            }
        }
    }

    /// All keys, ascending.
    pub fn keys(&self) -> (ks: Vec<u64>)
        requires
            self.wf(),
        ensures
            ks@.len() == self.spec_len(),
            forall|i: int| 0 <= i < ks@.len() ==> ks@[i] == self.entry_seq()[i].0,
            forall|i: int| 0 <= i < ks@.len() ==> self.contains_key(#[trigger] ks@[i]),
    {
        let n = self.entries.len();
        let mut ks: Vec<u64> = Vec::new();
        let mut i: usize = 0;
        while i < n
            invariant
                n == self.entry_seq().len(),
                0 <= i <= n,
                ks@.len() == i,
                forall|j: int| 0 <= j < i ==> ks@[j] == self.entry_seq()[j].0,
                self.wf(),
            decreases n - i,
        {
            ks.push(self.entries[i].0);
            i += 1;
        }
        proof {
            assert forall|i2: int| 0 <= i2 < ks@.len() implies self.contains_key(
                #[trigger] ks@[i2],
            ) by {
                self.lemma_entry_is_get(i2);
            }
        }
        ks
    }
}

} // verus!
