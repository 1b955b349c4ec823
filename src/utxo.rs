//! The set of unspent outputs, keyed by output hash, each with its
//! reservation mark.
use crate::types::TransactionOutput;
use vstd::prelude::*;

verus! {

/// One unspent output under its key; `marked` means a pending transaction
/// reserves it.
#[derive(Debug)]
pub struct Utxo {
    pub hash: crate::hash::Hash,
    pub marked: bool,
    pub output: TransactionOutput,
}

/// Unspent outputs: at most one entry per key.
pub struct UtxoSet {
    entries: Vec<Utxo>,
    map: Ghost<Map<crate::hash::Hash, (bool, TransactionOutput)>>,
}

impl View for UtxoSet {
    type V = Map<crate::hash::Hash, (bool, TransactionOutput)>;

    closed spec fn view(&self) -> Map<crate::hash::Hash, (bool, TransactionOutput)> {
        self.map@
    }
}

impl UtxoSet {
    /// Keys are unique, and the map holds exactly the entries.
    pub closed spec fn wf(self) -> bool {
        &&& forall|i: int, j: int|
            0 <= i < j < self.entries@.len() ==> self.entries@[i].hash != self.entries@[j].hash
        &&& forall|i: int|
            0 <= i < self.entries@.len() ==> {
                &&& #[trigger] self.map@.contains_key(self.entries@[i].hash)
                &&& self.map@[self.entries@[i].hash] == (
                    self.entries@[i].marked,
                    self.entries@[i].output,
                )
            }
        &&& forall|h: crate::hash::Hash| #[trigger]
            self.map@.contains_key(h) ==> exists|i: int|
                0 <= i < self.entries@.len() && self.entries@[i].hash == h
    }

    /// The entries, in no particular order.
    pub closed spec fn entry_seq(&self) -> Seq<Utxo> {
        self.entries@
    }

    pub fn new() -> (r: UtxoSet)
        ensures
            r.wf(),
            r@ == Map::<crate::hash::Hash, (bool, TransactionOutput)>::empty(),
    {
        UtxoSet { entries: Vec::new(), map: Ghost(Map::empty()) }
    }

    /// The entries, in no particular order.
    pub fn entries(&self) -> (r: &Vec<Utxo>)
        requires
            self.wf(),
        ensures
            r@ == self.entry_seq(),
            forall|i: int, j: int| 0 <= i < j < r@.len() ==> r@[i].hash != r@[j].hash,
            forall|i: int|
                0 <= i < r@.len() ==> #[trigger] self@.contains_key(r@[i].hash) && self@[r@[i].hash]
                    == (r@[i].marked, r@[i].output),
            forall|h: crate::hash::Hash| #[trigger]
                self@.contains_key(h) ==> exists|i: int| 0 <= i < r@.len() && r@[i].hash == h,
    {
        &self.entries
    }

    /// The number of unspent outputs.
    pub fn len(&self) -> (r: usize)
        requires
            self.wf(),
        ensures
            r == self@.len(),
    {
        proof {
            self.lemma_len();
        }
        self.entries.len()
    }

    proof fn lemma_len(&self)
        requires
            self.wf(),
        ensures
            self@.len() == self.entries@.len(),
    {
        let keys = self.entries@.map_values(|u: Utxo| u.hash);
        assert(keys.no_duplicates());
        keys.unique_seq_to_set();
        assert(keys.to_set() =~= self@.dom()) by {
            assert forall|h: crate::hash::Hash| self@.dom().contains(h) implies keys.to_set().contains(
                h,
            ) by {
                let i = choose|i: int| 0 <= i < self.entries@.len() && self.entries@[i].hash == h;
                assert(keys[i] == h);
            }
            assert forall|h: crate::hash::Hash| keys.to_set().contains(h) implies self@.dom().contains(
                h,
            ) by {
                let i = choose|i: int| 0 <= i < keys.len() && keys[i] == h;
                assert(self.map@.contains_key(self.entries@[i].hash));
            }
        }
    }

    fn find(&self, h: &crate::hash::Hash) -> (r: Option<usize>)
        requires
            self.wf(),
        ensures
            match r {
                Some(i) => i < self.entries@.len() && self.entries@[i as int].hash == *h,
                None => !self@.contains_key(*h),
            },
    {
        let mut i: usize = 0;
        while i < self.entries.len()
            invariant
                i <= self.entries@.len(),
                forall|k: int| 0 <= k < i ==> self.entries@[k].hash != *h,
            decreases self.entries@.len() - i,
        {
            if self.entries[i].hash.equals(h) {
                return Some(i);
            }
            i += 1;
        }
        None
    }

    /// Whether an output stands under `h`.
    pub fn contains(&self, h: &crate::hash::Hash) -> (r: bool)
        requires
            self.wf(),
        ensures
            r == self@.contains_key(*h),
    {
        match self.find(h) {
            Some(i) => {
                proof {
                    assert(self.map@.contains_key(self.entries@[i as int].hash));
                }
                true
            },
            None => false,
        }
    }

    /// The entry under `h`, if any.
    pub fn get(&self, h: &crate::hash::Hash) -> (r: Option<&Utxo>)
        requires
            self.wf(),
        ensures
            r.is_some() == self@.contains_key(*h),
            r.is_some() ==> r.unwrap().hash == *h && self@[*h] == (
                r.unwrap().marked,
                r.unwrap().output,
            ),
    {
        match self.find(h) {
            Some(i) => {
                proof {
                    assert(self.map@.contains_key(self.entries@[i as int].hash));
                }
                Some(&self.entries[i])
            },
            None => None,
        }
    }

    /// Puts `output` under `h`, replacing what stood there.
    pub fn insert(&mut self, h: crate::hash::Hash, marked: bool, output: TransactionOutput)
        requires
            old(self).wf(),
        ensures
            final(self).wf(),
            final(self)@ == old(self)@.insert(h, (marked, output)),
    {
        let ghost old_map = self.map@;
        let ghost old_entries = self.entries@;
        match self.find(&h) {
            Some(i) => {
                let ghost out = output;
                self.entries.remove(i);
                self.entries.push(Utxo { hash: h, marked, output });
                self.map = Ghost(old_map.insert(h, (marked, out)));
                proof {
                    let n = self.entries@.len();
                    assert forall|a: int, b: int| 0 <= a < b < n implies self.entries@[a].hash
                        != self.entries@[b].hash by {
                        if b == n - 1 {
                            if a < i {
                                assert(old_entries[a].hash != old_entries[i as int].hash);
                            } else {
                                assert(old_entries[a + 1].hash != old_entries[i as int].hash);
                            }
                        } else {
                            let a2 = if a < i {
                                a
                            } else {
                                a + 1
                            };
                            let b2 = if b < i {
                                b
                            } else {
                                b + 1
                            };
                            assert(old_entries[a2].hash != old_entries[b2].hash);
                        }
                    }
                    assert forall|a: int| 0 <= a < n implies #[trigger] self.map@.contains_key(
                        self.entries@[a].hash,
                    ) && self.map@[self.entries@[a].hash] == (
                        self.entries@[a].marked,
                        self.entries@[a].output,
                    ) by {
                        if a < n - 1 {
                            let a2 = if a < i {
                                a
                            } else {
                                a + 1
                            };
                            assert(old_entries[a2].hash != old_entries[i as int].hash);
                            assert(old_map.contains_key(old_entries[a2].hash));
                        }
                    }
                    assert forall|k: crate::hash::Hash| #[trigger]
                        self.map@.contains_key(k) implies exists|a: int|
                        0 <= a < n && self.entries@[a].hash == k by {
                        if k == h {
                            assert(self.entries@[n - 1].hash == k);
                        } else {
                            let b = choose|b: int|
                                0 <= b < old_entries.len() && old_entries[b].hash == k;
                            if b < i {
                                assert(self.entries@[b].hash == k);
                            } else {
                                assert(b != i);
                                assert(self.entries@[b - 1].hash == k);
                            }
                        }
                    }
                }
            },
            None => {
                let ghost out = output;
                self.entries.push(Utxo { hash: h, marked, output });
                self.map = Ghost(old_map.insert(h, (marked, out)));
                proof {
                    let n = self.entries@.len();
                    assert forall|a: int| 0 <= a < n implies #[trigger] self.map@.contains_key(
                        self.entries@[a].hash,
                    ) && self.map@[self.entries@[a].hash] == (
                        self.entries@[a].marked,
                        self.entries@[a].output,
                    ) by {
                        if a < n - 1 {
                            assert(old_map.contains_key(old_entries[a].hash));
                        }
                    }
                    assert forall|k: crate::hash::Hash| #[trigger]
                        self.map@.contains_key(k) implies exists|a: int|
                        0 <= a < n && self.entries@[a].hash == k by {
                        if k == h {
                            assert(self.entries@[n - 1].hash == k);
                        } else {
                            let b = choose|b: int|
                                0 <= b < old_entries.len() && old_entries[b].hash == k;
                            assert(self.entries@[b].hash == k);
                        }
                    }
                }
            },
        }
    }

    /// Takes out the output under `h`, if any; gives back what stood there.
    pub fn remove(&mut self, h: &crate::hash::Hash) -> (r: Option<Utxo>)
        requires
            old(self).wf(),
        ensures
            final(self).wf(),
            final(self)@ == old(self)@.remove(*h),
            r.is_some() == old(self)@.contains_key(*h),
            r.is_some() ==> r.unwrap().hash == *h && old(self)@[*h] == (
                r.unwrap().marked,
                r.unwrap().output,
            ),
    {
        let ghost old_map = self.map@;
        let ghost old_entries = self.entries@;
        match self.find(h) {
            Some(i) => {
                proof {
                    assert(old_map.contains_key(old_entries[i as int].hash));
                }
                let u = self.entries.remove(i);
                self.map = Ghost(old_map.remove(*h));
                proof {
                    let n = self.entries@.len();
                    assert forall|a: int, b: int| 0 <= a < b < n implies self.entries@[a].hash
                        != self.entries@[b].hash by {
                        let a2 = if a < i {
                            a
                        } else {
                            a + 1
                        };
                        let b2 = if b < i {
                            b
                        } else {
                            b + 1
                        };
                        assert(old_entries[a2].hash != old_entries[b2].hash);
                    }
                    assert forall|a: int| 0 <= a < n implies #[trigger] self.map@.contains_key(
                        self.entries@[a].hash,
                    ) && self.map@[self.entries@[a].hash] == (
                        self.entries@[a].marked,
                        self.entries@[a].output,
                    ) by {
                        let a2 = if a < i {
                            a
                        } else {
                            a + 1
                        };
                        assert(old_entries[a2].hash != old_entries[i as int].hash);
                        assert(old_map.contains_key(old_entries[a2].hash));
                    }
                    assert forall|k: crate::hash::Hash| #[trigger]
                        self.map@.contains_key(k) implies exists|a: int|
                        0 <= a < n && self.entries@[a].hash == k by {
                        let b = choose|b: int|
                            0 <= b < old_entries.len() && old_entries[b].hash == k;
                        if b < i {
                            assert(self.entries@[b].hash == k);
                        } else {
                            assert(b != i);
                            assert(self.entries@[b - 1].hash == k);
                        }
                    }
                }
                Some(u)
            },
            None => {
                assert(old_map.remove(*h) =~= old_map);
                None
            },
        }
    }

    /// Sets the mark of the output under `h`, if any.
    pub fn set_marked(&mut self, h: &crate::hash::Hash, marked: bool)
        requires
            old(self).wf(),
        ensures
            final(self).wf(),
            final(self)@ == if old(self)@.contains_key(*h) {
                old(self)@.insert(*h, (marked, old(self)@[*h].1))
            } else {
                old(self)@
            },
    {
        match self.remove(h) {
            Some(u) => {
                self.insert(u.hash, marked, u.output);
                proof {
                    assert(old(self)@.remove(*h).insert(*h, (marked, old(self)@[*h].1))
                        =~= old(self)@.insert(*h, (marked, old(self)@[*h].1)));
                }
            },
            None => {},
        }
    }

    /// Clears every mark.
    pub fn clear_marks(&mut self)
        requires
            old(self).wf(),
        ensures
            final(self).wf(),
            final(self)@ == unmarked(old(self)@),
    {
        let ghost old_map = self.map@;
        let ghost old_entries = self.entries@;
        let mut fresh: Vec<Utxo> = Vec::new();
        let mut i: usize = 0;
        while i < self.entries.len()
            invariant
                self.entries@ == old_entries,
                self.map@ == old_map,
                self.wf(),
                i <= old_entries.len(),
                fresh@.len() == i,
                forall|k: int|
                    0 <= k < i ==> #[trigger] fresh@[k].hash == old_entries[k].hash
                        && !fresh@[k].marked && fresh@[k].output == old_entries[k].output,
            decreases old_entries.len() - i,
        {
            let e = &self.entries[i];
            fresh.push(Utxo { hash: e.hash, marked: false, output: e.output.clone() });
            i += 1;
        }
        self.entries = fresh;
        self.map = Ghost(unmarked(old_map));
        proof {
            let n = self.entries@.len();
            assert forall|a: int, b: int| 0 <= a < b < n implies self.entries@[a].hash
                != self.entries@[b].hash by {
                assert(self.entries@[a].hash == old_entries[a].hash);
                assert(self.entries@[b].hash == old_entries[b].hash);
            }
            assert forall|a: int| 0 <= a < n implies #[trigger] self.map@.contains_key(
                self.entries@[a].hash,
            ) && self.map@[self.entries@[a].hash] == (
                self.entries@[a].marked,
                self.entries@[a].output,
            ) by {
                assert(self.entries@[a].hash == old_entries[a].hash);
                assert(old_map.contains_key(old_entries[a].hash));
            }
            assert forall|k: crate::hash::Hash| #[trigger]
                self.map@.contains_key(k) implies exists|a: int|
                0 <= a < n && self.entries@[a].hash == k by {
                let b = choose|b: int| 0 <= b < old_entries.len() && old_entries[b].hash == k;
                assert(self.entries@[b].hash == k);
            }
        }
    }
}

/// The same outputs with every mark cleared.
pub open spec fn unmarked(m: Map<crate::hash::Hash, (bool, TransactionOutput)>) -> Map<
    crate::hash::Hash,
    (bool, TransactionOutput),
> {
    Map::new(|h: crate::hash::Hash| m.contains_key(h), |h: crate::hash::Hash| (false, m[h].1))
}

} // verus!
