use vstd::laws_eq::obeys_concrete_eq;
use vstd::prelude::*;

verus! {

/// A key-unique association container. Entries keep the order in which their
/// keys were first inserted; the abstract value is the map from keys to values.
/// Only equality is asked of the key type.
#[verifier::reject_recursive_types(K)]
pub struct KeyMap<K, V> {
    entries: Vec<(K, V)>,
    contents: Ghost<Map<K, V>>,
}

impl<K, V> View for KeyMap<K, V> {
    type V = Map<K, V>;

    closed spec fn view(&self) -> Map<K, V> {
        self.contents@
    }
}

impl<K, V> KeyMap<K, V> {
    /// Keys are unique, and the entries list exactly the abstract map.
    pub closed spec fn wf(&self) -> bool {
        &&& forall|i: int, j: int|
            0 <= i < j < self.entries@.len() ==> self.entries@[i].0 != self.entries@[j].0
        &&& forall|i: int|
            0 <= i < self.entries@.len() ==> #[trigger] self.contents@.contains_key(
                self.entries@[i].0,
            ) && self.contents@[self.entries@[i].0] == self.entries@[i].1
        &&& forall|k: K|
            #[trigger] self.contents@.contains_key(k) ==> exists|i: int|
                0 <= i < self.entries@.len() && self.entries@[i].0 == k
    }

    /// The entries in the order in which their keys were first inserted.
    pub closed spec fn entry_seq(&self) -> Seq<(K, V)> {
        self.entries@
    }

    /// The keys in the order in which they were first inserted.
    pub open spec fn key_order(&self) -> Seq<K> {
        self.entry_seq().map_values(|e: (K, V)| e.0)
    }

    /// The entries hold each key of the map once, with its value, and nothing else.
    pub proof fn lemma_entries(&self)
        requires
            self.wf(),
        ensures
            forall|i: int, j: int|
                0 <= i < j < self.entry_seq().len() ==> self.entry_seq()[i].0 != self.entry_seq()[j].0,
            forall|i: int|
                0 <= i < self.entry_seq().len() ==> #[trigger] self@.contains_key(self.entry_seq()[i].0)
                    && self@[self.entry_seq()[i].0] == self.entry_seq()[i].1,
            forall|k: K|
                #[trigger] self@.contains_key(k) ==> exists|i: int|
                    0 <= i < self.entry_seq().len() && self.entry_seq()[i].0 == k,
    {
        assert forall|i: int| 0 <= i < self.entry_seq().len() implies #[trigger] self@.contains_key(
            self.entry_seq()[i].0,
        ) && self@[self.entry_seq()[i].0] == self.entry_seq()[i].1 by {
            assert(self.contents@.contains_key(self.entries@[i].0));
        }
        assert forall|k: K| #[trigger] self@.contains_key(k) implies exists|i: int|
            0 <= i < self.entry_seq().len() && self.entry_seq()[i].0 == k by {
            assert(self.contents@.contains_key(k));
            let i = choose|i: int| 0 <= i < self.entries@.len() && self.entries@[i].0 == k;
            assert(self.entry_seq()[i].0 == k);
        }
    }

    /// The key of the entry at position `i`.
    pub fn key_at(&self, i: usize) -> (r: &K)
        requires
            i < self.entry_seq().len(),
        ensures
            *r == self.entry_seq()[i as int].0,
    {
        &self.entries[i].0
    }

    /// The value of the entry at position `i`.
    pub fn value_at(&self, i: usize) -> (r: &V)
        requires
            i < self.entry_seq().len(),
        ensures
            *r == self.entry_seq()[i as int].1,
    {
        &self.entries[i].1
    }

    /// The number of entries, without the link to the abstract map.
    pub(crate) fn entry_count(&self) -> (r: usize)
        ensures
            r == self.entry_seq().len(),
    {
        self.entries.len()
    }

    /// Hands out the entries, in key order.
    pub fn into_entries(self) -> (r: Vec<(K, V)>)
        ensures
            r@ == self.entry_seq(),
    {
        self.entries
    }

    /// Puts `v` in place of the value of the entry at position `i`.
    fn set_value(&mut self, i: usize, v: V)
        requires
            old(self).wf(),
            i < old(self).entries@.len(),
        ensures
            final(self).wf(),
            final(self)@ == old(self)@.insert(old(self).entries@[i as int].0, v),
            final(self).key_order() == old(self).key_order(),
    {
        let (k0, _) = self.entries.remove(i);
        self.entries.insert(i, (k0, v));
        let ghost old_entries = old(self).entries@;
        let ghost k = old_entries[i as int].0;
        self.contents = Ghost(self.contents@.insert(k, self.entries@[i as int].1));
        proof {
            assert(self.entries@ =~= old_entries.update(i as int, (k, v)));
            assert forall|kk: K| #[trigger] self.contents@.contains_key(kk) implies exists|j: int|
                0 <= j < self.entries@.len() && self.entries@[j].0 == kk by {
                let j = choose|j: int| 0 <= j < old_entries.len() && old_entries[j].0 == kk;
                assert(self.entries@[j].0 == kk);
            }
            assert forall|j: int| 0 <= j < self.entries@.len() implies #[trigger] self.contents@.contains_key(
                self.entries@[j].0,
            ) && self.contents@[self.entries@[j].0] == self.entries@[j].1 by {
                if j != i {
                    assert(old(self).contents@.contains_key(old_entries[j].0));
                }
            }
            assert(self.key_order() =~= old(self).key_order());
        }
    }

    /// An empty map.
    pub fn new() -> (r: Self)
        ensures
            r.wf(),
            r@ == Map::<K, V>::empty(),
            r.key_order().len() == 0,
    {
        KeyMap { entries: Vec::new(), contents: Ghost(Map::empty()) }
    }

    /// The number of keys.
    pub fn len(&self) -> (r: usize)
        requires
            self.wf(),
        ensures
            r == self@.len(),
            r == self.key_order().len(),
    {
        proof {
            let ks = self.key_order();
            assert(ks.no_duplicates());
            assert(ks.to_set() =~= self@.dom()) by {
                assert forall|k: K| ks.to_set().contains(k) implies self@.dom().contains(k) by {
                    let i = choose|i: int| 0 <= i < ks.len() && ks[i] == k;
                    assert(self.contents@.contains_key(self.entries@[i].0));
                }
                assert forall|k: K| self@.dom().contains(k) implies ks.to_set().contains(k) by {
                    let i = choose|i: int| 0 <= i < self.entries@.len() && self.entries@[i].0 == k;
                    assert(ks[i] == k);
                }
            }
            ks.unique_seq_to_set();
        }
        self.entries.len()
    }


    /// Adds an entry for a key that is not present yet, at the end of the order.
    pub fn insert_new(&mut self, k: K, v: V)
        requires
            old(self).wf(),
            !old(self)@.contains_key(k),
        ensures
            final(self).wf(),
            final(self)@ == old(self)@.insert(k, v),
            final(self).key_order() == old(self).key_order().push(k),
    {
        let ghost m = self.contents@.insert(k, v);
        let ghost old_entries = self.entries@;
        self.entries.push((k, v));
        self.contents = Ghost(m);
        proof {
            assert(self.entries@ == old_entries.push((k, v)));
            assert forall|kk: K| #[trigger] self.contents@.contains_key(kk) implies exists|i: int|
                0 <= i < self.entries@.len() && self.entries@[i].0 == kk by {
                if kk != k {
                    let i = choose|i: int| 0 <= i < old_entries.len() && old_entries[i].0 == kk;
                    assert(self.entries@[i].0 == kk);
                } else {
                    assert(self.entries@[old_entries.len() as int].0 == kk);
                }
            }
            assert(self.key_order() =~= old(self).key_order().push(k));
        }
    }
}

impl<K: PartialEq, V> KeyMap<K, V> {
    /// Stores `v` under `k`: a present key keeps its place in the order and
    /// takes the new value; a new key goes last.
    pub fn insert(&mut self, k: K, v: V)
        requires
            old(self).wf(),
            obeys_concrete_eq::<K>(),
        ensures
            final(self).wf(),
            final(self)@ == old(self)@.insert(k, v),
            final(self).key_order() == (if old(self)@.contains_key(k) {
                old(self).key_order()
            } else {
                old(self).key_order().push(k)
            }),
    {
        match self.position(&k) {
            Some(i) => {
                proof {
                    assert(self.contents@.contains_key(self.entries@[i as int].0));
                }
                self.set_value(i, v)
            },
            None => self.insert_new(k, v),
        }
    }

    /// The position of `k` among the entries, if it is present.
    fn position(&self, k: &K) -> (r: Option<usize>)
        requires
            self.wf(),
            obeys_concrete_eq::<K>(),
        ensures
            match r {
                Some(i) => i < self.entries@.len() && self.entries@[i as int].0 == *k,
                None => !self@.contains_key(*k),
            },
    {
        proof {
            reveal(obeys_concrete_eq);
        }
        let mut i: usize = 0;
        while i < self.entries.len()
            invariant
                i <= self.entries@.len(),
                obeys_concrete_eq::<K>(),
                forall|j: int| 0 <= j < i ==> self.entries@[j].0 != *k,
            decreases self.entries@.len() - i,
        {
            proof {
                reveal(obeys_concrete_eq);
            }
            if self.entries[i].0 == *k {
                return Some(i);
            }
            i = i + 1;
        }
        None
    }

    /// Whether `k` has an entry.
    pub fn contains_key(&self, k: &K) -> (r: bool)
        requires
            self.wf(),
            obeys_concrete_eq::<K>(),
        ensures
            r == self@.contains_key(*k),
    {
        match self.position(k) {
            Some(i) => {
                proof {
                    assert(self.contents@.contains_key(self.entries@[i as int].0));
                }
                true
            },
            None => false,
        }
    }

    /// The value stored under `k`, if any.
    pub fn get(&self, k: &K) -> (r: Option<&V>)
        requires
            self.wf(),
            obeys_concrete_eq::<K>(),
        ensures
            match r {
                Some(v) => self@.contains_key(*k) && *v == self@[*k],
                None => !self@.contains_key(*k),
            },
    {
        match self.position(k) {
            Some(i) => {
                proof {
                    assert(self.contents@.contains_key(self.entries@[i as int].0));
                }
                Some(&self.entries[i].1)
            },
            None => None,
        }
    }

}

impl<K: PartialEq, T> KeyMap<K, Vec<T>> {
    /// Appends `x` to the list stored under `k`, starting a list of one when
    /// `k` is new.
    pub fn push_to(&mut self, k: K, x: T)
        requires
            old(self).wf(),
            obeys_concrete_eq::<K>(),
        ensures
            final(self).wf(),
            final(self)@.dom() == old(self)@.dom().insert(k),
            forall|kk: K| kk != k && old(self)@.contains_key(kk) ==> #[trigger] final(self)@[kk] == old(self)@[kk],
            final(self)@[k]@ == (if old(self)@.contains_key(k) {
                old(self)@[k]@
            } else {
                Seq::<T>::empty()
            }).push(x),
            final(self).key_order() == (if old(self)@.contains_key(k) {
                old(self).key_order()
            } else {
                old(self).key_order().push(k)
            }),
    {
        match self.position(&k) {
            Some(i) => {
                proof {
                    assert(self.contents@.contains_key(self.entries@[i as int].0));
                }
                let ghost old_entries = self.entries@;
                let (k0, mut group) = self.entries.remove(i);
                group.push(x);
                self.entries.insert(i, (k0, group));
                self.contents = Ghost(self.contents@.insert(k, self.entries@[i as int].1));
                proof {
                    assert(self.entries@ =~= old_entries.update(i as int, (k, self.entries@[i as int].1)));
                    assert forall|kk: K| #[trigger] self.contents@.contains_key(kk) implies exists|j: int|
                        0 <= j < self.entries@.len() && self.entries@[j].0 == kk by {
                        let j = choose|j: int| 0 <= j < old_entries.len() && old_entries[j].0 == kk;
                        assert(self.entries@[j].0 == kk);
                    }
                    assert forall|j: int| 0 <= j < self.entries@.len() implies #[trigger] self.contents@.contains_key(
                        self.entries@[j].0,
                    ) && self.contents@[self.entries@[j].0] == self.entries@[j].1 by {
                        if j != i {
                            assert(old(self).contents@.contains_key(old_entries[j].0));
                        }
                    }
                    assert(self@.dom() =~= old(self)@.dom().insert(k));
                    assert(self.key_order() =~= old(self).key_order());
                }
            },
            None => {
                let mut group: Vec<T> = Vec::new();
                group.push(x);
                self.insert_new(k, group);
            },
        }
    }
}

} // verus!
