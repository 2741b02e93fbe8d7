//! Keyed storage of the runtime modules: a map from keys to values that
//! behaves as the runtime's storage maps do (a `get` of a key that was never
//! written finds nothing, an `insert` overwrites).
use vstd::prelude::*;

verus! {

/// A key of a storage map. Two keys name the same entry exactly when their
/// deep views are equal; `key_eq` decides that and `key_clone` copies a key.
pub trait StorageKey: DeepView + Sized {
    fn key_eq(&self, other: &Self) -> (b: bool)
        ensures
            b == (self.deep_view() == other.deep_view()),
    ;

    fn key_clone(&self) -> (c: Self)
        ensures
            c.deep_view() == self.deep_view(),
    ;
}

impl StorageKey for u64 {
    fn key_eq(&self, other: &Self) -> (b: bool) {
        *self == *other
    }

    fn key_clone(&self) -> (c: Self) {
        *self
    }
}

impl StorageKey for Vec<u8> {
    fn key_eq(&self, other: &Self) -> (b: bool) {
        if self.len() != other.len() {
            assert(self.deep_view().len() != other.deep_view().len());
            return false;
        }
        let mut i: usize = 0;
        while i < self.len()
            invariant
                self.len() == other.len(),
                i <= self.len(),
                forall|j: int| 0 <= j < i ==> self@[j] == other@[j],
            decreases self.len() - i,
        {
            if self[i] != other[i] {
                assert(self.deep_view()[i as int] != other.deep_view()[i as int]);
                return false;
            }
            i = i + 1;
        }
        assert(self.deep_view() =~= other.deep_view());
        true
    }

    fn key_clone(&self) -> (c: Self) {
        let c = self.clone();
        assert(c.deep_view() =~= self.deep_view());
        c
    }
}

impl<A: StorageKey, B: StorageKey> StorageKey for (A, B) {
    fn key_eq(&self, other: &Self) -> (b: bool) {
        self.0.key_eq(&other.0) && self.1.key_eq(&other.1)
    }

    fn key_clone(&self) -> (c: Self) {
        (self.0.key_clone(), self.1.key_clone())
    }
}

impl<A: StorageKey, B: StorageKey, C: StorageKey> StorageKey for (A, B, C) {
    fn key_eq(&self, other: &Self) -> (b: bool) {
        self.0.key_eq(&other.0) && self.1.key_eq(&other.1) && self.2.key_eq(&other.2)
    }

    fn key_clone(&self) -> (c: Self) {
        (self.0.key_clone(), self.1.key_clone(), self.2.key_clone())
    }
}

impl<A: StorageKey, B: StorageKey, C: StorageKey, D: StorageKey> StorageKey for (A, B, C, D) {
    fn key_eq(&self, other: &Self) -> (b: bool) {
        self.0.key_eq(&other.0) && self.1.key_eq(&other.1) && self.2.key_eq(&other.2)
            && self.3.key_eq(&other.3)
    }

    fn key_clone(&self) -> (c: Self) {
        (self.0.key_clone(), self.1.key_clone(), self.2.key_clone(), self.3.key_clone())
    }
}

/// A storage map: its entries in the order in which their keys were first
/// written, no key twice.
pub struct StorageMap<K: StorageKey, V: View> {
    entries: Vec<(K, V)>,
}

impl<K: StorageKey, V: View> StorageMap<K, V> {
    #[verifier::type_invariant]
    spec fn keys_distinct(&self) -> bool {
        forall|i: int, j: int|
            0 <= i < j < self.entries@.len() ==> #[trigger] self.entries@[i].0.deep_view()
                != #[trigger] self.entries@[j].0.deep_view()
    }

    spec fn has_key_at(&self, k: K::V, i: int) -> bool {
        0 <= i < self.entries@.len() && self.entries@[i].0.deep_view() == k
    }

    /// What the map holds: each key (by its deep view) to its value.
    pub closed spec fn contents(&self) -> Map<K::V, V::V> {
        Map::new(
            |k: K::V| exists|i: int| self.has_key_at(k, i),
            |k: K::V| self.entries@[choose|i: int| self.has_key_at(k, i)].1@,
        )
    }

    proof fn lemma_entry(&self, i: int)
        requires
            self.keys_distinct(),
            0 <= i < self.entries@.len(),
        ensures
            self.contents().contains_key(self.entries@[i].0.deep_view()),
            self.contents()[self.entries@[i].0.deep_view()] == self.entries@[i].1@,
    {
        let k = self.entries@[i].0.deep_view();
        assert(self.has_key_at(k, i));
        let j = choose|j: int| self.has_key_at(k, j);
        assert(self.has_key_at(k, j));
        if j < i {
            assert(self.entries@[j].0.deep_view() != self.entries@[i].0.deep_view());
        } else if i < j {
            assert(self.entries@[i].0.deep_view() != self.entries@[j].0.deep_view());
        }
    }

    /// An empty map.
    pub fn new() -> (m: Self)
        ensures
            m@ == Map::<K::V, V::V>::empty(),
    {
        let m = StorageMap { entries: Vec::new() };
        assert(m@ =~= Map::<K::V, V::V>::empty());
        m
    }

    /// The position of the entry of `k`, if there is one.
    fn find(&self, k: &K) -> (r: Option<usize>)
        ensures
            match r {
                Some(i) => i < self.entries@.len() && self.entries@[i as int].0.deep_view()
                    == k.deep_view(),
                None => forall|i: int|
                    0 <= i < self.entries@.len() ==> #[trigger] self.entries@[i].0.deep_view()
                        != k.deep_view(),
            },
    {
        let mut i: usize = 0;
        while i < self.entries.len()
            invariant
                i <= self.entries@.len(),
                forall|j: int|
                    0 <= j < i ==> #[trigger] self.entries@[j].0.deep_view() != k.deep_view(),
            decreases self.entries@.len() - i,
        {
            if self.entries[i].0.key_eq(k) {
                return Some(i);
            }
            i = i + 1;
        }
        None
    }

    /// Whether `k` has an entry.
    pub fn contains_key(&self, k: &K) -> (b: bool)
        ensures
            b == self@.contains_key(k.deep_view()),
    {
        proof {
            use_type_invariant(self);
        }
        match self.find(k) {
            Some(i) => {
                proof {
                    self.lemma_entry(i as int);
                }
                true
            },
            None => {
                assert(!self@.contains_key(k.deep_view()));
                false
            },
        }
    }

    /// The value of `k`, if it has one.
    pub fn get(&self, k: &K) -> (r: Option<&V>)
        ensures
            match r {
                Some(v) => self@.contains_key(k.deep_view()) && v@ == self@[k.deep_view()],
                None => !self@.contains_key(k.deep_view()),
            },
    {
        proof {
            use_type_invariant(self);
        }
        match self.find(k) {
            Some(i) => {
                proof {
                    self.lemma_entry(i as int);
                }
                Some(&self.entries[i].1)
            },
            None => {
                assert(!self@.contains_key(k.deep_view()));
                None
            },
        }
    }

    /// Writes `v` under `k`, in place of what `k` held.
    pub fn insert(&mut self, k: K, v: V)
        ensures
            final(self)@ == old(self)@.insert(k.deep_view(), v@),
    {
        proof {
            use_type_invariant(&*self);
        }
        let ghost kv = k.deep_view();
        let ghost vv = v@;
        let ghost old_self = *self;
        let ghost old_map = self@;
        match self.find(&k) {
            Some(i) => {
                let ghost old_entries = self.entries@;
                let mut entries: Vec<(K, V)> = Vec::new();
                std::mem::swap(&mut entries, &mut self.entries);
                entries.set(i, (k, v));
                self.entries = entries;
                proof {
                    assert(self.entries@ == old_entries.update(i as int, (k, v)));
                    assert forall|a: int, b: int|
                        0 <= a < b < self.entries@.len() implies #[trigger] self.entries@[a].0.deep_view()
                            != #[trigger] self.entries@[b].0.deep_view() by {
                        assert(old_entries[a].0.deep_view() != old_entries[b].0.deep_view());
                    }
                    assert forall|key: K::V| #[trigger]
                        self@.contains_key(key) == old_map.insert(kv, vv).contains_key(key) by {
                        if key != kv {
                            if self@.contains_key(key) {
                                let j = choose|j: int| self.has_key_at(key, j);
                                assert(old_self.has_key_at(key, j));
                            }
                            if old_map.contains_key(key) {
                                let j = choose|j: int| old_self.has_key_at(key, j);
                                assert(self.has_key_at(key, j));
                            }
                        } else {
                            assert(self.has_key_at(key, i as int));
                        }
                    }
                    assert forall|key: K::V| #[trigger]
                        self@.contains_key(key) implies self@[key] == old_map.insert(kv, vv)[key] by {
                        let j = choose|j: int| self.has_key_at(key, j);
                        self.lemma_entry(j);
                        if key != kv {
                            assert(j != i);
                            assert(old_entries[j] == self.entries@[j]);
                            old_self.lemma_entry(j);
                        }
                    }
                    assert(self@ =~= old_map.insert(kv, vv));
                }
            },
            None => {
                let ghost old_entries = self.entries@;
                let mut entries: Vec<(K, V)> = Vec::new();
                std::mem::swap(&mut entries, &mut self.entries);
                entries.push((k, v));
                self.entries = entries;
                proof {
                    assert(self.entries@ == old_entries.push((k, v)));
                    let n = old_entries.len() as int;
                    assert forall|a: int, b: int|
                        0 <= a < b < self.entries@.len() implies #[trigger] self.entries@[a].0.deep_view()
                            != #[trigger] self.entries@[b].0.deep_view() by {
                        if b < n {
                            assert(old_entries[a].0.deep_view() != old_entries[b].0.deep_view());
                        } else {
                            assert(old_entries[a].0.deep_view() != kv);
                        }
                    }
                    assert forall|key: K::V| #[trigger]
                        self@.contains_key(key) == old_map.insert(kv, vv).contains_key(key) by {
                        if key != kv {
                            if self@.contains_key(key) {
                                let j = choose|j: int| self.has_key_at(key, j);
                                assert(j < n);
                                assert(old_self.has_key_at(key, j));
                            }
                            if old_map.contains_key(key) {
                                let j = choose|j: int| old_self.has_key_at(key, j);
                                assert(self.has_key_at(key, j));
                            }
                        } else {
                            assert(self.has_key_at(key, n));
                        }
                    }
                    assert forall|key: K::V| #[trigger]
                        self@.contains_key(key) implies self@[key] == old_map.insert(kv, vv)[key] by {
                        let j = choose|j: int| self.has_key_at(key, j);
                        self.lemma_entry(j);
                        if key != kv {
                            assert(j < n);
                            assert(old_entries[j] == self.entries@[j]);
                            old_self.lemma_entry(j);
                        }
                    }
                    assert(self@ =~= old_map.insert(kv, vv));
                }
            },
        }
    }

    /// Removes the entry of `k`, if there is one.
    pub fn remove(&mut self, k: &K)
        ensures
            final(self)@ == old(self)@.remove(k.deep_view()),
    {
        proof {
            use_type_invariant(&*self);
        }
        let ghost kv = k.deep_view();
        let ghost old_self = *self;
        let ghost old_map = self@;
        match self.find(k) {
            Some(i) => {
                let ghost old_entries = self.entries@;
                let mut entries: Vec<(K, V)> = Vec::new();
                std::mem::swap(&mut entries, &mut self.entries);
                entries.remove(i);
                self.entries = entries;
                proof {
                    let n = old_entries.len() as int;
                    assert(self.entries@ == old_entries.remove(i as int));
                    assert forall|a: int| 0 <= a < self.entries@.len() implies #[trigger] self.entries@[a]
                        == old_entries[if a < i { a } else { a + 1 }] by {}
                    assert forall|a: int, b: int|
                        0 <= a < b < self.entries@.len() implies #[trigger] self.entries@[a].0.deep_view()
                            != #[trigger] self.entries@[b].0.deep_view() by {
                        let a1 = if a < i { a } else { a + 1 };
                        let b1 = if b < i { b } else { b + 1 };
                        assert(self.entries@[a] == old_entries[a1]);
                        assert(self.entries@[b] == old_entries[b1]);
                        assert(old_entries[a1].0.deep_view() != old_entries[b1].0.deep_view());
                    }
                    assert forall|key: K::V| #[trigger]
                        self@.contains_key(key) == old_map.remove(kv).contains_key(key) by {
                        if self@.contains_key(key) {
                            let j = choose|j: int| self.has_key_at(key, j);
                            let j1 = if j < i { j } else { j + 1 };
                            assert(self.entries@[j] == old_entries[j1]);
                            assert(old_self.has_key_at(key, j1));
                            if key == kv {
                                assert(old_entries[j1].0.deep_view() == old_entries[i as int].0.deep_view());
                                if j1 < i {
                                    assert(old_entries[j1].0.deep_view() != old_entries[i as int].0.deep_view());
                                } else {
                                    assert(old_entries[i as int].0.deep_view() != old_entries[j1].0.deep_view());
                                }
                            }
                        }
                        if key != kv && old_map.contains_key(key) {
                            let j = choose|j: int| old_self.has_key_at(key, j);
                            assert(j != i);
                            let j0 = if j < i { j } else { j - 1 };
                            assert(self.entries@[j0] == old_entries[j]);
                            assert(self.has_key_at(key, j0));
                        }
                    }
                    assert forall|key: K::V| #[trigger]
                        self@.contains_key(key) implies self@[key] == old_map.remove(kv)[key] by {
                        let j = choose|j: int| self.has_key_at(key, j);
                        self.lemma_entry(j);
                        let j1 = if j < i { j } else { j + 1 };
                        assert(self.entries@[j] == old_entries[j1]);
                        old_self.lemma_entry(j1);
                    }
                    assert(self@ =~= old_map.remove(kv));
                }
            },
            None => {
                assert forall|key: K::V| #[trigger]
                    self@.contains_key(key) == old_map.remove(kv).contains_key(key) by {
                    if key == kv && self@.contains_key(key) {
                        let j = choose|j: int| self.has_key_at(key, j);
                    }
                }
                assert(self@ =~= old_map.remove(kv));
            },
        }
    }

    /// The keys that have entries, each once.
    pub fn keys(&self) -> (ks: Vec<K>)
        ensures
            forall|i: int, j: int|
                0 <= i < j < ks@.len() ==> #[trigger] ks@[i].deep_view() != #[trigger] ks@[j].deep_view(),
            forall|i: int| 0 <= i < ks@.len() ==> self@.contains_key(#[trigger] ks@[i].deep_view()),
            forall|k: K::V| #[trigger] self@.contains_key(k) ==> exists|i: int|
                0 <= i < ks@.len() && ks@[i].deep_view() == k,
    {
        proof {
            use_type_invariant(self);
        }
        let mut ks: Vec<K> = Vec::new();
        let mut i: usize = 0;
        while i < self.entries.len()
            invariant
                self.keys_distinct(),
                i <= self.entries@.len(),
                ks@.len() == i,
                forall|j: int|
                    0 <= j < i ==> #[trigger] ks@[j].deep_view() == self.entries@[j].0.deep_view(),
            decreases self.entries@.len() - i,
        {
            ks.push(self.entries[i].0.key_clone());
            i = i + 1;
        }
        proof {
            assert forall|a: int, b: int|
                0 <= a < b < ks@.len() implies #[trigger] ks@[a].deep_view()
                    != #[trigger] ks@[b].deep_view() by {
                assert(self.entries@[a].0.deep_view() != self.entries@[b].0.deep_view());
            }
            assert forall|a: int| 0 <= a < ks@.len() implies self@.contains_key(
                #[trigger] ks@[a].deep_view(),
            ) by {
                self.lemma_entry(a);
            }
            assert forall|k: K::V| #[trigger] self@.contains_key(k) implies exists|a: int|
                0 <= a < ks@.len() && ks@[a].deep_view() == k by {
                let j = choose|j: int| self.has_key_at(k, j);
                assert(ks@[j].deep_view() == k);
            }
        }
        ks
    }
}

impl<K: StorageKey, V: View> View for StorageMap<K, V> {
    type V = Map<K::V, V::V>;

    open spec fn view(&self) -> Map<K::V, V::V> {
        self.contents()
    }
}

} // verus!
