//! An ordered map that the order book stores, with its byte format: the
//! number of entries as four little-endian bytes, then each key and value in
//! increasing order of the keys.
use vstd::prelude::*;
use std::collections::BTreeMap;
use vstd::std_specs::iter::IteratorSpec;
use crate::codec::{
    ScaleCodec, decode_u32, encode_u32_to, from_le_bytes, le_bytes, lemma_le_bytes_roundtrip,
    lemma_pow256_values,
};

verus! {

/// An ordered map, as the order book stores it.
pub struct CodecBTreeMap<K: Ord, V>(pub BTreeMap<K, V>);

impl<K: Ord, V: View> View for CodecBTreeMap<K, V> {
    type V = Map<K, V::V>;

    open spec fn view(&self) -> Map<K, V::V> {
        self.0@.map_values(|v: V| v@)
    }
}

impl<K: Ord, V> CodecBTreeMap<K, V> {
    /// An empty map.
    pub fn new() -> (m: Self)
        ensures
            m.0@ == Map::<K, V>::empty(),
    {
        CodecBTreeMap(BTreeMap::new())
    }
}

impl<K: Ord, V> Default for CodecBTreeMap<K, V> {
    fn default() -> (m: Self)
        ensures
            m.0@ == Map::<K, V>::empty(),
    {
        CodecBTreeMap(BTreeMap::new())
    }
}

impl<K: Ord + Clone, V: Clone> Clone for CodecBTreeMap<K, V> {
    fn clone(&self) -> (m: Self)
        ensures
            m.0@ == self.0@,
    {
        CodecBTreeMap(self.0.clone())
    }
}


/// Whether `s` increases strictly.
pub open spec fn strictly_increasing(s: Seq<u64>) -> bool {
    forall|i: int, j: int| 0 <= i < j < s.len() ==> s[i] < s[j]
}

/// `u64` keys are ordered as a `BTreeMap` needs them to be.
proof fn lemma_u64_keys_ordered()
    ensures
        vstd::std_specs::btree::key_obeys_cmp_spec::<u64>(),
{
    assert(vstd::laws_cmp::obeys_cmp::<u64>());
}

/// Keys that a `BTreeMap` hands out in increasing order increase strictly.
proof fn lemma_increasing_keys(s: Seq<u64>)
    requires
        vstd::std_specs::btree::increasing_seq(s),
    ensures
        strictly_increasing(s),
{
    assert forall|i: int, j: int| 0 <= i < j < s.len() implies s[i] < s[j] by {
        assert(vstd::std_specs::cmp::OrdSpec::cmp_spec(&s[i], &s[j]) is Less);
    }
}

impl<V> CodecBTreeMap<u64, V> {
    /// The keys, in increasing order.
    pub fn keys(&self) -> (ks: Vec<u64>)
        ensures
            ks@.to_set() == self.0@.dom(),
            strictly_increasing(ks@),
    {
        proof {
            lemma_u64_keys_ordered();
        }
        let iter = self.0.iter();
        let ghost entries = iter.remaining();
        let ghost key_seq = entries.map_values(|kv: (&u64, &V)| *kv.0);
        assert(vstd::std_specs::btree::increasing_seq(key_seq));
        assert(entries == vstd::std_specs::btree::spec_btree_map_iter(&self.0).remaining());
        let mut ks: Vec<u64> = Vec::new();
        for kv in it: iter
            invariant
                it.seq() == entries,
                key_seq == entries.map_values(|kv: (&u64, &V)| *kv.0),
                ks@ == key_seq.take(it.index()),
        {
            ks.push(*kv.0);
            assert(ks@ =~= key_seq.take(it.index() + 1));
        }
        assert(ks@ =~= key_seq);
        proof {
            lemma_increasing_keys(key_seq);
        }
        assert forall|k: u64| #[trigger] self.0@.dom().contains(k) implies key_seq.to_set().contains(k) by {
            assert(entries.contains((&k, &self.0@[k])));
            let i = choose|i: int| 0 <= i < entries.len() && entries[i] == (&k, &self.0@[k]);
            assert(key_seq[i] == k);
        }
        assert forall|k: u64| #[trigger] key_seq.to_set().contains(k) implies self.0@.dom().contains(k) by {
            let i = choose|i: int| 0 <= i < key_seq.len() && key_seq[i] == k;
            assert(self.0@.contains_key(*entries[i].0));
        }
        assert(key_seq.to_set() =~= self.0@.dom());
        ks
    }
}


/// Whether a `BTreeMap` with keys of type `K` behaves as its specification
/// says, which holds where `Ord` on `K` is a total order.
pub open spec fn keys_ordered<K>() -> bool {
    vstd::std_specs::btree::key_obeys_cmp_spec::<K>()
}

/// A key of a map with a byte format. Keys are ordered by a number, their
/// rank, as `Ord` orders them; no two keys share a rank; every key can be
/// written, and a key is its own view.
pub trait ScaleKey: ScaleCodec + Ord + View<V = Self> {
    spec fn rank(k: Self) -> int;

    proof fn lemma_key_laws()
        ensures
            keys_ordered::<Self>(),
            forall|a: Self, b: Self|
                #[trigger] vstd::std_specs::cmp::OrdSpec::cmp_spec(&a, &b) is Less ==> Self::rank(a)
                    < Self::rank(b),
            forall|a: Self, b: Self|
                #![trigger Self::rank(a), Self::rank(b)]
                Self::rank(a) == Self::rank(b) ==> a == b,
            forall|a: Self| #[trigger] Self::encodable(a),
            forall|a: Self| #[trigger] a.view() == a,
    ;
}

impl ScaleKey for u64 {
    open spec fn rank(k: u64) -> int {
        k as int
    }

    proof fn lemma_key_laws() {
        lemma_u64_keys_ordered();
    }
}

impl ScaleKey for u32 {
    open spec fn rank(k: u32) -> int {
        k as int
    }

    proof fn lemma_key_laws() {
        assert(vstd::laws_cmp::obeys_cmp::<u32>());
    }
}

/// Whether the ranks of the keys in `s` increase strictly.
pub open spec fn keys_increasing<K: ScaleKey>(s: Seq<K>) -> bool {
    forall|i: int, j: int| 0 <= i < j < s.len() ==> K::rank(s[i]) < K::rank(s[j])
}

/// Keys that a `BTreeMap` hands out in increasing order increase in rank.
proof fn lemma_increasing_ranks<K: ScaleKey>(s: Seq<K>)
    requires
        vstd::std_specs::btree::increasing_seq(s),
    ensures
        keys_increasing(s),
{
    broadcast use vstd::std_specs::btree::group_btree_axioms;

    K::lemma_key_laws();
    assert forall|i: int, j: int| 0 <= i < j < s.len() implies K::rank(s[i]) < K::rank(s[j]) by {
        assert(vstd::std_specs::cmp::OrdSpec::cmp_spec(&s[i], &s[j]) is Less);
    }
}

/// The keys of `m` in increasing order.
pub open spec fn sorted_keys<K: ScaleKey, V>(m: Map<K, V>) -> Seq<K> {
    choose|s: Seq<K>| keys_increasing(s) && s.to_set() == m.dom()
}

/// The bytes of the entries of `m` under the keys `ks`, one after the other:
/// each key's bytes, then its value's bytes.
pub open spec fn entries_encoding<K: ScaleKey, V: ScaleCodec>(ks: Seq<K>, m: Map<K, V::V>) -> Seq<
    u8,
>
    decreases ks.len(),
{
    if ks.len() == 0 {
        Seq::empty()
    } else {
        K::encoding(ks[0]) + V::encoding(m[ks[0]]) + entries_encoding::<K, V>(ks.drop_first(), m)
    }
}

/// The bytes of a map: the number of entries as four little-endian bytes,
/// then the entries in increasing order of the keys.
pub open spec fn map_encoding<K: ScaleKey, V: ScaleCodec>(m: Map<K, V::V>) -> Seq<u8> {
    le_bytes(m.len(), 4) + entries_encoding::<K, V>(sorted_keys(m), m)
}

/// Reading `n` entries from the front of `input` into `acc`, each written
/// over what `acc` held under its key; the map and the bytes taken.
pub open spec fn entries_decoding<K: ScaleKey, V: ScaleCodec>(
    input: Seq<u8>,
    n: nat,
    acc: Map<K, V::V>,
) -> Option<(Map<K, V::V>, nat)>
    decreases n,
{
    if n == 0 {
        Some((acc, 0))
    } else {
        match K::decoding(input) {
            None => None,
            Some((k, a)) => match V::decoding(input.skip(a as int)) {
                None => None,
                Some((v, b)) => match entries_decoding::<K, V>(
                    input.skip((a + b) as int),
                    (n - 1) as nat,
                    acc.insert(k, v),
                ) {
                    None => None,
                    Some((m, c)) => Some((m, a + b + c)),
                },
            },
        }
    }
}

/// Reading a map from the front of `input`: four bytes give the number of
/// entries, which follow; the map and the bytes taken.
pub open spec fn map_decoding<K: ScaleKey, V: ScaleCodec>(input: Seq<u8>) -> Option<
    (Map<K, V::V>, nat),
> {
    if input.len() < 4 {
        None
    } else {
        match entries_decoding::<K, V>(
            input.skip(4),
            from_le_bytes(input.take(4)),
            Map::empty(),
        ) {
            Some((m, c)) => Some((m, 4 + c)),
            None => None,
        }
    }
}

/// Two sequences of keys, increasing in rank, with the same elements are the
/// same.
pub proof fn lemma_sorted_unique<K: ScaleKey>(a: Seq<K>, b: Seq<K>)
    requires
        keys_increasing(a),
        keys_increasing(b),
        a.to_set() == b.to_set(),
    ensures
        a == b,
    decreases a.len(),
{
    if a.len() == 0 {
        if b.len() > 0 {
            assert(b.to_set().contains(b[0]));
        }
        assert(a =~= b);
    } else {
        assert(a.to_set().contains(a[0]));
        assert(b.len() > 0);
        assert(b.to_set().contains(b[0]));
        let i = choose|i: int| 0 <= i < b.len() && b[i] == a[0];
        let j = choose|j: int| 0 <= j < a.len() && a[j] == b[0];
        assert(a[0] == b[0]) by {
            if i > 0 && j > 0 {
                assert(K::rank(b[0]) < K::rank(b[i]));
                assert(K::rank(a[0]) < K::rank(a[j]));
            }
        }
        let a1 = a.drop_first();
        let b1 = b.drop_first();
        assert forall|x: K| #[trigger] a1.to_set().contains(x) == b1.to_set().contains(x) by {
            if a1.contains(x) {
                let p = choose|p: int| 0 <= p < a1.len() && a1[p] == x;
                assert(a[p + 1] == x);
                assert(a.to_set().contains(x));
                let q = choose|q: int| 0 <= q < b.len() && b[q] == x;
                assert(q != 0) by {
                    if q == 0 {
                        assert(K::rank(a[0]) < K::rank(a[p + 1]));
                    }
                }
                assert(b1[q - 1] == x);
            }
            if b1.contains(x) {
                let p = choose|p: int| 0 <= p < b1.len() && b1[p] == x;
                assert(b[p + 1] == x);
                assert(b.to_set().contains(x));
                let q = choose|q: int| 0 <= q < a.len() && a[q] == x;
                assert(q != 0) by {
                    if q == 0 {
                        assert(K::rank(b[0]) < K::rank(b[p + 1]));
                    }
                }
                assert(a1[q - 1] == x);
            }
        }
        assert(a1.to_set() =~= b1.to_set());
        lemma_sorted_unique(a1, b1);
        assert(a.len() == b.len());
        assert forall|p: int| 0 <= p < a.len() implies a[p] == b[p] by {
            if p > 0 {
                assert(a[p] == a1[p - 1]);
                assert(b[p] == b1[p - 1]);
            }
        }
        assert(a =~= b);
    }
}

/// A finite set of keys has a sequence of its elements increasing in rank.
pub proof fn lemma_sorted_keys_exist<K: ScaleKey>(d: Set<K>)
    requires
        d.finite(),
    ensures
        exists|s: Seq<K>| keys_increasing(s) && s.to_set() == d,
    decreases d.len(),
{
    K::lemma_key_laws();
    if d.len() == 0 {
        assert(d =~= Set::<K>::empty());
        assert(Seq::<K>::empty().to_set() =~= d);
        assert(keys_increasing(Seq::<K>::empty()));
    } else {
        let leq = |a: K, b: K| K::rank(a) <= K::rank(b);
        assert(vstd::relations::total_ordering(leq)) by {
            assert forall|a: K, b: K| #[trigger] leq(a, b) && #[trigger] leq(b, a) implies a == b by {
                assert(K::rank(a) == K::rank(b));
            }
        }
        d.find_unique_maximal_ensures(leq);
        let x = d.find_unique_maximal(leq);
        let d1 = d.remove(x);
        lemma_sorted_keys_exist(d1);
        let s1 = choose|s: Seq<K>| keys_increasing(s) && s.to_set() == d1;
        let s = s1.push(x);
        assert forall|i: int, j: int| 0 <= i < j < s.len() implies K::rank(s[i]) < K::rank(s[j]) by {
            if j == s1.len() {
                assert(s1.to_set().contains(s1[i]));
                assert(d.contains(s1[i]));
                assert(leq(x, s1[i]) ==> leq(s1[i], x));
                assert(s1[i] != x);
                assert(K::rank(s1[i]) != K::rank(x));
            }
        }
        assert forall|y: K| #[trigger] s.to_set().contains(y) == d.contains(y) by {
            if s.contains(y) {
                let p = choose|p: int| 0 <= p < s.len() && s[p] == y;
                if p < s1.len() {
                    assert(s1[p] == y);
                    assert(s1.to_set().contains(y));
                }
            }
            if d.contains(y) {
                if y == x {
                    assert(s[s1.len() as int] == y);
                } else {
                    assert(s1.to_set().contains(y));
                    let p = choose|p: int| 0 <= p < s1.len() && s1[p] == y;
                    assert(s[p] == y);
                }
            }
        }
        assert(s.to_set() =~= d);
    }
}

/// The bytes of the entries under `ks` followed by one more key.
proof fn lemma_entries_encoding_push<K: ScaleKey, V: ScaleCodec>(
    ks: Seq<K>,
    k: K,
    m: Map<K, V::V>,
)
    ensures
        entries_encoding::<K, V>(ks.push(k), m) == entries_encoding::<K, V>(ks, m) + K::encoding(k)
            + V::encoding(m[k]),
    decreases ks.len(),
{
    if ks.len() == 0 {
        assert(ks.push(k).drop_first() =~= Seq::<K>::empty());
        assert(ks.push(k)[0] == k);
        assert(entries_encoding::<K, V>(Seq::<K>::empty(), m) == Seq::<u8>::empty());
        assert(entries_encoding::<K, V>(ks, m) == Seq::<u8>::empty());
        assert(entries_encoding::<K, V>(ks.push(k), m) =~= K::encoding(k) + V::encoding(m[k]));
    } else {
        lemma_entries_encoding_push::<K, V>(ks.drop_first(), k, m);
        assert(ks.push(k).drop_first() =~= ks.drop_first().push(k));
        assert(entries_encoding::<K, V>(ks.push(k), m) =~= entries_encoding::<K, V>(ks, m)
            + K::encoding(k) + V::encoding(m[k]));
    }
}

/// Reading back the entries under distinct keys `ks` of `m`, whatever follows
/// them, writes each of them into `acc` and takes all their bytes.
proof fn lemma_entries_roundtrip<K: ScaleKey, V: ScaleCodec>(
    ks: Seq<K>,
    m: Map<K, V::V>,
    acc: Map<K, V::V>,
    rest: Seq<u8>,
)
    requires
        ks.no_duplicates(),
        forall|i: int| 0 <= i < ks.len() ==> #[trigger] m.contains_key(ks[i]),
        forall|k: K| #[trigger] m.contains_key(k) ==> V::encodable(m[k]),
    ensures
        entries_decoding::<K, V>(entries_encoding::<K, V>(ks, m) + rest, ks.len(), acc) == Some(
            (
                acc.union_prefer_right(m.restrict(ks.to_set())),
                entries_encoding::<K, V>(ks, m).len(),
            ),
        ),
    decreases ks.len(),
{
    K::lemma_key_laws();
    if ks.len() == 0 {
        assert(m.restrict(ks.to_set()) =~= Map::<K, V::V>::empty());
        assert(acc.union_prefer_right(Map::<K, V::V>::empty()) =~= acc);
    } else {
        let k = ks[0];
        let v = m[k];
        let tail = ks.drop_first();
        let input = entries_encoding::<K, V>(ks, m) + rest;
        let ek = K::encoding(k);
        let ev = V::encoding(v);
        let et = entries_encoding::<K, V>(tail, m);
        assert(m.contains_key(ks[0]));
        assert(K::encodable(k));
        K::lemma_roundtrip(k, ev + et + rest);
        assert(input =~= ek + (ev + et + rest));
        assert(input.skip(ek.len() as int) =~= ev + (et + rest));
        V::lemma_roundtrip(v, et + rest);
        assert(input.skip((ek.len() + ev.len()) as int) =~= et + rest);
        assert forall|i: int| 0 <= i < tail.len() implies #[trigger] m.contains_key(tail[i]) by {
            assert(m.contains_key(ks[i + 1]));
        }
        lemma_entries_roundtrip::<K, V>(tail, m, acc.insert(k, v), rest);
        assert(!tail.contains(k)) by {
            if tail.contains(k) {
                let p = choose|p: int| 0 <= p < tail.len() && tail[p] == k;
                assert(ks[p + 1] == ks[0]);
            }
        }
        assert(ks.to_set() =~= tail.to_set().insert(k)) by {
            assert forall|x: K| #[trigger] ks.to_set().contains(x) == tail.to_set().insert(
                k,
            ).contains(x) by {
                if ks.contains(x) {
                    let p = choose|p: int| 0 <= p < ks.len() && ks[p] == x;
                    if p > 0 {
                        assert(tail[p - 1] == x);
                    }
                }
                if tail.contains(x) {
                    let p = choose|p: int| 0 <= p < tail.len() && tail[p] == x;
                    assert(ks[p + 1] == x);
                }
                if x == k {
                    assert(ks[0] == x);
                }
            }
        }
        assert(acc.insert(k, v).union_prefer_right(m.restrict(tail.to_set()))
            =~= acc.union_prefer_right(m.restrict(ks.to_set())));
        assert(entries_encoding::<K, V>(ks, m).len() == ek.len() + ev.len() + et.len());
    }
}

/// Reading a map back from its bytes, whatever follows them, gives the map
/// and the number of its bytes.
pub proof fn lemma_map_roundtrip<K: ScaleKey, V: ScaleCodec>(m: Map<K, V::V>, rest: Seq<u8>)
    requires
        m.dom().finite(),
        m.len() <= u32::MAX,
        forall|k: K| #[trigger] m.contains_key(k) ==> V::encodable(m[k]),
    ensures
        map_decoding::<K, V>(map_encoding::<K, V>(m) + rest) == Some(
            (m, map_encoding::<K, V>(m).len()),
        ),
{
    lemma_sorted_keys_exist(m.dom());
    let ks = sorted_keys(m);
    assert(ks.no_duplicates()) by {
        assert forall|i: int, j: int| 0 <= i < ks.len() && 0 <= j < ks.len() && i != j implies ks[i]
            != ks[j] by {
            if i < j {
                assert(K::rank(ks[i]) < K::rank(ks[j]));
            } else {
                assert(K::rank(ks[j]) < K::rank(ks[i]));
            }
        }
    }
    ks.unique_seq_to_set();
    assert forall|i: int| 0 <= i < ks.len() implies #[trigger] m.contains_key(ks[i]) by {
        assert(ks.to_set().contains(ks[i]));
    }
    let e = entries_encoding::<K, V>(ks, m);
    let input = map_encoding::<K, V>(m) + rest;
    lemma_pow256_values();
    lemma_le_bytes_roundtrip(m.len(), 4);
    assert(input =~= le_bytes(m.len(), 4) + (e + rest));
    assert(input.take(4) =~= le_bytes(m.len(), 4));
    assert(input.skip(4) =~= e + rest);
    lemma_entries_roundtrip::<K, V>(ks, m, Map::empty(), rest);
    assert(Map::<K, V::V>::empty().union_prefer_right(m.restrict(ks.to_set())) =~= m);
}

impl<K: ScaleKey, V: ScaleCodec> CodecBTreeMap<K, V> {
    /// Appends the bytes of the map to `dest`: the number of entries as four
    /// little-endian bytes, then each key and value in increasing order of
    /// the keys. A map of more than `u32::MAX` entries cannot be written.
    pub fn encode_to(&self, dest: &mut Vec<u8>)
        requires
            self@.len() <= u32::MAX,
            forall|k: K| #[trigger] self@.contains_key(k) ==> V::encodable(self@[k]),
        ensures
            final(dest)@ == old(dest)@ + map_encoding::<K, V>(self@),
    {
        proof {
            K::lemma_key_laws();
        }
        assert(self@.dom() =~= self.0@.dom());
        let len = self.0.len();
        encode_u32_to(len as u32, dest);
        let ghost prefix = dest@;
        let iter = self.0.iter();
        let ghost entries = iter.remaining();
        let ghost key_seq = entries.map_values(|kv: (&K, &V)| *kv.0);
        assert(vstd::std_specs::btree::increasing_seq(key_seq));
        assert(entries == vstd::std_specs::btree::spec_btree_map_iter(&self.0).remaining());
        assert(entries.len() == self.0@.len());
        for kv in it: iter
            invariant
                it.seq() == entries,
                key_seq == entries.map_values(|kv: (&K, &V)| *kv.0),
                entries == vstd::std_specs::btree::spec_btree_map_iter(&self.0).remaining(),
                entries.len() == self.0@.len(),
                forall|k: K| #[trigger] self@.contains_key(k) ==> V::encodable(self@[k]),
                forall|a: K| #[trigger] K::encodable(a),
                forall|a: K| #[trigger] a.view() == a,
                dest@ == prefix + entries_encoding::<K, V>(key_seq.take(it.index()), self@),
        {
            let ghost i = it.index();
            assert(self.0@.contains_key(*entries[i].0) && self.0@[*entries[i].0] == *entries[i].1);
            assert(*kv.0 == key_seq[i]);
            assert(*kv.1 == *entries[i].1);
            assert(self@.contains_key(*kv.0));
            assert(self@[*kv.0] == kv.1@);
            assert(kv.0@ == *kv.0);
            kv.0.encode_to(dest);
            kv.1.encode_to(dest);
            proof {
                lemma_entries_encoding_push::<K, V>(key_seq.take(i), key_seq[i], self@);
                assert(key_seq.take(i).push(key_seq[i]) =~= key_seq.take(i + 1));
                assert(dest@ =~= prefix + entries_encoding::<K, V>(key_seq.take(i + 1), self@));
            }
        }
        proof {
            assert(key_seq.take(key_seq.len() as int) =~= key_seq);
            lemma_increasing_ranks(key_seq);
            assert forall|k: K| #[trigger] key_seq.to_set().contains(k) == self@.dom().contains(k) by {
                if self.0@.dom().contains(k) {
                    assert(entries.contains((&k, &self.0@[k])));
                    let i = choose|i: int| 0 <= i < entries.len() && entries[i] == (&k, &self.0@[k]);
                    assert(key_seq[i] == k);
                }
                if key_seq.contains(k) {
                    let i = choose|i: int| 0 <= i < key_seq.len() && key_seq[i] == k;
                    assert(self.0@.contains_key(*entries[i].0));
                }
            }
            assert(key_seq.to_set() =~= self@.dom());
            lemma_sorted_keys_exist(self@.dom());
            lemma_sorted_unique(key_seq, sorted_keys(self@));
            assert(self@.len() == self.0@.len());
        }
    }

    /// The bytes of the map; see `encode_to`.
    pub fn encode(&self) -> (bytes: Vec<u8>)
        requires
            self@.len() <= u32::MAX,
            forall|k: K| #[trigger] self@.contains_key(k) ==> V::encodable(self@[k]),
        ensures
            bytes@ == map_encoding::<K, V>(self@),
    {
        let mut r: Vec<u8> = Vec::new();
        self.encode_to(&mut r);
        assert(r@ =~= map_encoding::<K, V>(self@));
        r
    }

    /// Reads a map from the front of `input`: four little-endian bytes give
    /// the number of entries, and each entry, a key and then its value, is
    /// written over what the map holds under its key. Returns the map and how
    /// many bytes of `input` are left after it, or nothing where the bytes
    /// end too soon or a key or value cannot be read.
    pub fn decode(input: &[u8]) -> (r: Option<(Self, usize)>)
        ensures
            match map_decoding::<K, V>(input@) {
                Some((m, used)) => r matches Some((x, left)) && x@ == m && left == input@.len()
                    - used,
                None => r is None,
            },
    {
        proof {
            K::lemma_key_laws();
        }
        let (len, left0) = match decode_u32(input) {
            Some(p) => p,
            None => return None,
        };
        let mut left: usize = left0;
        let mut r: BTreeMap<K, V> = BTreeMap::new();
        let mut i: u32 = 0;
        assert(input@.skip(input@.len() - left) =~= input@.skip(4));
        assert(r@.map_values(|v: V| v@) =~= Map::<K, V::V>::empty());
        while i < len
            invariant
                left <= input@.len(),
                i <= len,
                len as nat == from_le_bytes(input@.take(4)),
                input@.len() >= 4,
                forall|a: K| #[trigger] a.view() == a,
                keys_ordered::<K>(),
                map_decoding::<K, V>(input@) == (match entries_decoding::<K, V>(
                    input@.skip(input@.len() - left),
                    (len - i) as nat,
                    r@.map_values(|v: V| v@),
                ) {
                    Some((m, d)) => Some((m, ((input@.len() - left) + d) as nat)),
                    None => None,
                }),
            decreases len - i,
        {
            let ghost pos: int = input@.len() - left;
            let ghost acc = r@.map_values(|v: V| v@);
            let rest = vstd::slice::slice_subrange(input, input.len() - left, input.len());
            assert(rest@ =~= input@.skip(pos));
            let (key, left1) = match K::decode(rest) {
                Some(p) => p,
                None => return None,
            };
            assert(key@ == key);
            let ghost a: nat = (left - left1) as nat;
            assert(K::decoding(input@.skip(pos)) == Some((key, a)));
            let rest2 = vstd::slice::slice_subrange(input, input.len() - left1, input.len());
            assert(rest2@ =~= input@.skip(pos).skip(a as int));
            let (v, left2) = match V::decode(rest2) {
                Some(p) => p,
                None => return None,
            };
            let ghost b: nat = (left1 - left2) as nat;
            assert(input@.skip(pos).skip((a + b) as int) =~= input@.skip(input@.len() - left2));
            r.insert(key, v);
            assert(r@.map_values(|v: V| v@) =~= acc.insert(key, v@));
            left = left2;
            i = i + 1;
        }
        Some((CodecBTreeMap(r), left))
    }
}

} // verus!
