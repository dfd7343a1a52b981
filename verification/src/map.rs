//! The recursive container: an ordered collection of entries keyed by a
//! typed, length-delimited segment, whose values are themselves containers.
//!
//! An entry for segment `s` lives under `prefix ++ [len(s)] ++ s ++ rest`,
//! where `rest` is the inner container's own key suffix. The length prefix
//! makes the decomposition unambiguous for segments up to 255 bytes.

use crate::branch::StorageBranch;
use crate::container::Storable;
use crate::encoding::Encoding;
use crate::item::Item;
use crate::order::copy_bytes;
use crate::order::lex_lt;
use crate::store::entries_view;
use crate::store::in_range;
use crate::store::opt_bytes;
use crate::store::Store;
use core::marker::PhantomData;
use vstd::prelude::*;

verus! {

/// A key segment: a typed key with a byte representation.
pub trait Key {
    /// The byte representation of this key.
    spec fn spec_bytes(&self) -> Seq<u8>;

    fn bytes(&self) -> (r: Vec<u8>)
        ensures
            r@ == self.spec_bytes(),
    ;
}

/// A key segment that can also be decoded back from its bytes. Every
/// implementation must prove `lemma_bytes_round_trip`: decoding a key's
/// own bytes gives the key back.
pub trait OwnedKey: Key + Sized {
    /// The meaning of a byte string as a key; `None` when it is not a
    /// valid encoding.
    spec fn spec_from_bytes(b: Seq<u8>) -> Option<Self>;

    /// Round trip: a key's byte representation decodes to the key.
    proof fn lemma_bytes_round_trip(k: Self)
        ensures
            Self::spec_from_bytes(k.spec_bytes()) == Some(k),
    ;

    fn from_bytes(b: &[u8]) -> (r: Result<Self, ()>)
        ensures
            match r {
                Ok(k) => Self::spec_from_bytes(b@) == Some(k),
                Err(_) => Self::spec_from_bytes(b@) is None,
            },
    ;
}

impl Key for u64 {
    open spec fn spec_bytes(&self) -> Seq<u8> {
        vstd::bytes::spec_u64_to_le_bytes(*self)
    }

    fn bytes(&self) -> (r: Vec<u8>) {
        vstd::bytes::u64_to_le_bytes(*self)
    }
}

impl OwnedKey for u64 {
    open spec fn spec_from_bytes(b: Seq<u8>) -> Option<u64> {
        if b.len() == 8 {
            Some(vstd::bytes::spec_u64_from_le_bytes(b))
        } else {
            None
        }
    }

    proof fn lemma_bytes_round_trip(k: u64) {
        vstd::bytes::lemma_auto_spec_u64_to_from_le_bytes();
    }

    fn from_bytes(b: &[u8]) -> (r: Result<u64, ()>) {
        if b.len() == 8 {
            Ok(vstd::bytes::u64_from_le_bytes(b))
        } else {
            Err(())
        }
    }
}

impl Key for u32 {
    open spec fn spec_bytes(&self) -> Seq<u8> {
        vstd::bytes::spec_u32_to_le_bytes(*self)
    }

    fn bytes(&self) -> (r: Vec<u8>) {
        vstd::bytes::u32_to_le_bytes(*self)
    }
}

impl OwnedKey for u32 {
    open spec fn spec_from_bytes(b: Seq<u8>) -> Option<u32> {
        if b.len() == 4 {
            Some(vstd::bytes::spec_u32_from_le_bytes(b))
        } else {
            None
        }
    }

    proof fn lemma_bytes_round_trip(k: u32) {
        vstd::bytes::lemma_auto_spec_u32_to_from_le_bytes();
    }

    fn from_bytes(b: &[u8]) -> (r: Result<u32, ()>) {
        if b.len() == 4 {
            Ok(vstd::bytes::u32_from_le_bytes(b))
        } else {
            Err(())
        }
    }
}

/// A map container: a keyed collection of inner containers rooted at a
/// fixed byte prefix. Its view is that prefix.
pub struct MapContainer<K, V> {
    prefix: Vec<u8>,
    phantom: PhantomData<(K, V)>,
}

impl<K, V> View for MapContainer<K, V> {
    type V = Seq<u8>;

    closed spec fn view(&self) -> Seq<u8> {
        self.prefix@
    }
}

impl<K, V> MapContainer<K, V> where K: OwnedKey, V: Storable {
    /// Create a new map container rooted at `prefix`. It is the caller's
    /// responsibility to keep sibling prefixes disjoint.
    pub fn new(prefix: Vec<u8>) -> (r: Self)
        ensures
            r@ == prefix@,
    {
        MapContainer { prefix, phantom: PhantomData }
    }

    /// Acquire an accessor to the collection, bound to its root prefix.
    pub fn access(&self) -> (r: MapAccess<K, V>)
        ensures
            r@ == self@,
    {
        Self::access_impl(StorageBranch::new(copy_bytes(self.prefix.as_slice())))
    }
}

impl<K, V> Storable for MapContainer<K, V> where K: OwnedKey, V: Storable {
    type Key = (K, V::Key);

    type Value = V::Value;

    type KeyDecodeError = ();

    type ValueDecodeError = V::ValueDecodeError;

    type Accessor = MapAccess<K, V>;

    open spec fn spec_decode_key(key: Seq<u8>) -> Option<(K, V::Key)> {
        if key.len() < 1 {
            None
        } else {
            let len = key[0] as int;
            if key.len() < 1 + len {
                None
            } else {
                match K::spec_from_bytes(key.subrange(1, 1 + len)) {
                    Some(k) => match V::spec_decode_key(key.skip(1 + len)) {
                        Some(rest) => Some((k, rest)),
                        None => None,
                    },
                    None => None,
                }
            }
        }
    }

    open spec fn spec_key_bytes(k: (K, V::Key)) -> Seq<u8> {
        seq![(k.0.spec_bytes().len() as u8)] + k.0.spec_bytes() + V::spec_key_bytes(k.1)
    }

    open spec fn key_wf(k: (K, V::Key)) -> bool {
        k.0.spec_bytes().len() <= 255 && V::key_wf(k.1)
    }

    open spec fn spec_decode_value(b: Seq<u8>) -> Option<V::Value> {
        V::spec_decode_value(b)
    }

    open spec fn accessor_prefix(a: MapAccess<K, V>) -> Seq<u8> {
        a@
    }

    proof fn lemma_key_round_trip(k: (K, V::Key)) {
        let sb = k.0.spec_bytes();
        let rest = V::spec_key_bytes(k.1);
        let enc = Self::spec_key_bytes(k);
        assert(enc[0] == sb.len() as u8);
        assert(enc[0] as int == sb.len());
        assert(enc.subrange(1, 1 + sb.len() as int) =~= sb);
        assert(enc.skip(1 + sb.len() as int) =~= rest);
        K::lemma_bytes_round_trip(k.0);
        V::lemma_key_round_trip(k.1);
        assert((k.0, k.1) == k);
    }

    fn access_impl(branch: StorageBranch) -> (r: MapAccess<K, V>) {
        MapAccess { branch, phantom: PhantomData }
    }

    fn decode_key(key: &[u8]) -> (r: Result<(K, V::Key), ()>) {
        if key.len() < 1 {
            return Err(());
        }
        let len: usize = (*vstd::slice::slice_index_get(key, 0)) as usize;
        if key.len() < 1 + len {
            return Err(());
        }
        let seg = vstd::slice::slice_subrange(key, 1, 1 + len);
        let k = match K::from_bytes(seg) {
            Ok(k) => k,
            Err(_) => {
                return Err(());
            },
        };
        let rest_bytes = vstd::slice::slice_subrange(key, 1 + len, key.len());
        let rest = match V::decode_key(rest_bytes) {
            Ok(r) => r,
            Err(_) => {
                return Err(());
            },
        };
        Ok((k, rest))
    }

    fn decode_value(value: &[u8]) -> (r: Result<V::Value, V::ValueDecodeError>) {
        V::decode_value(value)
    }
}

/// An accessor for a map container: composes entries' accessors and
/// iterates the collection. Its view is the prefix it is bound to.
pub struct MapAccess<K, V> {
    branch: StorageBranch,
    phantom: PhantomData<(K, V)>,
}

impl<K, V> View for MapAccess<K, V> {
    type V = Seq<u8>;

    closed spec fn view(&self) -> Seq<u8> {
        self.branch@
    }
}

impl<K, V> MapAccess<K, V> where K: OwnedKey, V: Storable {
    /// The accessor of the inner container stored under segment `key`:
    /// this is how nesting composes.
    pub fn get(&self, key: &K) -> (r: V::Accessor)
        requires
            key.spec_bytes().len() <= 255,
        ensures
            V::accessor_prefix(r) == self@ + seq![(key.spec_bytes().len() as u8)]
                + key.spec_bytes(),
    {
        let kb = key.bytes();
        let mut seg: Vec<u8> = Vec::new();
        seg.push(kb.len() as u8);
        let mut i: usize = 0;
        let n = kb.len();
        while i < n
            invariant
                0 <= i <= n,
                n == kb@.len(),
                kb@ == key.spec_bytes(),
                seg@ == seq![(kb@.len() as u8)] + kb@.take(i as int),
            decreases n - i,
        {
            let x = kb[i];
            seg.push(x);
            proof {
                assert(seq![(kb@.len() as u8)] + kb@.take(i + 1) =~= (seq![(kb@.len() as u8)]
                    + kb@.take(i as int)).push(x));
            }
            i = i + 1;
        }
        proof {
            assert(kb@.take(n as int) =~= kb@);
        }
        let child = self.branch.child(seg.as_slice());
        proof {
            assert(self@ + (seq![(key.spec_bytes().len() as u8)] + key.spec_bytes()) =~= self@
                + seq![(key.spec_bytes().len() as u8)] + key.spec_bytes());
        }
        V::access_impl(child)
    }

    /// Lazily decode the entries of the collection whose relative keys lie
    /// in the half-open range `[start, end)`, in ascending byte order of
    /// the stored keys.
    ///
    /// Order follows the byte-lexicographic order of the length-prefixed
    /// stored keys; across segments of different byte widths this need not
    /// match the segment type's natural order, since the length byte sorts
    /// before the segment's own bytes.
    pub fn iter(&self, store: &Store, start: Option<&[u8]>, end: Option<&[u8]>) -> (r: MapIter<
        K,
        V,
    >)
        ensures
            r.position() == 0,
            forall|m1: int, m2: int|
                0 <= m1 < m2 < r.raw().len() ==> lex_lt(
                    (#[trigger] r.raw()[m1]).0,
                    (#[trigger] r.raw()[m2]).0,
                ),
            forall|m: int|
                0 <= m < r.raw().len() ==> store@.contains_pair(
                    self@ + (#[trigger] r.raw()[m]).0,
                    r.raw()[m].1,
                ) && in_range(opt_bytes(start), opt_bytes(end), r.raw()[m].0),
            forall|s: Seq<u8>, v: Seq<u8>|
                #[trigger] store@.contains_pair(self@ + s, v) && in_range(
                    opt_bytes(start),
                    opt_bytes(end),
                    s,
                ) ==> exists|m: int|
                    0 <= m < r.raw().len() && (#[trigger] r.raw()[m]).0 == s && r.raw()[m].1 == v,
    {
        let pairs = self.branch.pairs(store, start, end);
        let ghost gp = pairs@;
        let r = MapIter { pairs, pos: 0, phantom: PhantomData };
        proof {
            assert forall|s: Seq<u8>, v: Seq<u8>|
                #[trigger] store@.contains_pair(self@ + s, v) && in_range(
                    opt_bytes(start),
                    opt_bytes(end),
                    s,
                ) implies exists|m: int|
                0 <= m < r.raw().len() && (#[trigger] r.raw()[m]).0 == s && r.raw()[m].1 == v by {
                let m = choose|m: int|
                    0 <= m < gp.len() && (#[trigger] gp[m]).0@ == s && gp[m].1@ == v;
                assert(r.raw()[m].0 == s && r.raw()[m].1 == v);
            }
        }
        r
    }
}

/// A lazy decoding iterator over a map container's entries: each call to
/// `next` decodes one raw pair, and a decode failure is reported for that
/// item alone, never aborting the sequence.
pub struct MapIter<K, V> {
    pairs: Vec<(Vec<u8>, Vec<u8>)>,
    pos: usize,
    phantom: PhantomData<(K, V)>,
}

impl<K, V> MapIter<K, V> where K: OwnedKey, V: Storable {
    /// The raw (still encoded) pairs this iterator walks.
    pub closed spec fn raw(self) -> Seq<(Seq<u8>, Seq<u8>)> {
        entries_view(self.pairs@)
    }

    /// How many items have been consumed.
    pub closed spec fn position(self) -> int {
        self.pos as int
    }

    /// Decode the next raw pair, if any: the key through the recursive
    /// length-prefix scheme, the value through the inner container. A key
    /// failure and a value failure are reported as distinct variants, and
    /// only for the item they occur in.
    pub fn next(&mut self) -> (r: Option<
        Result<((K, V::Key), V::Value), KVDecodeError<(), V::ValueDecodeError>>,
    >)
        ensures
            final(self).raw() == old(self).raw(),
            old(self).position() >= old(self).raw().len() ==> r is None && final(self).position()
                == old(self).position(),
            old(self).position() < old(self).raw().len() ==> {
                &&& final(self).position() == old(self).position() + 1
                &&& ({
                    let rk = old(self).raw()[old(self).position()].0;
                    let rv = old(self).raw()[old(self).position()].1;
                    match r {
                        Some(Ok(kv)) => MapContainer::<K, V>::spec_decode_key(rk) == Some(kv.0)
                            && V::spec_decode_value(rv) == Some(kv.1),
                        Some(Err(KVDecodeError::Key(_))) => MapContainer::<K, V>::spec_decode_key(
                            rk,
                        ) is None,
                        Some(Err(KVDecodeError::Value(_))) => MapContainer::<K,
                            V,
                        >::spec_decode_key(rk) is Some && V::spec_decode_value(rv) is None,
                        None => false,
                    }
                })
            },
    {
        if self.pos < self.pairs.len() {
            let i = self.pos;
            let dk = MapContainer::<K, V>::decode_key(self.pairs[i].0.as_slice());
            let dv = MapContainer::<K, V>::decode_value(self.pairs[i].1.as_slice());
            self.pos = i + 1;
            match (dk, dv) {
                (Err(e), _) => Some(Err(KVDecodeError::Key(e))),
                (_, Err(e)) => Some(Err(KVDecodeError::Value(e))),
                (Ok(k), Ok(v)) => Some(Ok((k, v))),
            }
        } else {
            None
        }
    }
}

/// One entry of an iteration failed to decode: either its key suffix or
/// its stored value, never conflated.
pub enum KVDecodeError<K, V> {
    Key(K),
    Value(V),
}

/// Key composition round trip: for every segment key `s` and well-formed
/// inner key `k`, encoding `(s, k)` and decoding it back yields `(s, k)`.
pub proof fn lemma_key_composition_round_trip<K: OwnedKey, V: Storable>(s: K, k: V::Key)
    requires
        s.spec_bytes().len() <= 255,
        V::key_wf(k),
    ensures
        MapContainer::<K, V>::spec_decode_key(MapContainer::<K, V>::spec_key_bytes((s, k)))
            == Some((s, k)),
{
    MapContainer::<K, V>::lemma_key_round_trip((s, k));
}

/// Distinct well-formed keys occupy distinct stored slots: the key
/// encoding is injective, so inserting entries under distinct keys and
/// iterating yields exactly those entries, one stored pair per key.
pub proof fn lemma_key_bytes_injective<K: OwnedKey, V: Storable>(k1: (K, V::Key), k2: (K, V::Key))
    requires
        MapContainer::<K, V>::key_wf(k1),
        MapContainer::<K, V>::key_wf(k2),
        k1 != k2,
    ensures
        MapContainer::<K, V>::spec_key_bytes(k1) != MapContainer::<K, V>::spec_key_bytes(k2),
{
    MapContainer::<K, V>::lemma_key_round_trip(k1);
    MapContainer::<K, V>::lemma_key_round_trip(k2);
}

/// An entry written through a map of items decodes back on iteration: its
/// stored key yields the segment (paired with the item's empty key), and
/// its stored value yields the value that was encoded.
pub proof fn lemma_iter_entry_decodes<K: OwnedKey, E: Encoding>(s: K, v: E::Value)
    requires
        s.spec_bytes().len() <= 255,
        E::spec_encode(v) is Some,
    ensures
        MapContainer::<K, Item<E::Value, E>>::spec_decode_key(
            MapContainer::<K, Item<E::Value, E>>::spec_key_bytes((s, ())),
        ) == Some((s, ())),
        MapContainer::<K, Item<E::Value, E>>::spec_decode_value(E::spec_encode(v)->Some_0)
            == Some(v),
{
    lemma_key_composition_round_trip::<K, Item<E::Value, E>>(s, ());
    E::lemma_round_trip(v);
}

} // verus!
