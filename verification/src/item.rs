//! The terminal container: a single typed value under a single key.
//!
//! An `Item` stores one value of type `T`, encoded by `E`, directly at its
//! one-byte root key; its key suffix within its namespace is always empty.

use crate::branch::StorageBranch;
use crate::container::Storable;
use crate::encoding::Encoding;
use crate::store::Store;
use core::marker::PhantomData;
use vstd::prelude::*;

verus! {

/// What reading an item slot of map view `m` at `prefix` yields:
/// `None` for a decode failure, otherwise the (possibly absent) value.
pub open spec fn item_get_of<E: Encoding>(m: Map<Seq<u8>, Seq<u8>>, prefix: Seq<u8>) -> Option<
    Option<E::Value>,
> {
    if !m.contains_key(prefix) {
        Some(None)
    } else {
        match E::spec_decode(m[prefix]) {
            Some(v) => Some(Some(v)),
            None => None,
        }
    }
}

/// A single item in the storage: one value of type `T`, encoded by `E`,
/// stored under a single one-byte key.
pub struct Item<T, E> {
    key: u8,
    phantom: PhantomData<(T, E)>,
}

impl<T, E> View for Item<T, E> {
    type V = u8;

    closed spec fn view(&self) -> u8 {
        self.key
    }
}

impl<T, E> Item<T, E> where E: Encoding<Value = T> {
    /// Create a new item with the given key. It is the caller's
    /// responsibility to keep the key unique among siblings.
    pub fn new(key: u8) -> (r: Self)
        ensures
            r@ == key,
    {
        Item { key, phantom: PhantomData }
    }

    /// Acquire an accessor to the item, bound to its root key.
    pub fn access(&self) -> (r: ItemAccess<E, T>)
        ensures
            r@ == seq![self@],
    {
        Self::access_impl(StorageBranch::new(vec![self.key]))
    }
}

impl<T, E> Storable for Item<T, E> where E: Encoding<Value = T> {
    type Key = ();

    type Value = T;

    type KeyDecodeError = ItemKeyDecodeError;

    type ValueDecodeError = E::DecodeError;

    type Accessor = ItemAccess<E, T>;

    open spec fn spec_decode_key(key: Seq<u8>) -> Option<()> {
        if key.len() == 0 {
            Some(())
        } else {
            None
        }
    }

    open spec fn spec_key_bytes(k: ()) -> Seq<u8> {
        Seq::empty()
    }

    open spec fn key_wf(k: ()) -> bool {
        true
    }

    open spec fn spec_decode_value(b: Seq<u8>) -> Option<T> {
        E::spec_decode(b)
    }

    open spec fn accessor_prefix(a: ItemAccess<E, T>) -> Seq<u8> {
        a@
    }

    proof fn lemma_key_round_trip(k: ()) {
    }

    fn access_impl(branch: StorageBranch) -> (r: ItemAccess<E, T>) {
        ItemAccess { branch, phantom: PhantomData }
    }

    fn decode_key(key: &[u8]) -> (r: Result<(), ItemKeyDecodeError>) {
        if key.is_empty() {
            Ok(())
        } else {
            Err(ItemKeyDecodeError)
        }
    }

    fn decode_value(value: &[u8]) -> (r: Result<T, E::DecodeError>) {
        E::decode(value)
    }
}

/// An item's key suffix must be empty; any other suffix under its prefix
/// is key-space corruption.
#[derive(Debug, PartialEq, Eq, Clone, Copy)]
pub struct ItemKeyDecodeError;

/// The item was absent where a value was required.
pub enum TryGetError<D> {
    Empty,
    Decode(D),
}

/// Read-modify-write failed while decoding the old value or while
/// encoding the new one.
pub enum UpdateError<E: Encoding> {
    Decode(E::DecodeError),
    Encode(E::EncodeError),
}

/// An accessor for an `Item`: reads and writes the single value stored at
/// the prefix it is bound to. Its view is that byte prefix.
pub struct ItemAccess<E, T> {
    branch: StorageBranch,
    phantom: PhantomData<(E, T)>,
}

impl<E, T> View for ItemAccess<E, T> {
    type V = Seq<u8>;

    closed spec fn view(&self) -> Seq<u8> {
        self.branch@
    }
}

impl<E, T> ItemAccess<E, T> where E: Encoding<Value = T> {
    /// Get the value of the item; `Ok(None)` when it has not been set.
    pub fn get(&self, store: &Store) -> (r: Result<Option<T>, E::DecodeError>)
        ensures
            match r {
                Ok(opt) => item_get_of::<E>(store@, self@) == Some(opt),
                Err(_) => item_get_of::<E>(store@, self@) is None,
            },
    {
        let empty: Vec<u8> = Vec::new();
        proof {
            assert(self@ + empty@ =~= self@);
        }
        match self.branch.get(store, empty.as_slice()) {
            None => Ok(None),
            Some(bytes) => match E::decode(bytes.as_slice()) {
                Ok(v) => Ok(Some(v)),
                Err(e) => Err(e),
            },
        }
    }

    /// Get the value of the item, turning absence into a distinguished
    /// `Empty` error.
    pub fn try_get(&self, store: &Store) -> (r: Result<T, TryGetError<E::DecodeError>>)
        ensures
            match r {
                Ok(v) => item_get_of::<E>(store@, self@) == Some(Some(v)),
                Err(TryGetError::Empty) => item_get_of::<E>(store@, self@) == Some(
                    None::<E::Value>,
                ),
                Err(TryGetError::Decode(_)) => item_get_of::<E>(store@, self@) is None,
            },
    {
        match self.get(store) {
            Ok(Some(v)) => Ok(v),
            Ok(None) => Err(TryGetError::Empty),
            Err(e) => Err(TryGetError::Decode(e)),
        }
    }

    /// Get the value of the item, or `default` when it has not been set.
    pub fn get_or(&self, store: &Store, default: T) -> (r: Result<T, E::DecodeError>)
        ensures
            match r {
                Ok(v) => item_get_of::<E>(store@, self@) == Some(Some(v)) || (item_get_of::<E>(
                    store@,
                    self@,
                ) == Some(None::<E::Value>) && v == default),
                Err(_) => item_get_of::<E>(store@, self@) is None,
            },
    {
        match self.get(store) {
            Ok(Some(v)) => Ok(v),
            Ok(None) => Ok(default),
            Err(e) => Err(e),
        }
    }

    /// Set the value of the item, overwriting unconditionally.
    pub fn set(&self, store: &mut Store, value: &T) -> (r: Result<(), E::EncodeError>)
        ensures
            match r {
                Ok(_) => E::spec_encode(*value) is Some && final(store)@ == old(store)@.insert(
                    self@,
                    E::spec_encode(*value)->Some_0,
                ),
                Err(_) => E::spec_encode(*value) is None && final(store)@ == old(store)@,
            },
    {
        match E::encode(value) {
            Ok(bytes) => {
                let empty: Vec<u8> = Vec::new();
                proof {
                    assert(self@ + empty@ =~= self@);
                }
                self.branch.set(store, empty.as_slice(), bytes.as_slice());
                Ok(())
            },
            Err(e) => Err(e),
        }
    }

    /// Read-modify-write: apply `f` to the current value (or absence) and
    /// store the result. Not atomic against interleaved mutators.
    pub fn update<F: FnOnce(Option<T>) -> T>(&self, store: &mut Store, f: F) -> (r: Result<
        (),
        UpdateError<E>,
    >)
        requires
            forall|opt: Option<T>| #[trigger] call_requires(f, (opt,)),
        ensures
            match r {
                Ok(_) => ({
                    let got = item_get_of::<E>(old(store)@, self@);
                    got is Some && exists|v: T|
                        {
                            &&& #[trigger] call_ensures(f, (got->Some_0,), v)
                            &&& E::spec_encode(v) is Some
                            &&& final(store)@ == old(store)@.insert(
                                self@,
                                E::spec_encode(v)->Some_0,
                            )
                        }
                }),
                Err(UpdateError::Decode(_)) => item_get_of::<E>(old(store)@, self@) is None
                    && final(store)@ == old(store)@,
                Err(UpdateError::Encode(_)) => ({
                    let got = item_get_of::<E>(old(store)@, self@);
                    &&& got is Some
                    &&& exists|v: T|
                        {
                            &&& #[trigger] call_ensures(f, (got->Some_0,), v)
                            &&& E::spec_encode(v) is None
                        }
                    &&& final(store)@ == old(store)@
                }),
            },
    {
        let current = match self.get(store) {
            Ok(opt) => opt,
            Err(e) => {
                return Err(UpdateError::Decode(e));
            },
        };
        let ghost gcur = current;
        let new_value = f(current);
        proof {
            assert(call_ensures(f, (gcur,), new_value));
            assert(item_get_of::<E>(old(store)@, self@) == Some(gcur));
        }
        match self.set(store, &new_value) {
            Ok(_) => {
                proof {
                    assert(call_ensures(
                        f,
                        (item_get_of::<E>(old(store)@, self@)->Some_0,),
                        new_value,
                    ));
                    assert(exists|v: T|
                        {
                            &&& #[trigger] call_ensures(
                                f,
                                (item_get_of::<E>(old(store)@, self@)->Some_0,),
                                v,
                            )
                            &&& E::spec_encode(v) is Some
                            &&& store@ == old(store)@.insert(self@, E::spec_encode(v)->Some_0)
                        });
                }
                Ok(())
            },
            Err(e) => {
                proof {
                    assert(call_ensures(
                        f,
                        (item_get_of::<E>(old(store)@, self@)->Some_0,),
                        new_value,
                    ));
                    assert(exists|v: T|
                        {
                            &&& #[trigger] call_ensures(
                                f,
                                (item_get_of::<E>(old(store)@, self@)->Some_0,),
                                v,
                            )
                            &&& E::spec_encode(v) is None
                        });
                }
                Err(UpdateError::Encode(e))
            },
        }
    }

    /// Remove the value of the item; removing an absent item is not an
    /// error.
    pub fn remove(&self, store: &mut Store)
        ensures
            final(store)@ == old(store)@.remove(self@),
    {
        let empty: Vec<u8> = Vec::new();
        proof {
            assert(self@ + empty@ =~= self@);
        }
        self.branch.remove(store, empty.as_slice());
    }
}

/// After `set`, `get` sees exactly the value that was set: setting stores
/// the encoding, and decoding it yields the value back.
pub proof fn lemma_set_then_get<E: Encoding>(m: Map<Seq<u8>, Seq<u8>>, prefix: Seq<u8>, v: E::Value)
    requires
        E::spec_encode(v) is Some,
    ensures
        item_get_of::<E>(m.insert(prefix, E::spec_encode(v)->Some_0), prefix) == Some(
            Some(v),
        ),
{
    E::lemma_round_trip(v);
}

/// Before any `set`, or at any other absent slot, `get` sees `Ok(None)`.
pub proof fn lemma_get_absent<E: Encoding>(m: Map<Seq<u8>, Seq<u8>>, prefix: Seq<u8>)
    requires
        !m.contains_key(prefix),
    ensures
        item_get_of::<E>(m, prefix) == Some(None::<E::Value>),
{
}

/// After `remove`, `get` sees `Ok(None)`, whether or not the slot was
/// ever set.
pub proof fn lemma_remove_then_get<E: Encoding>(m: Map<Seq<u8>, Seq<u8>>, prefix: Seq<u8>)
    ensures
        item_get_of::<E>(m.remove(prefix), prefix) == Some(None::<E::Value>),
{
}

/// Sibling items at distinct keys occupy disjoint slots: writing or
/// removing through one never changes what the other reads.
pub proof fn lemma_sibling_items_disjoint<E: Encoding>(
    m: Map<Seq<u8>, Seq<u8>>,
    k1: u8,
    k2: u8,
    b: Seq<u8>,
)
    requires
        k1 != k2,
    ensures
        item_get_of::<E>(m.insert(seq![k1], b), seq![k2]) == item_get_of::<E>(m, seq![k2]),
        item_get_of::<E>(m.remove(seq![k1]), seq![k2]) == item_get_of::<E>(m, seq![k2]),
{
    let p1 = seq![k1];
    let p2 = seq![k2];
    assert(p1[0] == k1 && p2[0] == k2);
    crate::order::lemma_equal_length_prefixes(p1, p2);
    crate::branch::lemma_namespace_disjoint(m, p1, p2, Seq::empty(), Seq::empty(), b);
    assert(p1 + Seq::<u8>::empty() =~= p1);
    assert(p2 + Seq::<u8>::empty() =~= p2);
}

} // verus!
