//! The contract all container kinds implement.
//!
//! A container is a stateless descriptor of a typed slot (or collection of
//! slots) inside a byte-keyed namespace. It defines how the portion of a
//! stored key that belongs to it decodes, how stored values decode, and
//! what accessor binds it to a branch.

use crate::branch::StorageBranch;
use vstd::prelude::*;

verus! {

/// A container kind: the shape of its keys and values, how both decode
/// from bytes, and its accessor type.
///
/// `spec_key_bytes` is the canonical encoding of a full key suffix;
/// `lemma_key_round_trip` obliges every container to decode that encoding
/// back to the key it came from, for every well-formed key.
pub trait Storable: Sized {
    type Key;

    type Value;

    type KeyDecodeError;

    type ValueDecodeError;

    type Accessor;

    /// The meaning of a raw key suffix under this container's prefix;
    /// `None` when the suffix is malformed.
    spec fn spec_decode_key(key: Seq<u8>) -> Option<Self::Key>;

    /// The canonical byte encoding of a full key.
    spec fn spec_key_bytes(k: Self::Key) -> Seq<u8>;

    /// Keys whose encoding is representable (every segment fits one
    /// length byte).
    spec fn key_wf(k: Self::Key) -> bool;

    /// The meaning of a stored byte value; `None` when it is corrupt.
    spec fn spec_decode_value(b: Seq<u8>) -> Option<Self::Value>;

    /// The prefix an accessor of this container is bound to.
    spec fn accessor_prefix(a: Self::Accessor) -> Seq<u8>;

    /// Key composition round trip: decoding an encoded key yields the key
    /// back, with the remainder delegated correctly all the way down.
    proof fn lemma_key_round_trip(k: Self::Key)
        requires
            Self::key_wf(k),
        ensures
            Self::spec_decode_key(Self::spec_key_bytes(k)) == Some(k),
    ;

    /// Bind an accessor to the given branch.
    fn access_impl(branch: StorageBranch) -> (r: Self::Accessor)
        ensures
            Self::accessor_prefix(r) == branch@,
    ;

    /// Decode the portion of a stored key that belongs to this container,
    /// rejecting malformed input with a typed error.
    fn decode_key(key: &[u8]) -> (r: Result<Self::Key, Self::KeyDecodeError>)
        ensures
            match r {
                Ok(k) => Self::spec_decode_key(key@) == Some(k),
                Err(_) => Self::spec_decode_key(key@) is None,
            },
    ;

    /// Decode a stored value.
    fn decode_value(value: &[u8]) -> (r: Result<Self::Value, Self::ValueDecodeError>)
        ensures
            match r {
                Ok(v) => Self::spec_decode_value(value@) == Some(v),
                Err(_) => Self::spec_decode_value(value@) is None,
            },
    ;
}

} // verus!
