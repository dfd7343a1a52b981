//! The pluggable value codec: typed values to bytes and back.
//!
//! `Encoding` is the capability that containers are parameterized by. An
//! implementation must prove the round-trip law: decoding an encoded value
//! yields the value back.

use vstd::prelude::*;

verus! {

/// A codec for one value type. `spec_encode` and `spec_decode` give the
/// mathematical meaning of the two directions, with `None` standing for a
/// failure; the executable `encode` and `decode` must agree with them, and
/// `lemma_round_trip` obliges every implementation to decode its own
/// encodings back to the original value.
pub trait Encoding: Sized {
    type Value;

    type EncodeError;

    type DecodeError;

    spec fn spec_encode(v: Self::Value) -> Option<Seq<u8>>;

    spec fn spec_decode(b: Seq<u8>) -> Option<Self::Value>;

    /// Round trip: decoding an encoded value gives the value back.
    proof fn lemma_round_trip(v: Self::Value)
        ensures
            Self::spec_encode(v) is Some ==> Self::spec_decode(Self::spec_encode(v)->Some_0)
                == Some(v),
    ;

    fn encode(v: &Self::Value) -> (r: Result<Vec<u8>, Self::EncodeError>)
        ensures
            match r {
                Ok(b) => Self::spec_encode(*v) == Some(b@),
                Err(_) => Self::spec_encode(*v) is None,
            },
    ;

    fn decode(b: &[u8]) -> (r: Result<Self::Value, Self::DecodeError>)
        ensures
            match r {
                Ok(v) => Self::spec_decode(b@) == Some(v),
                Err(_) => Self::spec_decode(b@) is None,
            },
    ;
}

/// Decoding a `u64` fails when the stored value is not exactly 8 bytes.
#[derive(Debug, PartialEq, Eq, Clone, Copy)]
pub struct U64DecodeError;

/// Encoding a `u64` never fails; this error is never produced.
#[derive(Debug, PartialEq, Eq, Clone, Copy)]
pub struct U64EncodeError;

/// The codec for `u64` values: 8 bytes, little-endian.
pub struct U64LeEncoding;

impl Encoding for U64LeEncoding {
    type Value = u64;

    type EncodeError = U64EncodeError;

    type DecodeError = U64DecodeError;

    open spec fn spec_encode(v: u64) -> Option<Seq<u8>> {
        Some(vstd::bytes::spec_u64_to_le_bytes(v))
    }

    open spec fn spec_decode(b: Seq<u8>) -> Option<u64> {
        if b.len() == 8 {
            Some(vstd::bytes::spec_u64_from_le_bytes(b))
        } else {
            None
        }
    }

    proof fn lemma_round_trip(v: u64) {
        vstd::bytes::lemma_auto_spec_u64_to_from_le_bytes();
    }

    fn encode(v: &u64) -> (r: Result<Vec<u8>, U64EncodeError>) {
        Ok(vstd::bytes::u64_to_le_bytes(*v))
    }

    fn decode(b: &[u8]) -> (r: Result<u64, U64DecodeError>) {
        if b.len() == 8 {
            Ok(vstd::bytes::u64_from_le_bytes(b))
        } else {
            Err(U64DecodeError)
        }
    }
}

} // verus!
