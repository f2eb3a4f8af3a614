//! The concrete codecs: exactly specified ones for strings, raw and
//! fixed-size byte slices, and codecs delegating to outside serializers.

use vstd::prelude::*;
use vstd::slice::slice_to_vec;
use vstd::string::StrSliceExecFns;
use vstd::utf8::{decode_utf8, encode_utf8, valid_utf8};

use crate::traits::{BytesDecode, BytesEncode, CodecType};

verus! {

impl CodecType for Str {
    open spec fn spec_type_id() -> u64 {
        1
    }

    fn type_id() -> (r: u64) {
        1
    }
}

impl CodecType for ByteSlice {
    open spec fn spec_type_id() -> u64 {
        2
    }

    fn type_id() -> (r: u64) {
        2
    }
}

impl CodecType for Unit {
    open spec fn spec_type_id() -> u64 {
        3
    }

    fn type_id() -> (r: u64) {
        3
    }
}

impl<const N: usize> CodecType for FixedSlice<N> {
    open spec fn spec_type_id() -> u64 {
        (N as u64) ^ 0x1000_0000_0000_0000
    }

    fn type_id() -> (r: u64) {
        (N as u64) ^ 0x1000_0000_0000_0000
    }
}

/// Describes a UTF-8 string: encoded as its UTF-8 bytes, decoded only from
/// valid UTF-8.
pub struct Str;

impl BytesEncode for Str {
    type EItem = str;

    open spec fn obeys_encode() -> bool {
        true
    }

    open spec fn spec_encode(item: Seq<char>) -> Option<Seq<u8>> {
        Some(encode_utf8(item))
    }

    fn bytes_encode(item: &str) -> (r: Option<Vec<u8>>) {
        Some(item.as_bytes_vec())
    }
}

impl BytesDecode for Str {
    type DItem = String;

    open spec fn obeys_decode() -> bool {
        true
    }

    open spec fn spec_decode(bytes: Seq<u8>) -> Option<Seq<char>> {
        if valid_utf8(bytes) {
            Some(decode_utf8(bytes))
        } else {
            None
        }
    }

    fn bytes_decode(bytes: &[u8]) -> (r: Option<String>) {
        utf8_to_string(bytes)
    }
}

/// Relies on `core::str::from_utf8`: it returns `Ok` exactly on valid UTF-8,
/// viewing the same bytes as characters.
#[verifier::external_body]
fn utf8_to_string(bytes: &[u8]) -> (r: Option<String>)
    ensures
        match r {
            Some(s) => valid_utf8(bytes@) && s@ == decode_utf8(bytes@),
            None => !valid_utf8(bytes@),
        },
{
    core::str::from_utf8(bytes).ok().map(|s| s.to_owned())
}

/// Describes raw bytes, stored as they are.
pub struct ByteSlice;

impl BytesEncode for ByteSlice {
    type EItem = [u8];

    open spec fn obeys_encode() -> bool {
        true
    }

    open spec fn spec_encode(item: Seq<u8>) -> Option<Seq<u8>> {
        Some(item)
    }

    fn bytes_encode(item: &[u8]) -> (r: Option<Vec<u8>>) {
        Some(slice_to_vec(item))
    }
}

impl BytesDecode for ByteSlice {
    type DItem = Vec<u8>;

    open spec fn obeys_decode() -> bool {
        true
    }

    open spec fn spec_decode(bytes: Seq<u8>) -> Option<Seq<u8>> {
        Some(bytes)
    }

    fn bytes_decode(bytes: &[u8]) -> (r: Option<Vec<u8>>) {
        Some(slice_to_vec(bytes))
    }
}

/// Describes the unit type: encoded as no bytes at all, decoded from any
/// bytes by ignoring them.
pub struct Unit;

impl BytesEncode for Unit {
    type EItem = ();

    open spec fn obeys_encode() -> bool {
        true
    }

    open spec fn spec_encode(item: ()) -> Option<Seq<u8>> {
        Some(Seq::empty())
    }

    fn bytes_encode(item: &()) -> (r: Option<Vec<u8>>) {
        let v: Vec<u8> = Vec::new();
        proof {
            assert(v@ =~= Seq::<u8>::empty());
        }
        Some(v)
    }
}

impl BytesDecode for Unit {
    type DItem = ();

    open spec fn obeys_decode() -> bool {
        true
    }

    open spec fn spec_decode(bytes: Seq<u8>) -> Option<()> {
        Some(())
    }

    fn bytes_decode(bytes: &[u8]) -> (r: Option<()>) {
        Some(())
    }
}

/// Describes a byte array of a size fixed at the type level: encoded as its
/// bytes, decoded only from byte strings of exactly that length.
pub struct FixedSlice<const N: usize>;

impl<const N: usize> BytesEncode for FixedSlice<N> {
    type EItem = [u8; N];

    open spec fn obeys_encode() -> bool {
        true
    }

    open spec fn spec_encode(item: Seq<u8>) -> Option<Seq<u8>> {
        Some(item)
    }

    fn bytes_encode(item: &[u8; N]) -> (r: Option<Vec<u8>>) {
        Some(slice_to_vec(item.as_slice()))
    }
}

impl<const N: usize> BytesDecode for FixedSlice<N> {
    type DItem = [u8; N];

    open spec fn obeys_decode() -> bool {
        true
    }

    open spec fn spec_decode(bytes: Seq<u8>) -> Option<Seq<u8>> {
        if bytes.len() == N {
            Some(bytes)
        } else {
            None
        }
    }

    fn bytes_decode(bytes: &[u8]) -> (r: Option<[u8; N]>) {
        if bytes.len() == N {
            let mut out: [u8; N] = [0u8; N];
            let mut i: usize = 0;
            while i < N
                invariant
                    0 <= i <= N,
                    bytes@.len() == N,
                    forall|j: int| 0 <= j < i ==> out@[j] == bytes@[j],
                decreases N - i,
            {
                out[i] = bytes[i];
                i = i + 1;
            }
            proof {
                assert(out@ =~= bytes@);
            }
            Some(out)
        } else {
            None
        }
    }
}

/// Describes a type serialized through `bincode`. The bytes are whatever the
/// outside serializer produces; nothing is claimed of them.
pub struct SerdeBincode<T>(core::marker::PhantomData<T>);

impl<T> SerdeBincode<T> {
    /// Serialize `item` through the outside serializer; `None` on failure.
    pub fn bytes_encode(item: &T) -> Option<Vec<u8>> where T: serde::Serialize {
        bincode_serialize(item)
    }

    /// Deserialize `bytes` through the outside serializer; `None` on failure.
    pub fn bytes_decode(bytes: &[u8]) -> Option<T> where T: serde::de::DeserializeOwned {
        bincode_deserialize(bytes)
    }
}

/// Relies on `bincode::serialize` for the actual bytes; nothing is claimed
/// of them.
#[verifier::external_body]
fn bincode_serialize<T: serde::Serialize>(item: &T) -> (r: Option<Vec<u8>>) {
    bincode::serialize(item).ok()
}

/// Relies on `bincode::deserialize` for the actual value; nothing is claimed
/// of it.
#[verifier::external_body]
fn bincode_deserialize<T: serde::de::DeserializeOwned>(bytes: &[u8]) -> (r: Option<T>) {
    bincode::deserialize(bytes).ok()
}

/// Describes a type serialized through `serde_json`. The bytes are whatever
/// the outside serializer produces; nothing is claimed of them.
pub struct SerdeJson<T>(core::marker::PhantomData<T>);

impl<T> SerdeJson<T> {
    /// Serialize `item` through the outside serializer; `None` on failure.
    pub fn bytes_encode(item: &T) -> Option<Vec<u8>> where T: serde::Serialize {
        json_serialize(item)
    }

    /// Deserialize `bytes` through the outside serializer; `None` on failure.
    pub fn bytes_decode(bytes: &[u8]) -> Option<T> where T: serde::de::DeserializeOwned {
        json_deserialize(bytes)
    }
}

/// Relies on `serde_json::to_vec` for the actual bytes; nothing is claimed
/// of them.
#[verifier::external_body]
fn json_serialize<T: serde::Serialize>(item: &T) -> (r: Option<Vec<u8>>) {
    serde_json::to_vec(item).ok()
}

/// Relies on `serde_json::from_slice` for the actual value; nothing is
/// claimed of it.
#[verifier::external_body]
fn json_deserialize<T: serde::de::DeserializeOwned>(bytes: &[u8]) -> (r: Option<T>) {
    serde_json::from_slice(bytes).ok()
}

/// Describes a type serialized through `ordcode`'s order-preserving
/// ascending encoding. Encodings of 511 bytes or more are rejected as an
/// encoding failure: they would exceed the key ceiling this codec enforces.
pub struct Ordcode<T>(core::marker::PhantomData<T>);

impl<T> Ordcode<T> {
    /// Serialize `item` through the outside order-preserving serializer;
    /// `None` on failure or when the encoding reaches the 511-byte key
    /// ceiling this codec enforces.
    pub fn bytes_encode(item: &T) -> (r: Option<Vec<u8>>) where T: serde::Serialize
        ensures
            r matches Some(v) ==> v@.len() < 511,
    {
        match ordcode_encode(item) {
            Some(key) => {
                if key.len() < 511 {
                    Some(key)
                } else {
                    None
                }
            },
            None => None,
        }
    }

    /// Deserialize `bytes` through the outside serializer; `None` on failure.
    pub fn bytes_decode(bytes: &[u8]) -> Option<T> where T: serde::de::DeserializeOwned {
        ordcode_decode(bytes)
    }
}

/// Relies on `ordcode::ser_to_vec_ordered` with ascending order for the
/// actual bytes.
#[verifier::external_body]
fn ordcode_encode<T: serde::Serialize>(item: &T) -> (r: Option<Vec<u8>>) {
    ordcode::ser_to_vec_ordered(item, ordcode::Order::Ascending).ok()
}

/// Relies on `ordcode::de_from_bytes_asc` for the actual value; nothing is
/// claimed of it.
#[verifier::external_body]
fn ordcode_decode<T: serde::de::DeserializeOwned>(bytes: &[u8]) -> (r: Option<T>) {
    ordcode::de_from_bytes_asc(bytes).ok()
}

/// Describes a type serialized through `protokit`'s protocol-buffer binary
/// format. The bytes are whatever the outside serializer produces; nothing
/// is claimed of them.
pub struct Proto<T>(core::marker::PhantomData<T>);

impl<T> Proto<T> {
    /// Serialize `item` through the outside serializer; `None` on failure.
    pub fn bytes_encode(item: &T) -> Option<Vec<u8>> where T: for<'a> protokit::BinProto<'a> {
        proto_encode(item)
    }

    /// Deserialize `bytes` through the outside serializer; `None` on failure.
    pub fn bytes_decode(bytes: &[u8]) -> Option<T> where T: for<'a> protokit::BinProto<'a> + Default {
        proto_decode(bytes)
    }
}

/// Relies on `protokit::binformat::encode` for the actual bytes; nothing is
/// claimed of them.
#[verifier::external_body]
fn proto_encode<T: for<'a> protokit::BinProto<'a>>(item: &T) -> (r: Option<Vec<u8>>) {
    protokit::binformat::encode(item).ok()
}

/// Relies on `protokit::binformat::decode` for the actual value; nothing is
/// claimed of it.
#[verifier::external_body]
fn proto_decode<T: for<'a> protokit::BinProto<'a> + Default>(bytes: &[u8]) -> (r: Option<T>) {
    protokit::binformat::decode(bytes).ok()
}

} // verus!
