//! The two codec capabilities: turning a typed value into bytes and bytes
//! back into a typed value.

use vstd::prelude::*;

verus! {

/// A codec that can serialize values of its item type to bytes.
///
/// A codec whose `obeys_encode` is true pins its encoder down exactly:
/// `bytes_encode` succeeds precisely where `spec_encode` is `Some`, with those
/// very bytes. A codec relying on an outside serializer reports
/// `obeys_encode` false, and nothing is claimed of its output.
pub trait BytesEncode {
    type EItem: View + ?Sized;

    /// Whether `bytes_encode` is exactly characterized by `spec_encode`.
    spec fn obeys_encode() -> bool;

    /// The encoding as a mathematical function of the item's view.
    spec fn spec_encode(item: <Self::EItem as View>::V) -> Option<Seq<u8>>;

    /// Serialize `item`, or `None` when the value cannot be encoded.
    fn bytes_encode(item: &Self::EItem) -> (r: Option<Vec<u8>>)
        ensures
            Self::obeys_encode() ==> match (r, Self::spec_encode(item@)) {
                (Some(v), Some(s)) => v@ == s,
                (None, None) => true,
                _ => false,
            },
    ;
}

/// A codec that can deserialize bytes into an owned value of its item type.
///
/// Mirrors [`BytesEncode`]: when `obeys_decode` is true, `bytes_decode`
/// succeeds exactly where `spec_decode` is `Some`, returning that value.
pub trait BytesDecode {
    type DItem: View;

    /// Whether `bytes_decode` is exactly characterized by `spec_decode`.
    spec fn obeys_decode() -> bool;

    /// The decoding as a mathematical function of the bytes.
    spec fn spec_decode(bytes: Seq<u8>) -> Option<<Self::DItem as View>::V>;

    /// Deserialize `bytes`, or `None` when they do not fit the codec.
    fn bytes_decode(bytes: &[u8]) -> (r: Option<Self::DItem>)
        ensures
            Self::obeys_decode() ==> match (r, Self::spec_decode(bytes@)) {
                (Some(v), Some(s)) => v@ == s,
                (None, None) => true,
                _ => false,
            },
    ;
}

/// A runtime type descriptor for a codec: the registry records, per table,
/// the descriptor pair a table was first opened with, and rejects later
/// opens that present a different pair.
pub trait CodecType {
    /// The descriptor as a mathematical constant of the codec type.
    spec fn spec_type_id() -> u64;

    /// The runtime value of the descriptor.
    fn type_id() -> (r: u64)
        ensures
            r == Self::spec_type_id(),
    ;
}

} // verus!
