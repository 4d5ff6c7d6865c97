//! Byte encodings of cards and keys, for callers that frame messages.
//!
//! The core never performs I/O; a front end exchanges these byte encodings
//! over its own transport and hands the decoded values back in.

use vstd::prelude::*;

use crate::group::{
    compressed_of, point_bytes, point_parse, scalar_bytes, scalar_parse, EncryptedValue, KeyType,
};

verus! {

/// The canonical compressed encoding of a card value.
pub fn value_to_bytes(v: &EncryptedValue) -> (r: Vec<u8>)
    ensures
        r@ == compressed_of(v.dlog()),
{
    point_bytes(v)
}

/// Decode a card value; `None` on bytes that are not a canonical encoding.
pub fn value_from_bytes(bytes: &Vec<u8>) -> Option<EncryptedValue> {
    point_parse(bytes)
}

/// The canonical encoding of a key's residue.
pub fn key_to_bytes(k: &KeyType) -> Vec<u8> {
    scalar_bytes(k)
}

/// Decode a key; `None` on bytes that do not encode a residue in range.
pub fn key_from_bytes(bytes: &Vec<u8>) -> Option<KeyType> {
    scalar_parse(bytes)
}

} // verus!
