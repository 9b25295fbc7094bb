//! A key and its value as the bytes of one logical entry.

use vstd::prelude::*;
use vstd::slice::{slice_subrange, slice_to_vec};
use crate::error::LogError;

verus! {

/// The longest key or value that an entry can carry: what one length byte
/// can say.
pub const MAX_FIELD_LEN: usize = 255;

/// A key and its value as one logical entry: the key's length in one byte,
/// the key, the value's length in one byte, the value.
pub open spec fn spec_encode_entry(key: Seq<u8>, value: Seq<u8>) -> Seq<u8> {
    seq![key.len() as u8] + key + seq![value.len() as u8] + value
}

/// The key and the value that a logical entry carries. The entry is
/// malformed if it is shorter than its two length bytes declare; bytes
/// after the value are not looked at.
pub open spec fn spec_decode_entry(bytes: Seq<u8>) -> Result<(Seq<u8>, Seq<u8>), LogError> {
    if bytes.len() < 1 {
        Err(LogError::MalformedEntry)
    } else {
        let key_len = bytes[0] as int;
        if bytes.len() < 1 + key_len + 1 {
            Err(LogError::MalformedEntry)
        } else {
            let value_len = bytes[1 + key_len] as int;
            if bytes.len() < 1 + key_len + 1 + value_len {
                Err(LogError::MalformedEntry)
            } else {
                Ok(
                    (
                        bytes.subrange(1, 1 + key_len),
                        bytes.subrange(1 + key_len + 1, 1 + key_len + 1 + value_len),
                    ),
                )
            }
        }
    }
}

/// An entry reads back as the key and the value that it was made of.
pub proof fn lemma_decode_encode_entry(key: Seq<u8>, value: Seq<u8>)
    requires
        key.len() <= MAX_FIELD_LEN,
        value.len() <= MAX_FIELD_LEN,
    ensures
        spec_decode_entry(spec_encode_entry(key, value)) == Ok::<(Seq<u8>, Seq<u8>), LogError>(
            (key, value),
        ),
        spec_encode_entry(key, value).len() == 1 + key.len() + 1 + value.len(),
{
    let bytes = spec_encode_entry(key, value);
    let key_len = key.len() as int;
    let value_len = value.len() as int;
    assert(bytes.subrange(1, 1 + key_len) =~= key);
    assert(bytes.subrange(1 + key_len + 1, 1 + key_len + 1 + value_len) =~= value);
}

/// Builds the logical entry for `key` and `value`. A key or a value longer
/// than 255 bytes is refused.
pub fn encode_entry(key: &[u8], value: &[u8]) -> (r: Result<Vec<u8>, LogError>)
    ensures
        key@.len() > MAX_FIELD_LEN || value@.len() > MAX_FIELD_LEN ==> r == Err::<
            Vec<u8>,
            LogError,
        >(LogError::ValueTooLarge),
        key@.len() <= MAX_FIELD_LEN && value@.len() <= MAX_FIELD_LEN ==> r is Ok && r->Ok_0@
            == spec_encode_entry(key@, value@),
{
    if key.len() > MAX_FIELD_LEN || value.len() > MAX_FIELD_LEN {
        return Err(LogError::ValueTooLarge);
    }
    let mut bytes: Vec<u8> = Vec::new();
    bytes.push(key.len() as u8);
    bytes.extend_from_slice(key);
    bytes.push(value.len() as u8);
    bytes.extend_from_slice(value);
    Ok(bytes)
}

/// Reads the key and the value out of a logical entry.
pub fn decode_entry(bytes: &[u8]) -> (r: Result<(Vec<u8>, Vec<u8>), LogError>)
    ensures
        match r {
            Ok((key, value)) => spec_decode_entry(bytes@) == Ok::<(Seq<u8>, Seq<u8>), LogError>(
                (key@, value@),
            ),
            Err(e) => spec_decode_entry(bytes@) == Err::<(Seq<u8>, Seq<u8>), LogError>(e),
        },
{
    if bytes.len() < 1 {
        return Err(LogError::MalformedEntry);
    }
    let key_len = bytes[0] as usize;
    if bytes.len() - 1 < key_len + 1 {
        return Err(LogError::MalformedEntry);
    }
    let value_start = 1 + key_len + 1;
    let value_len = bytes[1 + key_len] as usize;
    if bytes.len() - value_start < value_len {
        return Err(LogError::MalformedEntry);
    }
    let key = slice_to_vec(slice_subrange(bytes, 1, 1 + key_len));
    let value = slice_to_vec(slice_subrange(bytes, value_start, value_start + value_len));
    Ok((key, value))
}

} // verus!
