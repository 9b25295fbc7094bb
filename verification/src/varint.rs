//! Numbers of variable length: seven bits to a byte, the lowest first.

use integer_encoding::VarInt;
use vstd::prelude::*;
use vstd::slice::slice_subrange;

verus! {

/// The most bytes that a varint is read from.
pub const MAX_VARINT_LEN: usize = 10;

/// The number that the bytes spell: seven bits from each, the lowest
/// group first.
pub open spec fn varint_value(bytes: Seq<u8>) -> nat
    decreases bytes.len(),
{
    if bytes.len() == 0 {
        0
    } else {
        (bytes[0] % 128) as nat + 128 * varint_value(bytes.skip(1))
    }
}

/// The place, from `from` on, of the byte that ends a varint: the first
/// byte below 128, or the tenth byte if none before it is.
pub open spec fn varint_end(bytes: Seq<u8>, from: int) -> Option<int>
    decreases bytes.len() - from,
{
    if from < 0 || from >= bytes.len() {
        None
    } else if from >= MAX_VARINT_LEN - 1 || bytes[from] < 128 {
        Some(from)
    } else {
        varint_end(bytes, from + 1)
    }
}

/// The number that starts `bytes` as a varint, with the number of bytes that
/// it takes. There is none where the bytes run out before the varint ends,
/// where a tenth byte is above 1, or where the number is too large for the
/// machine word.
pub open spec fn spec_decode_var(bytes: Seq<u8>) -> Option<(usize, usize)> {
    match varint_end(bytes, 0) {
        None => None,
        Some(end) => {
            let value = varint_value(bytes.subrange(0, end + 1));
            if (end == MAX_VARINT_LEN - 1 && bytes[end] >= 2) || value > usize::MAX {
                None
            } else {
                Some((value as usize, (end + 1) as usize))
            }
        },
    }
}

/// The bytes of `n` as a varint: seven bits in each, the lowest group
/// first, and 128 added to every byte but the last.
pub open spec fn varint_bytes(n: nat) -> Seq<u8>
    decreases n,
{
    if n < 128 {
        seq![n as u8]
    } else {
        seq![(128 + n % 128) as u8] + varint_bytes(n / 128)
    }
}

/// Calls `decode_var` of `integer_encoding::VarInt` for `usize`. As its
/// source has it: the bytes are walked up to the first one below 128 or
/// to the tenth; the low seven bits of each are put together, lowest group
/// first; a tenth byte above 1, bytes that run out first, and a number
/// beyond `usize` give `None`.
#[verifier::external_body]
fn decode_var(bytes: &[u8]) -> (r: Option<(usize, usize)>)
    ensures
        r == spec_decode_var(bytes@),
{
    usize::decode_var(bytes)
}

/// Calls `required_space` of `integer_encoding::VarInt` for `usize`: the
/// number of bytes that the number takes as a varint.
#[verifier::external_body]
pub(crate) fn required_space(n: usize) -> (len: usize)
    ensures
        len == varint_bytes(n as nat).len(),
{
    n.required_space()
}

/// Calls `encode_var` of `integer_encoding::VarInt` for `usize` on the part
/// of `dst` from `at` on: the varint's bytes are written there, the rest of
/// `dst` stays, and the number of bytes written is returned. The call
/// panics where the bytes do not fit, which `requires` leaves out.
#[verifier::external_body]
pub(crate) fn encode_var_at(n: usize, dst: &mut Vec<u8>, at: usize) -> (len: usize)
    requires
        at + varint_bytes(n as nat).len() <= old(dst)@.len(),
    ensures
        len == varint_bytes(n as nat).len(),
        final(dst)@ == old(dst)@.subrange(0, at as int) + varint_bytes(n as nat) + old(
            dst,
        )@.subrange(at + len, old(dst)@.len() as int),
{
    n.encode_var(&mut dst[at..])
}

/// The end of a varint lies at or behind the place where the search for it
/// starts, and among the first ten bytes. Where there is no end, fewer than
/// ten bytes are there.
proof fn lemma_varint_end(bytes: Seq<u8>, from: int)
    requires
        0 <= from < MAX_VARINT_LEN,
    ensures
        match varint_end(bytes, from) {
            None => bytes.len() < MAX_VARINT_LEN,
            Some(end) => from <= end < bytes.len() && end < MAX_VARINT_LEN,
        },
    decreases bytes.len() - from,
{
    if from < bytes.len() && !(from >= MAX_VARINT_LEN - 1 || bytes[from] < 128) {
        lemma_varint_end(bytes, from + 1);
    }
}

/// Where a varint ends is told by the bytes up to there: the first `len`
/// bytes have the same end if it lies among them, and none if not.
proof fn lemma_varint_end_of_prefix(bytes: Seq<u8>, len: int, from: int)
    requires
        0 <= from < MAX_VARINT_LEN,
        0 <= len <= bytes.len(),
    ensures
        varint_end(bytes.subrange(0, len), from) == match varint_end(bytes, from) {
            None => None::<int>,
            Some(end) => if end < len {
                Some(end)
            } else {
                None
            },
        },
    decreases bytes.len() - from,
{
    let prefix = bytes.subrange(0, len);
    if from < bytes.len() {
        if from < len {
            assert(prefix[from] == bytes[from]);
        }
        if !(from >= MAX_VARINT_LEN - 1 || bytes[from] < 128) {
            lemma_varint_end_of_prefix(bytes, len, from + 1);
        } else if from >= len {
            assert(varint_end(prefix, from) is None);
        }
    }
}

/// The first `len` bytes decode as all the bytes do if the varint ends
/// among them, and not at all if it does not.
proof fn lemma_decode_var_of_prefix(bytes: Seq<u8>, len: int)
    requires
        0 <= len <= bytes.len(),
    ensures
        spec_decode_var(bytes.subrange(0, len)) == match varint_end(bytes, 0) {
            None => None::<(usize, usize)>,
            Some(end) => if end < len {
                spec_decode_var(bytes)
            } else {
                None
            },
        },
{
    let prefix = bytes.subrange(0, len);
    lemma_varint_end_of_prefix(bytes, len, 0);
    lemma_varint_end(bytes, 0);
    if let Some(end) = varint_end(bytes, 0) {
        if end < len {
            assert(prefix.subrange(0, end + 1) =~= bytes.subrange(0, end + 1));
        }
    }
}

/// Reads one varint from the front of `reader`, byte by byte, and moves
/// `reader` behind it. Where no number can be read, up to ten bytes are
/// used up and `None` is returned.
pub fn read_varint(reader: &mut &[u8]) -> (r: Option<usize>)
    ensures
        match spec_decode_var(old(reader)@) {
            Some((value, len)) => r == Some(value) && final(reader)@ == old(reader)@.skip(
                len as int,
            ),
            None => r is None && final(reader)@ == old(reader)@.skip(
                if old(reader)@.len() < MAX_VARINT_LEN {
                    old(reader)@.len() as int
                } else {
                    MAX_VARINT_LEN as int
                },
            ),
        },
{
    let input: &[u8] = *reader;
    let mut taken: usize = 0;
    proof {
        lemma_decode_var_of_prefix(input@, 0);
    }
    while taken < MAX_VARINT_LEN && taken < input.len()
        invariant
            input@ == old(reader)@,
            taken <= MAX_VARINT_LEN,
            taken <= input@.len(),
            spec_decode_var(input@.subrange(0, taken as int)) is None,
        decreases MAX_VARINT_LEN - taken,
    {
        proof {
            lemma_decode_var_of_prefix(input@, taken as int);
            lemma_decode_var_of_prefix(input@, taken + 1);
        }
        taken += 1;
        if let Some((value, _)) = decode_var(slice_subrange(input, 0, taken)) {
            *reader = slice_subrange(input, taken, input.len());
            return Some(value);
        }
    }
    proof {
        lemma_decode_var_of_prefix(input@, taken as int);
        lemma_varint_end(input@, 0);
    }
    *reader = slice_subrange(input, taken, input.len());
    None
}

} // verus!
