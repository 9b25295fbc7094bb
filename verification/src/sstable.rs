//! The handle of a block of a table file.

use vstd::prelude::*;
use crate::varint::{
    encode_var_at, read_varint, required_space, spec_decode_var, varint_bytes, MAX_VARINT_LEN,
};

verus! {

/// Where a block lies in a table file: its offset and its size.
pub struct BlockHandle {
    pub offset: usize,
    pub size: usize,
}

/// A number that fits in 64 bits takes at most ten bytes as a varint.
proof fn lemma_varint_bytes_len(n: nat)
    requires
        n <= u64::MAX,
    ensures
        1 <= varint_bytes(n).len() <= MAX_VARINT_LEN,
{
    reveal_with_fuel(varint_bytes, 11);
}

impl BlockHandle {
    /// Reads a handle from the front of `reader`: the offset, then the
    /// size, each as a varint. Both must be there to be read.
    pub fn new(reader: &mut &[u8]) -> (handle: BlockHandle)
        requires
            spec_decode_var(old(reader)@) is Some,
            spec_decode_var(old(reader)@.skip(spec_decode_var(old(reader)@)->Some_0.1 as int))
                is Some,
        ensures
            ({
                let (offset, offset_len) = spec_decode_var(old(reader)@)->Some_0;
                let rest = old(reader)@.skip(offset_len as int);
                let (size, size_len) = spec_decode_var(rest)->Some_0;
                &&& handle.offset == offset
                &&& handle.size == size
                &&& final(reader)@ == rest.skip(size_len as int)
            }),
    {
        let offset = read_varint(reader).unwrap();
        let size = read_varint(reader).unwrap();
        BlockHandle { offset, size }
    }

    /// The handle as bytes: the offset, then the size, each as a varint.
    pub fn serialize(&self) -> (out: Vec<u8>)
        ensures
            out@ == varint_bytes(self.offset as nat) + varint_bytes(self.size as nat),
    {
        proof {
            lemma_varint_bytes_len(self.offset as nat);
            lemma_varint_bytes_len(self.size as nat);
        }
        let space = required_space(self.offset) + required_space(self.size);
        let mut out: Vec<u8> = vec![0u8; space];
        let offset_len = encode_var_at(self.offset, &mut out, 0);
        let _ = encode_var_at(self.size, &mut out, offset_len);
        out
    }
}

} // verus!
