//! The log writer and reader: how a buffer is cut into records that fit the
//! blocks of the log, and how the log is replayed.

use vstd::prelude::*;
use vstd::slice::{slice_subrange, slice_to_vec};
use crate::entry::decode_entry;
use crate::error::LogError;
use crate::memtable::MemTable;
use crate::record::{Record, RecordType, RecordView, LOG_BLOCK_SIZE, LOG_RECORD_HEADER_SIZE};
use crate::recovery::replay_from;

verus! {

/// How far into its block the file offset `offset` lies.
pub open spec fn block_cursor_at(offset: int) -> int {
    offset % (LOG_BLOCK_SIZE as int)
}

/// How many bytes are left in the block that `offset` lies in.
pub open spec fn block_capacity_at(offset: int) -> int {
    LOG_BLOCK_SIZE - block_cursor_at(offset)
}

/// How many payload bytes fit in the block that `offset` lies in, once one
/// header is set aside. Negative where not even a header fits.
pub open spec fn logical_capacity_at(offset: int) -> int {
    block_capacity_at(offset) - LOG_RECORD_HEADER_SIZE
}

/// Where the next record starts when the file ends at `offset`: at `offset`
/// itself, or at the next block boundary if no header fits before it.
pub open spec fn record_start(offset: int) -> int {
    if block_capacity_at(offset) < LOG_RECORD_HEADER_SIZE {
        offset + block_capacity_at(offset)
    } else {
        offset
    }
}

/// Moving `n` bytes on within a block moves the cursor by `n`; moving on by
/// all that the block has left lands on the start of the next block.
pub proof fn lemma_block_advance(offset: int, n: int)
    requires
        0 <= n <= block_capacity_at(offset),
    ensures
        0 <= block_cursor_at(offset) < LOG_BLOCK_SIZE,
        0 < block_capacity_at(offset) <= LOG_BLOCK_SIZE,
        n < block_capacity_at(offset) ==> block_cursor_at(offset + n) == block_cursor_at(offset)
            + n,
        n < block_capacity_at(offset) ==> block_capacity_at(offset + n) == block_capacity_at(
            offset,
        ) - n,
        n == block_capacity_at(offset) ==> block_cursor_at(offset + n) == 0,
        n == block_capacity_at(offset) ==> block_capacity_at(offset + n) == LOG_BLOCK_SIZE,
{
    let b = LOG_BLOCK_SIZE as int;
    let r = offset % b;
    let q = offset / b;
    assert(offset == b * q + r && 0 <= r < b) by {
        vstd::arithmetic::div_mod::lemma_fundamental_div_mod(offset, b);
    }
    if n < b - r {
        vstd::arithmetic::div_mod::lemma_fundamental_div_mod_converse(offset + n, b, q, r + n);
    } else {
        assert(offset + n == b * (q + 1) + 0) by (nonlinear_arith)
            requires
                offset == b * q + r,
                n == b - r,
        ;
        vstd::arithmetic::div_mod::lemma_fundamental_div_mod_converse(offset + n, b, q + 1, 0);
    }
}

/// `n` zero bytes.
pub open spec fn zeros(n: int) -> Seq<u8> {
    Seq::new(n as nat, |i: int| 0u8)
}

/// The type of the chunk that starts at `done` within a buffer, given
/// whether everything from `done` on fits in the current block.
pub open spec fn chunk_type(done: int, fits: bool) -> RecordType {
    if done == 0 {
        if fits {
            RecordType::FULL
        } else {
            RecordType::FIRST
        }
    } else {
        if fits {
            RecordType::LAST
        } else {
            RecordType::MIDDLE
        }
    }
}

/// The records that carry `buf` from position `done` on, when the first of
/// them starts at file offset `offset`. Each takes as much of the buffer as
/// the block it lands in can hold after its header.
pub open spec fn chunks(offset: int, buf: Seq<u8>, done: int) -> Seq<RecordView>
    decreases buf.len() - done, (if logical_capacity_at(offset) == 0 { 1nat } else { 0nat }),
{
    if done < 0 || done >= buf.len() || logical_capacity_at(offset) < 0 {
        Seq::empty()
    } else {
        let capacity = logical_capacity_at(offset);
        let rest = buf.len() - done;
        let n = if rest <= capacity { rest } else { capacity };
        let record = RecordView::sealed(
            chunk_type(done, rest <= capacity),
            buf.subrange(done, done + n),
        );
        seq![record] + chunks(offset + LOG_RECORD_HEADER_SIZE + n, buf, done + n)
    }
}

/// The frames of `records`, one after the other.
pub open spec fn frames(records: Seq<RecordView>) -> Seq<u8>
    decreases records.len(),
{
    if records.len() == 0 {
        Seq::empty()
    } else {
        records[0].frame() + frames(records.skip(1))
    }
}

/// What appending `buf` adds to a log file that ends at `offset`: zero
/// padding up to the next block where no header fits, then the records.
pub open spec fn written(offset: int, buf: Seq<u8>) -> Seq<u8> {
    zeros(record_start(offset) - offset) + frames(chunks(record_start(offset), buf, 0))
}

/// The payloads of `records`, one after the other.
pub open spec fn payloads(records: Seq<RecordView>) -> Seq<u8>
    decreases records.len(),
{
    if records.len() == 0 {
        Seq::empty()
    } else {
        records[0].payload + payloads(records.skip(1))
    }
}

/// The records that carry a buffer hold, one after the other, the bytes of
/// the buffer from `done` on.
proof fn lemma_chunks_payloads(offset: int, buf: Seq<u8>, done: int)
    requires
        0 <= done <= buf.len(),
        done < buf.len() ==> logical_capacity_at(offset) >= 0,
    ensures
        payloads(chunks(offset, buf, done)) == buf.subrange(done, buf.len() as int),
    decreases buf.len() - done, (if logical_capacity_at(offset) == 0 { 1nat } else { 0nat }),
{
    let records = chunks(offset, buf, done);
    if done >= buf.len() {
        assert(buf.subrange(done, buf.len() as int) =~= Seq::<u8>::empty());
    } else {
        let capacity = logical_capacity_at(offset);
        let rest = buf.len() - done;
        let n = if rest <= capacity { rest } else { capacity };
        let next = offset + LOG_RECORD_HEADER_SIZE + n;
        lemma_chunks_payloads(next, buf, done + n);
        assert(records.skip(1) =~= chunks(next, buf, done + n));
    }
}

/// The records after the first, for a buffer that did not fit in one: all
/// of type MIDDLE but the last, which is of type LAST.
proof fn lemma_chunks_tail_types(offset: int, buf: Seq<u8>, done: int)
    requires
        0 < done < buf.len(),
        logical_capacity_at(offset) > 0,
    ensures
        chunks(offset, buf, done).len() >= 1,
        chunks(offset, buf, done).last().record_type == RecordType::LAST,
        forall|i: int|
            0 <= i < chunks(offset, buf, done).len() - 1 ==> (#[trigger] chunks(
                offset,
                buf,
                done,
            )[i]).record_type == RecordType::MIDDLE,
    decreases buf.len() - done,
{
    let records = chunks(offset, buf, done);
    let capacity = logical_capacity_at(offset);
    let rest = buf.len() - done;
    if rest <= capacity {
        assert(chunks(offset + LOG_RECORD_HEADER_SIZE + rest, buf, done + rest) =~= Seq::empty());
    } else {
        let next = offset + LOG_RECORD_HEADER_SIZE + capacity;
        lemma_block_advance(offset, LOG_RECORD_HEADER_SIZE + capacity);
        lemma_chunks_tail_types(next, buf, done + capacity);
        let tail = chunks(next, buf, done + capacity);
        assert forall|i: int| 0 <= i < records.len() - 1 implies (#[trigger] records[i]).record_type
            == RecordType::MIDDLE by {
            if i > 0 {
                assert(records[i] == tail[i - 1]);
            }
        }
    }
}

/// Whatever is written, the payloads of its records, one after the other,
/// are the buffer.
pub proof fn lemma_chunks_carry_buffer(offset: int, buf: Seq<u8>)
    ensures
        payloads(chunks(record_start(offset), buf, 0)) == buf,
{
    if block_capacity_at(offset) < LOG_RECORD_HEADER_SIZE {
        lemma_block_advance(offset, block_capacity_at(offset));
    }
    lemma_chunks_payloads(record_start(offset), buf, 0);
}

/// A buffer goes out as one record of type FULL exactly when it fits in
/// what the block can still hold; otherwise as a record of type FIRST, then
/// records of type MIDDLE, then one of type LAST.
///
/// This holds of a buffer that is not empty, written where the block has
/// room for more than a header. An empty buffer goes out as no record, and
/// where the block has room for a header alone, an empty FIRST record fills
/// it and the buffer follows as if nothing had gone before.
pub proof fn lemma_chunk_types(offset: int, buf: Seq<u8>)
    requires
        buf.len() > 0,
        logical_capacity_at(record_start(offset)) != 0,
    ensures
        ({
            let records = chunks(record_start(offset), buf, 0);
            let fits = buf.len() <= logical_capacity_at(record_start(offset));
            &&& fits <==> (records.len() == 1 && records[0].record_type == RecordType::FULL)
            &&& !fits ==> {
                &&& records.len() >= 2
                &&& records[0].record_type == RecordType::FIRST
                &&& records.last().record_type == RecordType::LAST
                &&& forall|i: int|
                    0 < i < records.len() - 1 ==> (#[trigger] records[i]).record_type
                        == RecordType::MIDDLE
            }
        }),
{
    let start = record_start(offset);
    let records = chunks(start, buf, 0);
    let capacity = logical_capacity_at(start);
    if block_capacity_at(offset) < LOG_RECORD_HEADER_SIZE {
        lemma_block_advance(offset, block_capacity_at(offset));
    }
    if buf.len() <= capacity {
        assert(chunks(start + LOG_RECORD_HEADER_SIZE + buf.len(), buf, buf.len() as int)
            =~= Seq::empty());
    } else {
        let next = start + LOG_RECORD_HEADER_SIZE + capacity;
        lemma_block_advance(start, LOG_RECORD_HEADER_SIZE + capacity);
        lemma_chunks_tail_types(next, buf, capacity);
        let tail = chunks(next, buf, capacity);
        assert forall|i: int| 0 < i < records.len() - 1 implies (#[trigger] records[i]).record_type
            == RecordType::MIDDLE by {
            assert(records[i] == tail[i - 1]);
        }
    }
}

/// Each of `records`, laid out from `offset` on one behind the other, lies
/// within one block, header and payload.
pub open spec fn within_blocks(offset: int, records: Seq<RecordView>) -> bool
    decreases records.len(),
{
    records.len() == 0 || {
        let size = LOG_RECORD_HEADER_SIZE + records[0].payload.len();
        size <= block_capacity_at(offset) && within_blocks(offset + size, records.skip(1))
    }
}

/// The records that carry the rest of a buffer do not cross a block
/// boundary.
proof fn lemma_chunks_within_blocks(offset: int, buf: Seq<u8>, done: int)
    requires
        0 <= done <= buf.len(),
        done < buf.len() ==> logical_capacity_at(offset) >= 0,
    ensures
        within_blocks(offset, chunks(offset, buf, done)),
    decreases buf.len() - done, (if logical_capacity_at(offset) == 0 { 1nat } else { 0nat }),
{
    if done < buf.len() {
        let capacity = logical_capacity_at(offset);
        let rest = buf.len() - done;
        let n = if rest <= capacity { rest } else { capacity };
        let next = offset + LOG_RECORD_HEADER_SIZE + n;
        lemma_chunks_within_blocks(next, buf, done + n);
        assert(chunks(offset, buf, done).skip(1) =~= chunks(next, buf, done + n));
    }
}

/// No record that a write puts out is split over two blocks: each starts
/// where a header still fits in the block and ends in the same block.
pub proof fn lemma_written_within_blocks(offset: int, buf: Seq<u8>)
    ensures
        within_blocks(record_start(offset), chunks(record_start(offset), buf, 0)),
{
    if block_capacity_at(offset) < LOG_RECORD_HEADER_SIZE {
        lemma_block_advance(offset, block_capacity_at(offset));
    }
    lemma_chunks_within_blocks(record_start(offset), buf, 0);
}

/// The log: the bytes of an append-only file, laid out in blocks. The bytes
/// are held here; whoever keeps the file writes to it what a write has put
/// behind the old end.
pub struct LogFile {
    data: Vec<u8>,
}

impl View for LogFile {
    type V = Seq<u8>;

    closed spec fn view(&self) -> Seq<u8> {
        self.data@
    }
}

impl LogFile {
    /// A log that holds `data`; appends go after it.
    pub fn new(data: Vec<u8>) -> (log: LogFile)
        ensures
            log@ == data@,
    {
        LogFile { data }
    }

    /// The bytes of the log.
    pub fn as_bytes(&self) -> (bytes: &[u8])
        ensures
            bytes@ == self@,
    {
        self.data.as_slice()
    }

    /// The write offset: the number of bytes in the log.
    pub fn offset(&self) -> (n: usize)
        ensures
            n == self@.len(),
    {
        self.data.len()
    }

    /// How far into the current block the write offset lies.
    pub fn block_cursor(&self) -> (n: usize)
        ensures
            n == block_cursor_at(self@.len() as int),
    {
        self.offset() % LOG_BLOCK_SIZE
    }

    /// How many bytes are left in the current block.
    pub fn block_capacity(&self) -> (n: usize)
        ensures
            n == block_capacity_at(self@.len() as int),
            0 < n <= LOG_BLOCK_SIZE,
    {
        LOG_BLOCK_SIZE - self.block_cursor()
    }

    /// How many payload bytes the current block can still take after one
    /// header.
    pub fn logical_block_capacity(&self) -> (n: usize)
        requires
            block_capacity_at(self@.len() as int) >= LOG_RECORD_HEADER_SIZE,
        ensures
            n == logical_capacity_at(self@.len() as int),
    {
        self.block_capacity() - LOG_RECORD_HEADER_SIZE
    }

    /// Fills the rest of the current block with zero bytes.
    pub fn start_new_block(&mut self)
        requires
            block_capacity_at(old(self)@.len() as int) < LOG_RECORD_HEADER_SIZE,
        ensures
            final(self)@ == old(self)@ + zeros(block_capacity_at(old(self)@.len() as int)),
            final(self)@.len() == record_start(old(self)@.len() as int),
            block_cursor_at(final(self)@.len() as int) == 0,
    {
        let ghost before = self@;
        let ghost gap = block_capacity_at(before.len() as int);
        proof {
            lemma_block_advance(before.len() as int, 0);
        }
        while self.block_cursor() != 0
            invariant
                before == old(self)@,
                gap == block_capacity_at(before.len() as int),
                gap < LOG_RECORD_HEADER_SIZE,
                before.len() <= self@.len() <= before.len() + gap,
                self@ == before + zeros(self@.len() - before.len()),
            decreases before.len() + gap - self@.len(),
        {
            proof {
                lemma_block_advance(before.len() as int, self@.len() - before.len());
            }
            self.data.push(0);
            assert(self@ =~= before + zeros(self@.len() - before.len()));
        }
        proof {
            lemma_block_advance(before.len() as int, self@.len() - before.len());
        }
    }

    /// Appends `buf` as one or more records, after padding the current block
    /// if no header fits in it. Returns the number of bytes that the records
    /// take, headers included and padding not.
    pub fn write(&mut self, buf: &[u8]) -> (bytes_written: usize)
        ensures
            final(self)@ == old(self)@ + written(old(self)@.len() as int, buf@),
            bytes_written == frames(chunks(record_start(old(self)@.len() as int), buf@, 0)).len(),
    {
        if self.block_capacity() < LOG_RECORD_HEADER_SIZE {
            self.start_new_block();
        }
        let ghost start = record_start(old(self)@.len() as int);
        let ghost padded = self@;
        proof {
            lemma_block_advance(padded.len() as int, 0);
        }
        let base = self.data.len();
        let mut offset: usize = 0;
        while offset < buf.len()
            invariant
                offset <= buf@.len(),
                base == padded.len() == start,
                padded.len() <= self@.len(),
                offset < buf@.len() ==> block_capacity_at(self@.len() as int)
                    >= LOG_RECORD_HEADER_SIZE,
                padded + frames(chunks(start, buf@, 0)) == self@ + frames(
                    chunks(self@.len() as int, buf@, offset as int),
                ),
            decreases
                    buf@.len() - offset,
                    (if logical_capacity_at(self@.len() as int) == 0 {
                        1nat
                    } else {
                        0nat
                    }),
        {
            let capacity = self.logical_block_capacity();
            let rest = buf.len() - offset;
            let record_type = if offset == 0 && capacity >= buf.len() {
                RecordType::FULL
            } else if offset == 0 {
                RecordType::FIRST
            } else if capacity >= rest {
                RecordType::LAST
            } else {
                RecordType::MIDDLE
            };
            let end = if rest <= capacity {
                buf.len()
            } else {
                offset + capacity
            };
            let ghost before = self@;
            let ghost tail = chunks(before.len() as int, buf@, offset as int);
            let r = Record::new(slice_subrange(buf, offset, end), record_type);
            assert(tail.skip(1) =~= chunks(
                before.len() + LOG_RECORD_HEADER_SIZE + (end - offset),
                buf@,
                end as int,
            ));
            let _ = r.encode_to_file(&mut self.data);
            proof {
                lemma_block_advance(before.len() as int, LOG_RECORD_HEADER_SIZE + (end - offset));
            }
            offset = end;
        }
        self.data.len() - base
    }

    /// Replays the log from its start into `memtable`. The replay stops at
    /// the first record or entry that cannot be decoded and returns its
    /// error; what was replayed before it stays in the table. A checksum
    /// that does not match is such an error: nothing behind it is read.
    pub fn recover(&self, memtable: &mut MemTable) -> (r: Result<(), LogError>)
        ensures
            final(memtable)@ == replay_from(self@, 0, Seq::empty(), old(memtable)@).table,
            match replay_from(self@, 0, Seq::empty(), old(memtable)@).error {
                None => r is Ok,
                Some(e) => r == Err::<(), LogError>(e),
            },
    {
        let ghost outcome = replay_from(self@, 0, Seq::empty(), old(memtable)@);
        let log = self.data.as_slice();
        let mut pos: usize = 0;
        let mut pending: Vec<u8> = Vec::new();
        while pos < log.len()
            invariant
                log@ == self@,
                outcome == replay_from(self@, 0, Seq::empty(), old(memtable)@),
                replay_from(self@, pos as int, pending@, memtable@) == outcome,
            decreases log@.len() - pos,
        {
            proof {
                lemma_block_advance(pos as int, 0);
            }
            let capacity = LOG_BLOCK_SIZE - pos % LOG_BLOCK_SIZE;
            if capacity < LOG_RECORD_HEADER_SIZE {
                if capacity >= log.len() - pos {
                    return Ok(());
                }
                pos += capacity;
            } else {
                let record = Record::decode(slice_subrange(log, pos, log.len()))?;
                let next = pos + LOG_RECORD_HEADER_SIZE + record.length() as usize;
                match record.record_type() {
                    RecordType::FULL => {
                        let (key, value) = decode_entry(record.data())?;
                        memtable.insert(key, value);
                    },
                    RecordType::FIRST => {
                        pending = slice_to_vec(record.data());
                    },
                    RecordType::MIDDLE => {
                        let ghost gathered = pending@;
                        pending.extend_from_slice(record.data());
                        assert(pending@ =~= gathered + record@.payload);
                    },
                    RecordType::LAST => {
                        let ghost gathered = pending@;
                        pending.extend_from_slice(record.data());
                        assert(pending@ =~= gathered + record@.payload);
                        let (key, value) = decode_entry(pending.as_slice())?;
                        memtable.insert(key, value);
                        pending = Vec::new();
                    },
                }
                pos = next;
            }
        }
        Ok(())
    }
}

} // verus!
