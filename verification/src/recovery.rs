//! What the replay of a log gives, and why a log that was written to
//! replays to the table that was written to.

use vstd::prelude::*;
use crate::entry::spec_decode_entry;
use crate::error::LogError;
use crate::log_file::{
    block_capacity_at, chunk_type, chunks, frames, lemma_block_advance, logical_capacity_at,
    record_start, written, zeros,
};
use crate::record::{
    lemma_decode_ignores_rest, lemma_parse_frame, spec_decode, RecordType, RecordView,
    LOG_RECORD_HEADER_SIZE,
};

verus! {

/// How a replay of the log ended: the table as far as it was rebuilt, the
/// fragments of an entry that was begun and not finished, and the error
/// that stopped the replay, if one did.
pub struct Replay {
    pub table: Map<Seq<u8>, Seq<u8>>,
    pub pending: Seq<u8>,
    pub error: Option<LogError>,
}

/// What one record does to the fragments gathered so far and to the table.
/// A FULL record is an entry by itself, a FIRST record starts a new
/// gathering, a MIDDLE record adds to it, a LAST record adds to it and
/// closes the entry. A closed entry is decoded into a key and a value and put
/// into the table, so that a later write of a key wins.
pub open spec fn take_record(
    record: RecordView,
    pending: Seq<u8>,
    table: Map<Seq<u8>, Seq<u8>>,
) -> Result<(Seq<u8>, Map<Seq<u8>, Seq<u8>>), LogError> {
    match record.record_type {
        RecordType::FULL => match spec_decode_entry(record.payload) {
            Err(e) => Err(e),
            Ok((key, value)) => Ok((pending, table.insert(key, value))),
        },
        RecordType::FIRST => Ok((record.payload, table)),
        RecordType::MIDDLE => Ok((pending + record.payload, table)),
        RecordType::LAST => match spec_decode_entry(pending + record.payload) {
            Err(e) => Err(e),
            Ok((key, value)) => Ok((Seq::empty(), table.insert(key, value))),
        },
    }
}

/// Replays `log` from the offset `pos` on, into `table`, with `pending`
/// holding the fragments gathered so far.
///
/// At the end of the log the replay is complete. Where the rest of a block
/// is too short for a header it is padding and is skipped. Otherwise a
/// record is decoded and taken. The first record or entry that cannot be
/// decoded stops the replay with its error: a record that is cut short, a
/// checksum that does not match, an unknown type, an entry that is shorter
/// than it declares. Fragments that are left over at the end of the log
/// belong to no entry and change nothing.
pub open spec fn replay_from(
    log: Seq<u8>,
    pos: int,
    pending: Seq<u8>,
    table: Map<Seq<u8>, Seq<u8>>,
) -> Replay
    decreases log.len() - pos,
{
    if pos < 0 || pos >= log.len() {
        Replay { table, pending, error: None }
    } else if block_capacity_at(pos) < LOG_RECORD_HEADER_SIZE {
        if block_capacity_at(pos) <= 0 || pos + block_capacity_at(pos) >= log.len() {
            Replay { table, pending, error: None }
        } else {
            replay_from(log, pos + block_capacity_at(pos), pending, table)
        }
    } else {
        match spec_decode(log.skip(pos)) {
            Err(e) => Replay { table, pending, error: Some(e) },
            Ok(record) => match take_record(record, pending, table) {
                Err(e) => Replay { table, pending, error: Some(e) },
                Ok((gathered, updated)) => replay_from(
                    log,
                    pos + LOG_RECORD_HEADER_SIZE + record.payload.len(),
                    gathered,
                    updated,
                ),
            },
        }
    }
}

/// Replays the whole of `log` into an empty table.
pub open spec fn replay(log: Seq<u8>) -> Replay {
    replay_from(log, 0, Seq::empty(), Map::empty())
}

/// A replay that ran through `log` without an error runs the same way
/// through the front of any longer log, and goes on from where the next
/// record starts with the table and the fragments that it had at the end.
pub proof fn lemma_replay_resumes(
    log: Seq<u8>,
    rest: Seq<u8>,
    pos: int,
    pending: Seq<u8>,
    table: Map<Seq<u8>, Seq<u8>>,
)
    requires
        0 <= pos,
        pos <= log.len() || pos == record_start(log.len() as int),
        replay_from(log, pos, pending, table).error is None,
    ensures
        replay_from(log + rest, pos, pending, table) == replay_from(
            log + rest,
            record_start(log.len() as int),
            replay_from(log, pos, pending, table).pending,
            replay_from(log, pos, pending, table).table,
        ),
    decreases log.len() - pos,
{
    let longer = log + rest;
    let end = log.len() as int;
    if pos >= end {
        // At the end of the log the longer log is either read from here or
        // skipped as padding up to the same place.
    } else if block_capacity_at(pos) < LOG_RECORD_HEADER_SIZE {
        let gap = block_capacity_at(pos);
        if pos + gap >= end {
            lemma_block_advance(pos, end - pos);
        } else {
            lemma_replay_resumes(log, rest, pos + gap, pending, table);
        }
    } else {
        assert(longer.skip(pos) =~= log.skip(pos) + rest);
        lemma_decode_ignores_rest(log.skip(pos), rest);
        let record = spec_decode(log.skip(pos))->Ok_0;
        let (gathered, updated) = take_record(record, pending, table)->Ok_0;
        lemma_replay_resumes(
            log,
            rest,
            pos + LOG_RECORD_HEADER_SIZE + record.payload.len(),
            gathered,
            updated,
        );
    }
}

/// The replay takes the first of the records that carry a buffer, where
/// these stand at the end of a log as the writer put them, and goes on
/// behind it.
proof fn lemma_replay_chunk(
    front: Seq<u8>,
    buf: Seq<u8>,
    done: int,
    pending: Seq<u8>,
    table: Map<Seq<u8>, Seq<u8>>,
)
    requires
        0 <= done < buf.len(),
        logical_capacity_at(front.len() as int) >= 0,
    ensures
        ({
            let capacity = logical_capacity_at(front.len() as int);
            let rest = buf.len() - done;
            let n = if rest <= capacity { rest } else { capacity };
            let record = RecordView::sealed(
                chunk_type(done, rest <= capacity),
                buf.subrange(done, done + n),
            );
            let next_front = front + record.frame();
            let log = front + frames(chunks(front.len() as int, buf, done));
            &&& next_front.len() == front.len() + LOG_RECORD_HEADER_SIZE + n
            &&& log == next_front + frames(chunks(next_front.len() as int, buf, done + n))
            &&& replay_from(log, front.len() as int, pending, table) == match take_record(
                record,
                pending,
                table,
            ) {
                Err(e) => Replay { table, pending, error: Some(e) },
                Ok((gathered, updated)) => replay_from(
                    log,
                    next_front.len() as int,
                    gathered,
                    updated,
                ),
            }
        }),
{
    let offset = front.len() as int;
    let capacity = logical_capacity_at(offset);
    let rest = buf.len() - done;
    let n = if rest <= capacity { rest } else { capacity };
    let record = RecordView::sealed(chunk_type(done, rest <= capacity), buf.subrange(done, done + n));
    let records = chunks(offset, buf, done);
    let tail = chunks(offset + LOG_RECORD_HEADER_SIZE + n, buf, done + n);
    let log = front + frames(records);
    assert(records.skip(1) =~= tail);
    lemma_parse_frame(record, frames(tail));
    assert(log.skip(offset) =~= record.frame() + frames(tail));
}

/// The replay of the records that carry the rest of a buffer, after its
/// first part was gathered: they complete the entry, which goes into the
/// table.
proof fn lemma_replay_rest_of_buffer(
    front: Seq<u8>,
    buf: Seq<u8>,
    done: int,
    pending: Seq<u8>,
    table: Map<Seq<u8>, Seq<u8>>,
)
    requires
        0 < done < buf.len(),
        logical_capacity_at(front.len() as int) > 0,
        spec_decode_entry(pending + buf.subrange(done, buf.len() as int)) is Ok,
    ensures
        ({
            let log = front + frames(chunks(front.len() as int, buf, done));
            let (key, value) = spec_decode_entry(
                pending + buf.subrange(done, buf.len() as int),
            )->Ok_0;
            replay_from(log, front.len() as int, pending, table) == Replay {
                table: table.insert(key, value),
                pending: Seq::empty(),
                error: None,
            }
        }),
    decreases buf.len() - done,
{
    let offset = front.len() as int;
    let capacity = logical_capacity_at(offset);
    let rest = buf.len() - done;
    let n = if rest <= capacity { rest } else { capacity };
    let record = RecordView::sealed(chunk_type(done, rest <= capacity), buf.subrange(done, done + n));
    let next_front = front + record.frame();
    let log = front + frames(chunks(offset, buf, done));
    lemma_replay_chunk(front, buf, done, pending, table);
    if rest <= capacity {
        assert(log =~= next_front);
    } else {
        lemma_block_advance(offset, LOG_RECORD_HEADER_SIZE + capacity);
        assert((pending + record.payload) + buf.subrange(done + capacity, buf.len() as int)
            =~= pending + buf.subrange(done, buf.len() as int));
        lemma_replay_rest_of_buffer(next_front, buf, done + capacity, pending + record.payload, table);
    }
}

/// The replay of the records that carry a whole buffer which holds an
/// entry: the entry goes into the table, and nothing else changes there.
proof fn lemma_replay_buffer(
    front: Seq<u8>,
    buf: Seq<u8>,
    pending: Seq<u8>,
    table: Map<Seq<u8>, Seq<u8>>,
)
    requires
        logical_capacity_at(front.len() as int) >= 0,
        spec_decode_entry(buf) is Ok,
    ensures
        ({
            let log = front + frames(chunks(front.len() as int, buf, 0));
            let (key, value) = spec_decode_entry(buf)->Ok_0;
            let end = replay_from(log, front.len() as int, pending, table);
            end.error is None && end.table == table.insert(key, value)
        }),
    decreases (if logical_capacity_at(front.len() as int) == 0 { 1nat } else { 0nat }),
{
    let offset = front.len() as int;
    let capacity = logical_capacity_at(offset);
    let n = if buf.len() <= capacity { buf.len() as int } else { capacity };
    let record = RecordView::sealed(chunk_type(0, buf.len() <= capacity), buf.subrange(0, n));
    let next_front = front + record.frame();
    let log = front + frames(chunks(offset, buf, 0));
    lemma_replay_chunk(front, buf, 0, pending, table);
    assert(buf.subrange(0, buf.len() as int) =~= buf);
    if buf.len() <= capacity {
        assert(log =~= next_front);
    } else {
        lemma_block_advance(offset, LOG_RECORD_HEADER_SIZE + capacity);
        if capacity == 0 {
            lemma_replay_buffer(next_front, buf, record.payload, table);
        } else {
            assert(record.payload + buf.subrange(capacity, buf.len() as int) =~= buf);
            lemma_replay_rest_of_buffer(next_front, buf, capacity, record.payload, table);
        }
    }
}

/// What a write appends is replayed as one more entry: where a log is
/// replayed without an error, the log with an entry written behind it is
/// too, and its table is the first log's table with the entry's key
/// mapped to the entry's value.
pub proof fn lemma_replay_written(log: Seq<u8>, entry: Seq<u8>)
    requires
        replay(log).error is None,
        spec_decode_entry(entry) is Ok,
    ensures
        ({
            let (key, value) = spec_decode_entry(entry)->Ok_0;
            let longer = log + written(log.len() as int, entry);
            &&& replay(longer).error is None
            &&& replay(longer).table == replay(log).table.insert(key, value)
        }),
{
    let end = log.len() as int;
    let start = record_start(end);
    let front = log + zeros(start - end);
    if block_capacity_at(end) < LOG_RECORD_HEADER_SIZE {
        lemma_block_advance(end, block_capacity_at(end));
    }
    lemma_replay_resumes(log, written(end, entry), 0, Seq::empty(), Map::empty());
    assert(log + written(end, entry) =~= front + frames(chunks(start, entry, 0)));
    lemma_replay_buffer(front, entry, replay(log).pending, replay(log).table);
}

} // verus!
