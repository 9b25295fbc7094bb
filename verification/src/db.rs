//! The storage engine: writes go to the log and then to the table, and the
//! table is rebuilt from the log when the engine is opened.

use vstd::prelude::*;
use vstd::slice::slice_to_vec;
use crate::entry::{encode_entry, lemma_decode_encode_entry, spec_encode_entry, MAX_FIELD_LEN};
use crate::error::LogError;
use crate::log_file::{written, LogFile};
use crate::memtable::MemTable;
use crate::recovery::{lemma_replay_written, replay};

verus! {

/// What an engine is: the bytes of its log and the table that it serves
/// reads from.
pub struct RevelDBView {
    pub log: Seq<u8>,
    pub table: Map<Seq<u8>, Seq<u8>>,
}

impl RevelDBView {
    /// The table is what a replay of the log gives, and that replay meets no
    /// error.
    pub open spec fn consistent(self) -> bool {
        replay(self.log).error is None && replay(self.log).table == self.table
    }
}

/// The storage engine: a log and the in-memory table that is rebuilt from
/// it. Every write goes to the log first and to the table after that.
pub struct RevelDB {
    log_file: LogFile,
    memtable: MemTable,
}

impl View for RevelDB {
    type V = RevelDBView;

    closed spec fn view(&self) -> RevelDBView {
        RevelDBView { log: self.log_file@, table: self.memtable@ }
    }
}

impl RevelDB {
    #[verifier::type_invariant]
    spec fn table_follows_log(self) -> bool {
        self@.consistent()
    }

    /// Opens an engine on the bytes of a log and rebuilds the table by
    /// replaying them. A log that cannot be replayed to its end gives the
    /// error that stopped the replay, and no engine.
    pub fn new(log: Vec<u8>) -> (r: Result<RevelDB, LogError>)
        ensures
            match replay(log@).error {
                None => r is Ok && r->Ok_0@ == (RevelDBView {
                    log: log@,
                    table: replay(log@).table,
                }),
                Some(e) => r is Err && r->Err_0 == e,
            },
            r is Ok ==> r->Ok_0@.consistent(),
    {
        let log_file = LogFile::new(log);
        let mut memtable = MemTable::new();
        match log_file.recover(&mut memtable) {
            Err(e) => Err(e),
            Ok(()) => Ok(RevelDB { log_file, memtable }),
        }
    }

    /// Writes `key` with `value`: the entry is appended to the log, then the
    /// table maps the key to the value. A key or a value longer than 255
    /// bytes is refused, and then neither the log nor the table changes.
    pub fn put(&mut self, key: &[u8], value: &[u8]) -> (r: Result<(), LogError>)
        ensures
            final(self)@.consistent(),
            key@.len() > MAX_FIELD_LEN || value@.len() > MAX_FIELD_LEN ==> r == Err::<
                (),
                LogError,
            >(LogError::ValueTooLarge) && final(self)@ == old(self)@,
            key@.len() <= MAX_FIELD_LEN && value@.len() <= MAX_FIELD_LEN ==> {
                &&& r is Ok
                &&& final(self)@.log == old(self)@.log + written(
                    old(self)@.log.len() as int,
                    spec_encode_entry(key@, value@),
                )
                &&& final(self)@.table == old(self)@.table.insert(key@, value@)
            },
    {
        proof {
            use_type_invariant(&*self);
        }
        let entry = match encode_entry(key, value) {
            Err(e) => {
                return Err(e);
            },
            Ok(entry) => entry,
        };
        proof {
            lemma_decode_encode_entry(key@, value@);
            lemma_replay_written(self@.log, entry@);
        }
        let mut parts = RevelDB { log_file: LogFile::new(Vec::new()), memtable: MemTable::new() };
        std::mem::swap(self, &mut parts);
        let RevelDB { mut log_file, mut memtable } = parts;
        let _ = log_file.write(entry.as_slice());
        memtable.insert(slice_to_vec(key), slice_to_vec(value));
        *self = RevelDB { log_file, memtable };
        Ok(())
    }

    /// The value last written for `key`, if one was written.
    pub fn get(&self, key: &[u8]) -> (value: Option<&[u8]>)
        ensures
            self@.consistent(),
            match value {
                Some(v) => self@.table.contains_key(key@) && v@ == self@.table[key@],
                None => !self@.table.contains_key(key@),
            },
    {
        proof {
            use_type_invariant(self);
        }
        self.memtable.get(key)
    }

    /// The bytes of the log, as they stand in the log file.
    pub fn log(&self) -> (bytes: &[u8])
        ensures
            bytes@ == self@.log,
    {
        self.log_file.as_bytes()
    }
}

/// Recovery is repeatable: two engines that stand on the same log serve the
/// same table, so opening a log again without a write in between brings
/// back the table that was there.
pub proof fn lemma_same_log_same_table(a: RevelDBView, b: RevelDBView)
    requires
        a.consistent(),
        b.consistent(),
        a.log == b.log,
    ensures
        a.table == b.table,
        a == b,
{
}

/// The last write wins: after two writes of one key behind a log that
/// replays without an error, the log still replays without an error, and
/// its table maps the key to the value written second.
pub proof fn lemma_last_write_wins(log: Seq<u8>, key: Seq<u8>, first: Seq<u8>, second: Seq<u8>)
    requires
        replay(log).error is None,
        key.len() <= MAX_FIELD_LEN,
        first.len() <= MAX_FIELD_LEN,
        second.len() <= MAX_FIELD_LEN,
    ensures
        ({
            let once = log + written(log.len() as int, spec_encode_entry(key, first));
            let twice = once + written(once.len() as int, spec_encode_entry(key, second));
            &&& replay(twice).error is None
            &&& replay(twice).table.contains_key(key)
            &&& replay(twice).table[key] == second
            &&& replay(twice).table == replay(log).table.insert(key, second)
        }),
{
    let once = log + written(log.len() as int, spec_encode_entry(key, first));
    lemma_decode_encode_entry(key, first);
    lemma_replay_written(log, spec_encode_entry(key, first));
    lemma_decode_encode_entry(key, second);
    lemma_replay_written(once, spec_encode_entry(key, second));
}

/// The log after `writes` were put, one after the other, behind `log`.
pub open spec fn log_after(log: Seq<u8>, writes: Seq<(Seq<u8>, Seq<u8>)>) -> Seq<u8>
    decreases writes.len(),
{
    if writes.len() == 0 {
        log
    } else {
        let before = log_after(log, writes.drop_last());
        before + written(before.len() as int, spec_encode_entry(writes.last().0, writes.last().1))
    }
}

/// The table after `writes` were put, one after the other, into `table`.
pub open spec fn table_after(
    table: Map<Seq<u8>, Seq<u8>>,
    writes: Seq<(Seq<u8>, Seq<u8>)>,
) -> Map<Seq<u8>, Seq<u8>>
    decreases writes.len(),
{
    if writes.len() == 0 {
        table
    } else {
        table_after(table, writes.drop_last()).insert(writes.last().0, writes.last().1)
    }
}

/// Every key and value of `writes` is short enough for an entry.
pub open spec fn all_fit(writes: Seq<(Seq<u8>, Seq<u8>)>) -> bool {
    forall|i: int|
        0 <= i < writes.len() ==> (#[trigger] writes[i]).0.len() <= MAX_FIELD_LEN
            && writes[i].1.len() <= MAX_FIELD_LEN
}

/// Recovery brings back every write: behind a log that replays without an
/// error, the log after any writes replays without an error too, to the
/// first log's table with the writes put into it in their order.
pub proof fn lemma_replay_of_writes(log: Seq<u8>, writes: Seq<(Seq<u8>, Seq<u8>)>)
    requires
        replay(log).error is None,
        all_fit(writes),
    ensures
        replay(log_after(log, writes)).error is None,
        replay(log_after(log, writes)).table == table_after(replay(log).table, writes),
    decreases writes.len(),
{
    if writes.len() > 0 {
        let (key, value) = writes.last();
        assert(all_fit(writes.drop_last())) by {
            assert forall|i: int| 0 <= i < writes.drop_last().len() implies (
            #[trigger] writes.drop_last()[i]).0.len() <= MAX_FIELD_LEN && writes.drop_last()[i].1.len()
                <= MAX_FIELD_LEN by {
                assert(writes.drop_last()[i] == writes[i]);
            }
        }
        lemma_replay_of_writes(log, writes.drop_last());
        lemma_decode_encode_entry(key, value);
        lemma_replay_written(log_after(log, writes.drop_last()), spec_encode_entry(key, value));
    }
}

/// Writes add no key but their own.
proof fn lemma_table_after_keys(
    table: Map<Seq<u8>, Seq<u8>>,
    writes: Seq<(Seq<u8>, Seq<u8>)>,
    key: Seq<u8>,
)
    requires
        forall|i: int| 0 <= i < writes.len() ==> (#[trigger] writes[i]).0 != key,
    ensures
        table_after(table, writes).contains_key(key) == table.contains_key(key),
    decreases writes.len(),
{
    if writes.len() > 0 {
        assert forall|i: int| 0 <= i < writes.drop_last().len() implies (
        #[trigger] writes.drop_last()[i]).0 != key by {
            assert(writes.drop_last()[i] == writes[i]);
        }
        lemma_table_after_keys(table, writes.drop_last(), key);
    }
}

/// A key that was never written is missing: an engine opened on an empty
/// log and written to has no value for a key that is not among the keys
/// written.
pub proof fn lemma_unwritten_key_is_missing(writes: Seq<(Seq<u8>, Seq<u8>)>, key: Seq<u8>)
    requires
        all_fit(writes),
        forall|i: int| 0 <= i < writes.len() ==> (#[trigger] writes[i]).0 != key,
    ensures
        replay(log_after(Seq::empty(), writes)).error is None,
        !replay(log_after(Seq::empty(), writes)).table.contains_key(key),
{
    lemma_replay_of_writes(Seq::empty(), writes);
    lemma_table_after_keys(Map::empty(), writes, key);
}

/// An empty log replays to an empty table: an engine opened on it has no
/// key.
pub proof fn lemma_empty_log_has_no_key(key: Seq<u8>)
    ensures
        replay(Seq::<u8>::empty()).error is None,
        replay(Seq::<u8>::empty()).table == Map::<Seq<u8>, Seq<u8>>::empty(),
        !replay(Seq::<u8>::empty()).table.contains_key(key),
{
}

} // verus!
