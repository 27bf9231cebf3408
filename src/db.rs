//! The store: a log of frames and an index from each key to its latest frame.
//!
//! The log is held here as bytes; whoever keeps it on disk mirrors each
//! change: an appended frame, or the whole log after a compaction.
use vstd::prelude::*;

use crate::codec::{
    be32_at, copy_range, decode_buffer, decode_frame, lemma_frame_len, lemma_frame_round_trip,
    push_all, record_frame, slice_range, DataEntry, EntryType, CHECKSUM_LEN, HEADER_LEN,
};
use crate::compaction::{
    lemma_order_keys, lemma_progress_end, lemma_progress_overflow, lemma_progress_room, lemma_progress_skip,
    lemma_progress_start, lemma_progress_value, lemma_settle_again, lemma_settle_first,
    lemma_settled, lemma_visit_carries, progress, settled, visit_order,
};
use crate::error::DatabaseError;
use crate::index::KeyIndex;
use crate::log::{
    entry_in_log, lemma_index_entries, lemma_parse_restrict, lemma_recover_append,
    live_data_from, parse_at, parse_record, recover, recover_from, IndexEntry, LogIter, Parsed,
    MAX_FRAME,
};
use crate::lz77::{lz77_decoding, lz77_encoding};

verus! {

/// Default bound of the log's size, in bytes, past which writes compact it.
pub const DEFAULT_MAX_SIZE: u64 = 1024 * 1024;

/// Where the log is kept and when it is compacted.
#[derive(Debug, Clone)]
pub struct DatabaseConfig {
    pub file_path: String,
    /// When nonzero, a write that leaves the log at least this long compacts it.
    pub max_size: u64,
}

impl DatabaseConfig {
    /// The default configuration: `database.db`, compacted past 1 MiB.
    pub fn new() -> (r: Self)
        ensures
            r.file_path@ == "database.db"@,
            r.max_size == DEFAULT_MAX_SIZE,
    {
        DatabaseConfig { file_path: "database.db".to_owned(), max_size: DEFAULT_MAX_SIZE }
    }
}

impl Default for DatabaseConfig {
    fn default() -> (r: Self)
        ensures
            r.file_path@ == "database.db"@,
            r.max_size == DEFAULT_MAX_SIZE,
    {
        DatabaseConfig::new()
    }
}

/// The view of what a read returned.
pub open spec fn read_view(r: Result<Option<Vec<u8>>, DatabaseError>) -> Result<
    Option<Seq<u8>>,
    DatabaseError,
> {
    match r {
        Ok(Some(v)) => Ok(Some(v@)),
        Ok(None) => Ok(None),
        Err(e) => Err(e),
    }
}

/// What reading `key` gives, for a log and its index: absent if the index
/// has no entry for it, else what its frame reads as.
pub open spec fn lookup_in(log: Seq<u8>, index: Map<Seq<u8>, IndexEntry>, key: Seq<u8>) -> Result<
    Option<Seq<u8>>,
    DatabaseError,
> {
    if index.contains_key(key) {
        let e = index[key];
        decode_frame(log.subrange(e.offset as int, e.offset + e.size), key)
    } else {
        Ok(None)
    }
}

/// Whether the index is exactly what reading the whole log rebuilds.
pub open spec fn indexes(log: Seq<u8>, index: Map<Seq<u8>, IndexEntry>) -> bool {
    recover(log) == Ok::<_, DatabaseError>((index, log.len()))
}

/// Whether each live value is stored as a fresh data frame of it would be.
pub open spec fn canonical_in(log: Seq<u8>, index: Map<Seq<u8>, IndexEntry>) -> bool {
    forall|k: Seq<u8>|
        #[trigger] index.contains_key(k) ==> match lookup_in(log, index, k) {
            Ok(Some(v)) => log.subrange(index[k].offset as int, index[k].offset + index[k].size)
                == record_frame(EntryType::Data, k, v),
            _ => true,
        }
}

/// Whether a read found a value.
pub open spec fn holds_value(r: Result<Option<Seq<u8>>, DatabaseError>) -> bool {
    r matches Ok(Some(_))
}

/// Whether compaction can carry `key`: its read succeeds, and if it holds a
/// value, a fresh data frame of it fits an index entry.
pub open spec fn carries(log: Seq<u8>, index: Map<Seq<u8>, IndexEntry>, key: Seq<u8>) -> bool {
    match lookup_in(log, index, key) {
        Ok(Some(v)) => record_frame(EntryType::Data, key, v).len() <= MAX_FRAME,
        Ok(None) => true,
        Err(_) => false,
    }
}

/// Whether compaction can carry every key of the index.
pub open spec fn compactable_in(log: Seq<u8>, index: Map<Seq<u8>, IndexEntry>) -> bool {
    forall|k: Seq<u8>| #[trigger] index.contains_key(k) ==> carries(log, index, k)
}

/// Total length of the fresh data frames for those keys of `ks` that hold a value.
pub open spec fn frames_len(
    log: Seq<u8>,
    index: Map<Seq<u8>, IndexEntry>,
    ks: Seq<Seq<u8>>,
) -> nat
    decreases ks.len(),
{
    if ks.len() == 0 {
        0
    } else {
        frames_len(log, index, ks.drop_last()) + match lookup_in(log, index, ks.last()) {
            Ok(Some(v)) => record_frame(EntryType::Data, ks.last(), v).len(),
            _ => 0,
        }
    }
}

/// Whether compaction owes success: every key carries, and the new log,
/// one fresh frame per key that holds a value, fits in memory.
pub open spec fn compaction_owed(log: Seq<u8>, index: Map<Seq<u8>, IndexEntry>) -> bool {
    &&& compactable_in(log, index)
    &&& forall|ks: Seq<Seq<u8>>|
        #[trigger] visit_order(index, ks) ==> frames_len(log, index, ks) <= usize::MAX
}

/// Whether `log` and `index` are what a compaction pass gave from a log at
/// most as long: the pass did not shorten the log.
pub open spec fn unshortened_pass(log: Seq<u8>, index: Map<Seq<u8>, IndexEntry>) -> bool {
    exists|l0: Seq<u8>, i0: Map<Seq<u8>, IndexEntry>|
        #[trigger] compacted(l0, i0, log, index) && l0.len() <= log.len()
}

/// Whether `nlog` and `nidx` are what compacting `log` and `index` gives:
/// the index keeps exactly the keys that hold a value, each reads as before,
/// each value is stored as a fresh data frame, the log holds those frames
/// and nothing else (no tombstone, no older record), the frames keep the
/// order of the keys' records in the old log, and, where the old values were
/// stored as this library writes them, the log does not grow.
pub open spec fn compacted(
    log: Seq<u8>,
    index: Map<Seq<u8>, IndexEntry>,
    nlog: Seq<u8>,
    nidx: Map<Seq<u8>, IndexEntry>,
) -> bool {
    &&& compactable_in(log, index)
    &&& forall|k: Seq<u8>| #[trigger] lookup_in(nlog, nidx, k) == lookup_in(log, index, k)
    &&& forall|k: Seq<u8>| #[trigger] nidx.contains_key(k) <==> holds_value(lookup_in(log, index, k))
    &&& canonical_in(nlog, nidx)
    &&& live_data_from(nlog, 0, nidx)
    &&& forall|k1: Seq<u8>, k2: Seq<u8>|
        #[trigger] nidx.contains_key(k1) && #[trigger] nidx.contains_key(k2) && index[k1].offset
            < index[k2].offset ==> nidx[k1].offset < nidx[k2].offset
    &&& canonical_in(log, index) ==> nlog.len() <= log.len()
}

/// The store.
pub struct MyDatabase {
    pub config: DatabaseConfig,
    log: Vec<u8>,
    index: KeyIndex,
    rewritten: bool,
}

impl MyDatabase {
    /// The bytes of the log.
    pub closed spec fn log_view(&self) -> Seq<u8> {
        self.log@
    }

    /// The configuration.
    pub closed spec fn settings(&self) -> DatabaseConfig {
        self.config
    }

    /// The index, as a map.
    pub closed spec fn index_view(&self) -> Map<Seq<u8>, IndexEntry> {
        self.index@
    }

    /// Whether a compaction has rewritten the log since the flag was last taken.
    pub closed spec fn rewritten(&self) -> bool {
        self.rewritten
    }

    pub closed spec fn index_wf(&self) -> bool {
        self.index.wf()
    }

    /// The index is sound and is what reading the whole log rebuilds.
    pub open spec fn wf(&self) -> bool {
        &&& self.index_wf()
        &&& indexes(self.log_view(), self.index_view())
    }

    /// What `get(key)` returns.
    pub open spec fn lookup(&self, key: Seq<u8>) -> Result<Option<Seq<u8>>, DatabaseError> {
        lookup_in(self.log_view(), self.index_view(), key)
    }

    /// Every live value is stored as this library writes it.
    pub open spec fn canonical(&self) -> bool {
        canonical_in(self.log_view(), self.index_view())
    }

    /// Opens the store over the bytes `log` of its log file. The index is
    /// rebuilt from the records, the latest record of a key winning. A frame
    /// with a wrong checksum fails with `CorruptedData`, an unknown kind byte
    /// with `InvalidFormat`; a torn last frame is dropped.
    pub fn new(config: DatabaseConfig, log: Vec<u8>) -> (r: Result<MyDatabase, DatabaseError>)
        ensures
            match recover(log@) {
                Ok((index, end)) => r matches Ok(db) && db.wf() && db.settings() == config
                    && db.index_view() == index && db.log_view() == log@.subrange(0, end as int)
                    && !db.rewritten(),
                Err(e) => r matches Err(e2) && e2 == e,
            },
    {
        let mut log = log;
        match Self::recover_index(log.as_slice()) {
            Ok((index, end)) => {
                proof {
                    lemma_recover_truncate(log@, end as nat, index@);
                }
                log.truncate(end);
                Ok(MyDatabase { config, log, index, rewritten: false })
            },
            Err(e) => Err(e),
        }
    }

    /// Rebuilds the index of `log`, as `recover` says.
    fn recover_index(log: &[u8]) -> (r: Result<(KeyIndex, usize), DatabaseError>)
        ensures
            match recover(log@) {
                Ok((index, end)) => r matches Ok((ix, e)) && ix.wf() && ix@ == index && e == end,
                Err(e) => r matches Err(e2) && e2 == e,
            },
    {
        let mut index = KeyIndex::new();
        let mut offset: usize = 0;
        let len = log.len();
        loop
            invariant
                len == log@.len(),
                offset <= log@.len(),
                index.wf(),
                recover_from(log@, offset as nat, index@) == recover(log@),
            decreases log@.len() - offset,
        {
            match parse_record(log, offset) {
                None => {
                    return Ok((index, offset));
                },
                Some(Err(e)) => {
                    return Err(e);
                },
                Some(Ok(record)) => {
                    if !record.checksum_ok {
                        return Err(DatabaseError::CorruptedData);
                    }
                    index.insert(
                        record.key.as_slice(),
                        IndexEntry { offset: record.offset, size: record.size },
                    );
                    offset = offset + record.size as usize;
                },
            }
        }
    }

    /// Reads `key`: absent if it has no entry or its latest record is a
    /// tombstone, else its value; `CorruptedData` or `InvalidFormat` if its
    /// frame does not read back.
    pub fn get(&self, key: &[u8]) -> (r: Result<Option<Vec<u8>>, DatabaseError>)
        requires
            self.wf(),
        ensures
            read_view(r) == self.lookup(key@),
    {
        match self.index.get(key) {
            None => Ok(None),
            Some(entry) => self.read_entry_value(entry, key),
        }
    }

    /// Appends the frame of `entry` and points its key at it. Fails with
    /// `InvalidFormat`, changing nothing, when the frame is longer than an
    /// index entry can locate or the log would outgrow memory.
    fn write_record(&mut self, entry: DataEntry) -> (r: Result<(), DatabaseError>)
        requires
            old(self).wf(),
        ensures
            final(self).wf(),
            final(self).settings() == old(self).settings(),
            final(self).rewritten() == old(self).rewritten(),
            ({
                let f = record_frame(entry.entry_type, entry.key@, entry.value@);
                if f.len() <= MAX_FRAME && old(self).log_view().len() + f.len() <= usize::MAX {
                    &&& r is Ok
                    &&& final(self).log_view() == old(self).log_view() + f
                    &&& final(self).index_view() == old(self).index_view().insert(
                        entry.key@,
                        appended_entry(old(self).log_view(), f),
                    )
                } else {
                    &&& r matches Err(e) && e is InvalidFormat
                    &&& final(self).log_view() == old(self).log_view()
                    &&& final(self).index_view() == old(self).index_view()
                }
            }),
    {
        let bytes = entry.to_bytes();
        if bytes.len() as u64 > MAX_FRAME || bytes.len() > usize::MAX - self.log.len() {
            return Err(DatabaseError::InvalidFormat);
        }
        let offset = self.log.len() as u64;
        proof {
            lemma_append_lookups(
                self.log@,
                self.index@,
                entry.entry_type,
                entry.key@,
                entry.value@,
            );
        }
        push_all(&mut self.log, bytes.as_slice());
        self.index.insert(entry.key.as_slice(), IndexEntry { offset, size: bytes.len() as u32 });
        Ok(())
    }

    /// Writes `value` under `key`, then, when `max_size` is nonzero and the
    /// log has reached it, compacts until the log is shorter than `max_size`
    /// or a pass does not shorten it; with no compaction due, the log is the
    /// old log and the new frame. Afterwards `key` reads as `value` and every
    /// other key as before. Fails with `InvalidFormat`, changing nothing, when the
    /// record's frame is longer than an index entry can locate; the write
    /// stands but the call fails with `InvalidFormat` when the compaction
    /// that follows fails.
    pub fn set(&mut self, key: Vec<u8>, value: Vec<u8>) -> (r: Result<(), DatabaseError>)
        requires
            old(self).wf(),
        ensures
            final(self).wf(),
            final(self).settings() == old(self).settings(),
            r matches Err(e) ==> e is InvalidFormat,
            old(self).rewritten() ==> final(self).rewritten(),
            r is Ok ==> old(self).settings().max_size == 0 || final(self).log_view().len() < old(
                self,
            ).settings().max_size || unshortened_pass(final(self).log_view(), final(self).index_view()),
            ({
                let f = record_frame(EntryType::Data, key@, value@);
                let written = old(self).log_view() + f;
                let entries = old(self).index_view().insert(
                    key@,
                    appended_entry(old(self).log_view(), f),
                );
                let max = old(self).settings().max_size;
                if f.len() <= MAX_FRAME && old(self).log_view().len() + f.len() <= usize::MAX {
                    &&& max == 0 || written.len() < max ==> r is Ok && final(self).log_view()
                        == written && final(self).index_view() == entries && final(
                    self).rewritten() == old(self).rewritten()
                    &&& r is Err ==> max != 0 && written.len() >= max && !compaction_owed(
                        written,
                        entries,
                    )
                    &&& !final(self).rewritten() ==> final(self).log_view() == old(self).log_view() + f
                    &&& forall|k: Seq<u8>| #[trigger]
                        final(self).lookup(k) == if k == key@ {
                            Ok::<_, DatabaseError>(Some(value@))
                        } else {
                            old(self).lookup(k)
                        }
                    &&& old(self).canonical() ==> final(self).canonical()
                    &&& old(self).canonical() && compactable_in(
                        old(self).log_view(),
                        old(self).index_view(),
                    ) ==> r is Ok
                } else {
                    &&& r is Err
                    &&& final(self).log_view() == old(self).log_view()
                    &&& final(self).index_view() == old(self).index_view()
                }
            }),
    {
        proof {
            let f = record_frame(EntryType::Data, key@, value@);
            if f.len() <= MAX_FRAME && self.log@.len() + f.len() <= usize::MAX {
                lemma_append_lookups(self.log@, self.index@, EntryType::Data, key@, value@);
                lemma_append_compactable(self.log@, self.index@, EntryType::Data, key@, value@);
            }
        }
        match self.write_record(DataEntry { entry_type: EntryType::Data, key, value }) {
            Ok(()) => {},
            Err(e) => {
                return Err(e);
            },
        }
        self.maybe_compact()
    }

    /// Deletes `key` by writing a tombstone for it, then compacts as `set`
    /// does. The index keeps `key`, pointing at the tombstone, until a
    /// compaction. Afterwards `key` reads as absent and every other key as
    /// before. Fails as `set` does.
    pub fn delete(&mut self, key: Vec<u8>) -> (r: Result<(), DatabaseError>)
        requires
            old(self).wf(),
        ensures
            final(self).wf(),
            final(self).settings() == old(self).settings(),
            r matches Err(e) ==> e is InvalidFormat,
            old(self).rewritten() ==> final(self).rewritten(),
            r is Ok ==> old(self).settings().max_size == 0 || final(self).log_view().len() < old(
                self,
            ).settings().max_size || unshortened_pass(final(self).log_view(), final(self).index_view()),
            ({
                let f = record_frame(EntryType::Tombstone, key@, Seq::empty());
                let written = old(self).log_view() + f;
                let entries = old(self).index_view().insert(
                    key@,
                    appended_entry(old(self).log_view(), f),
                );
                let max = old(self).settings().max_size;
                if f.len() <= MAX_FRAME && old(self).log_view().len() + f.len() <= usize::MAX {
                    &&& max == 0 || written.len() < max ==> r is Ok && final(self).log_view()
                        == written && final(self).index_view() == entries && final(
                    self).rewritten() == old(self).rewritten()
                    &&& r is Err ==> max != 0 && written.len() >= max && !compaction_owed(
                        written,
                        entries,
                    )
                    &&& !final(self).rewritten() ==> final(self).log_view() == old(self).log_view() + f
                    &&& forall|k: Seq<u8>| #[trigger]
                        final(self).lookup(k) == if k == key@ {
                            Ok::<_, DatabaseError>(None)
                        } else {
                            old(self).lookup(k)
                        }
                    &&& old(self).canonical() ==> final(self).canonical()
                    &&& old(self).canonical() && compactable_in(
                        old(self).log_view(),
                        old(self).index_view(),
                    ) ==> r is Ok
                } else {
                    &&& r is Err
                    &&& final(self).log_view() == old(self).log_view()
                    &&& final(self).index_view() == old(self).index_view()
                }
            }),
    {
        let value: Vec<u8> = Vec::new();
        proof {
            let f = record_frame(EntryType::Tombstone, key@, value@);
            assert(value@ =~= Seq::<u8>::empty());
            if f.len() <= MAX_FRAME && self.log@.len() + f.len() <= usize::MAX {
                lemma_append_lookups(self.log@, self.index@, EntryType::Tombstone, key@, value@);
                lemma_append_compactable(self.log@, self.index@, EntryType::Tombstone, key@, value@);
            }
        }
        match self.write_record(DataEntry { entry_type: EntryType::Tombstone, key, value }) {
            Ok(()) => {},
            Err(e) => {
                return Err(e);
            },
        }
        self.maybe_compact()
    }

    /// Reads the frame that `entry` locates, under `key`.
    fn read_entry_value(&self, entry: IndexEntry, key: &[u8]) -> (r: Result<
        Option<Vec<u8>>,
        DatabaseError,
    >)
        requires
            self.wf(),
            self.index_view().contains_key(key@),
            self.index_view()[key@] == entry,
        ensures
            read_view(r) == self.lookup(key@),
    {
        proof {
            assert(self.log@.len() == self.log.len());
            lemma_index_entries(self.log@, self.index@);
        }
        let start = entry.offset as usize;
        let end = start + entry.size as usize;
        decode_buffer(slice_range(self.log.as_slice(), start, end), key)
    }

    /// Rewrites the log to hold one data frame for each key that holds a
    /// value, in ascending order of the offsets of their current records, and
    /// points the index at them. Every key reads as before. Fails with
    /// `InvalidFormat`, changing nothing, when a value does not read back or
    /// its fresh frame is too long.
    pub fn compact(&mut self) -> (r: Result<(), DatabaseError>)
        requires
            old(self).wf(),
        ensures
            final(self).wf(),
            final(self).settings() == old(self).settings(),
            r is Ok ==> final(self).rewritten(),
            r is Err ==> final(self).rewritten() == old(self).rewritten(),
            match r {
                Ok(()) => compacted(
                    old(self).log_view(),
                    old(self).index_view(),
                    final(self).log_view(),
                    final(self).index_view(),
                ),
                Err(e) => {
                    &&& e is InvalidFormat
                    &&& !compaction_owed(old(self).log_view(), old(self).index_view())
                    &&& !compactable_in(old(self).log_view(), old(self).index_view())
                        || !old(self).canonical()
                    &&& final(self).log_view() == old(self).log_view()
                    &&& final(self).index_view() == old(self).index_view()
                },
            },
    {
        let order = self.index.slots_by_offset();
        let mut new_log: Vec<u8> = Vec::new();
        let mut new_index = KeyIndex::new();
        let ghost log = self.log@;
        let ghost index = self.index@;
        let ghost ks = Seq::new(order@.len(), |j: int| self.index.key_at(order@[j] as int));
        proof {
            assert(self.log@.len() == self.log.len());
            lemma_order_keys(&self.index, order@);
            lemma_progress_start(log, index, ks);
        }
        let mut i: usize = 0;
        while i < order.len()
            invariant
                self.wf(),
                log == self.log_view(),
                index == self.index_view(),
                log.len() <= usize::MAX,
                ks.len() == order@.len(),
                forall|j: int|
                    0 <= j < ks.len() ==> #[trigger] order@[j] < self.index.slots() && ks[j]
                        == self.index.key_at(order@[j] as int) && index.contains_key(ks[j])
                        && index[ks[j]] == self.index.entry_at(order@[j] as int),
                visit_order(index, ks),
                i <= ks.len(),
                new_index.wf(),
                progress(log, index, ks, i as int, new_log@, new_index@),
            decreases ks.len() - i,
        {
            let slot = order[i];
            let (key, entry) = self.index.slot(slot);
            let ghost k = key@;
            assert(k == ks[i as int]);
            let value = self.read_entry_value(entry, key.as_slice());
            match value {
                Err(e) => {
                    proof {
                        lemma_lookup_shape(log, index, k);
                        lemma_visit_carries(log, index, ks, i as int);
                    }
                    return Err(e);
                },
                Ok(None) => {
                    proof {
                        lemma_progress_skip(log, index, ks, i as int, new_log@, new_index@);
                    }
                },
                Ok(Some(v)) => {
                    let owned_key = copy_range(key.as_slice(), 0, key.len());
                    proof {
                        assert(key@.subrange(0, key@.len() as int) =~= key@);
                    }
                    let record = DataEntry { entry_type: EntryType::Data, key: owned_key, value: v };
                    let bytes = record.to_bytes();
                    proof {
                        lemma_visit_carries(log, index, ks, i as int);
                        lemma_progress_room(log, index, ks, i as int, new_log@, new_index@);
                        lemma_progress_overflow(log, index, ks, i as int, new_log@, new_index@, v@);
                    }
                    if bytes.len() as u64 > MAX_FRAME || bytes.len() > usize::MAX - new_log.len() {
                        return Err(DatabaseError::InvalidFormat);
                    }
                    proof {
                        lemma_progress_value(log, index, ks, i as int, new_log@, new_index@, v@);
                    }
                    let off = new_log.len() as u64;
                    push_all(&mut new_log, bytes.as_slice());
                    new_index.insert(key.as_slice(), IndexEntry { offset: off, size: bytes.len() as u32 });
                },
            }
            i += 1;
        }
        proof {
            lemma_progress_end(log, index, ks, new_log@, new_index@);
        }
        self.log = new_log;
        self.index = new_index;
        self.rewritten = true;
        Ok(())
    }

    /// Whether the log has reached the configured bound.
    pub open spec fn needs_compaction(&self) -> bool {
        self.settings().max_size != 0 && self.log_view().len() >= self.settings().max_size
    }

    /// While the log is at least `max_size` long (and `max_size` is not
    /// zero), compacts it; stops when a pass does not shorten it.
    fn maybe_compact(&mut self) -> (r: Result<(), DatabaseError>)
        requires
            old(self).wf(),
        ensures
            final(self).wf(),
            final(self).settings() == old(self).settings(),
            forall|k: Seq<u8>| #[trigger] final(self).lookup(k) == old(self).lookup(k),
            old(self).canonical() ==> final(self).canonical(),
            old(self).rewritten() ==> final(self).rewritten(),
            !final(self).rewritten() ==> final(self).log_view() == old(self).log_view(),
            !old(self).needs_compaction() ==> r is Ok && final(self).log_view() == old(
                self,
            ).log_view() && final(self).index_view() == old(self).index_view() && final(
            self).rewritten() == old(self).rewritten(),
            old(self).needs_compaction() && r is Ok ==> settled(
                final(self).log_view(),
                final(self).index_view(),
                old(self).log_view(),
                old(self).index_view(),
            ),
            r is Ok ==> old(self).settings().max_size == 0 || final(self).log_view().len() < old(
                self,
            ).settings().max_size || unshortened_pass(final(self).log_view(), final(self).index_view()),
            r matches Err(e) ==> e is InvalidFormat && final(self).log_view() == old(
                self,
            ).log_view() && final(self).index_view() == old(self).index_view() && (
            !compactable_in(old(self).log_view(), old(self).index_view()) || !old(
                self,
            ).canonical()) && !compaction_owed(old(self).log_view(), old(self).index_view()),
            compactable_in(old(self).log_view(), old(self).index_view()) && old(self).canonical()
                ==> r is Ok,
    {
        if self.config.max_size == 0 {
            return Ok(());
        }
        let ghost first = true;
        let ghost olog = self.log@;
        let ghost oindex = self.index@;
        loop
            invariant
                self.wf(),
                self.settings() == old(self).settings(),
                olog == old(self).log_view(),
                oindex == old(self).index_view(),
                self.config.max_size != 0,
                first ==> self.log_view() == olog && self.index_view() == oindex
                    && self.rewritten() == old(self).rewritten(),
                !first ==> self.rewritten(),
                !first ==> settled(self.log_view(), self.index_view(), olog, oindex) && old(
                    self,
                ).needs_compaction(),
                compactable_in(olog, oindex) && old(self).canonical() ==> compactable_in(
                    self.log_view(),
                    self.index_view(),
                ) && self.canonical(),
                old(self).canonical() ==> self.canonical(),
            decreases self.log_view().len(),
        {
            let len = self.log.len() as u64;
            if len < self.config.max_size {
                proof {
                    if !first {
                        lemma_settled(self.log@, self.index@, olog, oindex);
                    }
                }
                return Ok(());
            }
            let ghost log0 = self.log@;
            let ghost index0 = self.index@;
            proof {
                if !first {
                    lemma_settled(self.log@, self.index@, olog, oindex);
                }
            }
            match self.compact() {
                Ok(()) => {},
                Err(e) => {
                    return Err(e);
                },
            }
            proof {
                assert(self.log@.len() == self.log.len());
                if first {
                    lemma_settle_first(log0, index0, self.log@, self.index@);
                } else {
                    lemma_settle_again(log0, index0, self.log@, self.index@, olog, oindex);
                }
                lemma_settled(self.log@, self.index@, olog, oindex);
                first = false;
            }
            if self.log.len() as u64 >= len {
                assert(compacted(log0, index0, self.log@, self.index@) && log0.len()
                    <= self.log@.len());
                return Ok(());
            }
        }
    }

    /// Whether a compaction has rewritten the log since the last call; clears the flag.
    pub fn take_rewritten(&mut self) -> (r: bool)
        requires
            old(self).wf(),
        ensures
            final(self).wf(),
            r == old(self).rewritten(),
            !final(self).rewritten(),
            final(self).settings() == old(self).settings(),
            final(self).log_view() == old(self).log_view(),
            final(self).index_view() == old(self).index_view(),
    {
        let r = self.rewritten;
        self.rewritten = false;
        r
    }

    /// A reader over the records of the log, front to back.
    pub fn log_iter(&self) -> (r: Result<LogIter, DatabaseError>)
        ensures
            r matches Ok(it) && it.wf() && it.bytes() == self.log_view() && it.position() == 0
                && !it.finished(),
    {
        Ok(LogIter::new(self.copy_log()))
    }

    /// The bytes of the log, as a vector of their own.
    pub fn copy_log(&self) -> (r: Vec<u8>)
        ensures
            r@ == self.log_view(),
    {
        let r = copy_range(self.log.as_slice(), 0, self.log.len());
        proof {
            assert(self.log@.subrange(0, self.log@.len() as int) =~= self.log@);
        }
        r
    }

    /// The length of the log.
    pub fn log_len(&self) -> (r: usize)
        ensures
            r == self.log_view().len(),
    {
        self.log.len()
    }

    /// The bytes of the log from `from` on.
    pub fn log_tail(&self, from: usize) -> (r: &[u8])
        requires
            from <= self.log_view().len(),
        ensures
            r@ == self.log_view().subrange(from as int, self.log_view().len() as int),
    {
        slice_range(self.log.as_slice(), from, self.log.len())
    }
}

proof fn lemma_recover_truncate_from(
    log: Seq<u8>,
    o: nat,
    m: Map<Seq<u8>, IndexEntry>,
    m2: Map<Seq<u8>, IndexEntry>,
    end: nat,
)
    requires
        o <= log.len(),
        recover_from(log, o, m) == Ok::<_, DatabaseError>((m2, end)),
    ensures
        o <= end <= log.len(),
        recover_from(log.subrange(0, end as int), o, m) == Ok::<_, DatabaseError>((m2, end)),
    decreases log.len() - o,
{
    let p = log.subrange(0, end as int);
    match parse_at(log, o) {
        Parsed::Record(r) => {
            let e = IndexEntry { offset: o as u64, size: r.size as u32 };
            lemma_recover_truncate_from(log, o + r.size, m.insert(r.key, e), m2, end);
            lemma_parse_restrict(log, o, end);
        },
        _ => {},
    }
}

proof fn lemma_recover_truncate(log: Seq<u8>, end: nat, m: Map<Seq<u8>, IndexEntry>)
    requires
        recover(log) == Ok::<_, DatabaseError>((m, end)),
    ensures
        end <= log.len(),
        recover(log.subrange(0, end as int)) == Ok::<_, DatabaseError>((m, end)),
{
    lemma_recover_truncate_from(log, 0, Map::empty(), m, end);
}

/// What the frame of a whole record with a good checksum reads as under its own key.
proof fn lemma_region_reads(log: Seq<u8>, o: nat)
    requires
        parse_at(log, o) matches Parsed::Record(r) && r.checksum_ok,
    ensures
        ({
            let r = parse_at(log, o)->Record_0;
            let region = log.subrange(o as int, o + r.size as int);
            let payload = log.subrange(o + HEADER_LEN + r.key.len(), o + r.size - CHECKSUM_LEN);
            decode_frame(region, r.key) == if r.kind == EntryType::Tombstone {
                Ok::<_, DatabaseError>(None)
            } else {
                match lz77_decoding(payload) {
                    Some(v) => Ok(Some(v)),
                    None => Err(DatabaseError::InvalidFormat),
                }
            }
        }),
{
    let r = parse_at(log, o)->Record_0;
    let region = log.subrange(o as int, o + r.size as int);
    let key_len = be32_at(log, o as int + 1);
    let value_len = be32_at(log, o as int + 5);
    let end = HEADER_LEN + key_len + value_len;
    assert(region[0] == log[o as int]);
    assert(be32_at(region, 1) == key_len);
    assert(be32_at(region, 5) == value_len);
    assert(region.subrange(0, end as int) =~= log.subrange(o as int, o + end));
    assert(be32_at(region, end as int) == be32_at(log, o + end));
    assert(region.subrange(HEADER_LEN as int, HEADER_LEN + key_len) =~= r.key);
    assert(region.subrange(HEADER_LEN + key_len, end as int) =~= log.subrange(
        o + HEADER_LEN + r.key.len(),
        o + r.size - CHECKSUM_LEN,
    ));
}

/// On a store whose index is rebuilt from its log, a read fails only with
/// `InvalidFormat`, and only on a data record whose value does not decode.
proof fn lemma_lookup_shape(log: Seq<u8>, index: Map<Seq<u8>, IndexEntry>, k: Seq<u8>)
    requires
        log.len() <= u64::MAX,
        indexes(log, index),
    ensures
        lookup_in(log, index, k) is Ok || lookup_in(log, index, k) == Err::<Option<Seq<u8>>, _>(
            DatabaseError::InvalidFormat,
        ),
{
    lemma_index_entries(log, index);
    if index.contains_key(k) {
        assert(entry_in_log(log, k, index[k], log.len()));
        lemma_region_reads(log, index[k].offset as nat);
    }
}

/// The entry that appending the frame `f` to `log` gives.
pub open spec fn appended_entry(log: Seq<u8>, f: Seq<u8>) -> IndexEntry {
    IndexEntry { offset: log.len() as u64, size: f.len() as u32 }
}

/// Appending the frame of `(kind, key, value)` and pointing `key` at it
/// changes the read of `key` alone, keeps the index rebuilt from the log,
/// and keeps live values stored as this library writes them.
pub(crate) proof fn lemma_append_lookups(
    log: Seq<u8>,
    index: Map<Seq<u8>, IndexEntry>,
    kind: EntryType,
    key: Seq<u8>,
    value: Seq<u8>,
)
    requires
        indexes(log, index),
        record_frame(kind, key, value).len() <= MAX_FRAME,
        log.len() + record_frame(kind, key, value).len() <= u64::MAX,
    ensures
        ({
            let f = record_frame(kind, key, value);
            let log2 = log + f;
            let index2 = index.insert(key, appended_entry(log, f));
            &&& indexes(log2, index2)
            &&& forall|k: Seq<u8>|
                #[trigger] lookup_in(log2, index2, k) == if k == key {
                    if kind == EntryType::Data {
                        Ok::<_, DatabaseError>(Some(value))
                    } else {
                        Ok(None)
                    }
                } else {
                    lookup_in(log, index, k)
                }
            &&& canonical_in(log, index) ==> canonical_in(log2, index2)
        }),
{
    let f = record_frame(kind, key, value);
    let log2 = log + f;
    let index2 = index.insert(key, appended_entry(log, f));
    lemma_frame_len(kind, key, lz77_encoding(value));
    lemma_recover_append(log, index, kind, key, lz77_encoding(value));
    lemma_index_entries(log, index);
    assert(log2.subrange(log.len() as int, log.len() + f.len() as int) =~= f);
    lemma_frame_round_trip(kind, key, value, key);
    assert forall|k: Seq<u8>| #[trigger]
        lookup_in(log2, index2, k) == if k == key {
            if kind == EntryType::Data {
                Ok::<_, DatabaseError>(Some(value))
            } else {
                Ok(None)
            }
        } else {
            lookup_in(log, index, k)
        } by {
        if k != key && index.contains_key(k) {
            let e = index[k];
            assert(entry_in_log(log, k, e, log.len()));
            assert(log2.subrange(e.offset as int, e.offset + e.size) =~= log.subrange(
                e.offset as int,
                e.offset + e.size,
            ));
        }
    }
    if canonical_in(log, index) {
        assert forall|k: Seq<u8>| #[trigger] index2.contains_key(k) implies match lookup_in(
            log2,
            index2,
            k,
        ) {
            Ok(Some(v)) => log2.subrange(index2[k].offset as int, index2[k].offset + index2[k].size)
                == record_frame(EntryType::Data, k, v),
            _ => true,
        } by {
            if k != key {
                let e = index[k];
                assert(entry_in_log(log, k, e, log.len()));
                assert(log2.subrange(e.offset as int, e.offset + e.size) =~= log.subrange(
                    e.offset as int,
                    e.offset + e.size,
                ));
            }
        }
    }
}

/// Appending a record whose frame fits keeps the index compactable.
proof fn lemma_append_compactable(
    log: Seq<u8>,
    index: Map<Seq<u8>, IndexEntry>,
    kind: EntryType,
    key: Seq<u8>,
    value: Seq<u8>,
)
    requires
        indexes(log, index),
        record_frame(kind, key, value).len() <= MAX_FRAME,
        log.len() + record_frame(kind, key, value).len() <= u64::MAX,
    ensures
        ({
            let f = record_frame(kind, key, value);
            compactable_in(log, index) ==> compactable_in(
                log + f,
                index.insert(key, appended_entry(log, f)),
            )
        }),
{
    let f = record_frame(kind, key, value);
    let log2 = log + f;
    let index2 = index.insert(key, appended_entry(log, f));
    lemma_append_lookups(log, index, kind, key, value);
    if compactable_in(log, index) {
        assert forall|k: Seq<u8>| #[trigger] index2.contains_key(k) implies carries(
            log2,
            index2,
            k,
        ) by {
            assert(lookup_in(log2, index2, k) == if k == key {
                if kind == EntryType::Data {
                    Ok::<_, DatabaseError>(Some(value))
                } else {
                    Ok(None)
                }
            } else {
                lookup_in(log, index, k)
            });
            if k != key {
                assert(index.contains_key(k));
            } else if kind == EntryType::Data {
                assert(record_frame(EntryType::Data, key, value) == f);
            }
        }
    }
}

// ---------------------------------------------------------------------------
// Laws of the store

/// The log and index after appending a data frame for each of `values` in
/// turn under `key`, as `set` does before any compaction.
pub open spec fn after_writes(
    log: Seq<u8>,
    index: Map<Seq<u8>, IndexEntry>,
    key: Seq<u8>,
    values: Seq<Seq<u8>>,
) -> (Seq<u8>, Map<Seq<u8>, IndexEntry>)
    decreases values.len(),
{
    if values.len() == 0 {
        (log, index)
    } else {
        let (l, m) = after_writes(log, index, key, values.drop_last());
        let f = record_frame(EntryType::Data, key, values.last());
        (l + f, m.insert(key, appended_entry(l, f)))
    }
}

/// Whether every frame of `after_writes` fits an index entry and the log
/// stays within memory.
pub open spec fn writes_fit(
    log: Seq<u8>,
    index: Map<Seq<u8>, IndexEntry>,
    key: Seq<u8>,
    values: Seq<Seq<u8>>,
) -> bool
    decreases values.len(),
{
    values.len() == 0 || {
        let (l, m) = after_writes(log, index, key, values.drop_last());
        let f = record_frame(EntryType::Data, key, values.last());
        &&& writes_fit(log, index, key, values.drop_last())
        &&& f.len() <= MAX_FRAME
        &&& l.len() + f.len() <= u64::MAX
    }
}

/// Last write wins: after writing a sequence of values under `key`, `key`
/// reads as the last of them, every other key reads as before, and the
/// index is still what the log rebuilds.
pub proof fn lemma_last_write_wins(
    log: Seq<u8>,
    index: Map<Seq<u8>, IndexEntry>,
    key: Seq<u8>,
    values: Seq<Seq<u8>>,
)
    requires
        indexes(log, index),
        values.len() > 0,
        writes_fit(log, index, key, values),
    ensures
        ({
            let (l, m) = after_writes(log, index, key, values);
            &&& indexes(l, m)
            &&& lookup_in(l, m, key) == Ok::<_, DatabaseError>(Some(values.last()))
            &&& forall|k: Seq<u8>| k != key ==> #[trigger] lookup_in(l, m, k) == lookup_in(log, index, k)
        }),
    decreases values.len(),
{
    let prev = values.drop_last();
    let (l, m) = after_writes(log, index, key, prev);
    if prev.len() > 0 {
        lemma_last_write_wins(log, index, key, prev);
    }
    lemma_append_lookups(l, m, EntryType::Data, key, values.last());
}

/// A deleted key reads as absent, and reads as the value written after the
/// deletion.
pub proof fn lemma_delete_then_set(
    log: Seq<u8>,
    index: Map<Seq<u8>, IndexEntry>,
    key: Seq<u8>,
    value: Seq<u8>,
)
    requires
        indexes(log, index),
        ({
            let t = record_frame(EntryType::Tombstone, key, Seq::empty());
            let f = record_frame(EntryType::Data, key, value);
            &&& t.len() <= MAX_FRAME
            &&& f.len() <= MAX_FRAME
            &&& log.len() + t.len() + f.len() <= u64::MAX
        }),
    ensures
        ({
            let t = record_frame(EntryType::Tombstone, key, Seq::empty());
            let log1 = log + t;
            let index1 = index.insert(key, appended_entry(log, t));
            let f = record_frame(EntryType::Data, key, value);
            let log2 = log1 + f;
            let index2 = index1.insert(key, appended_entry(log1, f));
            &&& lookup_in(log1, index1, key) == Ok::<Option<Seq<u8>>, DatabaseError>(None)
            &&& lookup_in(log2, index2, key) == Ok::<_, DatabaseError>(Some(value))
        }),
{
    let t = record_frame(EntryType::Tombstone, key, Seq::empty());
    let log1 = log + t;
    let index1 = index.insert(key, appended_entry(log, t));
    lemma_append_lookups(log, index, EntryType::Tombstone, key, Seq::empty());
    assert(lookup_in(log1, index1, key) == Ok::<Option<Seq<u8>>, DatabaseError>(None));
    lemma_append_lookups(log1, index1, EntryType::Data, key, value);
}

/// Reopening a store over its own log gives a store in which every key
/// reads as before: `new` over the log of `db` succeeds, and any store it
/// can return reads each key as `db` does.
pub proof fn lemma_reopen(db: &MyDatabase, again: &MyDatabase)
    requires
        db.wf(),
        again.index_view() == recover(db.log_view())->Ok_0.0,
        again.log_view() == db.log_view().subrange(0, recover(db.log_view())->Ok_0.1 as int),
    ensures
        recover(db.log_view()) is Ok,
        forall|k: Seq<u8>| #[trigger] again.lookup(k) == db.lookup(k),
{
    assert(db.log_view().subrange(0, db.log_view().len() as int) =~= db.log_view());
}

/// Compaction keeps every read, leaves no tombstone in the log, and does not
/// lengthen a log whose values are stored as this library writes them.
pub proof fn lemma_compaction_keeps_reads(
    log: Seq<u8>,
    index: Map<Seq<u8>, IndexEntry>,
    nlog: Seq<u8>,
    nidx: Map<Seq<u8>, IndexEntry>,
)
    requires
        compacted(log, index, nlog, nidx),
    ensures
        forall|k: Seq<u8>| #[trigger] lookup_in(nlog, nidx, k) == lookup_in(log, index, k),
        live_data_from(nlog, 0, nidx),
        canonical_in(log, index) ==> nlog.len() <= log.len(),
{
}

} // verus!
