//! Reading the log: a concatenation of frames, read front to back.
use vstd::prelude::*;

use crate::codec::{
    be32_at, checksum, copy_range, frame, frame_body, lemma_body_fields, lemma_frame_fields,
    lemma_frame_len, lengths_fit, read_be32, sum_bytes, EntryType, CHECKSUM_LEN, HEADER_LEN,
};
use crate::error::DatabaseError;

verus! {

/// Where the record for a key lies in the log.
#[derive(Debug, Clone, Copy, PartialEq, Eq, Structural)]
pub struct IndexEntry {
    pub offset: u64,
    pub size: u32,
}

/// What the log reader reports of one frame.
pub struct LogRecord {
    pub offset: u64,
    pub size: u32,
    pub entry_type: EntryType,
    pub key: Vec<u8>,
    pub value_len: usize,
    pub checksum_ok: bool,
}

/// A record of the log, as a mathematical value.
pub struct RecordInfo {
    pub offset: nat,
    pub size: nat,
    pub kind: EntryType,
    pub key: Seq<u8>,
    pub value_len: nat,
    pub checksum_ok: bool,
}

impl View for LogRecord {
    type V = RecordInfo;

    open spec fn view(&self) -> RecordInfo {
        RecordInfo {
            offset: self.offset as nat,
            size: self.size as nat,
            kind: self.entry_type,
            key: self.key@,
            value_len: self.value_len as nat,
            checksum_ok: self.checksum_ok,
        }
    }
}

/// What the reader finds at an offset of the log.
pub enum Parsed {
    /// The log ends here, on a record boundary or within a torn last frame.
    End,
    /// An unknown kind byte, or a frame too long to be indexed.
    Fault,
    /// A whole frame.
    Record(RecordInfo),
}

/// Largest frame the index can locate.
pub const MAX_FRAME: u64 = 0xffff_ffff;

/// What the reader finds at offset `o` of `log`.
pub open spec fn parse_at(log: Seq<u8>, o: nat) -> Parsed {
    if o + HEADER_LEN > log.len() {
        Parsed::End
    } else if log[o as int] > 1 {
        Parsed::Fault
    } else {
        let key_len = be32_at(log, o as int + 1);
        let value_len = be32_at(log, o as int + 5);
        let size = HEADER_LEN + key_len + value_len + CHECKSUM_LEN;
        if o + size > log.len() {
            Parsed::End
        } else if size > MAX_FRAME {
            Parsed::Fault
        } else {
            let end = o + HEADER_LEN + key_len + value_len;
            Parsed::Record(
                RecordInfo {
                    offset: o,
                    size: size as nat,
                    kind: if log[o as int] == 0 {
                        EntryType::Data
                    } else {
                        EntryType::Tombstone
                    },
                    key: log.subrange(o + HEADER_LEN, o + HEADER_LEN + key_len),
                    value_len,
                    checksum_ok: checksum(log.subrange(o as int, end)) == be32_at(log, end),
                },
            )
        }
    }
}

/// Rebuilds the index from offset `o` of `log` on, starting from `index`:
/// each record overwrites the entry of its key. Gives the index and the
/// offset where the log's last whole frame ends; fails with `CorruptedData`
/// at the first frame whose checksum is wrong, and with `InvalidFormat` at a
/// fault.
pub open spec fn recover_from(log: Seq<u8>, o: nat, index: Map<Seq<u8>, IndexEntry>) -> Result<
    (Map<Seq<u8>, IndexEntry>, nat),
    DatabaseError,
>
    decreases log.len() - o,
{
    match parse_at(log, o) {
        Parsed::End => Ok((index, o)),
        Parsed::Fault => Err(DatabaseError::InvalidFormat),
        Parsed::Record(r) => if !r.checksum_ok {
            Err(DatabaseError::CorruptedData)
        } else {
            recover_from(
                log,
                o + r.size,
                index.insert(r.key, IndexEntry { offset: o as u64, size: r.size as u32 }),
            )
        },
    }
}

/// The index rebuilt from the whole log, with the end of its last whole frame.
pub open spec fn recover(log: Seq<u8>) -> Result<(Map<Seq<u8>, IndexEntry>, nat), DatabaseError> {
    recover_from(log, 0, Map::empty())
}

/// Reads the record at `offset` of `log`, as `parse_at` says.
pub fn parse_record(log: &[u8], offset: usize) -> (r: Option<Result<LogRecord, DatabaseError>>)
    requires
        offset <= log@.len(),
    ensures
        match parse_at(log@, offset as nat) {
            Parsed::End => r is None,
            Parsed::Fault => r matches Some(Err(e)) && e is InvalidFormat,
            Parsed::Record(info) => r matches Some(Ok(rec)) && rec@ == info,
        },
        r matches Some(Ok(rec)) ==> rec.offset == offset && offset + rec.size <= log@.len(),
{
    if log.len() - offset < HEADER_LEN {
        return None;
    }
    let tag = log[offset];
    if tag > 1 {
        return Some(Err(DatabaseError::InvalidFormat));
    }
    let key_len = read_be32(log, offset + 1) as usize;
    let value_len = read_be32(log, offset + 5) as usize;
    let room = log.len() - offset - HEADER_LEN;
    if room < CHECKSUM_LEN || key_len > room - CHECKSUM_LEN || value_len > room - CHECKSUM_LEN
        - key_len {
        return None;
    }
    let size = HEADER_LEN + key_len + value_len + CHECKSUM_LEN;
    if size as u64 > MAX_FRAME {
        return Some(Err(DatabaseError::InvalidFormat));
    }
    let key_end = offset + HEADER_LEN + key_len;
    let end = key_end + value_len;
    let sum = sum_bytes_from(log, offset, end);
    let stored = read_be32(log, end);
    let entry_type = if tag == 0 {
        EntryType::Data
    } else {
        EntryType::Tombstone
    };
    let key = copy_range(log, offset + HEADER_LEN, key_end);
    Some(
        Ok(
            LogRecord {
                offset: offset as u64,
                size: size as u32,
                entry_type,
                key,
                value_len,
                checksum_ok: sum == stored,
            },
        ),
    )
}

/// The checksum of `bytes[from..to]`.
fn sum_bytes_from(bytes: &[u8], from: usize, to: usize) -> (r: u32)
    requires
        from <= to <= bytes@.len(),
    ensures
        r == checksum(bytes@.subrange(from as int, to as int)),
{
    let piece = copy_range(bytes, from, to);
    let r = sum_bytes(piece.as_slice(), piece.len());
    proof {
        assert(piece@.subrange(0, piece@.len() as int) =~= piece@);
    }
    r
}

/// A reader over a copy of the log, front to back. It stops for good at the
/// end of the log, at a torn last frame, and after reporting a fault.
pub struct LogIter {
    log: Vec<u8>,
    offset: usize,
    done: bool,
}

impl LogIter {
    /// The bytes being read.
    pub closed spec fn bytes(&self) -> Seq<u8> {
        self.log@
    }

    /// Where the next record is read.
    pub closed spec fn position(&self) -> nat {
        self.offset as nat
    }

    /// Whether the reader has stopped.
    pub closed spec fn finished(&self) -> bool {
        self.done
    }

    pub closed spec fn wf(&self) -> bool {
        self.offset <= self.log@.len()
    }

    /// A reader at the start of `log`.
    pub fn new(log: Vec<u8>) -> (r: LogIter)
        ensures
            r.wf(),
            r.bytes() == log@,
            r.position() == 0,
            !r.finished(),
    {
        LogIter { log, offset: 0, done: false }
    }

    /// The next record, or `None` once the log is read.
    pub fn next(&mut self) -> (r: Option<Result<LogRecord, DatabaseError>>)
        requires
            old(self).wf(),
        ensures
            final(self).wf(),
            final(self).bytes() == old(self).bytes(),
            old(self).finished() ==> r is None && *final(self) == *old(self),
            !old(self).finished() ==> match parse_at(old(self).bytes(), old(self).position()) {
                Parsed::End => r is None && final(self).finished(),
                Parsed::Fault => final(self).finished() && (r matches Some(Err(e))
                    && e is InvalidFormat),
                Parsed::Record(info) => !final(self).finished() && final(self).position() == old(
                self).position() + info.size && (r matches Some(Ok(rec)) && rec@ == info),
            },
    {
        if self.done {
            return None;
        }
        let r = parse_record(self.log.as_slice(), self.offset);
        match &r {
            Some(Ok(rec)) => {
                assert(self.log@.len() == self.log.len());
                self.offset = self.offset + rec.size as usize;
            },
            _ => {
                self.done = true;
            },
        }
        r
    }
}


// ---------------------------------------------------------------------------
// Facts about parsing

/// A record read inside `log` reads the same when bytes follow the log.
pub proof fn lemma_parse_extend(log: Seq<u8>, t: Seq<u8>, o: nat)
    requires
        parse_at(log, o) is Record,
    ensures
        parse_at(log + t, o) == parse_at(log, o),
        o + parse_at(log, o)->Record_0.size <= log.len(),
{
    let l2 = log + t;
    let key_len = be32_at(log, o as int + 1);
    let value_len = be32_at(log, o as int + 5);
    let end = o + HEADER_LEN + key_len + value_len;
    assert(l2[o as int] == log[o as int]);
    assert(be32_at(l2, o as int + 1) == key_len);
    assert(be32_at(l2, o as int + 5) == value_len);
    assert(l2.subrange(o + HEADER_LEN, o + HEADER_LEN + key_len) =~= log.subrange(
        o + HEADER_LEN,
        o + HEADER_LEN + key_len,
    ));
    assert(l2.subrange(o as int, end) =~= log.subrange(o as int, end));
    assert(be32_at(l2, end) == be32_at(log, end));
}

/// A frame body at offset `o`, followed by at least four bytes, reads as a
/// record of its kind and key whose checksum is good exactly when the four
/// bytes after the body hold the checksum of the body.
pub proof fn lemma_parse_body_at(
    log: Seq<u8>,
    o: nat,
    kind: EntryType,
    key: Seq<u8>,
    payload: Seq<u8>,
)
    requires
        lengths_fit(key, payload),
        HEADER_LEN + key.len() + payload.len() + CHECKSUM_LEN <= MAX_FRAME,
        o + HEADER_LEN + key.len() + payload.len() + CHECKSUM_LEN <= log.len(),
        log.subrange(o as int, o + HEADER_LEN + key.len() + payload.len()) == frame_body(
            kind,
            key,
            payload,
        ),
    ensures
        ({
            let end = o + HEADER_LEN + key.len() + payload.len();
            parse_at(log, o) == Parsed::Record(
                RecordInfo {
                    offset: o,
                    size: (HEADER_LEN + key.len() + payload.len() + CHECKSUM_LEN) as nat,
                    kind,
                    key,
                    value_len: payload.len(),
                    checksum_ok: checksum(frame_body(kind, key, payload)) == be32_at(log, end),
                },
            )
        }),
{
    let b = frame_body(kind, key, payload);
    let end = HEADER_LEN + key.len() + payload.len();
    lemma_body_fields(kind, key, payload);
    assert(log[o as int] == b[0]);
    assert(be32_at(log, o as int + 1) == be32_at(b, 1));
    assert(be32_at(log, o as int + 5) == be32_at(b, 5));
    assert(log.subrange(o + HEADER_LEN, o + HEADER_LEN + key.len()) =~= b.subrange(
        HEADER_LEN as int,
        HEADER_LEN + key.len(),
    ));
    match kind {
        EntryType::Data => {},
        EntryType::Tombstone => {},
    }
}

/// The frame for a record, read where it was appended to a log.
pub proof fn lemma_parse_appended(log: Seq<u8>, kind: EntryType, key: Seq<u8>, payload: Seq<u8>)
    requires
        lengths_fit(key, payload),
        frame(kind, key, payload).len() <= MAX_FRAME,
    ensures
        parse_at(log + frame(kind, key, payload), log.len()) == Parsed::Record(
            RecordInfo {
                offset: log.len(),
                size: frame(kind, key, payload).len(),
                kind,
                key,
                value_len: payload.len(),
                checksum_ok: true,
            },
        ),
{
    let f = frame(kind, key, payload);
    let l2 = log + f;
    let o = log.len() as int;
    let end = HEADER_LEN + key.len() + payload.len();
    lemma_frame_fields(kind, key, payload);
    assert(l2.subrange(o, o + end) =~= f.subrange(0, end as int));
    assert(f.subrange(0, end as int) =~= frame_body(kind, key, payload));
    assert(be32_at(l2, o + end) == be32_at(f, end as int));
    lemma_parse_body_at(l2, log.len(), kind, key, payload);
}

/// Rebuilding the index of a log followed by more bytes goes through the
/// log's own records first.
pub proof fn lemma_recover_prefix(
    log: Seq<u8>,
    t: Seq<u8>,
    o: nat,
    m: Map<Seq<u8>, IndexEntry>,
    m2: Map<Seq<u8>, IndexEntry>,
)
    requires
        o <= log.len(),
        recover_from(log, o, m) == Ok::<_, DatabaseError>((m2, log.len())),
    ensures
        recover_from(log + t, o, m) == recover_from(log + t, log.len(), m2),
    decreases log.len() - o,
{
    match parse_at(log, o) {
        Parsed::Record(r) => {
            lemma_parse_extend(log, t, o);
            let e = IndexEntry { offset: o as u64, size: r.size as u32 };
            lemma_recover_prefix(log, t, o + r.size, m.insert(r.key, e), m2);
        },
        _ => {},
    }
}

/// Rebuilding the index of a log with one more frame adds that frame's entry.
pub proof fn lemma_recover_append(
    log: Seq<u8>,
    m: Map<Seq<u8>, IndexEntry>,
    kind: EntryType,
    key: Seq<u8>,
    payload: Seq<u8>,
)
    requires
        recover(log) == Ok::<_, DatabaseError>((m, log.len())),
        lengths_fit(key, payload),
        frame(kind, key, payload).len() <= MAX_FRAME,
    ensures
        ({
            let f = frame(kind, key, payload);
            recover(log + f) == Ok::<_, DatabaseError>(
                (
                    m.insert(key, IndexEntry { offset: log.len() as u64, size: f.len() as u32 }),
                    (log + f).len(),
                ),
            )
        }),
{
    let f = frame(kind, key, payload);
    lemma_recover_prefix(log, f, 0, Map::empty(), m);
    lemma_parse_appended(log, kind, key, payload);
    let m2 = m.insert(key, IndexEntry { offset: log.len() as u64, size: f.len() as u32 });
    assert(recover_from(log + f, log.len() + f.len(), m2) == Ok::<_, DatabaseError>(
        (m2, (log + f).len()),
    ));
}


/// Whether reading `log` record by record from `a` reaches offset `b`.
pub open spec fn on_chain(log: Seq<u8>, a: nat, b: nat) -> bool
    decreases log.len() - a,
{
    a == b || match parse_at(log, a) {
        Parsed::Record(r) => on_chain(log, a + r.size, b),
        _ => false,
    }
}

/// Whether `e` locates a whole record of `key` that the reader meets, ending
/// by `bound`.
pub open spec fn entry_in_log(log: Seq<u8>, key: Seq<u8>, e: IndexEntry, bound: nat) -> bool {
    &&& e.offset + e.size <= bound
    &&& on_chain(log, 0, e.offset as nat)
    &&& parse_at(log, e.offset as nat) matches Parsed::Record(r) && r.key == key && r.size
        == e.size && r.checksum_ok
}

proof fn lemma_chain_extend(log: Seq<u8>, a: nat, b: nat)
    requires
        on_chain(log, a, b),
        parse_at(log, b) is Record,
    ensures
        on_chain(log, a, b + parse_at(log, b)->Record_0.size),
    decreases log.len() - a,
{
    if a != b {
        let r = parse_at(log, a)->Record_0;
        lemma_chain_extend(log, a + r.size, b);
    } else {
        let r = parse_at(log, b)->Record_0;
        assert(on_chain(log, b + r.size, b + r.size));
    }
}

proof fn lemma_chain_ge(log: Seq<u8>, a: nat, b: nat)
    requires
        on_chain(log, a, b),
    ensures
        a <= b,
    decreases log.len() - a,
{
    if a != b {
        let r = parse_at(log, a)->Record_0;
        lemma_chain_ge(log, a + r.size, b);
    }
}

/// Two records that the reader meets do not overlap.
pub proof fn lemma_chain_disjoint(log: Seq<u8>, a: nat, x: nat, y: nat)
    requires
        on_chain(log, a, x),
        on_chain(log, a, y),
        x < y,
        parse_at(log, x) is Record,
    ensures
        x + parse_at(log, x)->Record_0.size <= y,
    decreases log.len() - a,
{
    lemma_chain_ge(log, a, x);
    let r = parse_at(log, a)->Record_0;
    if a == x {
        lemma_chain_ge(log, a + r.size, y);
    } else {
        lemma_chain_disjoint(log, a + r.size, x, y);
    }
}

/// Every entry of a rebuilt index locates a whole record of its key.
pub proof fn lemma_recovered_entries(
    log: Seq<u8>,
    o: nat,
    m: Map<Seq<u8>, IndexEntry>,
    m2: Map<Seq<u8>, IndexEntry>,
    end: nat,
)
    requires
        log.len() <= u64::MAX,
        recover_from(log, o, m) == Ok::<_, DatabaseError>((m2, end)),
        on_chain(log, 0, o),
        forall|k: Seq<u8>| #[trigger] m.contains_key(k) ==> entry_in_log(log, k, m[k], o),
    ensures
        on_chain(log, 0, end),
        o <= end,
        forall|k: Seq<u8>| #[trigger] m2.contains_key(k) ==> entry_in_log(log, k, m2[k], end),
    decreases log.len() - o,
{
    match parse_at(log, o) {
        Parsed::Record(r) => {
            let e = IndexEntry { offset: o as u64, size: r.size as u32 };
            let m1 = m.insert(r.key, e);
            lemma_chain_extend(log, 0, o);
            assert forall|k: Seq<u8>| #[trigger] m1.contains_key(k) implies entry_in_log(
                log,
                k,
                m1[k],
                o + r.size,
            ) by {
                if k != r.key {
                    assert(entry_in_log(log, k, m[k], o));
                }
            }
            lemma_recovered_entries(log, o + r.size, m1, m2, end);
        },
        _ => {},
    }
}

/// Every entry of the index rebuilt from a whole log locates a whole record
/// of its key within the log.
pub proof fn lemma_index_entries(log: Seq<u8>, m: Map<Seq<u8>, IndexEntry>)
    requires
        log.len() <= u64::MAX,
        recover(log) == Ok::<_, DatabaseError>((m, log.len())),
    ensures
        forall|k: Seq<u8>| #[trigger] m.contains_key(k) ==> entry_in_log(log, k, m[k], log.len()),
{
    lemma_recovered_entries(log, 0, Map::empty(), m, log.len());
}


/// A record that ends within the first `n` bytes of the log reads the same in them.
pub proof fn lemma_parse_restrict(log: Seq<u8>, o: nat, n: nat)
    requires
        parse_at(log, o) is Record,
        o + parse_at(log, o)->Record_0.size <= n <= log.len(),
    ensures
        parse_at(log.subrange(0, n as int), o) == parse_at(log, o),
{
    let p = log.subrange(0, n as int);
    assert(p + log.subrange(n as int, log.len() as int) =~= log);
    let key_len = be32_at(log, o as int + 1);
    let value_len = be32_at(log, o as int + 5);
    let end = o + HEADER_LEN + key_len + value_len;
    assert(p[o as int] == log[o as int]);
    assert(be32_at(p, o as int + 1) == key_len);
    assert(be32_at(p, o as int + 5) == value_len);
    assert(p.subrange(o + HEADER_LEN, o + HEADER_LEN + key_len) =~= log.subrange(
        o + HEADER_LEN,
        o + HEADER_LEN + key_len,
    ));
    assert(p.subrange(o as int, end) =~= log.subrange(o as int, end));
    assert(be32_at(p, end) == be32_at(log, end));
}


/// Whether every record read from `o` on is a data record that `index`
/// locates, so that the log holds one data frame per key and nothing else.
pub open spec fn live_data_from(log: Seq<u8>, o: nat, index: Map<Seq<u8>, IndexEntry>) -> bool
    decreases log.len() - o,
{
    match parse_at(log, o) {
        Parsed::Record(r) => {
            &&& r.kind == EntryType::Data
            &&& index.contains_key(r.key)
            &&& index[r.key].offset == o
            &&& live_data_from(log, o + r.size, index)
        },
        _ => true,
    }
}

proof fn lemma_live_data_prefix(
    log: Seq<u8>,
    t: Seq<u8>,
    o: nat,
    m: Map<Seq<u8>, IndexEntry>,
    m2: Map<Seq<u8>, IndexEntry>,
    index: Map<Seq<u8>, IndexEntry>,
    key: Seq<u8>,
    e: IndexEntry,
)
    requires
        o <= log.len(),
        recover_from(log, o, m) == Ok::<_, DatabaseError>((m2, log.len())),
        live_data_from(log, o, index),
        !index.contains_key(key),
    ensures
        live_data_from(log + t, o, index.insert(key, e)) == live_data_from(
            log + t,
            log.len(),
            index.insert(key, e),
        ),
    decreases log.len() - o,
{
    match parse_at(log, o) {
        Parsed::Record(r) => {
            lemma_parse_extend(log, t, o);
            let e2 = IndexEntry { offset: o as u64, size: r.size as u32 };
            lemma_live_data_prefix(log, t, o + r.size, m.insert(r.key, e2), m2, index, key, e);
        },
        _ => {},
    }
}

/// Appending a data frame for a key that the index does not hold, and
/// pointing the key at it, keeps a log of indexed data frames so.
pub proof fn lemma_live_data_append(
    log: Seq<u8>,
    m: Map<Seq<u8>, IndexEntry>,
    key: Seq<u8>,
    payload: Seq<u8>,
    e: IndexEntry,
)
    requires
        recover(log) == Ok::<_, DatabaseError>((m, log.len())),
        live_data_from(log, 0, m),
        !m.contains_key(key),
        e.offset == log.len(),
        lengths_fit(key, payload),
        frame(EntryType::Data, key, payload).len() <= MAX_FRAME,
    ensures
        live_data_from(log + frame(EntryType::Data, key, payload), 0, m.insert(key, e)),
{
    let f = frame(EntryType::Data, key, payload);
    lemma_live_data_prefix(log, f, 0, Map::empty(), m, m, key, e);
    lemma_parse_appended(log, EntryType::Data, key, payload);
    assert(live_data_from(log + f, log.len() + f.len(), m.insert(key, e)));
}

/// Opening fails with `CorruptedData` when, after a clean run of frames, a
/// frame's stored checksum differs from the sum of its bytes, whatever follows.
pub proof fn lemma_corrupted_frame_refused(
    log: Seq<u8>,
    m: Map<Seq<u8>, IndexEntry>,
    kind: EntryType,
    key: Seq<u8>,
    payload: Seq<u8>,
    stored: Seq<u8>,
    rest: Seq<u8>,
)
    requires
        recover(log) == Ok::<_, DatabaseError>((m, log.len())),
        lengths_fit(key, payload),
        frame(kind, key, payload).len() <= MAX_FRAME,
        stored.len() == CHECKSUM_LEN,
        be32_at(stored, 0) != checksum(frame_body(kind, key, payload)),
    ensures
        recover(log + (frame_body(kind, key, payload) + stored + rest)) == Err::<
            (Map<Seq<u8>, IndexEntry>, nat),
            _,
        >(DatabaseError::CorruptedData),
{
    let body = frame_body(kind, key, payload);
    let t = body + stored + rest;
    let l2 = log + t;
    let o = log.len() as int;
    let end = HEADER_LEN + key.len() + payload.len();
    lemma_recover_prefix(log, t, 0, Map::empty(), m);
    lemma_body_fields(kind, key, payload);
    lemma_frame_len(kind, key, payload);
    assert(l2.subrange(o, o + end) =~= body);
    assert(be32_at(l2, o + end) == be32_at(stored, 0));
    lemma_parse_body_at(l2, log.len(), kind, key, payload);
}

/// Opening ignores trailing bytes that are the start of a frame cut short:
/// the index and the end of the last whole frame are those of the log without them.
pub proof fn lemma_torn_tail_ignored(
    log: Seq<u8>,
    m: Map<Seq<u8>, IndexEntry>,
    kind: EntryType,
    key: Seq<u8>,
    payload: Seq<u8>,
    cut: nat,
)
    requires
        recover(log) == Ok::<_, DatabaseError>((m, log.len())),
        lengths_fit(key, payload),
        cut < frame(kind, key, payload).len(),
    ensures
        recover(log + frame(kind, key, payload).subrange(0, cut as int)) == Ok::<_, DatabaseError>(
            (m, log.len()),
        ),
{
    let f = frame(kind, key, payload);
    let tail = f.subrange(0, cut as int);
    let l2 = log + tail;
    let o = log.len() as int;
    lemma_recover_prefix(log, tail, 0, Map::empty(), m);
    lemma_frame_fields(kind, key, payload);
    if cut >= HEADER_LEN {
        assert(l2[o] == f[0]);
        assert(be32_at(l2, o + 1) == be32_at(f, 1));
        assert(be32_at(l2, o + 5) == be32_at(f, 5));
    }
}

} // verus!
