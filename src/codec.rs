//! Record framing.
//!
//! A frame is, with every integer big-endian:
//! a kind byte (0 for data, 1 for a tombstone), the key length (4 bytes),
//! the length of the encoded value (4 bytes), the key, the encoded value,
//! and a checksum (4 bytes): the sum modulo 2^32 of every byte before it.
use vstd::prelude::*;

use crate::error::DatabaseError;
use crate::lz77::{
    lemma_encoding_len, lemma_round_trip, lz77_decode, lz77_decoding, lz77_encode, lz77_encoding,
};

verus! {

/// Size of the kind byte and the two length fields.
pub const HEADER_LEN: usize = 9;

/// Size of the trailing checksum.
pub const CHECKSUM_LEN: usize = 4;

/// 2^32, the modulus of the checksum and the bound of the length fields.
pub const TWO_POW_32: u64 = 0x1_0000_0000;

/// A codec for the value bytes of a record.
pub trait Compressor {
    /// What `encode` returns for `input`.
    spec fn encoding(input: Seq<u8>) -> Seq<u8>;

    /// What `decode` makes of `input`, or `None` where it fails.
    spec fn decoding(input: Seq<u8>) -> Option<Seq<u8>>;

    fn encode(input: &[u8]) -> (r: Vec<u8>)
        ensures
            r@ == Self::encoding(input@),
    ;

    fn decode(input: &[u8]) -> (r: Result<Vec<u8>, DatabaseError>)
        ensures
            match r {
                Ok(v) => Self::decoding(input@) == Some(v@),
                Err(e) => Self::decoding(input@) is None && e is InvalidFormat,
            },
    ;

    /// Decoding the encoding of any bytes gives those bytes back.
    proof fn lemma_round_trip(x: Seq<u8>)
        ensures
            Self::decoding(Self::encoding(x)) == Some(x),
    ;
}

/// The kind of a log record.
#[derive(Debug, Clone, Copy, PartialEq, Eq, Structural)]
pub enum EntryType {
    Data,
    Tombstone,
}

/// One logical operation on the store: a value written under a key, or a
/// tombstone that deletes the key.
pub struct DataEntry {
    pub entry_type: EntryType,
    pub key: Vec<u8>,
    pub value: Vec<u8>,
}

/// The single-window LZ77 codec of the `lz77` module.
pub struct Lz77;

impl Compressor for Lz77 {
    open spec fn encoding(input: Seq<u8>) -> Seq<u8> {
        lz77_encoding(input)
    }

    open spec fn decoding(input: Seq<u8>) -> Option<Seq<u8>> {
        lz77_decoding(input)
    }

    fn encode(input: &[u8]) -> (r: Vec<u8>) {
        lz77_encode(input)
    }

    fn decode(input: &[u8]) -> (r: Result<Vec<u8>, DatabaseError>) {
        lz77_decode(input)
    }

    proof fn lemma_round_trip(x: Seq<u8>) {
        lemma_round_trip(x);
    }
}

// ---------------------------------------------------------------------------
// The frame, as a mathematical function

/// The kind byte of a frame.
pub open spec fn kind_tag(kind: EntryType) -> u8 {
    match kind {
        EntryType::Data => 0,
        EntryType::Tombstone => 1,
    }
}

/// The four big-endian bytes of `v` modulo 2^32.
pub open spec fn be32(v: nat) -> Seq<u8> {
    seq![
        (v / 0x100_0000 % 256) as u8,
        (v / 0x1_0000 % 256) as u8,
        (v / 0x100 % 256) as u8,
        (v % 256) as u8,
    ]
}

/// The big-endian integer held in the four bytes of `s` at `at`.
pub open spec fn be32_at(s: Seq<u8>, at: int) -> nat {
    (s[at] * 0x100_0000 + s[at + 1] * 0x1_0000 + s[at + 2] * 0x100 + s[at + 3]) as nat
}

/// The sum of the bytes of `s`.
pub open spec fn byte_sum(s: Seq<u8>) -> nat
    decreases s.len(),
{
    if s.len() == 0 {
        0
    } else {
        byte_sum(s.drop_last()) + s.last() as nat
    }
}

/// The checksum of `s`: the sum of its bytes modulo 2^32.
pub open spec fn checksum(s: Seq<u8>) -> nat {
    byte_sum(s) % (TWO_POW_32 as nat)
}

/// Everything of a frame but its checksum. A length field holds the length
/// modulo 2^32.
#[verifier::opaque]
pub open spec fn frame_body(kind: EntryType, key: Seq<u8>, payload: Seq<u8>) -> Seq<u8> {
    seq![kind_tag(kind)] + be32(key.len() % (TWO_POW_32 as nat)) + be32(
        payload.len() % (TWO_POW_32 as nat),
    ) + key + payload
}

/// The frame for a record whose value is already encoded as `payload`.
pub open spec fn frame(kind: EntryType, key: Seq<u8>, payload: Seq<u8>) -> Seq<u8> {
    let body = frame_body(kind, key, payload);
    body + be32(checksum(body))
}

/// The frame for a record: its value goes through the LZ77 codec first.
pub open spec fn record_frame(kind: EntryType, key: Seq<u8>, value: Seq<u8>) -> Seq<u8> {
    frame(kind, key, lz77_encoding(value))
}

/// Whether both length fields of the frame for `key` and `payload` hold
/// their lengths exactly.
pub open spec fn lengths_fit(key: Seq<u8>, payload: Seq<u8>) -> bool {
    key.len() < TWO_POW_32 && payload.len() < TWO_POW_32
}

/// What reading the frame `buf` under `key` gives: `Ok(Some(value))` for a
/// data frame of that key, `Ok(None)` for a tombstone or a frame of another
/// key, and an error for a short, corrupted or malformed frame.
pub open spec fn decode_frame(buf: Seq<u8>, key: Seq<u8>) -> Result<Option<Seq<u8>>, DatabaseError> {
    if buf.len() < HEADER_LEN {
        Err(DatabaseError::InvalidFormat)
    } else {
        let key_len = be32_at(buf, 1);
        let val_len = be32_at(buf, 5);
        let end = HEADER_LEN + key_len + val_len;
        if end + CHECKSUM_LEN > buf.len() {
            Err(DatabaseError::CorruptedData)
        } else if checksum(buf.subrange(0, end)) != be32_at(buf, end) {
            Err(DatabaseError::CorruptedData)
        } else if buf[0] == 1 {
            Ok(None)
        } else if buf[0] != 0 {
            Err(DatabaseError::InvalidFormat)
        } else if buf.subrange(HEADER_LEN as int, HEADER_LEN + key_len) != key {
            Ok(None)
        } else {
            match lz77_decoding(buf.subrange(HEADER_LEN + key_len, end)) {
                Some(v) => Ok(Some(v)),
                None => Err(DatabaseError::InvalidFormat),
            }
        }
    }
}

// ---------------------------------------------------------------------------
// Executable framing

fn push_be32(buf: &mut Vec<u8>, v: u32)
    ensures
        final(buf)@ == old(buf)@ + be32(v as nat),
{
    buf.push((v / 0x100_0000 % 256) as u8);
    buf.push((v / 0x1_0000 % 256) as u8);
    buf.push((v / 0x100 % 256) as u8);
    buf.push((v % 256) as u8);
    proof {
        assert(final(buf)@ =~= old(buf)@ + be32(v as nat));
    }
}

pub(crate) fn push_all(buf: &mut Vec<u8>, bytes: &[u8])
    ensures
        final(buf)@ == old(buf)@ + bytes@,
{
    let ghost start = buf@;
    let mut k: usize = 0;
    while k < bytes.len()
        invariant
            k <= bytes@.len(),
            buf@ == start + bytes@.subrange(0, k as int),
        decreases bytes@.len() - k,
    {
        buf.push(bytes[k]);
        k += 1;
        proof {
            assert(bytes@.subrange(0, k as int) =~= bytes@.subrange(0, k - 1).push(bytes@[k - 1]));
        }
    }
    proof {
        assert(bytes@.subrange(0, k as int) =~= bytes@);
    }
}

proof fn lemma_byte_sum_push(s: Seq<u8>, b: u8)
    ensures
        byte_sum(s.push(b)) == byte_sum(s) + b,
{
    assert(s.push(b).drop_last() =~= s);
}

/// The checksum of `bytes[0..end]`.
pub(crate) fn sum_bytes(bytes: &[u8], end: usize) -> (r: u32)
    requires
        end <= bytes@.len(),
    ensures
        r == checksum(bytes@.subrange(0, end as int)),
{
    let mut sum: u32 = 0;
    let mut k: usize = 0;
    while k < end
        invariant
            end <= bytes@.len(),
            k <= end,
            sum == checksum(bytes@.subrange(0, k as int)),
        decreases end - k,
    {
        let ghost prefix = bytes@.subrange(0, k as int);
        proof {
            assert(bytes@.subrange(0, k + 1) =~= prefix.push(bytes@[k as int]));
            lemma_byte_sum_push(prefix, bytes@[k as int]);
        }
        sum = sum.wrapping_add(bytes[k] as u32);
        k += 1;
    }
    sum
}

impl DataEntry {
    /// Serialises the record as a frame; its value goes through the LZ77
    /// codec, and each length field holds its length modulo 2^32.
    pub fn to_bytes(&self) -> (r: Vec<u8>)
        ensures
            r@ == record_frame(self.entry_type, self.key@, self.value@),
    {
        let mut buffer: Vec<u8> = Vec::new();
        let type_byte: u8 = match self.entry_type {
            EntryType::Data => 0,
            EntryType::Tombstone => 1,
        };
        buffer.push(type_byte);

        let encoded_value = Lz77::encode(self.value.as_slice());
        let key_len = (self.key.len() as u64 % TWO_POW_32) as u32;
        let val_len = (encoded_value.len() as u64 % TWO_POW_32) as u32;
        push_be32(&mut buffer, key_len);
        push_be32(&mut buffer, val_len);
        push_all(&mut buffer, self.key.as_slice());
        push_all(&mut buffer, encoded_value.as_slice());

        let checksum = sum_bytes(buffer.as_slice(), buffer.len());
        proof {
            assert(buffer@.subrange(0, buffer@.len() as int) =~= buffer@);
            reveal(frame_body);
            assert(buffer@ =~= frame_body(self.entry_type, self.key@, encoded_value@));
        }
        push_be32(&mut buffer, checksum);
        buffer
    }
}


/// The big-endian integer in `bytes[at..at + 4]`.
pub fn read_be32(bytes: &[u8], at: usize) -> (r: u32)
    requires
        at + 4 <= bytes@.len(),
    ensures
        r == be32_at(bytes@, at as int),
{
    (bytes[at] as u32) * 0x100_0000 + (bytes[at + 1] as u32) * 0x1_0000 + (bytes[at + 2] as u32)
        * 0x100 + (bytes[at + 3] as u32)
}

/// Whether `a` and `b` hold the same bytes.
pub fn bytes_eq(a: &[u8], b: &[u8]) -> (r: bool)
    ensures
        r == (a@ == b@),
{
    if a.len() != b.len() {
        return false;
    }
    let mut k: usize = 0;
    while k < a.len()
        invariant
            a@.len() == b@.len(),
            k <= a@.len(),
            a@.subrange(0, k as int) == b@.subrange(0, k as int),
        decreases a@.len() - k,
    {
        if a[k] != b[k] {
            assert(a@[k as int] != b@[k as int]);
            return false;
        }
        k += 1;
        proof {
            assert(a@.subrange(0, k as int) =~= a@.subrange(0, k - 1).push(a@[k - 1]));
            assert(b@.subrange(0, k as int) =~= b@.subrange(0, k - 1).push(b@[k - 1]));
        }
    }
    proof {
        assert(a@.subrange(0, k as int) =~= a@);
        assert(b@.subrange(0, k as int) =~= b@);
    }
    true
}

/// The bytes `bytes[from..to]` as a vector of their own.
pub fn copy_range(bytes: &[u8], from: usize, to: usize) -> (r: Vec<u8>)
    requires
        from <= to <= bytes@.len(),
    ensures
        r@ == bytes@.subrange(from as int, to as int),
{
    let mut out: Vec<u8> = Vec::new();
    let mut k: usize = from;
    while k < to
        invariant
            from <= k <= to <= bytes@.len(),
            out@ == bytes@.subrange(from as int, k as int),
        decreases to - k,
    {
        out.push(bytes[k]);
        k += 1;
        proof {
            assert(bytes@.subrange(from as int, k as int) =~= bytes@.subrange(from as int, k - 1).push(
                bytes@[k - 1],
            ));
        }
    }
    out
}

/// Reads the frame `buffer` under `key`, as `decode_frame` says.
pub fn decode_buffer(buffer: &[u8], key: &[u8]) -> (r: Result<Option<Vec<u8>>, DatabaseError>)
    ensures
        match r {
            Ok(Some(v)) => decode_frame(buffer@, key@) == Ok::<_, DatabaseError>(Some(v@)),
            Ok(None) => decode_frame(buffer@, key@) == Ok::<Option<Seq<u8>>, DatabaseError>(None),
            Err(e) => decode_frame(buffer@, key@) == Err::<Option<Seq<u8>>, _>(e),
        },
{
    if buffer.len() < HEADER_LEN {
        return Err(DatabaseError::InvalidFormat);
    }
    let key_len = read_be32(buffer, 1) as usize;
    let value_len = read_be32(buffer, 5) as usize;
    let room = buffer.len() - HEADER_LEN;
    if room < CHECKSUM_LEN || key_len > room - CHECKSUM_LEN || value_len > room - CHECKSUM_LEN
        - key_len {
        return Err(DatabaseError::CorruptedData);
    }
    let key_end = HEADER_LEN + key_len;
    let value_end = key_end + value_len;
    let sum = sum_bytes(buffer, value_end);
    let stored = read_be32(buffer, value_end);
    if sum != stored {
        return Err(DatabaseError::CorruptedData);
    }
    if buffer[0] == 1 {
        return Ok(None);
    }
    if buffer[0] != 0 {
        return Err(DatabaseError::InvalidFormat);
    }
    let stored_key = slice_range(buffer, HEADER_LEN, key_end);
    if !bytes_eq(stored_key, key) {
        return Ok(None);
    }
    let payload = slice_range(buffer, key_end, value_end);
    match Lz77::decode(payload) {
        Ok(v) => Ok(Some(v)),
        Err(e) => Err(e),
    }
}

pub(crate) fn slice_range(bytes: &[u8], from: usize, to: usize) -> (r: &[u8])
    requires
        from <= to <= bytes@.len(),
    ensures
        r@ == bytes@.subrange(from as int, to as int),
{
    &bytes[from..to]
}

// ---------------------------------------------------------------------------
// Facts about frames

proof fn lemma_be32(s: Seq<u8>, at: int, v: nat)
    requires
        v < TWO_POW_32,
        0 <= at,
        at + 4 <= s.len(),
        s.subrange(at, at + 4) == be32(v),
    ensures
        be32_at(s, at) == v,
{
    assert(s[at] == be32(v)[0]);
    assert(s[at + 1] == be32(v)[1]);
    assert(s[at + 2] == be32(v)[2]);
    assert(s[at + 3] == be32(v)[3]);
    assert((v / 0x100_0000 % 256) * 0x100_0000 + (v / 0x1_0000 % 256) * 0x1_0000 + (v / 0x100
        % 256) * 0x100 + v % 256 == v) by (nonlinear_arith)
        requires
            v < 0x1_0000_0000,
    ;
}

/// The length of a frame.
pub proof fn lemma_frame_len(kind: EntryType, key: Seq<u8>, payload: Seq<u8>)
    ensures
        frame(kind, key, payload).len() == HEADER_LEN + key.len() + payload.len() + CHECKSUM_LEN,
        frame_body(kind, key, payload).len() == HEADER_LEN + key.len() + payload.len(),
{
    reveal(frame_body);
}

/// A record's frame is at most its key, three times its value, and 13 bytes long.
pub proof fn lemma_record_frame_len(kind: EntryType, key: Seq<u8>, value: Seq<u8>)
    ensures
        record_frame(kind, key, value).len() <= HEADER_LEN + key.len() + 3 * value.len()
            + CHECKSUM_LEN,
{
    lemma_encoding_len(value);
    lemma_frame_len(kind, key, lz77_encoding(value));
}

/// What a reader finds in a frame whose lengths fit their fields: its
/// length fields, its kind, its key, its payload and a matching checksum.
pub proof fn lemma_frame_fields(kind: EntryType, key: Seq<u8>, payload: Seq<u8>)
    requires
        lengths_fit(key, payload),
    ensures
        ({
            let f = frame(kind, key, payload);
            let end = HEADER_LEN + key.len() + payload.len();
            &&& f.len() == end + CHECKSUM_LEN
            &&& f[0] == kind_tag(kind)
            &&& be32_at(f, 1) == key.len()
            &&& be32_at(f, 5) == payload.len()
            &&& f.subrange(HEADER_LEN as int, HEADER_LEN + key.len()) == key
            &&& f.subrange(HEADER_LEN + key.len(), end) == payload
            &&& checksum(f.subrange(0, end)) == be32_at(f, end)
            &&& f.subrange(0, end) == frame_body(kind, key, payload)
        }),
{
    lemma_body_fields(kind, key, payload);
    let body = frame_body(kind, key, payload);
    let cs = checksum(body);
    let f = frame(kind, key, payload);
    let end = HEADER_LEN + key.len() + payload.len();
    assert(f == body + be32(cs));
    assert(f[0] == body[0]);
    assert(be32_at(f, 1) == be32_at(body, 1));
    assert(be32_at(f, 5) == be32_at(body, 5));
    assert(f.subrange(HEADER_LEN as int, HEADER_LEN + key.len()) =~= body.subrange(
        HEADER_LEN as int,
        HEADER_LEN + key.len(),
    ));
    assert(f.subrange(HEADER_LEN + key.len(), end as int) =~= body.subrange(
        HEADER_LEN + key.len(),
        end as int,
    ));
    assert(f.subrange(0, end as int) =~= body);
    assert(f.subrange(end as int, end + 4) =~= be32(cs));
    lemma_be32(f, end as int, cs);
}

/// What a reader finds in the body of a frame whose lengths fit their fields.
pub proof fn lemma_body_fields(kind: EntryType, key: Seq<u8>, payload: Seq<u8>)
    requires
        lengths_fit(key, payload),
    ensures
        ({
            let b = frame_body(kind, key, payload);
            let end = HEADER_LEN + key.len() + payload.len();
            &&& b.len() == end
            &&& b[0] == kind_tag(kind)
            &&& be32_at(b, 1) == key.len()
            &&& be32_at(b, 5) == payload.len()
            &&& b.subrange(HEADER_LEN as int, HEADER_LEN + key.len()) == key
            &&& b.subrange(HEADER_LEN + key.len(), end as int) == payload
        }),
{
    reveal(frame_body);
    let b = frame_body(kind, key, payload);
    assert(b.subrange(HEADER_LEN + key.len(), b.len() as int) =~= payload);
    assert(b.subrange(1, 5) =~= be32(key.len() % (TWO_POW_32 as nat)));
    assert(b.subrange(5, 9) =~= be32(payload.len() % (TWO_POW_32 as nat)));
    lemma_be32(b, 1, key.len());
    lemma_be32(b, 5, payload.len());
    assert(b.subrange(HEADER_LEN as int, HEADER_LEN + key.len()) =~= key);
}

/// Reading back the frame written for `(kind, key, value)` under a key `probe`:
/// the value for a data frame read under its own key, absent otherwise.
pub proof fn lemma_frame_round_trip(kind: EntryType, key: Seq<u8>, value: Seq<u8>, probe: Seq<u8>)
    requires
        lengths_fit(key, lz77_encoding(value)),
    ensures
        decode_frame(record_frame(kind, key, value), probe) == if kind == EntryType::Data && probe
            == key {
            Ok::<_, DatabaseError>(Some(value))
        } else {
            Ok(None)
        },
{
    lemma_frame_fields(kind, key, lz77_encoding(value));
    lemma_round_trip(value);
}

proof fn lemma_byte_sum_update(s: Seq<u8>, i: int, b: u8)
    requires
        0 <= i < s.len(),
    ensures
        byte_sum(s.update(i, b)) + s[i] == byte_sum(s) + b,
    decreases s.len(),
{
    let t = s.update(i, b);
    if i == s.len() - 1 {
        assert(t.drop_last() =~= s.drop_last());
    } else {
        assert(t.drop_last() =~= s.drop_last().update(i, b));
        lemma_byte_sum_update(s.drop_last(), i, b);
    }
}

/// Changing any one byte of a frame before its checksum makes the checksum
/// of the changed bytes differ from the checksum field, which is left as it was.
pub proof fn lemma_checksum_detects_change(
    kind: EntryType,
    key: Seq<u8>,
    payload: Seq<u8>,
    i: int,
    b: u8,
)
    requires
        lengths_fit(key, payload),
        0 <= i < HEADER_LEN + key.len() + payload.len(),
        b != frame(kind, key, payload)[i],
    ensures
        ({
            let f = frame(kind, key, payload);
            let g = f.update(i, b);
            let end = HEADER_LEN + key.len() + payload.len();
            checksum(g.subrange(0, end)) != be32_at(g, end)
        }),
{
    let f = frame(kind, key, payload);
    let g = f.update(i, b);
    let end = HEADER_LEN + key.len() + payload.len();
    lemma_frame_fields(kind, key, payload);
    assert(g.subrange(0, end) =~= f.subrange(0, end).update(i, b));
    lemma_byte_sum_update(f.subrange(0, end), i, b);
    assert(be32_at(g, end) == be32_at(f, end));
    let m = TWO_POW_32 as int;
    let x = byte_sum(f.subrange(0, end)) as int;
    let y = byte_sum(g.subrange(0, end)) as int;
    assert(y - x == b - f[i]);
    assert(y % m != x % m) by (nonlinear_arith)
        requires
            y - x == b - f[i],
            -256 < y - x < 256,
            y != x,
            m == 0x1_0000_0000,
            x >= 0,
            y >= 0,
    ;
}

} // verus!
