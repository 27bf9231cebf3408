//! Single-window LZ77 value codec.
//!
//! An encoded block is a sequence of chunks. A literal chunk is `0x00`, a
//! length `n` in `1..=255` and `n` raw bytes. A back-reference chunk is
//! `0x01`, a big-endian distance in `1..=4095` and a length in `1..=255`; it
//! copies bytes one at a time from `distance` bytes before the end of the
//! output decoded so far, so the copied run may overlap what it produces.
use vstd::prelude::*;

use crate::error::DatabaseError;

verus! {

/// How far back the encoder looks for a match.
pub const WINDOW: usize = 4095;

/// Longest run a single chunk can carry.
pub const MAX_RUN: usize = 255;

/// Shortest match worth a back-reference.
pub const MIN_MATCH: usize = 3;

// ---------------------------------------------------------------------------
// Decoding, as a mathematical function

/// `out` extended by `n` bytes, each copied from `d` bytes before the
/// current end (so a copied byte may itself have been copied).
pub open spec fn copy_back(out: Seq<u8>, d: nat, n: nat) -> Seq<u8>
    decreases n,
{
    if n == 0 {
        out
    } else {
        let o = copy_back(out, d, (n - 1) as nat);
        o.push(o[o.len() - d])
    }
}

/// Decodes the chunks of `s`, appending to the output `out` decoded so far;
/// `None` if `s` is malformed.
pub open spec fn decode_from(s: Seq<u8>, out: Seq<u8>) -> Option<Seq<u8>>
    decreases s.len(),
{
    if s.len() == 0 {
        Some(out)
    } else if s[0] == 0 {
        if s.len() < 2 {
            None
        } else {
            let n = s[1] as int;
            if n == 0 || s.len() < 2 + n {
                None
            } else {
                decode_from(s.subrange(2 + n, s.len() as int), out + s.subrange(2, 2 + n))
            }
        }
    } else if s[0] == 1 {
        if s.len() < 4 {
            None
        } else {
            let d = s[1] * 256 + s[2];
            let n = s[3] as nat;
            if d == 0 || n == 0 || d > out.len() {
                None
            } else {
                decode_from(s.subrange(4, s.len() as int), copy_back(out, d as nat, n))
            }
        }
    } else {
        None
    }
}

/// The bytes that the encoded block `s` stands for, or `None` if it is malformed.
pub open spec fn lz77_decoding(s: Seq<u8>) -> Option<Seq<u8>> {
    decode_from(s, Seq::empty())
}

// ---------------------------------------------------------------------------
// Encoding, as a mathematical function

/// Length of the common run of `x` at `j` and at `p`, counted on from `l`,
/// capped at `MAX_RUN` and at the end of `x`.
pub open spec fn run_from(x: Seq<u8>, j: int, p: int, l: nat) -> nat
    decreases MAX_RUN - l,
{
    if l < MAX_RUN && p + l < x.len() && x[j + l] == x[p + l] {
        run_from(x, j, p, l + 1)
    } else {
        l
    }
}

/// Length of the match for position `p` at distance `d`.
pub open spec fn match_len(x: Seq<u8>, p: int, d: int) -> nat {
    run_from(x, p - d, p, 0)
}

/// The best `(distance, length)` for position `p` among distances `1..=upto`:
/// the longest match, and among the longest the nearest; `(0, 0)` when no
/// distance matches even one byte.
pub open spec fn best_match(x: Seq<u8>, p: int, upto: nat) -> (nat, nat)
    decreases upto,
{
    if upto == 0 {
        (0, 0)
    } else {
        let prev = best_match(x, p, (upto - 1) as nat);
        let l = match_len(x, p, upto as int);
        if l > prev.1 {
            (upto, l)
        } else {
            prev
        }
    }
}

/// Farthest distance the encoder considers at position `p`.
pub open spec fn reach(p: nat) -> nat {
    if p < WINDOW {
        p
    } else {
        WINDOW as nat
    }
}

/// The match the encoder takes at position `p`.
pub open spec fn longest_match(x: Seq<u8>, p: nat) -> (nat, nat) {
    best_match(x, p as int, reach(p))
}

/// A literal chunk for the pending bytes `lits`, or nothing if there are none.
pub open spec fn literal_chunk(lits: Seq<u8>) -> Seq<u8> {
    if lits.len() == 0 {
        Seq::empty()
    } else {
        seq![0u8, lits.len() as u8] + lits
    }
}

/// A back-reference chunk.
pub open spec fn backref_chunk(d: nat, n: nat) -> Seq<u8> {
    seq![1u8, (d / 256) as u8, (d % 256) as u8, n as u8]
}

/// The encoding of `x` from position `i` on, with the literal bytes `lits`
/// still pending. (A match never runs past the end of `x`; the test
/// `i + n <= x.len()` only lets the definition see that it terminates.)
pub open spec fn encode_from(x: Seq<u8>, i: nat, lits: Seq<u8>) -> Seq<u8>
    decreases x.len() - i,
{
    if i >= x.len() {
        literal_chunk(lits)
    } else {
        let (d, n) = longest_match(x, i);
        if n >= MIN_MATCH && i + n <= x.len() {
            literal_chunk(lits) + backref_chunk(d, n) + encode_from(x, i + n, Seq::empty())
        } else {
            let more = lits.push(x[i as int]);
            if more.len() == MAX_RUN {
                literal_chunk(more) + encode_from(x, i + 1, Seq::empty())
            } else {
                encode_from(x, i + 1, more)
            }
        }
    }
}

/// The encoding of `x`: a greedy left-to-right parse that takes the longest
/// match of at least `MIN_MATCH` bytes (nearest first on ties) and otherwise
/// gathers literal bytes in chunks of at most `MAX_RUN`.
pub open spec fn lz77_encoding(x: Seq<u8>) -> Seq<u8> {
    encode_from(x, 0, Seq::empty())
}

// ---------------------------------------------------------------------------
// Facts about matches

proof fn lemma_run_from(x: Seq<u8>, j: int, p: int, l: nat)
    requires
        0 <= j < p,
        l <= MAX_RUN,
        p + l <= x.len(),
        x.subrange(j, j + l) == x.subrange(p, p + l),
    ensures
        l <= run_from(x, j, p, l) <= MAX_RUN,
        p + run_from(x, j, p, l) <= x.len(),
        x.subrange(j, j + run_from(x, j, p, l)) == x.subrange(p, p + run_from(x, j, p, l)),
    decreases MAX_RUN - l,
{
    if l < MAX_RUN && p + l < x.len() && x[j + l] == x[p + l] {
        assert(x.subrange(j, j + l + 1) =~= x.subrange(j, j + l).push(x[j + l]));
        assert(x.subrange(p, p + l + 1) =~= x.subrange(p, p + l).push(x[p + l]));
        lemma_run_from(x, j, p, l + 1);
    }
}

proof fn lemma_best_match(x: Seq<u8>, p: int, upto: nat)
    requires
        upto <= p <= x.len(),
    ensures
        best_match(x, p, upto).1 <= MAX_RUN,
        best_match(x, p, upto).1 > 0 ==> {
            let (d, n) = best_match(x, p, upto);
            &&& 1 <= d <= upto
            &&& p + n <= x.len()
            &&& x.subrange(p - d, p - d + n) == x.subrange(p, p + n)
        },
    decreases upto,
{
    if upto > 0 {
        lemma_best_match(x, p, (upto - 1) as nat);
        assert(x.subrange(p - upto, p - upto) =~= x.subrange(p, p));
        lemma_run_from(x, p - upto, p, 0);
    }
}

proof fn lemma_best_match_full(x: Seq<u8>, p: int, k: nat, upto: nat)
    requires
        k <= upto,
        best_match(x, p, k).1 == MAX_RUN,
        upto <= p <= x.len(),
    ensures
        best_match(x, p, upto) == best_match(x, p, k),
    decreases upto,
{
    if upto > k {
        lemma_best_match_full(x, p, k, (upto - 1) as nat);
        assert(x.subrange(p - upto, p - upto) =~= x.subrange(p, p));
        lemma_run_from(x, p - upto, p, 0);
    }
}

// ---------------------------------------------------------------------------
// Executable codec

fn find_longest_match(input: &[u8], pos: usize) -> (r: (usize, usize))
    requires
        pos <= input@.len(),
    ensures
        r.0 == longest_match(input@, pos as nat).0,
        r.1 == longest_match(input@, pos as nat).1,
{
    let ghost x = input@;
    let upto: usize = if pos < WINDOW {
        pos
    } else {
        WINDOW
    };
    let mut best_dist: usize = 0;
    let mut best_len: usize = 0;
    let mut d: usize = 1;
    while d <= upto
        invariant_except_break
            1 <= d <= upto + 1,
            (best_dist as nat, best_len as nat) == best_match(x, pos as int, (d - 1) as nat),
        invariant
            x == input@,
            pos <= x.len(),
            upto == reach(pos as nat),
        ensures
            (best_dist as nat, best_len as nat) == longest_match(x, pos as nat),
        decreases upto + 1 - d,
    {
        let j = pos - d;
        let mut len: usize = 0;
        while len < MAX_RUN && len < input.len() - pos && input[j + len] == input[pos + len]
            invariant
                x == input@,
                j + d == pos,
                pos <= x.len(),
                len <= MAX_RUN,
                pos + len <= x.len(),
                run_from(x, j as int, pos as int, len as nat) == match_len(x, pos as int, d as int),
            decreases MAX_RUN - len,
        {
            len += 1;
        }
        proof {
            lemma_best_match(x, pos as int, (d - 1) as nat);
        }
        if len > best_len {
            best_len = len;
            best_dist = d;
            if best_len == MAX_RUN {
                proof {
                    lemma_best_match_full(x, pos as int, d as nat, upto as nat);
                }
                break;
            }
        }
        d += 1;
    }
    (best_dist, best_len)
}


fn emit_literals(out: &mut Vec<u8>, literals: &mut Vec<u8>)
    requires
        0 < old(literals)@.len() <= MAX_RUN,
    ensures
        final(out)@ == old(out)@ + literal_chunk(old(literals)@),
        final(literals)@ == Seq::<u8>::empty(),
{
    let ghost start = out@;
    out.push(0);
    out.push(literals.len() as u8);
    let mut k: usize = 0;
    while k < literals.len()
        invariant
            k <= literals@.len(),
            out@ == start + seq![0u8, literals@.len() as u8] + literals@.subrange(0, k as int),
        decreases literals@.len() - k,
    {
        out.push(literals[k]);
        k += 1;
        proof {
            assert(literals@.subrange(0, k as int) =~= literals@.subrange(0, k - 1).push(literals@[k - 1]));
        }
    }
    proof {
        assert(literals@.subrange(0, k as int) =~= literals@);
        assert(start + literal_chunk(literals@) =~= start + seq![0u8, literals@.len() as u8] + literals@);
    }
    literals.clear();
}

fn push_backref(out: &mut Vec<u8>, dist: usize, len: usize)
    requires
        dist <= WINDOW,
        len <= MAX_RUN,
    ensures
        final(out)@ == old(out)@ + backref_chunk(dist as nat, len as nat),
{
    out.push(1);
    out.push((dist / 256) as u8);
    out.push((dist % 256) as u8);
    out.push(len as u8);
    proof {
        assert(final(out)@ =~= old(out)@ + backref_chunk(dist as nat, len as nat));
    }
}

/// Encodes `input` as the greedy parse described by `lz77_encoding`.
pub fn lz77_encode(input: &[u8]) -> (r: Vec<u8>)
    ensures
        r@ == lz77_encoding(input@),
{
    let ghost x = input@;
    let mut out: Vec<u8> = Vec::new();
    let mut literals: Vec<u8> = Vec::new();
    let mut i: usize = 0;
    while i < input.len()
        invariant
            x == input@,
            i <= x.len(),
            literals@.len() < MAX_RUN,
            out@ + encode_from(x, i as nat, literals@) == lz77_encoding(x),
        decreases x.len() - i,
    {
        let (dist, len) = find_longest_match(input, i);
        proof {
            lemma_best_match(x, i as int, reach(i as nat));
        }
        let ghost lits = literals@;
        let ghost before = out@;
        if len >= MIN_MATCH && len <= input.len() - i {
            if literals.len() > 0 {
                emit_literals(&mut out, &mut literals);
            } else {
                assert(literal_chunk(lits) =~= Seq::<u8>::empty());
                assert(literals@ =~= Seq::<u8>::empty());
                assert(out@ =~= before + literal_chunk(lits));
            }
            push_backref(&mut out, dist, len);
            proof {
                let rest = encode_from(x, (i + len) as nat, Seq::empty());
                assert(encode_from(x, i as nat, lits) == literal_chunk(lits) + backref_chunk(dist as nat, len as nat) + rest);
                assert(before + (literal_chunk(lits) + backref_chunk(dist as nat, len as nat) + rest)
                    =~= out@ + rest);
            }
            i += len;
        } else {
            literals.push(input[i]);
            assert(literals@ == lits.push(x[i as int]));
            if literals.len() == MAX_RUN {
                emit_literals(&mut out, &mut literals);
                proof {
                    let rest = encode_from(x, (i + 1) as nat, Seq::empty());
                    assert(encode_from(x, i as nat, lits) == literal_chunk(lits.push(x[i as int])) + rest);
                    assert(before + (literal_chunk(lits.push(x[i as int])) + rest) =~= out@ + rest);
                }
            } else {
                assert(encode_from(x, i as nat, lits) == encode_from(x, (i + 1) as nat, literals@));
            }
            i += 1;
        }
    }
    if literals.len() > 0 {
        emit_literals(&mut out, &mut literals);
    } else {
        assert(out@ + literal_chunk(literals@) =~= out@);
    }
    out
}


/// Decodes an encoded block; fails with `InvalidFormat` exactly when the
/// block is malformed.
pub fn lz77_decode(input: &[u8]) -> (r: Result<Vec<u8>, DatabaseError>)
    ensures
        match r {
            Ok(v) => lz77_decoding(input@) == Some(v@),
            Err(e) => lz77_decoding(input@) is None && e is InvalidFormat,
        },
{
    let ghost s = input@;
    let mut out: Vec<u8> = Vec::new();
    let mut i: usize = 0;
    proof {
        assert(s.subrange(0, s.len() as int) =~= s);
    }
    while i < input.len()
        invariant
            s == input@,
            i <= s.len(),
            decode_from(s.subrange(i as int, s.len() as int), out@) == lz77_decoding(s),
        decreases s.len() - i,
    {
        let ghost rest = s.subrange(i as int, s.len() as int);
        let tag = input[i];
        if tag == 0 {
            if input.len() - i < 2 {
                return Err(DatabaseError::InvalidFormat);
            }
            let len = input[i + 1] as usize;
            if len == 0 || input.len() - i - 2 < len {
                return Err(DatabaseError::InvalidFormat);
            }
            let ghost out0 = out@;
            let mut k: usize = 0;
            while k < len
                invariant
                    s == input@,
                    s.len() == input.len(),
                    i + 2 + len <= s.len(),
                    k <= len,
                    out@ == out0 + s.subrange(i + 2, i + 2 + k),
                decreases len - k,
            {
                out.push(input[i + 2 + k]);
                k += 1;
                proof {
                    assert(s.subrange(i + 2, i + 2 + k) =~= s.subrange(i + 2, i + 1 + k).push(
                        s[i + 1 + k],
                    ));
                }
            }
            proof {
                assert(rest.subrange(2 + len, rest.len() as int) =~= s.subrange(
                    i + 2 + len,
                    s.len() as int,
                ));
                assert(rest.subrange(2, 2 + len) =~= s.subrange(i + 2, i + 2 + len));
            }
            i = i + 2 + len;
        } else if tag == 1 {
            if input.len() - i < 4 {
                return Err(DatabaseError::InvalidFormat);
            }
            let dist = input[i + 1] as usize * 256 + input[i + 2] as usize;
            let len = input[i + 3] as usize;
            if dist == 0 || len == 0 || dist > out.len() {
                return Err(DatabaseError::InvalidFormat);
            }
            let ghost out0 = out@;
            let mut k: usize = 0;
            while k < len
                invariant
                    1 <= dist <= out0.len(),
                    k <= len,
                    out@ == copy_back(out0, dist as nat, k as nat),
                    out@.len() == out0.len() + k,
                decreases len - k,
            {
                let b = out[out.len() - dist];
                out.push(b);
                k += 1;
            }
            proof {
                assert(rest.subrange(4, rest.len() as int) =~= s.subrange(i + 4, s.len() as int));
            }
            i = i + 4;
        } else {
            return Err(DatabaseError::InvalidFormat);
        }
    }
    proof {
        assert(s.subrange(i as int, s.len() as int) =~= Seq::<u8>::empty());
    }
    Ok(out)
}

// ---------------------------------------------------------------------------
// Round trip

proof fn lemma_decode_literal(lits: Seq<u8>, rest: Seq<u8>, out: Seq<u8>)
    requires
        0 < lits.len() <= MAX_RUN,
    ensures
        decode_from(literal_chunk(lits) + rest, out) == decode_from(rest, out + lits),
{
    let s = literal_chunk(lits) + rest;
    assert(s[0] == 0);
    assert(s[1] == lits.len() as u8);
    assert(s.subrange(2 + lits.len() as int, s.len() as int) =~= rest);
    assert(s.subrange(2, 2 + lits.len() as int) =~= lits);
}

proof fn lemma_decode_backref(d: nat, n: nat, rest: Seq<u8>, out: Seq<u8>)
    requires
        1 <= d <= out.len(),
        d <= WINDOW,
        1 <= n <= MAX_RUN,
    ensures
        decode_from(backref_chunk(d, n) + rest, out) == decode_from(rest, copy_back(out, d, n)),
{
    let s = backref_chunk(d, n) + rest;
    assert(s[0] == 1);
    assert(s[1] == (d / 256) as u8);
    assert(s[2] == (d % 256) as u8);
    assert(s[3] == n as u8);
    assert((d / 256) * 256 + d % 256 == d) by (nonlinear_arith)
        requires
            d <= WINDOW,
    ;
    assert(s.subrange(4, s.len() as int) =~= rest);
}

proof fn lemma_copy_back_match(x: Seq<u8>, p: int, d: nat, n: nat)
    requires
        1 <= d <= p,
        p + n <= x.len(),
        x.subrange(p - d, p - d + n) == x.subrange(p, p + n),
    ensures
        copy_back(x.subrange(0, p), d, n) == x.subrange(0, p + n),
    decreases n,
{
    if n > 0 {
        assert(x.subrange(p - d, p - d + n - 1) =~= x.subrange(p - d, p - d + n).subrange(0, n - 1));
        assert(x.subrange(p, p + n - 1) =~= x.subrange(p, p + n).subrange(0, n - 1));
        lemma_copy_back_match(x, p, d, (n - 1) as nat);
        let a = x.subrange(p - d, p - d + n);
        let b = x.subrange(p, p + n);
        let last = n - 1;
        assert(a[last] == b[last]);
        assert(a[last] == x[p - d + last]);
        assert(b[last] == x[p + last]);
        let o = x.subrange(0, p + n - 1);
        assert(o[o.len() - d] == x[p + n - 1 - d]);
        assert(x.subrange(0, p + n) =~= o.push(x[p + n - 1]));
    }
}

proof fn lemma_encode_from_round_trip(x: Seq<u8>, i: nat, lits: Seq<u8>)
    requires
        i <= x.len(),
        lits.len() < MAX_RUN,
        lits.len() <= i,
        lits == x.subrange(i - lits.len(), i as int),
    ensures
        decode_from(encode_from(x, i, lits), x.subrange(0, i - lits.len())) == Some(x),
    decreases x.len() - i,
{
    let base = x.subrange(0, i - lits.len());
    assert(base + lits =~= x.subrange(0, i as int));
    if i >= x.len() {
        assert(x.subrange(0, i as int) =~= x);
        if lits.len() == 0 {
            assert(base =~= x);
        } else {
            lemma_decode_literal(lits, Seq::empty(), base);
            assert(literal_chunk(lits) + Seq::<u8>::empty() =~= literal_chunk(lits));
        }
    } else {
        let (d, n) = longest_match(x, i);
        lemma_best_match(x, i as int, reach(i));
        if n >= MIN_MATCH && i + n <= x.len() {
            let rest = encode_from(x, i + n, Seq::empty());
            assert(x.subrange(i + n as int, i + n as int) =~= Seq::<u8>::empty());
            lemma_encode_from_round_trip(x, i + n, Seq::empty());
            lemma_copy_back_match(x, i as int, d, n);
            lemma_decode_backref(d, n, rest, x.subrange(0, i as int));
            assert(literal_chunk(lits) + backref_chunk(d, n) + rest =~= literal_chunk(lits) + (
            backref_chunk(d, n) + rest));
            if lits.len() > 0 {
                lemma_decode_literal(lits, backref_chunk(d, n) + rest, base);
            } else {
                assert(literal_chunk(lits) + (backref_chunk(d, n) + rest) =~= backref_chunk(d, n)
                    + rest);
                assert(base =~= x.subrange(0, i as int));
            }
        } else {
            let more = lits.push(x[i as int]);
            assert(more =~= x.subrange(i + 1 - more.len(), i + 1 as int));
            if more.len() == MAX_RUN {
                let rest = encode_from(x, i + 1, Seq::empty());
                assert(x.subrange(i + 1 as int, i + 1 as int) =~= Seq::<u8>::empty());
                lemma_encode_from_round_trip(x, i + 1, Seq::empty());
                lemma_decode_literal(more, rest, base);
                assert(base + more =~= x.subrange(0, i + 1 as int));
            } else {
                lemma_encode_from_round_trip(x, i + 1, more);
            }
        }
    }
}

/// Decoding the encoding of any byte string gives that byte string back.
pub proof fn lemma_round_trip(x: Seq<u8>)
    ensures
        lz77_decoding(lz77_encoding(x)) == Some(x),
{
    assert(x.subrange(0, 0) =~= Seq::<u8>::empty());
    lemma_encode_from_round_trip(x, 0, Seq::empty());
}


proof fn lemma_encode_from_len(x: Seq<u8>, i: nat, lits: Seq<u8>)
    requires
        i <= x.len(),
        lits.len() < MAX_RUN,
    ensures
        encode_from(x, i, lits).len() <= 3 * (x.len() - i) + lits.len() + if lits.len() > 0 {
            2int
        } else {
            0int
        },
    decreases x.len() - i,
{
    if i < x.len() {
        let (d, n) = longest_match(x, i);
        if n >= MIN_MATCH && i + n <= x.len() {
            lemma_encode_from_len(x, i + n, Seq::empty());
        } else {
            let more = lits.push(x[i as int]);
            if more.len() == MAX_RUN {
                lemma_encode_from_len(x, i + 1, Seq::empty());
            } else {
                lemma_encode_from_len(x, i + 1, more);
            }
        }
    }
}

/// An encoding is at most three times as long as what it encodes.
pub proof fn lemma_encoding_len(x: Seq<u8>)
    ensures
        lz77_encoding(x).len() <= 3 * x.len(),
{
    lemma_encode_from_len(x, 0, Seq::empty());
}

} // verus!
