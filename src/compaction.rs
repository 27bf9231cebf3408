//! The proof that compaction keeps every read: the facts that hold of the
//! new log and index after each key that compaction visits.
use vstd::prelude::*;

use crate::codec::{lemma_frame_len, record_frame, EntryType};
use crate::db::{
    appended_entry, canonical_in, carries, compactable_in, compacted, compaction_owed, frames_len,
    holds_value, indexes, lemma_append_lookups, lookup_in,
};
use crate::error::DatabaseError;
use crate::index::KeyIndex;
use crate::log::{
    entry_in_log, lemma_chain_disjoint, lemma_index_entries, lemma_live_data_append,
    live_data_from, recover, IndexEntry, MAX_FRAME,
};
use crate::lz77::lz77_encoding;

verus! {

/// Keys in the order compaction visits them: every key of the index once,
/// in ascending order of offset.
pub open spec fn visit_order(index: Map<Seq<u8>, IndexEntry>, ks: Seq<Seq<u8>>) -> bool {
    &&& forall|j: int, l: int| 0 <= j < l < ks.len() ==> #[trigger] ks[j] != #[trigger] ks[l]
    &&& forall|j: int| 0 <= j < ks.len() ==> #[trigger] index.contains_key(ks[j])
    &&& forall|k: Seq<u8>| #[trigger] index.contains_key(k) ==> exists|j: int| 0 <= j < ks.len() && #[trigger] ks[j] == k
    &&& forall|j: int, l: int|
        0 <= j < l < ks.len() ==> #[trigger] index[ks[j]].offset <= #[trigger] index[ks[l]].offset
}

/// Whether `k` is among the first `i` keys of `ks`.
pub open spec fn seen_before(ks: Seq<Seq<u8>>, i: int, k: Seq<u8>) -> bool {
    exists|j: int| 0 <= j < i && #[trigger] ks[j] == k
}

/// Where the last of the first `i` visited records ends in the old log.
pub open spec fn visited_end(index: Map<Seq<u8>, IndexEntry>, ks: Seq<Seq<u8>>, i: int) -> int {
    if i <= 0 {
        0
    } else {
        index[ks[i - 1]].offset + index[ks[i - 1]].size
    }
}

/// What holds of the new log and index after compaction has visited the
/// first `i` keys of `ks`.
#[verifier::opaque]
pub open spec fn progress(
    log: Seq<u8>,
    index: Map<Seq<u8>, IndexEntry>,
    ks: Seq<Seq<u8>>,
    i: int,
    nlog: Seq<u8>,
    nidx: Map<Seq<u8>, IndexEntry>,
) -> bool {
    &&& 0 <= i <= ks.len()
    &&& indexes(nlog, nidx)
    &&& canonical_in(nlog, nidx)
    &&& live_data_from(nlog, 0, nidx)
    &&& forall|j: int| 0 <= j < i ==> carries(log, index, #[trigger] ks[j])
    &&& forall|k: Seq<u8>|
        #[trigger] nidx.contains_key(k) <==> (seen_before(ks, i, k) && holds_value(
            lookup_in(log, index, k),
        ))
    &&& forall|k: Seq<u8>|
        #[trigger] nidx.contains_key(k) ==> lookup_in(nlog, nidx, k) == lookup_in(log, index, k)
    &&& forall|k1: Seq<u8>, k2: Seq<u8>|
        #[trigger] nidx.contains_key(k1) && #[trigger] nidx.contains_key(k2) && index[k1].offset
            < index[k2].offset ==> nidx[k1].offset < nidx[k2].offset
    &&& i > 0 ==> forall|k: Seq<u8>|
        #[trigger] nidx.contains_key(k) ==> index[k].offset <= index[ks[i - 1]].offset
    &&& canonical_in(log, index) ==> nlog.len() <= visited_end(index, ks, i)
    &&& nlog.len() == frames_len(log, index, ks.subrange(0, i))
}

/// Two keys of an index rebuilt from its log have records at different offsets.
pub(crate) proof fn lemma_distinct_offsets(
    log: Seq<u8>,
    index: Map<Seq<u8>, IndexEntry>,
    k1: Seq<u8>,
    k2: Seq<u8>,
)
    requires
        log.len() <= u64::MAX,
        indexes(log, index),
        index.contains_key(k1),
        index.contains_key(k2),
        k1 != k2,
    ensures
        index[k1].offset != index[k2].offset,
{
    lemma_index_entries(log, index);
    assert(entry_in_log(log, k1, index[k1], log.len()));
    assert(entry_in_log(log, k2, index[k2], log.len()));
}

/// The slots of an index in ascending order of offset give the keys in the
/// order compaction visits them.
pub(crate) proof fn lemma_order_keys(ix: &KeyIndex, order: Seq<usize>)
    requires
        ix.wf(),
        order.len() == ix.slots(),
        forall|j: int| 0 <= j < order.len() ==> #[trigger] order[j] < ix.slots(),
        forall|j: int, l: int| 0 <= j < l < order.len() ==> #[trigger] order[j] != #[trigger] order[l],
        forall|t: usize| t < ix.slots() ==> #[trigger] order.contains(t),
        forall|j: int, l: int|
            0 <= j < l < order.len() ==> #[trigger] ix.entry_at(order[j] as int).offset
                <= #[trigger] ix.entry_at(order[l] as int).offset,
    ensures
        ({
            let ks = Seq::new(order.len(), |j: int| ix.key_at(order[j] as int));
            &&& visit_order(ix@, ks)
            &&& forall|j: int|
                0 <= j < ks.len() ==> #[trigger] order[j] < ix.slots() && ks[j] == ix.key_at(
                    order[j] as int,
                ) && ix@.contains_key(ks[j]) && ix@[ks[j]] == ix.entry_at(order[j] as int)
        }),
{
    let ks = Seq::new(order.len(), |j: int| ix.key_at(order[j] as int));
    ix.lemma_slots();
    assert forall|j: int| 0 <= j < ks.len() implies #[trigger] order[j] < ix.slots() && ks[j]
        == ix.key_at(order[j] as int) && ix@.contains_key(ks[j]) && ix@[ks[j]] == ix.entry_at(
        order[j] as int,
    ) by {
        assert(ix@.contains_key(ix.key_at(order[j] as int)));
    }
    assert forall|j: int, l: int| 0 <= j < l < ks.len() implies #[trigger] ks[j]
        != #[trigger] ks[l] by {
        assert(order[j] != order[l]);
        assert(ix.key_at(order[j] as int) != ix.key_at(order[l] as int));
    }
    assert forall|k: Seq<u8>| #[trigger] ix@.contains_key(k) implies exists|j: int|
        0 <= j < ks.len() && #[trigger] ks[j] == k by {
        let t = choose|t: int| 0 <= t < ix.slots() && #[trigger] ix.key_at(t) == k;
        assert(order.contains(t as usize));
        let j = choose|j: int| 0 <= j < order.len() && order[j] == t as usize;
        assert(ks[j] == k);
    }
    assert forall|j: int, l: int| 0 <= j < l < ks.len() implies #[trigger] ix@[ks[j]].offset
        <= #[trigger] ix@[ks[l]].offset by {
        assert(ix@[ks[j]] == ix.entry_at(order[j] as int));
        assert(ix@[ks[l]] == ix.entry_at(order[l] as int));
    }
}

pub(crate) proof fn lemma_progress_start(log: Seq<u8>, index: Map<Seq<u8>, IndexEntry>, ks: Seq<Seq<u8>>)
    ensures
        progress(log, index, ks, 0, Seq::empty(), Map::empty()),
{
    reveal(progress);
    assert(recover(Seq::<u8>::empty()) == Ok::<_, DatabaseError>(
        (Map::<Seq<u8>, IndexEntry>::empty(), 0nat),
    ));
    assert(ks.subrange(0, 0) =~= Seq::<Seq<u8>>::empty());
}

/// The frames for a prefix of `ks` are no longer than those for all of `ks`.
pub(crate) proof fn lemma_frames_len_prefix(
    log: Seq<u8>,
    index: Map<Seq<u8>, IndexEntry>,
    ks: Seq<Seq<u8>>,
    i: int,
)
    requires
        0 <= i <= ks.len(),
    ensures
        frames_len(log, index, ks.subrange(0, i)) <= frames_len(log, index, ks),
    decreases ks.len(),
{
    if i == ks.len() {
        assert(ks.subrange(0, i) =~= ks);
    } else {
        lemma_frames_len_prefix(log, index, ks.drop_last(), i);
        assert(ks.drop_last().subrange(0, i) =~= ks.subrange(0, i));
    }
}

/// The frames for the first `i + 1` keys: those for the first `i`, and the
/// frame for the `i`-th key if it holds a value.
pub(crate) proof fn lemma_frames_len_step(
    log: Seq<u8>,
    index: Map<Seq<u8>, IndexEntry>,
    ks: Seq<Seq<u8>>,
    i: int,
)
    requires
        0 <= i < ks.len(),
    ensures
        frames_len(log, index, ks.subrange(0, i + 1)) == frames_len(log, index, ks.subrange(0, i))
            + match lookup_in(log, index, ks[i]) {
            Ok(Some(v)) => record_frame(EntryType::Data, ks[i], v).len(),
            _ => 0,
        },
{
    assert(ks.subrange(0, i + 1).drop_last() =~= ks.subrange(0, i));
}

/// A new log that would outgrow memory at the `i`-th key means compaction
/// does not owe success.
pub(crate) proof fn lemma_progress_overflow(
    log: Seq<u8>,
    index: Map<Seq<u8>, IndexEntry>,
    ks: Seq<Seq<u8>>,
    i: int,
    nlog: Seq<u8>,
    nidx: Map<Seq<u8>, IndexEntry>,
    v: Seq<u8>,
)
    requires
        visit_order(index, ks),
        0 <= i < ks.len(),
        progress(log, index, ks, i, nlog, nidx),
        lookup_in(log, index, ks[i]) == Ok::<_, DatabaseError>(Some(v)),
    ensures
        nlog.len() + record_frame(EntryType::Data, ks[i], v).len() > usize::MAX
            ==> !compaction_owed(log, index),
{
    reveal(progress);
    lemma_frames_len_step(log, index, ks, i);
    lemma_frames_len_prefix(log, index, ks, i + 1);
}

/// A visited key that compaction cannot carry makes the index not compactable.
pub(crate) proof fn lemma_visit_carries(
    log: Seq<u8>,
    index: Map<Seq<u8>, IndexEntry>,
    ks: Seq<Seq<u8>>,
    i: int,
)
    requires
        visit_order(index, ks),
        0 <= i < ks.len(),
    ensures
        !carries(log, index, ks[i]) ==> !compactable_in(log, index),
{
    assert(index.contains_key(ks[i]));
}

/// Where the old values are stored as this library writes them, the records
/// visited before the `i`-th lie before it, so the new log with the `i`-th
/// value appended stays within the old log's length.
pub(crate) proof fn lemma_visited_before(
    log: Seq<u8>,
    index: Map<Seq<u8>, IndexEntry>,
    ks: Seq<Seq<u8>>,
    i: int,
)
    requires
        log.len() <= u64::MAX,
        indexes(log, index),
        visit_order(index, ks),
        0 <= i < ks.len(),
    ensures
        visited_end(index, ks, i) <= index[ks[i]].offset,
        index[ks[i]].offset + index[ks[i]].size <= log.len(),
        0 < index[ks[i]].size,
        i > 0 ==> index[ks[i - 1]].offset < index[ks[i]].offset,
{
    lemma_index_entries(log, index);
    let e = index[ks[i]];
    assert(index.contains_key(ks[i]));
    assert(entry_in_log(log, ks[i], e, log.len()));
    if i > 0 {
        let pk = ks[i - 1];
        let pe = index[pk];
        assert(index.contains_key(pk));
        assert(entry_in_log(log, pk, pe, log.len()));
        lemma_distinct_offsets(log, index, pk, ks[i]);
        lemma_chain_disjoint(log, 0, pe.offset as nat, e.offset as nat);
    }
}

pub(crate) proof fn lemma_progress_room(
    log: Seq<u8>,
    index: Map<Seq<u8>, IndexEntry>,
    ks: Seq<Seq<u8>>,
    i: int,
    nlog: Seq<u8>,
    nidx: Map<Seq<u8>, IndexEntry>,
)
    requires
        log.len() <= u64::MAX,
        indexes(log, index),
        visit_order(index, ks),
        0 <= i < ks.len(),
        progress(log, index, ks, i, nlog, nidx),
    ensures
        canonical_in(log, index) ==> match lookup_in(log, index, ks[i]) {
            Ok(Some(v)) => nlog.len() + record_frame(EntryType::Data, ks[i], v).len() <= log.len(),
            _ => true,
        },
{
    reveal(progress);
    lemma_visited_before(log, index, ks, i);
    assert(index.contains_key(ks[i]));
}

pub(crate) proof fn lemma_progress_skip(
    log: Seq<u8>,
    index: Map<Seq<u8>, IndexEntry>,
    ks: Seq<Seq<u8>>,
    i: int,
    nlog: Seq<u8>,
    nidx: Map<Seq<u8>, IndexEntry>,
)
    requires
        log.len() <= u64::MAX,
        indexes(log, index),
        visit_order(index, ks),
        0 <= i < ks.len(),
        progress(log, index, ks, i, nlog, nidx),
        lookup_in(log, index, ks[i]) == Ok::<Option<Seq<u8>>, DatabaseError>(None),
    ensures
        progress(log, index, ks, i + 1, nlog, nidx),
{
    reveal(progress);
    lemma_visited_before(log, index, ks, i);
    lemma_seen_step(ks, i);
    lemma_frames_len_step(log, index, ks, i);
    assert forall|j: int| 0 <= j < i + 1 implies carries(log, index, #[trigger] ks[j]) by {}
    if i > 0 {
        assert(index[ks[i - 1]].offset <= index[ks[i]].offset);
    }
}

pub(crate) proof fn lemma_seen_step(ks: Seq<Seq<u8>>, i: int)
    requires
        0 <= i < ks.len(),
    ensures
        forall|k: Seq<u8>|
            #[trigger] seen_before(ks, i + 1, k) <==> seen_before(ks, i, k) || k == ks[i],
{
    assert forall|k: Seq<u8>| #[trigger] seen_before(ks, i + 1, k) <==> seen_before(ks, i, k) || k
        == ks[i] by {
        if seen_before(ks, i + 1, k) && !seen_before(ks, i, k) {
            let j = choose|j: int| 0 <= j < i + 1 && #[trigger] ks[j] == k;
            assert(j == i);
        }
        if seen_before(ks, i, k) {
            let j = choose|j: int| 0 <= j < i && #[trigger] ks[j] == k;
            assert(0 <= j < i + 1 && ks[j] == k);
        }
        if k == ks[i] {
            assert(0 <= i < i + 1 && ks[i] == k);
        }
    }
}

pub(crate) proof fn lemma_order_step(
    index: Map<Seq<u8>, IndexEntry>,
    nidx: Map<Seq<u8>, IndexEntry>,
    nlog_len: nat,
    k: Seq<u8>,
    e: IndexEntry,
)
    requires
        forall|k1: Seq<u8>, k2: Seq<u8>|
            #[trigger] nidx.contains_key(k1) && #[trigger] nidx.contains_key(k2) && index[k1].offset
                < index[k2].offset ==> nidx[k1].offset < nidx[k2].offset,
        forall|k2: Seq<u8>| #[trigger] nidx.contains_key(k2) ==> index[k2].offset < index[k].offset,
        forall|k2: Seq<u8>| #[trigger] nidx.contains_key(k2) ==> nidx[k2].offset < nlog_len,
        e.offset == nlog_len,
    ensures
        ({
            let nidx2 = nidx.insert(k, e);
            forall|k1: Seq<u8>, k2: Seq<u8>|
                #[trigger] nidx2.contains_key(k1) && #[trigger] nidx2.contains_key(k2)
                    && index[k1].offset < index[k2].offset ==> nidx2[k1].offset < nidx2[k2].offset
        }),
{
    let nidx2 = nidx.insert(k, e);
    assert forall|k1: Seq<u8>, k2: Seq<u8>| #[trigger] nidx2.contains_key(k1)
        && #[trigger] nidx2.contains_key(k2) && index[k1].offset
        < index[k2].offset implies nidx2[k1].offset < nidx2[k2].offset by {
        if k1 != k && k2 != k {
            assert(nidx.contains_key(k1) && nidx.contains_key(k2));
        } else if k1 != k && k2 == k {
            assert(nidx.contains_key(k1));
        } else if k1 == k && k2 != k {
            assert(nidx.contains_key(k2));
        }
    }
}

pub(crate) proof fn lemma_progress_value(
    log: Seq<u8>,
    index: Map<Seq<u8>, IndexEntry>,
    ks: Seq<Seq<u8>>,
    i: int,
    nlog: Seq<u8>,
    nidx: Map<Seq<u8>, IndexEntry>,
    v: Seq<u8>,
)
    requires
        log.len() <= u64::MAX,
        indexes(log, index),
        visit_order(index, ks),
        0 <= i < ks.len(),
        progress(log, index, ks, i, nlog, nidx),
        lookup_in(log, index, ks[i]) == Ok::<_, DatabaseError>(Some(v)),
        record_frame(EntryType::Data, ks[i], v).len() <= MAX_FRAME,
        nlog.len() + record_frame(EntryType::Data, ks[i], v).len() <= u64::MAX,
    ensures
        ({
            let f = record_frame(EntryType::Data, ks[i], v);
            progress(log, index, ks, i + 1, nlog + f, nidx.insert(ks[i], appended_entry(nlog, f)))
        }),
{
    reveal(progress);
    let k = ks[i];
    let f = record_frame(EntryType::Data, k, v);
    let nlog2 = nlog + f;
    let nidx2 = nidx.insert(k, appended_entry(nlog, f));
    lemma_visited_before(log, index, ks, i);
    lemma_append_lookups(nlog, nidx, EntryType::Data, k, v);
    lemma_frame_len(EntryType::Data, k, lz77_encoding(v));
    lemma_live_data_append(nlog, nidx, k, lz77_encoding(v), appended_entry(nlog, f));
    lemma_index_entries(nlog, nidx);
    lemma_seen_step(ks, i);
    lemma_frames_len_step(log, index, ks, i);
    assert(!seen_before(ks, i, k)) by {
        if seen_before(ks, i, k) {
            let j = choose|j: int| 0 <= j < i && #[trigger] ks[j] == k;
            assert(ks[j] != ks[i]);
        }
    }
    assert forall|k2: Seq<u8>| #[trigger] nidx.contains_key(k2) implies index[k2].offset
        < index[k].offset && nidx[k2].offset < nlog.len() by {
        assert(entry_in_log(nlog, k2, nidx[k2], nlog.len()));
        if i == 0 {
            assert(!seen_before(ks, 0, k2));
        }
    }
    lemma_order_step(index, nidx, nlog.len(), k, appended_entry(nlog, f));
    assert forall|k2: Seq<u8>| #[trigger] nidx2.contains_key(k2) implies lookup_in(nlog2, nidx2, k2)
        == lookup_in(log, index, k2) by {
        assert(lookup_in(nlog2, nidx2, k2) == if k2 == k {
            Ok::<_, DatabaseError>(Some(v))
        } else {
            lookup_in(nlog, nidx, k2)
        });
    }
    assert forall|j: int| 0 <= j < i + 1 implies carries(log, index, #[trigger] ks[j]) by {}
    if canonical_in(log, index) {
        assert(index.contains_key(k));
    }
}

pub(crate) proof fn lemma_progress_end(
    log: Seq<u8>,
    index: Map<Seq<u8>, IndexEntry>,
    ks: Seq<Seq<u8>>,
    nlog: Seq<u8>,
    nidx: Map<Seq<u8>, IndexEntry>,
)
    requires
        log.len() <= u64::MAX,
        indexes(log, index),
        visit_order(index, ks),
        progress(log, index, ks, ks.len() as int, nlog, nidx),
    ensures
        compacted(log, index, nlog, nidx),
        indexes(nlog, nidx),
{
    reveal(progress);
    let n = ks.len() as int;
    assert forall|k: Seq<u8>| #[trigger] index.contains_key(k) implies seen_before(ks, n, k)
        && carries(log, index, k) by {
        let j = choose|j: int| 0 <= j < ks.len() && #[trigger] ks[j] == k;
        assert(carries(log, index, ks[j]));
    }
    assert forall|k: Seq<u8>| #[trigger] lookup_in(nlog, nidx, k) == lookup_in(log, index, k) by {
        if !nidx.contains_key(k) && index.contains_key(k) {
            assert(seen_before(ks, n, k) && carries(log, index, k));
        }
    }
    assert forall|k: Seq<u8>| #[trigger] nidx.contains_key(k) <==> holds_value(
        lookup_in(log, index, k),
    ) by {
        if index.contains_key(k) {
            assert(seen_before(ks, n, k));
        }
    }
    if n > 0 {
        lemma_visited_before(log, index, ks, n - 1);
    }
}

/// Whether `log` and `index` are what one or more compactions of `olog` and
/// `oindex` give: every key reads as it did before them, the index keeps
/// exactly the keys that hold a value, and the log holds fresh data frames only.
#[verifier::opaque]
pub open spec fn settled(
    log: Seq<u8>,
    index: Map<Seq<u8>, IndexEntry>,
    olog: Seq<u8>,
    oindex: Map<Seq<u8>, IndexEntry>,
) -> bool {
    &&& canonical_in(log, index)
    &&& live_data_from(log, 0, index)
    &&& compactable_in(log, index)
    &&& forall|k: Seq<u8>|
        #[trigger] index.contains_key(k) <==> holds_value(lookup_in(olog, oindex, k))
    &&& forall|k: Seq<u8>| #[trigger] lookup_in(log, index, k) == lookup_in(olog, oindex, k)
}

/// What `settled` says.
pub proof fn lemma_settled(
    log: Seq<u8>,
    index: Map<Seq<u8>, IndexEntry>,
    olog: Seq<u8>,
    oindex: Map<Seq<u8>, IndexEntry>,
)
    requires
        settled(log, index, olog, oindex),
    ensures
        canonical_in(log, index),
        live_data_from(log, 0, index),
        compactable_in(log, index),
        forall|k: Seq<u8>|
            #[trigger] index.contains_key(k) <==> holds_value(lookup_in(olog, oindex, k)),
        forall|k: Seq<u8>| #[trigger] lookup_in(log, index, k) == lookup_in(olog, oindex, k),
{
    reveal(settled);
}

pub(crate) proof fn lemma_settle_first(
    log: Seq<u8>,
    index: Map<Seq<u8>, IndexEntry>,
    nlog: Seq<u8>,
    nidx: Map<Seq<u8>, IndexEntry>,
)
    requires
        nlog.len() <= u64::MAX,
        indexes(nlog, nidx),
        compacted(log, index, nlog, nidx),
    ensures
        settled(nlog, nidx, log, index),
{
    reveal(settled);
    lemma_canonical_compactable(nlog, nidx, log, index);
}

pub(crate) proof fn lemma_settle_again(
    log: Seq<u8>,
    index: Map<Seq<u8>, IndexEntry>,
    nlog: Seq<u8>,
    nidx: Map<Seq<u8>, IndexEntry>,
    olog: Seq<u8>,
    oindex: Map<Seq<u8>, IndexEntry>,
)
    requires
        nlog.len() <= u64::MAX,
        indexes(nlog, nidx),
        compacted(log, index, nlog, nidx),
        settled(log, index, olog, oindex),
    ensures
        settled(nlog, nidx, olog, oindex),
{
    reveal(settled);
    lemma_canonical_compactable(nlog, nidx, log, index);
    assert forall|k: Seq<u8>| #[trigger] nidx.contains_key(k) <==> holds_value(
        lookup_in(olog, oindex, k),
    ) by {
        assert(lookup_in(log, index, k) == lookup_in(olog, oindex, k));
    }
    assert forall|k: Seq<u8>| #[trigger] lookup_in(nlog, nidx, k) == lookup_in(olog, oindex, k) by {
        assert(lookup_in(log, index, k) == lookup_in(olog, oindex, k));
    }
}

/// A compacted log and index can be compacted again.
pub(crate) proof fn lemma_canonical_compactable(
    nlog: Seq<u8>,
    nidx: Map<Seq<u8>, IndexEntry>,
    log: Seq<u8>,
    index: Map<Seq<u8>, IndexEntry>,
)
    requires
        nlog.len() <= u64::MAX,
        indexes(nlog, nidx),
        compacted(log, index, nlog, nidx),
    ensures
        compactable_in(nlog, nidx),
{
    lemma_index_entries(nlog, nidx);
    assert forall|k: Seq<u8>| #[trigger] nidx.contains_key(k) implies carries(nlog, nidx, k) by {
        assert(index.contains_key(k));
        assert(carries(log, index, k));
        assert(entry_in_log(nlog, k, nidx[k], nlog.len()));
    }
}

} // verus!
