//! The in-memory index from each key to the place of its latest record.
use vstd::prelude::*;

use crate::codec::{bytes_eq, copy_range};
use crate::log::IndexEntry;

verus! {

/// A map from keys to `IndexEntry`, one entry per key.
pub struct KeyIndex {
    entries: Vec<(Vec<u8>, IndexEntry)>,
    map: Ghost<Map<Seq<u8>, IndexEntry>>,
}

impl View for KeyIndex {
    type V = Map<Seq<u8>, IndexEntry>;

    closed spec fn view(&self) -> Map<Seq<u8>, IndexEntry> {
        self.map@
    }
}

impl KeyIndex {
    /// The key of the `i`-th slot.
    pub closed spec fn key_at(&self, i: int) -> Seq<u8> {
        self.entries@[i].0@
    }

    /// The entry of the `i`-th slot.
    pub closed spec fn entry_at(&self, i: int) -> IndexEntry {
        self.entries@[i].1
    }

    /// Number of slots, one per key.
    pub closed spec fn slots(&self) -> nat {
        self.entries@.len()
    }

    pub closed spec fn wf(&self) -> bool {
        &&& self.map@.dom().finite()
        &&& self.map@.dom().len() == self.entries@.len()
        &&& forall|i: int|
            0 <= i < self.entries@.len() ==> #[trigger] self.map@.contains_key(self.entries@[i].0@)
                && self.map@[self.entries@[i].0@] == self.entries@[i].1
        &&& forall|k: Seq<u8>|
            #[trigger] self.map@.contains_key(k) ==> exists|i: int|
                0 <= i < self.entries@.len() && #[trigger] self.entries@[i].0@ == k
        &&& forall|i: int, j: int|
            0 <= i < self.entries@.len() && 0 <= j < self.entries@.len() && i != j
                ==> #[trigger] self.entries@[i].0@ != #[trigger] self.entries@[j].0@
    }

    /// The slots list every key once.
    pub proof fn lemma_slots(&self)
        requires
            self.wf(),
        ensures
            self.slots() == self@.dom().len(),
            self.slots() <= usize::MAX,
            self@.dom().finite(),
            forall|i: int|
                0 <= i < self.slots() ==> #[trigger] self@.contains_key(self.key_at(i)) && self@[self.key_at(
                    i,
                )] == self.entry_at(i),
            forall|k: Seq<u8>|
                #[trigger] self@.contains_key(k) ==> exists|i: int|
                    0 <= i < self.slots() && #[trigger] self.key_at(i) == k,
            forall|i: int, j: int|
                0 <= i < self.slots() && 0 <= j < self.slots() && i != j ==> #[trigger] self.key_at(i)
                    != #[trigger] self.key_at(j),
    {
        assert(self.entries@.len() == self.entries.len());
        assert forall|k: Seq<u8>| #[trigger] self@.contains_key(k) implies exists|i: int|
            0 <= i < self.slots() && #[trigger] self.key_at(i) == k by {
            let i = choose|i: int| 0 <= i < self.entries@.len() && #[trigger] self.entries@[i].0@ == k;
            assert(self.key_at(i) == k);
        }
    }

    /// An empty index.
    pub fn new() -> (r: KeyIndex)
        ensures
            r.wf(),
            r@ == Map::<Seq<u8>, IndexEntry>::empty(),
    {
        KeyIndex { entries: Vec::new(), map: Ghost(Map::empty()) }
    }

    /// Number of keys.
    pub fn len(&self) -> (r: usize)
        requires
            self.wf(),
        ensures
            r == self@.dom().len(),
            r == self.slots(),
    {
        self.entries.len()
    }

    /// The key and entry of the `i`-th slot.
    pub fn slot(&self, i: usize) -> (r: (&Vec<u8>, IndexEntry))
        requires
            self.wf(),
            i < self.slots(),
        ensures
            r.0@ == self.key_at(i as int),
            r.1 == self.entry_at(i as int),
    {
        (&self.entries[i].0, self.entries[i].1)
    }

    fn find(&self, key: &[u8]) -> (r: Option<usize>)
        requires
            self.wf(),
        ensures
            match r {
                Some(i) => i < self.entries@.len() && self.entries@[i as int].0@ == key@,
                None => !self@.contains_key(key@),
            },
    {
        let mut i: usize = 0;
        while i < self.entries.len()
            invariant
                self.wf(),
                i <= self.entries@.len(),
                forall|j: int| 0 <= j < i ==> #[trigger] self.entries@[j].0@ != key@,
            decreases self.entries@.len() - i,
        {
            if bytes_eq(self.entries[i].0.as_slice(), key) {
                return Some(i);
            }
            i += 1;
        }
        None
    }

    /// The entry for `key`, if it has one.
    pub fn get(&self, key: &[u8]) -> (r: Option<IndexEntry>)
        requires
            self.wf(),
        ensures
            match r {
                Some(e) => self@.contains_key(key@) && self@[key@] == e,
                None => !self@.contains_key(key@),
            },
    {
        match self.find(key) {
            Some(i) => {
                assert(self.map@.contains_key(self.entries@[i as int].0@));
                Some(self.entries[i].1)
            },
            None => None,
        }
    }

    /// Points `key` at `entry`, replacing any entry it had.
    pub fn insert(&mut self, key: &[u8], entry: IndexEntry)
        requires
            old(self).wf(),
        ensures
            final(self).wf(),
            final(self)@ == old(self)@.insert(key@, entry),
    {
        let ghost old_map = self.map@;
        match self.find(key) {
            Some(i) => {
                let k = copy_range(key, 0, key.len());
                proof {
                    assert(key@.subrange(0, key@.len() as int) =~= key@);
                }
                self.entries.set(i, (k, entry));
                self.map = Ghost(old_map.insert(key@, entry));
                proof {
                    assert(self.map@.dom() =~= old_map.dom());
                    assert forall|k2: Seq<u8>| #[trigger] self.map@.contains_key(k2) implies exists|
                        j: int,
                    | 0 <= j < self.entries@.len() && #[trigger] self.entries@[j].0@ == k2 by {
                        assert(old_map.contains_key(k2));
                        let j = choose|j: int|
                            0 <= j < old(self).entries@.len() && #[trigger] old(
                                self,
                            ).entries@[j].0@ == k2;
                        assert(self.entries@[j].0@ == k2);
                    }
                }
            },
            None => {
                let k = copy_range(key, 0, key.len());
                proof {
                    assert(key@.subrange(0, key@.len() as int) =~= key@);
                }
                self.entries.push((k, entry));
                self.map = Ghost(old_map.insert(key@, entry));
                proof {
                    let n = old(self).entries@.len() as int;
                    assert(self.entries@[n].0@ == key@);
                    assert forall|k2: Seq<u8>| #[trigger] self.map@.contains_key(k2) implies exists|
                        j: int,
                    | 0 <= j < self.entries@.len() && #[trigger] self.entries@[j].0@ == k2 by {
                        if k2 != key@ {
                            assert(old_map.contains_key(k2));
                            let j = choose|j: int|
                                0 <= j < old(self).entries@.len() && #[trigger] old(
                                    self,
                                ).entries@[j].0@ == k2;
                            assert(self.entries@[j].0@ == k2);
                        }
                    }
                }
            },
        }
    }

    /// The slots, each once, in ascending order of their entries' offsets.
    pub fn slots_by_offset(&self) -> (r: Vec<usize>)
        requires
            self.wf(),
        ensures
            r@.len() == self.slots(),
            forall|j: int| 0 <= j < r@.len() ==> #[trigger] r@[j] < self.slots(),
            forall|j: int, l: int| 0 <= j < l < r@.len() ==> #[trigger] r@[j] != #[trigger] r@[l],
            forall|t: usize| t < self.slots() ==> #[trigger] r@.contains(t),
            forall|j: int, l: int|
                0 <= j < l < r@.len() ==> #[trigger] self.entry_at(r@[j] as int).offset
                    <= #[trigger] self.entry_at(r@[l] as int).offset,
    {
        let mut r: Vec<usize> = Vec::new();
        let mut i: usize = 0;
        while i < self.entries.len()
            invariant
                self.wf(),
                i <= self.entries@.len(),
                r@.len() == i,
                forall|j: int| 0 <= j < r@.len() ==> #[trigger] r@[j] < i,
                forall|j: int, l: int| 0 <= j < l < r@.len() ==> #[trigger] r@[j] != #[trigger] r@[l],
                forall|t: usize| t < i ==> #[trigger] r@.contains(t),
                forall|j: int, l: int|
                    0 <= j < l < r@.len() ==> #[trigger] self.entry_at(r@[j] as int).offset
                        <= #[trigger] self.entry_at(r@[l] as int).offset,
            decreases self.entries@.len() - i,
        {
            let off = self.entries[i].1.offset;
            let mut p: usize = 0;
            while p < r.len() && self.entries[r[p]].1.offset <= off
                invariant
                    self.wf(),
                    i < self.entries@.len(),
                    off == self.entry_at(i as int).offset,
                    p <= r@.len(),
                    forall|j: int| 0 <= j < r@.len() ==> #[trigger] r@[j] < i,
                    forall|j: int| 0 <= j < p ==> self.entry_at(#[trigger] r@[j] as int).offset <= off,
                decreases r@.len() - p,
            {
                p += 1;
            }
            let ghost old_r = r@;
            r.insert(p, i);
            proof {
                assert(r@ =~= old_r.insert(p as int, i));
                assert forall|j: int| 0 <= j < r@.len() implies #[trigger] r@[j] < i + 1 by {
                    if j < p {
                        assert(r@[j] == old_r[j]);
                    } else if j > p {
                        assert(r@[j] == old_r[j - 1]);
                    }
                }
                assert forall|j: int, l: int| 0 <= j < l < r@.len() implies #[trigger] r@[j]
                    != #[trigger] r@[l] by {
                    if j < p && l < p {
                        assert(r@[j] == old_r[j] && r@[l] == old_r[l]);
                    } else if j < p && l == p {
                        assert(r@[j] == old_r[j]);
                    } else if j < p && l > p {
                        assert(r@[j] == old_r[j] && r@[l] == old_r[l - 1]);
                    } else if j == p {
                        assert(r@[l] == old_r[l - 1]);
                    } else {
                        assert(r@[j] == old_r[j - 1] && r@[l] == old_r[l - 1]);
                    }
                }
                assert forall|t: usize| t < i + 1 implies #[trigger] r@.contains(t) by {
                    if t == i {
                        assert(r@[p as int] == t);
                    } else {
                        assert(old_r.contains(t));
                        let j = choose|j: int| 0 <= j < old_r.len() && old_r[j] == t;
                        if j < p {
                            assert(r@[j] == t);
                        } else {
                            assert(r@[j + 1] == t);
                        }
                    }
                }
                assert forall|j: int, l: int| 0 <= j < l < r@.len() implies #[trigger] self.entry_at(
                    r@[j] as int,
                ).offset <= #[trigger] self.entry_at(r@[l] as int).offset by {
                    if p < old_r.len() {
                        assert(self.entry_at(old_r[p as int] as int).offset > off);
                    }
                    if j < p && l < p {
                        assert(r@[j] == old_r[j] && r@[l] == old_r[l]);
                    } else if j < p && l == p {
                        assert(r@[j] == old_r[j]);
                    } else if j < p && l > p {
                        assert(r@[j] == old_r[j] && r@[l] == old_r[l - 1]);
                    } else if j == p {
                        assert(r@[l] == old_r[l - 1]);
                        if l - 1 > p {
                            assert(self.entry_at(old_r[p as int] as int).offset <= self.entry_at(
                                old_r[l - 1] as int,
                            ).offset);
                        }
                    } else {
                        assert(r@[j] == old_r[j - 1] && r@[l] == old_r[l - 1]);
                    }
                }
            }
            i += 1;
        }
        r
    }
}

} // verus!
