//! The in-memory index: each live key with the location of its current value.
use vstd::prelude::*;

use crate::log::ValueEntry;

verus! {

/// One key of the index with its value location.
pub struct IndexEntry {
    pub key: Vec<u8>,
    pub loc: ValueEntry,
}

/// A map from key bytes to value locations, kept as a vector with unique keys.
pub struct Index {
    entries: Vec<IndexEntry>,
    model: Ghost<Map<Seq<u8>, ValueEntry>>,
}

/// Compares two byte strings.
pub fn bytes_eq(a: &[u8], b: &[u8]) -> (r: bool)
    ensures
        r == (a@ == b@),
{
    if a.len() != b.len() {
        return false;
    }
    let mut i: usize = 0;
    while i < a.len()
        invariant
            a@.len() == b@.len(),
            i <= a@.len(),
            forall|j: int| 0 <= j < i ==> a@[j] == b@[j],
        decreases a@.len() - i,
    {
        if a[i] != b[i] {
            return false;
        }
        i = i + 1;
    }
    assert(a@ =~= b@);
    true
}

impl Index {
    /// The key → location map that the index holds.
    pub closed spec fn view(&self) -> Map<Seq<u8>, ValueEntry> {
        self.model@
    }

    /// The entries in their stored order.
    pub closed spec fn entries(&self) -> Seq<(Seq<u8>, ValueEntry)> {
        self.entries@.map_values(|e: IndexEntry| (e.key@, e.loc))
    }

    pub closed spec fn wf(&self) -> bool {
        &&& self.model@.dom().finite()
        &&& self.model@.len() == self.entries@.len()
        &&& forall|i: int|
            0 <= i < self.entries@.len() ==> #[trigger] self.model@.contains_key(
                self.entries@[i].key@,
            ) && self.model@[self.entries@[i].key@] == self.entries@[i].loc
        &&& forall|k: Seq<u8>|
            #[trigger] self.model@.contains_key(k) ==> exists|i: int|
                0 <= i < self.entries@.len() && #[trigger] self.entries@[i].key@ == k
        &&& forall|i: int, j: int|
            0 <= i < self.entries@.len() && 0 <= j < self.entries@.len() && i != j
                ==> #[trigger] self.entries@[i].key@ != #[trigger] self.entries@[j].key@
    }

    /// The entries describe exactly the map, one entry per key.
    pub proof fn lemma_entries(&self)
        requires
            self.wf(),
        ensures
            self.view().dom().finite(),
            self.entries().len() == self.view().len(),
            forall|i: int|
                0 <= i < self.entries().len() ==> #[trigger] self.view().contains_key(
                    self.entries()[i].0,
                ) && self.view()[self.entries()[i].0] == self.entries()[i].1,
            forall|k: Seq<u8>|
                #[trigger] self.view().contains_key(k) ==> exists|i: int|
                    0 <= i < self.entries().len() && #[trigger] self.entries()[i].0 == k,
            forall|i: int, j: int|
                0 <= i < self.entries().len() && 0 <= j < self.entries().len() && i != j
                    ==> #[trigger] self.entries()[i].0 != #[trigger] self.entries()[j].0,
    {
        assert forall|k: Seq<u8>| #[trigger] self.view().contains_key(k) implies exists|i: int|
            0 <= i < self.entries().len() && #[trigger] self.entries()[i].0 == k by {
            let i = choose|i: int| 0 <= i < self.entries@.len() && #[trigger] self.entries@[i].key@ == k;
            assert(self.entries()[i].0 == k);
        }
        assert forall|i: int, j: int|
            0 <= i < self.entries().len() && 0 <= j < self.entries().len() && i != j
                implies #[trigger] self.entries()[i].0 != #[trigger] self.entries()[j].0 by {
            assert(self.entries@[i].key@ != self.entries@[j].key@);
        }
    }

    pub fn new() -> (r: Index)
        ensures
            r.wf(),
            r.view() == Map::<Seq<u8>, ValueEntry>::empty(),
            r.entries().len() == 0,
    {
        Index { entries: Vec::new(), model: Ghost(Map::empty()) }
    }

    /// Number of keys.
    pub fn len(&self) -> (r: usize)
        requires
            self.wf(),
        ensures
            r == self.view().len(),
            r == self.entries().len(),
    {
        self.entries.len()
    }

    /// Position of `key` among the entries, if present.
    pub fn find(&self, key: &[u8]) -> (r: Option<usize>)
        requires
            self.wf(),
        ensures
            r is None <==> !self.view().contains_key(key@),
            r matches Some(i) ==> i < self.entries().len() && self.entries()[i as int].0 == key@,
    {
        let mut i: usize = 0;
        while i < self.entries.len()
            invariant
                self.wf(),
                i <= self.entries@.len(),
                forall|j: int| 0 <= j < i ==> #[trigger] self.entries@[j].key@ != key@,
            decreases self.entries@.len() - i,
        {
            if bytes_eq(self.entries[i].key.as_slice(), key) {
                return Some(i);
            }
            i = i + 1;
        }
        proof {
            if self.model@.contains_key(key@) {
                let j = choose|j: int| 0 <= j < self.entries@.len() && #[trigger] self.entries@[j].key@ == key@;
                assert(self.entries@[j].key@ != key@);
            }
        }
        None
    }

    /// The location stored for `key`.
    pub fn get(&self, key: &[u8]) -> (r: Option<ValueEntry>)
        requires
            self.wf(),
        ensures
            r is Some <==> self.view().contains_key(key@),
            r matches Some(loc) ==> loc == self.view()[key@],
    {
        match self.find(key) {
            Some(i) => Some(self.entries[i].loc),
            None => None,
        }
    }

    /// Key of the `i`-th entry.
    pub fn key_at(&self, i: usize) -> (r: &Vec<u8>)
        requires
            i < self.entries().len(),
        ensures
            r@ == self.entries()[i as int].0,
    {
        &self.entries[i].key
    }

    /// Location of the `i`-th entry.
    pub fn loc_at(&self, i: usize) -> (r: ValueEntry)
        requires
            i < self.entries().len(),
        ensures
            r == self.entries()[i as int].1,
    {
        self.entries[i].loc
    }

    /// Points the `i`-th entry at a new location.
    pub fn set_loc(&mut self, i: usize, loc: ValueEntry)
        requires
            old(self).wf(),
            i < old(self).entries().len(),
        ensures
            final(self).wf(),
            final(self).view() == old(self).view().insert(old(self).entries()[i as int].0, loc),
            final(self).entries() == old(self).entries().update(
                i as int,
                (old(self).entries()[i as int].0, loc),
            ),
    {
        let ghost k = self.entries@[i as int].key@;
        self.entries[i].loc = loc;
        self.model = Ghost(self.model@.insert(k, loc));
        assert(self.model@.dom() =~= old(self).model@.dom());
        assert forall|j: int|
            0 <= j < self.entries@.len() && i != j implies #[trigger] self.entries@[j].key@ != k by {
            assert(old(self).entries@[j].key@ != old(self).entries@[i as int].key@);
        }
        assert forall|kk: Seq<u8>| #[trigger] self.model@.contains_key(kk) implies exists|j: int|
            0 <= j < self.entries@.len() && #[trigger] self.entries@[j].key@ == kk by {
            let j = choose|j: int| 0 <= j < old(self).entries@.len() && #[trigger] old(self).entries@[j].key@ == kk;
            assert(self.entries@[j].key@ == kk);
        }
        assert(self.entries() =~= old(self).entries().update(
            i as int,
            (old(self).entries()[i as int].0, loc),
        ));
    }

    /// Maps `key` to `loc`, adding the key or replacing its location.
    pub fn insert(&mut self, key: Vec<u8>, loc: ValueEntry)
        requires
            old(self).wf(),
        ensures
            final(self).wf(),
            final(self).view() == old(self).view().insert(key@, loc),
    {
        match self.find(key.as_slice()) {
            Some(i) => {
                self.set_loc(i, loc);
            },
            None => {
                let ghost k = key@;
                self.entries.push(IndexEntry { key, loc });
                self.model = Ghost(self.model@.insert(k, loc));
                let ghost n: int = self.entries@.len() - 1;
                assert forall|i: int|
                    0 <= i < self.entries@.len() implies #[trigger] self.model@.contains_key(
                        self.entries@[i].key@,
                    ) && self.model@[self.entries@[i].key@] == self.entries@[i].loc by {
                    if i < n {
                        assert(old(self).model@.contains_key(old(self).entries@[i].key@));
                    }
                }
                assert forall|kk: Seq<u8>| #[trigger] self.model@.contains_key(kk) implies exists|j: int|
                    0 <= j < self.entries@.len() && #[trigger] self.entries@[j].key@ == kk by {
                    if kk == k {
                        assert(self.entries@[n].key@ == kk);
                    } else {
                        let j = choose|j: int| 0 <= j < old(self).entries@.len() && #[trigger] old(self).entries@[j].key@ == kk;
                        assert(self.entries@[j].key@ == kk);
                    }
                }
                assert forall|i: int, j: int|
                    0 <= i < self.entries@.len() && 0 <= j < self.entries@.len() && i != j
                        implies #[trigger] self.entries@[i].key@ != #[trigger] self.entries@[j].key@ by {
                    if i < n && j < n {
                        assert(old(self).entries@[i].key@ != old(self).entries@[j].key@);
                    } else if i < n {
                        assert(old(self).model@.contains_key(old(self).entries@[i].key@));
                    } else if j < n {
                        assert(old(self).model@.contains_key(old(self).entries@[j].key@));
                    }
                }
            },
        }
    }

    /// Drops `key`; says whether it was present.
    pub fn remove(&mut self, key: &[u8]) -> (r: bool)
        requires
            old(self).wf(),
        ensures
            final(self).wf(),
            r == old(self).view().contains_key(key@),
            final(self).view() == old(self).view().remove(key@),
            !r ==> *final(self) == *old(self),
    {
        match self.find(key) {
            Some(i) => {
                let ghost k = key@;
                let _ = self.entries.remove(i);
                self.model = Ghost(self.model@.remove(k));
                assert forall|a: int|
                    0 <= a < self.entries@.len() implies #[trigger] self.model@.contains_key(
                        self.entries@[a].key@,
                    ) && self.model@[self.entries@[a].key@] == self.entries@[a].loc by {
                    let b = if a < i { a } else { a + 1 };
                    assert(self.entries@[a] == old(self).entries@[b]);
                    assert(old(self).entries@[b].key@ != old(self).entries@[i as int].key@);
                    assert(old(self).model@.contains_key(old(self).entries@[b].key@));
                    assert(self.entries@[a].key@ != k);
                }
                assert forall|kk: Seq<u8>| #[trigger] self.model@.contains_key(kk) implies exists|j: int|
                    0 <= j < self.entries@.len() && #[trigger] self.entries@[j].key@ == kk by {
                    let j = choose|j: int| 0 <= j < old(self).entries@.len() && #[trigger] old(self).entries@[j].key@ == kk;
                    assert(j != i);
                    if j < i {
                        assert(self.entries@[j].key@ == kk);
                    } else {
                        assert(self.entries@[j - 1].key@ == kk);
                    }
                }
                assert forall|a: int, c: int|
                    0 <= a < self.entries@.len() && 0 <= c < self.entries@.len() && a != c
                        implies #[trigger] self.entries@[a].key@ != #[trigger] self.entries@[c].key@ by {
                    let a2 = if a < i { a } else { a + 1 };
                    let c2 = if c < i { c } else { c + 1 };
                    assert(self.entries@[a] == old(self).entries@[a2]);
                    assert(self.entries@[c] == old(self).entries@[c2]);
                    assert(old(self).entries@[a2].key@ != old(self).entries@[c2].key@);
                }
                true
            },
            None => {
                assert(self.model@ =~= self.model@.remove(key@));
                false
            },
        }
    }
}

} // verus!
