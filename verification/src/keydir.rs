//! The in-memory index (keydir): a map from owned key bytes to the
//! locator of the key's most recent record.
//!
//! The index is the single oracle for liveness: a key present in a file
//! but absent here is superseded or deleted. The map is stored as an
//! association vector with unique keys and is specified by its
//! mathematical [`Map`] view.

use vstd::prelude::*;

use crate::fs::Fd;
use crate::fs::Offset;
use crate::repr::HEADER_LEN;

verus! {

/// A locator: where the most recent record of a key lives.
#[derive(Debug, Clone, Copy, Hash, PartialEq, Eq, PartialOrd, Ord, Structural)]
pub struct CacheEntry {
    /// The file holding the record.
    pub fd: Fd,
    /// Length in bytes of the record's value.
    pub value_size: u32,
    /// Offset of the first byte of the record header within the file.
    pub offset: Offset,
    /// The record's timestamp.
    pub timestamp: u64,
}

impl CacheEntry {
    /// The offset of the record's data segment (`key ++ value`), right
    /// after the fixed-size header.
    pub fn data_offset(&self) -> (r: Offset)
        requires
            self.offset.0 + HEADER_LEN <= usize::MAX,
        ensures
            r.0 == self.offset.0 + HEADER_LEN,
    {
        Offset(self.offset.0 + HEADER_LEN)
    }
}

/// The mapping an association vector denotes; a later pair for the same
/// key supersedes an earlier one.
pub open spec fn assoc_map(s: Seq<(Vec<u8>, CacheEntry)>) -> Map<Seq<u8>, CacheEntry>
    decreases s.len(),
{
    if s.len() == 0 {
        Map::empty()
    } else {
        assoc_map(s.drop_last()).insert(s.last().0@, s.last().1)
    }
}

/// No two pairs of the vector carry the same key.
pub open spec fn assoc_unique(s: Seq<(Vec<u8>, CacheEntry)>) -> bool {
    forall|i: int, j: int| 0 <= i < j < s.len() ==> #[trigger] s[i].0@ != #[trigger] s[j].0@
}

/// On a vector with unique keys, the denoted map holds exactly the
/// vector's keys, each bound to its pair's locator.
pub proof fn lemma_assoc_map_pointwise(s: Seq<(Vec<u8>, CacheEntry)>)
    requires
        assoc_unique(s),
    ensures
        forall|k: Seq<u8>|
            assoc_map(s).contains_key(k) <==> exists|i: int| 0 <= i < s.len() && #[trigger] s[i].0@ == k,
        forall|i: int| 0 <= i < s.len() ==> assoc_map(s)[#[trigger] s[i].0@] == s[i].1,
    decreases s.len(),
{
    if s.len() > 0 {
        let s0 = s.drop_last();
        assert(assoc_unique(s0)) by {
            assert(forall|i: int, j: int|
                0 <= i < j < s0.len() ==> #[trigger] s0[i].0@ == s[i].0@ && #[trigger] s0[j].0@
                    == s[j].0@);
        }
        lemma_assoc_map_pointwise(s0);
        assert forall|i: int| 0 <= i < s.len() implies assoc_map(s)[#[trigger] s[i].0@] == s[i].1 by {
            if i < s.len() - 1 {
                assert(s[i].0@ != s.last().0@);
                assert(s0[i] == s[i]);
            }
        }
        assert forall|k: Seq<u8>|
            assoc_map(s).contains_key(k) implies exists|i: int|
            0 <= i < s.len() && #[trigger] s[i].0@ == k by {
            if k == s.last().0@ {
                assert(s[s.len() - 1].0@ == k);
            } else {
                assert(assoc_map(s0).contains_key(k));
                let i = choose|i: int| 0 <= i < s0.len() && #[trigger] s0[i].0@ == k;
                assert(s0[i] == s[i]);
                assert(s[i].0@ == k);
            }
        }
        assert forall|k: Seq<u8>|
            (exists|i: int| 0 <= i < s.len() && #[trigger] s[i].0@ == k) implies assoc_map(
            s,
        ).contains_key(k) by {
            let i = choose|i: int| 0 <= i < s.len() && #[trigger] s[i].0@ == k;
            if i < s.len() - 1 {
                assert(s0[i] == s[i]);
                assert(s0[i].0@ == k);
            }
        }
    }
}

/// Compares two byte strings for equality.
pub fn bytes_eq(a: &[u8], b: &[u8]) -> (r: bool)
    ensures
        r == (a@ == b@),
{
    if a.len() != b.len() {
        return false;
    }
    let mut i: usize = 0;
    while i < a.len()
        invariant
            0 <= i <= a@.len(),
            a@.len() == b@.len(),
            forall|j: int| 0 <= j < i ==> a@[j] == b@[j],
        decreases a@.len() - i,
    {
        if a[i] != b[i] {
            return false;
        }
        i = i + 1;
    }
    proof {
        assert(a@ =~= b@);
    }
    true
}

/// The in-memory index from owned key bytes to locators.
#[derive(Debug)]
pub struct KeyDir {
    entries: Vec<(Vec<u8>, CacheEntry)>,
}

impl KeyDir {
    /// The mapping this index denotes.
    pub closed spec fn view(&self) -> Map<Seq<u8>, CacheEntry> {
        assoc_map(self.entries@)
    }

    /// The representation invariant: stored keys are pairwise distinct.
    pub closed spec fn wf(&self) -> bool {
        assoc_unique(self.entries@)
    }

    /// An empty index.
    pub fn new() -> (r: KeyDir)
        ensures
            r.wf(),
            r@ == Map::<Seq<u8>, CacheEntry>::empty(),
    {
        KeyDir { entries: Vec::new() }
    }

    /// Looks a key up, returning a copy of its locator if one is present.
    pub fn get(&self, key: &[u8]) -> (r: Option<CacheEntry>)
        requires
            self.wf(),
        ensures
            match r {
                Some(ce) => self@.contains_key(key@) && ce == self@[key@],
                None => !self@.contains_key(key@),
            },
    {
        proof {
            lemma_assoc_map_pointwise(self.entries@);
        }
        let n = self.entries.len();
        let mut i: usize = 0;
        while i < n
            invariant
                0 <= i <= n,
                n == self.entries@.len(),
                assoc_unique(self.entries@),
                forall|j: int| 0 <= j < i ==> #[trigger] self.entries@[j].0@ != key@,
                forall|k: Seq<u8>|
                    assoc_map(self.entries@).contains_key(k) <==> exists|j: int|
                        0 <= j < self.entries@.len() && #[trigger] self.entries@[j].0@ == k,
                forall|j: int|
                    0 <= j < self.entries@.len() ==> assoc_map(self.entries@)[#[trigger] self
                        .entries@[j].0@] == self.entries@[j].1,
            decreases n - i,
        {
            if bytes_eq(self.entries[i].0.as_slice(), key) {
                return Some(self.entries[i].1);
            }
            i = i + 1;
        }
        None
    }

    /// Inserts or replaces the locator stored for a key.
    pub fn put(&mut self, key: &[u8], ce: CacheEntry)
        requires
            old(self).wf(),
        ensures
            final(self).wf(),
            final(self)@ == old(self)@.insert(key@, ce),
    {
        proof {
            lemma_assoc_map_pointwise(self.entries@);
        }
        let ghost s_old = self.entries@;
        let n = self.entries.len();
        let mut i: usize = 0;
        while i < n
            invariant
                0 <= i <= n,
                n == self.entries@.len(),
                self.entries@ == s_old,
                s_old == old(self).entries@,
                assoc_unique(s_old),
                forall|j: int| 0 <= j < i ==> #[trigger] self.entries@[j].0@ != key@,
            decreases n - i,
        {
            if bytes_eq(self.entries[i].0.as_slice(), key) {
                let owned = vstd::slice::slice_to_vec(key);
                self.entries.set(i, (owned, ce));
                proof {
                    let s_new = self.entries@;
                    lemma_assoc_map_pointwise(s_old);
                    assert(assoc_unique(s_new)) by {
                        assert(forall|j: int|
                            0 <= j < s_new.len() && j != i ==> #[trigger] s_new[j] == s_old[j]);
                        assert(s_new[i as int].0@ == key@);
                        assert(s_old[i as int].0@ == key@);
                    }
                    lemma_assoc_map_pointwise(s_new);
                    assert forall|k: Seq<u8>|
                        assoc_map(s_new).contains_key(k) <==> assoc_map(s_old).insert(
                            key@,
                            ce,
                        ).contains_key(k) by {
                        if k == key@ {
                            assert(s_new[i as int].0@ == k);
                        } else {
                            assert(forall|j: int|
                                0 <= j < s_new.len() && #[trigger] s_new[j].0@ == k ==> s_old[j].0@
                                    == k);
                            assert(forall|j: int|
                                0 <= j < s_old.len() && #[trigger] s_old[j].0@ == k ==> s_new[j].0@
                                    == k);
                        }
                    }
                    assert(assoc_map(s_new) =~= assoc_map(s_old).insert(key@, ce));
                }
                return ;
            }
            i = i + 1;
        }
        let owned = vstd::slice::slice_to_vec(key);
        self.entries.push((owned, ce));
        proof {
            let s_new = self.entries@;
            assert(s_new.drop_last() =~= s_old);
            assert(assoc_map(s_new) == assoc_map(s_old).insert(key@, ce));
            assert(assoc_unique(s_new)) by {
                assert(forall|j: int| 0 <= j < s_old.len() ==> #[trigger] s_new[j] == s_old[j]);
                assert(s_new.last().0@ == key@);
            }
        }
    }

    /// Whether any entry of the index points into the file named `fd`.
    pub fn references(&self, fd: Fd) -> (r: bool)
        requires
            self.wf(),
        ensures
            r == exists|k: Seq<u8>|
                #[trigger] self@.contains_key(k) && self@[k].fd == fd,
    {
        proof {
            lemma_assoc_map_pointwise(self.entries@);
        }
        let n = self.entries.len();
        let mut i: usize = 0;
        while i < n
            invariant
                0 <= i <= n,
                n == self.entries@.len(),
                assoc_unique(self.entries@),
                forall|j: int| 0 <= j < i ==> #[trigger] self.entries@[j].1.fd != fd,
                forall|k: Seq<u8>|
                    assoc_map(self.entries@).contains_key(k) <==> exists|j: int|
                        0 <= j < self.entries@.len() && #[trigger] self.entries@[j].0@ == k,
                forall|j: int|
                    0 <= j < self.entries@.len() ==> assoc_map(self.entries@)[#[trigger] self
                        .entries@[j].0@] == self.entries@[j].1,
            decreases n - i,
        {
            if self.entries[i].1.fd.0 == fd.0 {
                proof {
                    let k = self.entries@[i as int].0@;
                    assert(self@.contains_key(k) && self@[k].fd == fd);
                }
                return true;
            }
            i = i + 1;
        }
        proof {
            assert forall|k: Seq<u8>| #[trigger] self@.contains_key(k) implies self@[k].fd
                != fd by {
                let j = choose|j: int|
                    0 <= j < self.entries@.len() && #[trigger] self.entries@[j].0@ == k;
                assert(self@[k] == self.entries@[j].1);
            }
        }
        false
    }

    /// Removes the entry stored for a key, reporting whether one existed.
    pub fn remove(&mut self, key: &[u8]) -> (existed: bool)
        requires
            old(self).wf(),
        ensures
            final(self).wf(),
            final(self)@ == old(self)@.remove(key@),
            existed == old(self)@.contains_key(key@),
    {
        proof {
            lemma_assoc_map_pointwise(self.entries@);
        }
        let ghost s_old = self.entries@;
        let n = self.entries.len();
        let mut i: usize = 0;
        while i < n
            invariant
                0 <= i <= n,
                n == self.entries@.len(),
                self.entries@ == s_old,
                s_old == old(self).entries@,
                assoc_unique(s_old),
                forall|j: int| 0 <= j < i ==> #[trigger] self.entries@[j].0@ != key@,
            decreases n - i,
        {
            if bytes_eq(self.entries[i].0.as_slice(), key) {
                self.entries.remove(i);
                proof {
                    let s_new = self.entries@;
                    lemma_assoc_map_pointwise(s_old);
                    s_old.remove_ensures(i as int);
                    assert(assoc_unique(s_new)) by {
                        assert(forall|j: int|
                            0 <= j < s_new.len() ==> #[trigger] s_new[j] == (if j < i {
                                s_old[j]
                            } else {
                                s_old[j + 1]
                            }));
                    }
                    lemma_assoc_map_pointwise(s_new);
                    assert forall|k: Seq<u8>|
                        assoc_map(s_new).contains_key(k) <==> assoc_map(s_old).remove(
                            key@,
                        ).contains_key(k) by {
                        if k != key@ {
                            assert forall|j: int|
                                0 <= j < s_old.len() && #[trigger] s_old[j].0@ == k implies exists|
                                jj: int,
                            |
                                0 <= jj < s_new.len() && #[trigger] s_new[jj].0@ == k by {
                                let jj = choose|j2: int|
                                    0 <= j2 < s_old.len() && #[trigger] s_old[j2].0@ == k;
                                if jj < i {
                                    assert(s_new[jj].0@ == k);
                                } else {
                                    assert(jj != i);
                                    assert(s_new[jj - 1].0@ == k);
                                }
                            }
                            assert(forall|j: int|
                                0 <= j < s_new.len() && #[trigger] s_new[j].0@ == k ==> (if j < i {
                                    s_old[j].0@
                                } else {
                                    s_old[j + 1].0@
                                }) == k);
                        } else {
                            assert forall|j: int| 0 <= j < s_new.len() implies #[trigger] s_new[j].0@
                                != k by {
                                if j < i {
                                    assert(s_new[j] == s_old[j]);
                                } else {
                                    assert(s_new[j] == s_old[j + 1]);
                                }
                            }
                        }
                    }
                    assert(assoc_map(s_new) =~= assoc_map(s_old).remove(key@));
                }
                return true;
            }
            i = i + 1;
        }
        proof {
            assert(assoc_map(s_old) =~= assoc_map(s_old).remove(key@));
        }
        false
    }
}

} // verus!
