//! The in-memory key index.
//!
//! A flat association vector maps each key to the location `(gen, pos,
//! len)` of its most recent `Put` record.  Keys are kept unique, and the
//! vector is proved to denote exactly the live map that replaying the logs
//! yields.

use vstd::prelude::*;

verus! {

use crate::wal::LiveRec;

/// One index entry: where the newest `Put` record for `key` lives.
pub struct IndexEntry {
    pub key: Vec<u8>,
    pub gen: u64,
    pub pos: usize,
    pub len: usize,
}

/// Index of the entry for key `k` (searching from the end), or `-1`.
pub open spec fn find_key(ix: Seq<IndexEntry>, k: Seq<u8>) -> int
    decreases ix.len(),
{
    if ix.len() == 0 {
        -1
    } else if ix.last().key@ == k {
        ix.len() - 1
    } else {
        find_key(ix.drop_last(), k)
    }
}

/// No two entries share a key.
pub open spec fn keys_unique(ix: Seq<IndexEntry>) -> bool {
    forall|i: int, j: int| 0 <= i < j < ix.len() ==> ix[i].key@ != ix[j].key@
}

/// The index denotes exactly the live map `m`: same keys, and each entry
/// records the generation, offset and length of the key's live record.
pub open spec fn index_matches(ix: Seq<IndexEntry>, m: Map<Seq<u8>, LiveRec>) -> bool {
    &&& forall|k: Seq<u8>| #[trigger] m.dom().contains(k) ==> find_key(ix, k) >= 0
    &&& forall|i: int|
        0 <= i < ix.len() ==> {
            let e = #[trigger] ix[i];
            &&& m.dom().contains(e.key@)
            &&& m[e.key@].gen == e.gen
            &&& m[e.key@].pos == e.pos as int
            &&& m[e.key@].len == e.len as int
        }
}

/// What `find_key` returns: a real position holding `k`, or a guarantee
/// that no entry holds `k`.
pub proof fn lemma_find_key(ix: Seq<IndexEntry>, k: Seq<u8>)
    ensures
        find_key(ix, k) >= 0 ==> 0 <= find_key(ix, k) < ix.len() && ix[find_key(ix, k)].key@ == k,
        find_key(ix, k) == -1 ==> forall|j: int|
            0 <= j < ix.len() ==> (#[trigger] ix[j].key@) != k,
        find_key(ix, k) >= 0 || find_key(ix, k) == -1,
    decreases ix.len(),
{
    if ix.len() > 0 && ix.last().key@ != k {
        lemma_find_key(ix.drop_last(), k);
        assert(forall|j: int| 0 <= j < ix.len() - 1 ==> ix.drop_last()[j] == ix[j]);
    }
}

/// `find_key` only depends on the keys of the entries.
pub proof fn lemma_find_key_same_keys(ix1: Seq<IndexEntry>, ix2: Seq<IndexEntry>, k: Seq<u8>)
    requires
        ix1.len() == ix2.len(),
        forall|i: int| 0 <= i < ix1.len() ==> (#[trigger] ix2[i].key@) == ix1[i].key@,
    ensures
        find_key(ix2, k) == find_key(ix1, k),
    decreases ix1.len(),
{
    if ix1.len() > 0 {
        assert(forall|i: int|
            0 <= i < ix1.len() - 1 ==> (#[trigger] ix2.drop_last()[i].key@)
                == ix1.drop_last()[i].key@);
        lemma_find_key_same_keys(ix1.drop_last(), ix2.drop_last(), k);
    }
}

/// Byte-for-byte equality of two byte vectors.
pub fn bytes_eq(a: &Vec<u8>, b: &Vec<u8>) -> (r: bool)
    ensures
        r == (a@ == b@),
{
    if a.len() != b.len() {
        return false;
    }
    let mut i: usize = 0;
    while i < a.len()
        invariant
            a@.len() == b@.len(),
            0 <= i <= a@.len(),
            forall|j: int| 0 <= j < i ==> a@[j] == b@[j],
        decreases a@.len() - i,
    {
        if a[i] != b[i] {
            return false;
        }
        i += 1;
    }
    proof {
        assert(a@ =~= b@);
    }
    true
}

/// Position of the entry for `key`, if any.
pub fn index_find(ix: &Vec<IndexEntry>, key: &Vec<u8>) -> (r: Option<usize>)
    ensures
        match r {
            Some(i) => i < ix@.len() && ix@[i as int].key@ == key@ && find_key(ix@, key@) >= 0,
            None => find_key(ix@, key@) == -1,
        },
{
    let mut i: usize = 0;
    while i < ix.len()
        invariant
            0 <= i <= ix@.len(),
            forall|j: int| 0 <= j < i ==> (#[trigger] ix@[j].key@) != key@,
        decreases ix@.len() - i,
    {
        if bytes_eq(&ix[i].key, key) {
            proof {
                lemma_find_key(ix@, key@);
            }
            return Some(i);
        }
        i += 1;
    }
    proof {
        lemma_find_key(ix@, key@);
    }
    None
}

/// Record that the newest `Put` for `key` now lives at `(gen, pos, len)`.
/// Returns the byte length of the entry it superseded, if any.
pub(crate) fn index_put(
    ix: &mut Vec<IndexEntry>,
    key: Vec<u8>,
    gen: u64,
    pos: usize,
    len: usize,
    Ghost(m): Ghost<Map<Seq<u8>, LiveRec>>,
    Ghost(lr): Ghost<LiveRec>,
) -> (old_len: Option<usize>)
    requires
        keys_unique(old(ix)@),
        index_matches(old(ix)@, m),
        lr.gen == gen,
        lr.pos == pos as int,
        lr.len == len as int,
    ensures
        keys_unique(final(ix)@),
        index_matches(final(ix)@, m.insert(key@, lr)),
        match old_len {
            Some(l) => m.dom().contains(key@) && m[key@].len == l as int,
            None => !m.dom().contains(key@),
        },
{
    let found = index_find(ix, &key);
    match found {
        Some(i) => {
            let old_len = ix[i].len;
            proof {
                lemma_find_key(ix@, key@);
            }
            let e = IndexEntry { key, gen, pos, len };
            let ghost ix0 = ix@;
            ix[i] = e;
            proof {
                assert(forall|j: int|
                    0 <= j < ix0.len() ==> (#[trigger] ix@[j].key@) == ix0[j].key@);
                let m2 = m.insert(key@, lr);
                assert(keys_unique(ix@));
                assert forall|k2: Seq<u8>| #[trigger] m2.dom().contains(k2) implies find_key(
                    ix@,
                    k2,
                ) >= 0 by {
                    lemma_find_key_same_keys(ix0, ix@, k2);
                };
                assert forall|j: int| 0 <= j < ix@.len() implies {
                    let e2 = #[trigger] ix@[j];
                    &&& m2.dom().contains(e2.key@)
                    &&& m2[e2.key@].gen == e2.gen
                    &&& m2[e2.key@].pos == e2.pos as int
                    &&& m2[e2.key@].len == e2.len as int
                } by {
                    if j != i {
                        assert(ix@[j] == ix0[j]);
                        assert(ix0[j].key@ != key@);
                    }
                };
            }
            Some(old_len)
        },
        None => {
            proof {
                lemma_find_key(ix@, key@);
            }
            let e = IndexEntry { key, gen, pos, len };
            let ghost ix0 = ix@;
            ix.push(e);
            proof {
                assert(ix@.drop_last() =~= ix0);
                assert(keys_unique(ix@));
                let m2 = m.insert(ix@.last().key@, lr);
                assert forall|k2: Seq<u8>| #[trigger] m2.dom().contains(k2) implies find_key(
                    ix@,
                    k2,
                ) >= 0 by {
                    if k2 != ix@.last().key@ {
                        assert(find_key(ix@, k2) == find_key(ix0, k2));
                    }
                };
            }
            None
        },
    }
}

/// Drop the entry for `key`.  Returns the byte length of the dropped
/// entry, or `None` (leaving the index unchanged) when the key is absent.
pub(crate) fn index_remove(
    ix: &mut Vec<IndexEntry>,
    key: &Vec<u8>,
    Ghost(m): Ghost<Map<Seq<u8>, LiveRec>>,
) -> (old_len: Option<usize>)
    requires
        keys_unique(old(ix)@),
        index_matches(old(ix)@, m),
    ensures
        keys_unique(final(ix)@),
        index_matches(final(ix)@, m.remove(key@)),
        match old_len {
            Some(l) => m.dom().contains(key@) && m[key@].len == l as int,
            None => !m.dom().contains(key@) && final(ix)@ == old(ix)@,
        },
{
    let found = index_find(ix, key);
    match found {
        Some(i) => {
            proof {
                lemma_find_key(ix@, key@);
            }
            let old_len = ix[i].len;
            let ghost ix0 = ix@;
            let _ = ix.remove(i);
            proof {
                assert(forall|j: int| 0 <= j < i ==> ix@[j] == ix0[j]);
                assert(forall|j: int| i <= j < ix@.len() ==> ix@[j] == ix0[j + 1]);
                assert(keys_unique(ix@));
                let m2 = m.remove(key@);
                assert forall|k2: Seq<u8>| #[trigger] m2.dom().contains(k2) implies find_key(
                    ix@,
                    k2,
                ) >= 0 by {
                    let j0 = find_key(ix0, k2);
                    lemma_find_key(ix0, k2);
                    assert(j0 >= 0);
                    assert(j0 != i);
                    let j1: int = if j0 < i {
                        j0
                    } else {
                        j0 - 1
                    };
                    assert(ix@[j1].key@ == k2);
                    lemma_find_key(ix@, k2);
                };
            }
            Some(old_len)
        },
        None => {
            proof {
                lemma_find_key(ix@, key@);
                assert(m.remove(key@) =~= m);
            }
            None
        },
    }
}

} // verus!
