//! The earlier in-memory prototype of the store: a plain key/value mapping
//! with the same `set` / `get` / `remove` surface but no persistence.

use vstd::prelude::*;

verus! {

/// Index of the entry for key `k` (searching from the end), or `-1`.
spec fn find_at(s: Seq<(String, String)>, k: Seq<char>) -> int
    decreases s.len(),
{
    if s.len() == 0 {
        -1
    } else if s.last().0@ == k {
        s.len() - 1
    } else {
        find_at(s.drop_last(), k)
    }
}

spec fn unique_keys(s: Seq<(String, String)>) -> bool {
    forall|i: int, j: int| 0 <= i < j < s.len() ==> s[i].0@ != s[j].0@
}

proof fn lemma_find_at(s: Seq<(String, String)>, k: Seq<char>)
    ensures
        find_at(s, k) >= 0 ==> 0 <= find_at(s, k) < s.len() && s[find_at(s, k)].0@ == k,
        find_at(s, k) == -1 ==> forall|j: int| 0 <= j < s.len() ==> (#[trigger] s[j].0@) != k,
        find_at(s, k) >= 0 || find_at(s, k) == -1,
    decreases s.len(),
{
    if s.len() > 0 && s.last().0@ != k {
        lemma_find_at(s.drop_last(), k);
        assert(forall|j: int| 0 <= j < s.len() - 1 ==> s.drop_last()[j] == s[j]);
    }
}

/// `find_at` only depends on the keys.
proof fn lemma_find_at_same_keys(s1: Seq<(String, String)>, s2: Seq<(String, String)>, k: Seq<char>)
    requires
        s1.len() == s2.len(),
        forall|i: int| 0 <= i < s1.len() ==> (#[trigger] s2[i].0@) == s1[i].0@,
    ensures
        find_at(s2, k) == find_at(s1, k),
    decreases s1.len(),
{
    if s1.len() > 0 {
        assert(forall|i: int|
            0 <= i < s1.len() - 1 ==> (#[trigger] s2.drop_last()[i].0@) == s1.drop_last()[i].0@);
        lemma_find_at_same_keys(s1.drop_last(), s2.drop_last(), k);
    }
}

/// An in-memory string key/value store.
pub struct KvStore {
    kv: Vec<(String, String)>,
}

impl View for KvStore {
    type V = Map<Seq<char>, Seq<char>>;

    /// The mapping held: keys to their current values.
    closed spec fn view(&self) -> Map<Seq<char>, Seq<char>> {
        Map::new(
            |k: Seq<char>| find_at(self.kv@, k) >= 0,
            |k: Seq<char>| self.kv@[find_at(self.kv@, k)].1@,
        )
    }
}

impl KvStore {
    /// Each key is held at most once.
    pub closed spec fn wf(self) -> bool {
        unique_keys(self.kv@)
    }

    /// A fresh, empty store.
    pub fn new() -> (r: KvStore)
        ensures
            r.wf(),
            r@ == Map::<Seq<char>, Seq<char>>::empty(),
    {
        let r = KvStore { kv: Vec::new() };
        proof {
            assert(r@ =~= Map::<Seq<char>, Seq<char>>::empty());
        }
        r
    }

    fn find(&self, k: &String) -> (r: Option<usize>)
        ensures
            match r {
                Some(i) => i < self.kv@.len() && self.kv@[i as int].0@ == k@ && find_at(
                    self.kv@,
                    k@,
                ) >= 0,
                None => find_at(self.kv@, k@) == -1,
            },
    {
        let mut i: usize = 0;
        while i < self.kv.len()
            invariant
                0 <= i <= self.kv@.len(),
                forall|j: int| 0 <= j < i ==> (#[trigger] self.kv@[j].0@) != k@,
            decreases self.kv@.len() - i,
        {
            if self.kv[i].0 == *k {
                proof {
                    lemma_find_at(self.kv@, k@);
                }
                return Some(i);
            }
            i += 1;
        }
        proof {
            lemma_find_at(self.kv@, k@);
        }
        None
    }

    /// Map `k` to `v`, replacing any previous value.
    pub fn set(&mut self, k: String, v: String)
        requires
            old(self).wf(),
        ensures
            final(self).wf(),
            final(self)@ == old(self)@.insert(k@, v@),
    {
        let ghost s0 = self.kv@;
        let found = self.find(&k);
        match found {
            Some(i) => {
                proof {
                    lemma_find_at(s0, k@);
                }
                self.kv[i] = (k, v);
                proof {
                    let s1 = self.kv@;
                    assert(forall|j: int| 0 <= j < s0.len() ==> (#[trigger] s1[j].0@) == s0[j].0@);
                    assert(unique_keys(s1));
                    assert(self@ =~= old(self)@.insert(s1[i as int].0@, s1[i as int].1@)) by {
                        assert forall|k2: Seq<char>|
                            true implies (find_at(s1, k2) >= 0 <==> find_at(s0, k2) >= 0) && (
                        find_at(s1, k2) >= 0 ==> find_at(s1, k2) == find_at(s0, k2)) by {
                            lemma_find_at_same_keys(s0, s1, k2);
                        };
                        assert forall|k2: Seq<char>|
                            find_at(s1, k2) >= 0 && k2 != s1[i as int].0@ implies s1[find_at(
                            s1,
                            k2,
                        )].1@ == s0[find_at(s0, k2)].1@ by {
                            lemma_find_at(s1, k2);
                            assert(find_at(s1, k2) != i);
                        };
                        lemma_find_at(s1, s1[i as int].0@);
                        assert(find_at(s1, s1[i as int].0@) == i);
                    }
                }
            },
            None => {
                proof {
                    lemma_find_at(s0, k@);
                }
                self.kv.push((k, v));
                proof {
                    let s1 = self.kv@;
                    assert(s1.drop_last() =~= s0);
                    assert(unique_keys(s1));
                    assert(self@ =~= old(self)@.insert(s1.last().0@, s1.last().1@)) by {
                        assert forall|k2: Seq<char>| k2 != s1.last().0@ implies find_at(s1, k2)
                            == find_at(s0, k2) && (find_at(s0, k2) >= 0 ==> s1[find_at(
                            s1,
                            k2,
                        )] == s0[find_at(s0, k2)]) by {
                            assert(s1.drop_last() == s0);
                            lemma_find_at(s0, k2);
                        };
                        assert(find_at(s1, s1.last().0@) == s1.len() - 1);
                    }
                }
            },
        }
    }

    /// The value currently mapped to `k`, if any.
    pub fn get(&self, k: String) -> (r: Option<String>)
        requires
            self.wf(),
        ensures
            match r {
                Some(v) => self@.dom().contains(k@) && v@ == self@[k@],
                None => !self@.dom().contains(k@),
            },
    {
        let found = self.find(&k);
        match found {
            Some(i) => {
                proof {
                    lemma_find_at(self.kv@, k@);
                    assert(find_at(self.kv@, k@) == i) by {
                        let fi = find_at(self.kv@, k@);
                        if fi != i {
                            assert(self.kv@[fi].0@ == self.kv@[i as int].0@);
                        }
                    }
                }
                Some(self.kv[i].1.clone())
            },
            None => None,
        }
    }

    /// Drop `k` from the mapping; absent keys are ignored.
    pub fn remove(&mut self, k: String)
        requires
            old(self).wf(),
        ensures
            final(self).wf(),
            final(self)@ == old(self)@.remove(k@),
    {
        let ghost s0 = self.kv@;
        let found = self.find(&k);
        match found {
            Some(i) => {
                proof {
                    lemma_find_at(s0, k@);
                }
                let _ = self.kv.remove(i);
                proof {
                    let s1 = self.kv@;
                    assert(forall|j: int| 0 <= j < i ==> s1[j] == s0[j]);
                    assert(forall|j: int| i <= j < s1.len() ==> s1[j] == s0[j + 1]);
                    assert(unique_keys(s1));
                    assert(self@ =~= old(self)@.remove(k@)) by {
                        assert forall|k2: Seq<char>| k2 != k@ implies (find_at(s1, k2) >= 0
                            <==> find_at(s0, k2) >= 0) && (find_at(s1, k2) >= 0 ==> s1[find_at(
                            s1,
                            k2,
                        )].1@ == s0[find_at(s0, k2)].1@) by {
                            lemma_find_at(s0, k2);
                            lemma_find_at(s1, k2);
                            if find_at(s0, k2) >= 0 {
                                let j0 = find_at(s0, k2);
                                assert(j0 != i);
                                let j1: int = if j0 < i {
                                    j0
                                } else {
                                    j0 - 1
                                };
                                assert(s1[j1].0@ == k2);
                                assert(find_at(s1, k2) >= 0);
                            }
                            if find_at(s1, k2) >= 0 {
                                let j1 = find_at(s1, k2);
                                let j0: int = if j1 < i {
                                    j1
                                } else {
                                    j1 + 1
                                };
                                assert(s0[j0].0@ == k2);
                                assert(find_at(s0, k2) >= 0);
                                assert(s0[find_at(s0, k2)] == s1[j1]) by {
                                    let f0 = find_at(s0, k2);
                                    if f0 != j0 {
                                        assert(s0[f0].0@ == s0[j0].0@);
                                    }
                                }
                            }
                        };
                        assert(find_at(s1, k@) == -1) by {
                            lemma_find_at(s1, k@);
                            if find_at(s1, k@) >= 0 {
                                let j1 = find_at(s1, k@);
                                let j0: int = if j1 < i {
                                    j1
                                } else {
                                    j1 + 1
                                };
                                assert(s0[j0].0@ == k@);
                                assert(j0 != i);
                                assert(s0[i as int].0@ == k@);
                                assert(false);
                            }
                        }
                    }
                }
            },
            None => {
                proof {
                    lemma_find_at(s0, k@);
                    assert(self@ =~= old(self)@.remove(k@));
                }
            },
        }
    }
}

} // verus!
