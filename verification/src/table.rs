//! A string-keyed association table with unique keys: the shape shared by a
//! record (field name to value) and by the store and the selection (citation
//! key to record). Its view is the key-to-value map; the order of the pairs
//! is the display order.

use vstd::prelude::*;
use crate::strutil::str_eq;

verus! {

pub struct Table<T> {
    pub pairs: Vec<(String, T)>,
}

/// The map denoted by an association list; later pairs win.
pub open spec fn pairs_map<T: View>(s: Seq<(String, T)>) -> Map<Seq<char>, T::V>
    decreases s.len(),
{
    if s.len() == 0 {
        Map::empty()
    } else {
        pairs_map(s.drop_last()).insert(s.last().0@, s.last().1@)
    }
}

/// Some pair of `s` carries the key `k`.
pub open spec fn has_key<T>(s: Seq<(String, T)>, k: Seq<char>) -> bool {
    exists|i: int| 0 <= i < s.len() && (#[trigger] s[i]).0@ == k
}

/// The keys of the pairs are pairwise distinct.
pub open spec fn unique_keys<T>(s: Seq<(String, T)>) -> bool {
    forall|i: int, j: int|
        0 <= i < j < s.len() ==> (#[trigger] s[i]).0@ != (#[trigger] s[j]).0@
}

impl<T: View> View for Table<T> {
    type V = Map<Seq<char>, T::V>;

    open spec fn view(&self) -> Map<Seq<char>, T::V> {
        pairs_map(self.pairs@)
    }
}

/// The domain of the denoted map is exactly the set of keys of the list.
pub proof fn lemma_pairs_map_dom<T: View>(s: Seq<(String, T)>)
    ensures
        pairs_map(s).dom().finite(),
        forall|k: Seq<char>| #[trigger] pairs_map(s).dom().contains(k) <==> has_key(s, k),
    decreases s.len(),
{
    if s.len() == 0 {
    } else {
        lemma_pairs_map_dom(s.drop_last());
        assert forall|k: Seq<char>| #[trigger] pairs_map(s).dom().contains(k) <==> has_key(
            s,
            k,
        ) by {
            if pairs_map(s).dom().contains(k) {
                if k == s.last().0@ {
                    assert((s[s.len() - 1]).0@ == k);
                } else {
                    let i = choose|i: int|
                        0 <= i < s.drop_last().len() && (#[trigger] s.drop_last()[i]).0@ == k;
                    assert((s[i]).0@ == k);
                }
            }
            if has_key(s, k) {
                let i = choose|i: int| 0 <= i < s.len() && (#[trigger] s[i]).0@ == k;
                if i < s.len() - 1 {
                    assert((s.drop_last()[i]).0@ == k);
                }
            }
        }
    }
}

/// Looking up the key of pair `i` yields its value, when keys are unique.
pub proof fn lemma_pairs_map_index<T: View>(s: Seq<(String, T)>, i: int)
    requires
        unique_keys(s),
        0 <= i < s.len(),
    ensures
        pairs_map(s).contains_key(s[i].0@),
        pairs_map(s)[s[i].0@] == s[i].1@,
    decreases s.len(),
{
    if i == s.len() - 1 {
    } else {
        assert(unique_keys(s.drop_last()));
        lemma_pairs_map_index(s.drop_last(), i);
        assert(s.drop_last()[i] == s[i]);
        assert(s[i].0@ != s[s.len() - 1].0@);
    }
}

/// Removing pair `i` removes exactly its key from the denoted map.
pub proof fn lemma_pairs_map_remove<T: View>(s: Seq<(String, T)>, i: int)
    requires
        unique_keys(s),
        0 <= i < s.len(),
    ensures
        unique_keys(s.remove(i)),
        pairs_map(s.remove(i)) == pairs_map(s).remove(s[i].0@),
    decreases s.len(),
{
    assert forall|a: int, b: int|
        0 <= a < b < s.remove(i).len() implies (#[trigger] s.remove(i)[a]).0@ != (#[trigger] s.remove(
        i,
    )[b]).0@ by {
        assert(s.remove(i)[a] == if a < i {
            s[a]
        } else {
            s[a + 1]
        });
        assert(s.remove(i)[b] == if b < i {
            s[b]
        } else {
            s[b + 1]
        });
    }
    if i == s.len() - 1 {
        assert(s.remove(i) =~= s.drop_last());
        lemma_pairs_map_dom(s.drop_last());
        assert(!has_key(s.drop_last(), s[i].0@)) by {
            if has_key(s.drop_last(), s[i].0@) {
                let j = choose|j: int|
                    0 <= j < s.drop_last().len() && (#[trigger] s.drop_last()[j]).0@ == s[i].0@;
                assert((s[j]).0@ == (s[i]).0@);
            }
        }
        assert(pairs_map(s.remove(i)) =~= pairs_map(s).remove(s[i].0@));
    } else {
        assert(unique_keys(s.drop_last()));
        lemma_pairs_map_remove(s.drop_last(), i);
        assert(s.remove(i).drop_last() =~= s.drop_last().remove(i));
        assert(s.remove(i).last() == s.last());
        assert(s.drop_last()[i] == s[i]);
        assert((s[i]).0@ != (s[s.len() - 1]).0@);
        assert(pairs_map(s.remove(i)) == pairs_map(s.drop_last().remove(i)).insert(
            s.last().0@,
            s.last().1@,
        ));
        assert(pairs_map(s.remove(i)) =~= pairs_map(s).remove(s[i].0@));
    }
}

/// Tables whose pairs agree in key and value views denote the same map.
pub proof fn lemma_pairs_map_congruence<T: View>(s1: Seq<(String, T)>, s2: Seq<(String, T)>)
    requires
        s1.len() == s2.len(),
        forall|i: int|
            0 <= i < s1.len() ==> (#[trigger] s1[i]).0@ == (#[trigger] s2[i]).0@ && s1[i].1@
                == s2[i].1@,
    ensures
        pairs_map(s1) == pairs_map(s2),
    decreases s1.len(),
{
    if s1.len() > 0 {
        lemma_pairs_map_congruence(s1.drop_last(), s2.drop_last());
        assert(s1.last() == s1[s1.len() - 1]);
        assert(pairs_map(s1) =~= pairs_map(s2));
    }
}

impl<T: View> Table<T> {
    /// Key uniqueness, the invariant every operation preserves.
    pub open spec fn wf(&self) -> bool {
        unique_keys(self.pairs@)
    }

    pub fn new() -> (r: Self)
        ensures
            r.wf(),
            r@ == Map::<Seq<char>, T::V>::empty(),
            r.pairs@.len() == 0,
    {
        Table { pairs: Vec::new() }
    }

    pub fn len(&self) -> (n: usize)
        ensures
            n == self.pairs@.len(),
    {
        self.pairs.len()
    }

    fn find(&self, key: &str) -> (r: Option<usize>)
        ensures
            match r {
                Some(i) => i < self.pairs@.len() && self.pairs@[i as int].0@ == key@,
                None => !has_key(self.pairs@, key@),
            },
    {
        let mut i: usize = 0;
        while i < self.pairs.len()
            invariant
                i <= self.pairs@.len(),
                forall|j: int| 0 <= j < i ==> (#[trigger] self.pairs@[j]).0@ != key@,
            decreases self.pairs@.len() - i,
        {
            if str_eq(self.pairs[i].0.as_str(), key) {
                return Some(i);
            }
            i = i + 1;
        }
        None
    }

    pub fn get(&self, key: &str) -> (r: Option<&T>)
        requires
            self.wf(),
        ensures
            match r {
                Some(v) => self@.contains_key(key@) && v@ == self@[key@],
                None => !self@.contains_key(key@),
            },
    {
        match self.find(key) {
            Some(i) => {
                proof {
                    lemma_pairs_map_index(self.pairs@, i as int);
                }
                Some(&self.pairs[i].1)
            },
            None => {
                proof {
                    lemma_pairs_map_dom(self.pairs@);
                }
                None
            },
        }
    }

    /// Upserts: the entry for `key` becomes `value`; every other entry is
    /// unchanged.
    pub fn set(&mut self, key: String, value: T)
        requires
            old(self).wf(),
        ensures
            final(self).wf(),
            final(self)@ == old(self)@.insert(key@, value@),
            final(self).pairs@.len() <= old(self).pairs@.len() + 1,
            forall|j: int|
                0 <= j < final(self).pairs@.len() ==> (#[trigger] final(self).pairs@[j]) == (
                key,
                value,
                ) || exists|j2: int|
                    0 <= j2 < old(self).pairs@.len() && final(self).pairs@[j] == old(
                        self,
                    ).pairs@[j2],
    {
        match self.find(key.as_str()) {
            Some(i) => {
                proof {
                    lemma_pairs_map_remove(self.pairs@, i as int);
                }
                let ghost before = self.pairs@;
                let _replaced = self.pairs.remove(i);
                proof {
                    assert(!has_key(self.pairs@, key@)) by {
                        if has_key(self.pairs@, key@) {
                            let j = choose|j: int|
                                0 <= j < self.pairs@.len() && (#[trigger] self.pairs@[j]).0@
                                    == key@;
                            assert(self.pairs@[j] == if j < i {
                                before[j]
                            } else {
                                before[j + 1]
                            });
                        }
                    }
                }
                let ghost removed = self.pairs@;
                self.pairs.push((key, value));
                proof {
                    assert(self.pairs@.drop_last() =~= removed);
                    assert(unique_keys(self.pairs@)) by {
                        assert forall|a: int, b: int|
                            0 <= a < b < self.pairs@.len() implies (#[trigger] self.pairs@[a]).0@
                            != (#[trigger] self.pairs@[b]).0@ by {
                            if b == self.pairs@.len() - 1 {
                                assert((removed[a]).0@ != key@);
                            }
                        }
                    }
                    assert(pairs_map(self.pairs@) =~= pairs_map(before).insert(key@, value@));
                    assert forall|j: int|
                        0 <= j < self.pairs@.len() implies (#[trigger] self.pairs@[j]) == (
                    key,
                    value,
                    ) || exists|j2: int| 0 <= j2 < before.len() && self.pairs@[j] == before[j2] by {
                        if j < self.pairs@.len() - 1 {
                            assert(self.pairs@[j] == removed[j]);
                            assert(removed[j] == if j < i {
                                before[j]
                            } else {
                                before[j + 1]
                            });
                        }
                    }
                }
            },
            None => {
                let ghost before = self.pairs@;
                self.pairs.push((key, value));
                proof {
                    assert(self.pairs@.drop_last() =~= before);
                    assert(unique_keys(self.pairs@)) by {
                        assert forall|a: int, b: int|
                            0 <= a < b < self.pairs@.len() implies (#[trigger] self.pairs@[a]).0@
                            != (#[trigger] self.pairs@[b]).0@ by {
                            if b == self.pairs@.len() - 1 {
                                assert((before[a]).0@ != key@);
                            }
                        }
                    }
                    assert forall|j: int|
                        0 <= j < self.pairs@.len() implies (#[trigger] self.pairs@[j]) == (
                    key,
                    value,
                    ) || exists|j2: int| 0 <= j2 < before.len() && self.pairs@[j] == before[j2] by {
                        if j < self.pairs@.len() - 1 {
                            assert(self.pairs@[j] == before[j]);
                        }
                    }
                }
            },
        }
    }

    /// Drops the entry for `key`, if any.
    pub fn remove_key(&mut self, key: &str)
        requires
            old(self).wf(),
        ensures
            final(self).wf(),
            final(self)@ == old(self)@.remove(key@),
            final(self).pairs@.len() <= old(self).pairs@.len(),
            forall|j: int|
                0 <= j < final(self).pairs@.len() ==> exists|j2: int|
                    0 <= j2 < old(self).pairs@.len() && #[trigger] final(self).pairs@[j] == old(
                        self,
                    ).pairs@[j2],
    {
        let _taken = self.take(key);
    }

    /// Takes the entry for `key` out of the table, if any.
    pub fn take(&mut self, key: &str) -> (r: Option<T>)
        requires
            old(self).wf(),
        ensures
            final(self).wf(),
            final(self).pairs@.len() <= old(self).pairs@.len(),
            forall|j: int|
                0 <= j < final(self).pairs@.len() ==> exists|j2: int|
                    0 <= j2 < old(self).pairs@.len() && #[trigger] final(self).pairs@[j] == old(
                        self,
                    ).pairs@[j2],
            match r {
                Some(v) => old(self)@.contains_key(key@) && v@ == old(self)@[key@] && final(self)@
                    == old(self)@.remove(key@) && exists|i: int|
                    0 <= i < old(self).pairs@.len() && old(self).pairs@[i].1 == v,
                None => !old(self)@.contains_key(key@) && final(self)@ == old(self)@.remove(key@)
                    && final(self).pairs@ == old(self).pairs@,
            },
    {
        match self.find(key) {
            Some(i) => {
                proof {
                    lemma_pairs_map_remove(self.pairs@, i as int);
                    lemma_pairs_map_index(self.pairs@, i as int);
                }
                let ghost before = self.pairs@;
                let removed = self.pairs.remove(i);
                proof {
                    assert forall|j: int| 0 <= j < self.pairs@.len() implies exists|j2: int|
                        0 <= j2 < before.len() && #[trigger] self.pairs@[j] == before[j2] by {
                        assert(self.pairs@[j] == if j < i {
                            before[j]
                        } else {
                            before[j + 1]
                        });
                    }
                }
                Some(removed.1)
            },
            None => {
                proof {
                    lemma_pairs_map_dom(self.pairs@);
                    assert(pairs_map(self.pairs@).remove(key@) =~= pairs_map(self.pairs@));
                }
                None
            },
        }
    }

    pub fn key_at(&self, i: usize) -> (k: &String)
        requires
            i < self.pairs@.len(),
        ensures
            k@ == self.pairs@[i as int].0@,
    {
        &self.pairs[i].0
    }

    pub fn value_at(&self, i: usize) -> (v: &T)
        requires
            i < self.pairs@.len(),
        ensures
            v@ == self.pairs@[i as int].1@,
    {
        &self.pairs[i].1
    }
}

} // verus!
