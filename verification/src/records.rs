//! Records and the keyed record store. A record maps field names to values;
//! the store (and the selection, which is store-shaped) maps citation keys
//! to records.

use vstd::prelude::*;
use crate::table::{Table, unique_keys, lemma_pairs_map_congruence};
use crate::value::{Value, ValueV};

verus! {

/// One bibliographic record: field name to field value, unique field names.
pub type Record = Table<Value>;

/// The store, and the store-shaped selection: citation key to record.
pub type Store = Table<Record>;

/// The view of a record: its field map.
pub type RecordV = Map<Seq<char>, ValueV>;

/// The view of the store: its key-to-field-map map.
pub type StoreV = Map<Seq<char>, RecordV>;

/// A store is well formed when its keys are unique and each record's field
/// names are too.
pub open spec fn store_wf(s: Store) -> bool {
    s.wf() && forall|i: int| 0 <= i < s.pairs@.len() ==> (#[trigger] s.pairs@[i]).1.wf()
}

/// A field-for-field copy of a record.
pub fn dup_record(r: &Record) -> (r2: Record)
    ensures
        r2@ == r@,
        r.wf() ==> r2.wf(),
        r2.pairs@.len() == r.pairs@.len(),
        forall|j: int|
            0 <= j < r.pairs@.len() ==> (#[trigger] r2.pairs@[j]).0@ == r.pairs@[j].0@
                && r2.pairs@[j].1@ == r.pairs@[j].1@,
{
    let mut pairs: Vec<(String, Value)> = Vec::new();
    let mut i: usize = 0;
    while i < r.pairs.len()
        invariant
            i <= r.pairs@.len(),
            pairs@.len() == i,
            forall|j: int|
                0 <= j < i ==> (#[trigger] pairs@[j]).0@ == r.pairs@[j].0@ && pairs@[j].1@
                    == r.pairs@[j].1@,
        decreases r.pairs@.len() - i,
    {
        let k = r.pairs[i].0.clone();
        let v = r.pairs[i].1.clone();
        pairs.push((k, v));
        i = i + 1;
    }
    let r2 = Table { pairs };
    proof {
        lemma_pairs_map_congruence(r2.pairs@, r.pairs@);
        if r.wf() {
            assert(unique_keys(r2.pairs@)) by {
                assert forall|a: int, b: int|
                    0 <= a < b < r2.pairs@.len() implies (#[trigger] r2.pairs@[a]).0@ != (
                #[trigger] r2.pairs@[b]).0@ by {
                    assert((r.pairs@[a]).0@ != (r.pairs@[b]).0@);
                }
            }
        }
    }
    r2
}

/// A record-for-record copy of the store, made at session start so that the
/// selection never aliases the store's records.
pub fn dup_store(s: &Store) -> (s2: Store)
    ensures
        s2@ == s@,
        store_wf(*s) ==> store_wf(s2),
        s.wf() ==> s2.wf(),
        s2.pairs@.len() == s.pairs@.len(),
        forall|j: int|
            0 <= j < s.pairs@.len() ==> (#[trigger] s2.pairs@[j]).0@ == s.pairs@[j].0@
                && s2.pairs@[j].1@ == s.pairs@[j].1@,
{
    let mut pairs: Vec<(String, Record)> = Vec::new();
    let mut i: usize = 0;
    while i < s.pairs.len()
        invariant
            i <= s.pairs@.len(),
            pairs@.len() == i,
            forall|j: int|
                0 <= j < i ==> (#[trigger] pairs@[j]).0@ == s.pairs@[j].0@ && pairs@[j].1@
                    == s.pairs@[j].1@ && (s.pairs@[j].1.wf() ==> pairs@[j].1.wf()),
        decreases s.pairs@.len() - i,
    {
        let k = s.pairs[i].0.clone();
        let r = dup_record(&s.pairs[i].1);
        pairs.push((k, r));
        i = i + 1;
    }
    let s2 = Table { pairs };
    proof {
        lemma_pairs_map_congruence(s2.pairs@, s.pairs@);
        if s.wf() {
            assert(unique_keys(s2.pairs@)) by {
                assert forall|a: int, b: int|
                    0 <= a < b < s2.pairs@.len() implies (#[trigger] s2.pairs@[a]).0@ != (
                #[trigger] s2.pairs@[b]).0@ by {
                    assert((s.pairs@[a]).0@ != (s.pairs@[b]).0@);
                }
            }
        }
    }
    s2
}

} // verus!
