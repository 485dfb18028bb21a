//! The selection model and the command-chain state: a session threads a
//! `(store, selection)` pair through filter and commit operations. Filters
//! only prune the selection; commits fold the selection into the store,
//! which the caller then persists.

use vstd::prelude::*;
use crate::filter::{matches_value, normalized_field, normalize_for, match_values};
use crate::records::{Record, Store, RecordV, StoreV, store_wf, dup_store};
use crate::table::{Table, pairs_map, unique_keys, has_key, lemma_pairs_map_dom};
use crate::value::{Value, ValueV};
use crate::strutil::str_eq;
use vstd::set_lib::lemma_len_subset;

verus! {

/// Whether a record satisfies one `by <field> <value>` filter: the query is
/// matched against the record's field, normalized for `title` and `author`.
pub open spec fn record_matches(rec: RecordV, field: Seq<char>, q: Seq<char>) -> bool {
    matches_value(
        q,
        if rec.contains_key(field) {
            Some(rec[field])
        } else {
            None
        },
        normalized_field(field),
    )
}

/// The keys of `m` whose records the predicate keeps.
pub open spec fn keep_set(m: StoreV, p: spec_fn(Seq<char>, RecordV) -> bool) -> Set<Seq<char>> {
    Set::new(|k: Seq<char>| m.dom().contains(k) && p(k, m[k]))
}

/// One filter command applied to a selection.
pub open spec fn filter_step(m: StoreV, field: Seq<char>, q: Seq<char>) -> StoreV {
    m.restrict(keep_set(m, |k: Seq<char>, rec: RecordV| record_matches(rec, field, q)))
}

/// A chain of filter commands applied in order.
pub open spec fn run_filters(m: StoreV, cmds: Seq<(Seq<char>, Seq<char>)>) -> StoreV
    decreases cmds.len(),
{
    if cmds.len() == 0 {
        m
    } else {
        run_filters(filter_step(m, cmds[0].0, cmds[0].1), cmds.skip(1))
    }
}

/// Selection monotonicity: any sequence of filter commands keeps only keys
/// of the initial selection, leaves every kept record unchanged, and never
/// grows the selection.
pub proof fn lemma_filter_chain_monotonic(m: StoreV, cmds: Seq<(Seq<char>, Seq<char>)>)
    requires
        m.dom().finite(),
    ensures
        run_filters(m, cmds).dom().subset_of(m.dom()),
        run_filters(m, cmds).dom().finite(),
        run_filters(m, cmds).dom().len() <= m.dom().len(),
        forall|k: Seq<char>| #[trigger]
            run_filters(m, cmds).dom().contains(k) ==> run_filters(m, cmds)[k] == m[k],
    decreases cmds.len(),
{
    if cmds.len() > 0 {
        let m1 = filter_step(m, cmds[0].0, cmds[0].1);
        assert(m1.dom().subset_of(m.dom()));
        lemma_len_subset(m1.dom(), m.dom());
        lemma_filter_chain_monotonic(m1, cmds.skip(1));
    }
}

/// The pairs the predicate keeps, in their original order.
pub open spec fn sel_filter(
    s: Seq<(String, Record)>,
    p: spec_fn(Seq<char>, RecordV) -> bool,
) -> Seq<(String, Record)>
    decreases s.len(),
{
    if s.len() == 0 {
        Seq::empty()
    } else {
        let rest = sel_filter(s.drop_last(), p);
        if p(s.last().0@, s.last().1@) {
            rest.push(s.last())
        } else {
            rest
        }
    }
}

/// Filtering an association list denotes restricting its map.
pub proof fn lemma_sel_filter(s: Seq<(String, Record)>, p: spec_fn(Seq<char>, RecordV) -> bool)
    requires
        unique_keys(s),
    ensures
        unique_keys(sel_filter(s, p)),
        pairs_map(sel_filter(s, p)) == pairs_map(s).restrict(keep_set(pairs_map(s), p)),
        forall|j: int|
            0 <= j < sel_filter(s, p).len() ==> exists|j2: int|
                0 <= j2 < s.len() && #[trigger] sel_filter(s, p)[j] == s[j2],
    decreases s.len(),
{
    if s.len() == 0 {
        assert(pairs_map(sel_filter(s, p)) =~= pairs_map(s).restrict(keep_set(pairs_map(s), p)));
    } else {
        let sd = s.drop_last();
        let lk = s.last().0@;
        let lv = s.last().1@;
        assert(unique_keys(sd));
        lemma_sel_filter(sd, p);
        lemma_pairs_map_dom(sd);
        assert(!has_key(sd, lk)) by {
            if has_key(sd, lk) {
                let j = choose|j: int| 0 <= j < sd.len() && (#[trigger] sd[j]).0@ == lk;
                assert((s[j]).0@ == (s[s.len() - 1]).0@);
            }
        }
        assert(!pairs_map(sd).dom().contains(lk));
        let f = sel_filter(s, p);
        let rest = sel_filter(sd, p);
        if p(lk, lv) {
            assert(f == rest.push(s.last()));
            assert(f.drop_last() =~= rest);
            assert(pairs_map(f) == pairs_map(rest).insert(lk, lv));
            assert(pairs_map(f) =~= pairs_map(s).restrict(keep_set(pairs_map(s), p)));
            assert forall|j: int| 0 <= j < f.len() implies exists|j2: int|
                0 <= j2 < s.len() && #[trigger] f[j] == s[j2] by {
                if j < rest.len() {
                    let j2 = choose|j2: int| 0 <= j2 < sd.len() && #[trigger] rest[j] == sd[j2];
                    assert(f[j] == s[j2]);
                } else {
                    assert(f[j] == s[s.len() - 1]);
                }
            }
            assert forall|a: int, b: int| 0 <= a < b < f.len() implies (#[trigger] f[a]).0@ != (
            #[trigger] f[b]).0@ by {
                if b < rest.len() {
                    assert(rest[a] == f[a] && rest[b] == f[b]);
                } else {
                    assert(f[b] == s.last());
                    let a2 = choose|j2: int| 0 <= j2 < sd.len() && #[trigger] rest[a] == sd[j2];
                    assert((sd[a2]).0@ == f[a].0@);
                    if f[a].0@ == lk {
                        assert(has_key(sd, lk));
                    }
                }
            }
        } else {
            assert(f == rest);
            assert(pairs_map(f) =~= pairs_map(s).restrict(keep_set(pairs_map(s), p)));
            assert forall|j: int| 0 <= j < f.len() implies exists|j2: int|
                0 <= j2 < s.len() && #[trigger] f[j] == s[j2] by {
                let j2 = choose|j2: int| 0 <= j2 < sd.len() && #[trigger] rest[j] == sd[j2];
                assert(f[j] == s[j2]);
            }
        }
    }
}

/// Prunes a selection to the records matching `by <field> <value>`.
pub fn filter_by(sel: Store, field: &str, value: &str) -> (r: Store)
    requires
        store_wf(sel),
    ensures
        store_wf(r),
        r@ == filter_step(sel@, field@, value@),
{
    let ghost p = |k: Seq<char>, rec: RecordV| record_matches(rec, field@, value@);
    let clean = normalize_for(field);
    let mut src = sel;
    let ghost orig = src.pairs@;
    let mut kept: Vec<(String, Record)> = Vec::new();
    let mut i: usize = 0;
    let n0 = src.pairs.len();
    proof {
        assert(orig.len() == n0);
        assert(orig.take(0) =~= Seq::<(String, Record)>::empty());
        assert(orig.skip(0) =~= orig);
    }
    while src.pairs.len() > 0
        invariant
            orig.len() <= usize::MAX,
            unique_keys(orig),
            forall|j: int| 0 <= j < orig.len() ==> (#[trigger] orig[j]).1.wf(),
            i + src.pairs@.len() == orig.len(),
            src.pairs@ == orig.skip(i as int),
            kept@ == sel_filter(orig.take(i as int), p),
            forall|j: int| 0 <= j < kept@.len() ==> (#[trigger] kept@[j]).1.wf(),
            clean == normalized_field(field@),
            forall|k: Seq<char>, rec: RecordV| #[trigger]
                p(k, rec) == record_matches(rec, field@, value@),
        decreases src.pairs@.len(),
    {
        let p0 = src.pairs.remove(0);
        proof {
            assert(p0 == orig[i as int]);
            assert(src.pairs@ =~= orig.skip(i as int + 1));
            assert(orig.take(i as int + 1).drop_last() =~= orig.take(i as int));
            assert(orig.take(i as int + 1).last() == orig[i as int]);
        }
        let keep = match_values(value, p0.1.get(field), clean);
        proof {
            assert(keep == p(p0.0@, p0.1@));
        }
        if keep {
            kept.push(p0);
            proof {
                assert(kept@ =~= sel_filter(orig.take(i as int + 1), p));
            }
        } else {
            proof {
                assert(kept@ =~= sel_filter(orig.take(i as int + 1), p));
            }
        }
        i = i + 1;
    }
    proof {
        assert(orig.take(orig.len() as int) =~= orig);
        lemma_sel_filter(orig, p);
        assert(keep_set(pairs_map(orig), p) =~= keep_set(
            pairs_map(orig),
            |k: Seq<char>, rec: RecordV| record_matches(rec, field@, value@),
        ));
    }
    Table { pairs: kept }
}

/// The set denoted by a list of keys.
pub open spec fn key_list_set(keys: Seq<Seq<char>>) -> Set<Seq<char>> {
    Set::new(|k: Seq<char>| keys.contains(k))
}

fn key_list_contains(keys: &Vec<String>, k: &str) -> (r: bool)
    ensures
        r == keys.deep_view().contains(k@),
{
    let mut i: usize = 0;
    while i < keys.len()
        invariant
            i <= keys@.len(),
            forall|j: int| 0 <= j < i ==> keys.deep_view()[j] != k@,
        decreases keys@.len() - i,
    {
        if str_eq(keys[i].as_str(), k) {
            proof {
                assert(keys.deep_view()[i as int] == k@);
            }
            return true;
        }
        i = i + 1;
    }
    proof {
        assert forall|j: int| 0 <= j < keys.deep_view().len() implies keys.deep_view()[j]
            != k@ by {}
    }
    false
}

/// Prunes a selection to exactly the given keys, as the interactive pick
/// command does with the keys the chooser returned.
pub fn retain_keys(sel: Store, keys: &Vec<String>) -> (r: Store)
    requires
        store_wf(sel),
    ensures
        store_wf(r),
        r@ == sel@.restrict(key_list_set(keys.deep_view())),
{
    let ghost p = |k: Seq<char>, rec: RecordV| keys.deep_view().contains(k);
    let mut src = sel;
    let ghost orig = src.pairs@;
    let mut kept: Vec<(String, Record)> = Vec::new();
    let mut i: usize = 0;
    let n0 = src.pairs.len();
    proof {
        assert(orig.len() == n0);
        assert(orig.take(0) =~= Seq::<(String, Record)>::empty());
        assert(orig.skip(0) =~= orig);
    }
    while src.pairs.len() > 0
        invariant
            orig.len() <= usize::MAX,
            unique_keys(orig),
            forall|j: int| 0 <= j < orig.len() ==> (#[trigger] orig[j]).1.wf(),
            i + src.pairs@.len() == orig.len(),
            src.pairs@ == orig.skip(i as int),
            kept@ == sel_filter(orig.take(i as int), p),
            forall|j: int| 0 <= j < kept@.len() ==> (#[trigger] kept@[j]).1.wf(),
            forall|k: Seq<char>, rec: RecordV| #[trigger]
                p(k, rec) == keys.deep_view().contains(k),
        decreases src.pairs@.len(),
    {
        let p0 = src.pairs.remove(0);
        proof {
            assert(p0 == orig[i as int]);
            assert(src.pairs@ =~= orig.skip(i as int + 1));
            assert(orig.take(i as int + 1).drop_last() =~= orig.take(i as int));
            assert(orig.take(i as int + 1).last() == orig[i as int]);
        }
        let keep = key_list_contains(keys, p0.0.as_str());
        proof {
            assert(keep == p(p0.0@, p0.1@));
        }
        if keep {
            kept.push(p0);
            proof {
                assert(kept@ =~= sel_filter(orig.take(i as int + 1), p));
            }
        } else {
            proof {
                assert(kept@ =~= sel_filter(orig.take(i as int + 1), p));
            }
        }
        i = i + 1;
    }
    proof {
        assert(orig.take(orig.len() as int) =~= orig);
        lemma_sel_filter(orig, p);
        assert(keep_set(pairs_map(orig), p) =~= pairs_map(orig).dom().intersect(
            key_list_set(keys.deep_view()),
        ));
        assert(pairs_map(orig).restrict(keep_set(pairs_map(orig), p)) =~= pairs_map(
            orig,
        ).restrict(key_list_set(keys.deep_view())));
    }
    Table { pairs: kept }
}

/// The set of keys of an association list prefix.
pub open spec fn keys_of(s: Seq<(String, Record)>) -> Set<Seq<char>> {
    Set::new(|k: Seq<char>| has_key(s, k))
}

proof fn lemma_keys_of_take_step(s: Seq<(String, Record)>, i: int)
    requires
        0 <= i < s.len(),
    ensures
        keys_of(s.take(i + 1)) == keys_of(s.take(i)).insert(s[i].0@),
{
    assert forall|k: Seq<char>| keys_of(s.take(i + 1)).contains(k) <==> keys_of(
        s.take(i),
    ).insert(s[i].0@).contains(k) by {
        if has_key(s.take(i + 1), k) {
            let j = choose|j: int| 0 <= j < s.take(i + 1).len() && (#[trigger] s.take(i + 1)[j]).0@
                == k;
            if j < i {
                assert((s.take(i)[j]).0@ == k);
            }
        }
        if has_key(s.take(i), k) {
            let j = choose|j: int| 0 <= j < s.take(i).len() && (#[trigger] s.take(i)[j]).0@ == k;
            assert((s.take(i + 1)[j]).0@ == k);
        }
        if k == s[i].0@ {
            assert((s.take(i + 1)[i]).0@ == k);
        }
    }
    assert(keys_of(s.take(i + 1)) =~= keys_of(s.take(i)).insert(s[i].0@));
}

proof fn lemma_keys_of_full(s: Seq<(String, Record)>)
    ensures
        keys_of(s) == pairs_map(s).dom(),
{
    lemma_pairs_map_dom(s);
    assert(keys_of(s) =~= pairs_map(s).dom());
}

/// Upserts every selection record into the store; the selection wins on a
/// conflicting key. The caller persists the store afterwards.
pub fn commit_add(store: &mut Store, sel: Store)
    requires
        store_wf(*old(store)),
        store_wf(sel),
    ensures
        store_wf(*final(store)),
        final(store)@ == old(store)@.union_prefer_right(sel@),
{
    let mut src = sel;
    let ghost orig = src.pairs@;
    let mut i: usize = 0;
    let n0 = src.pairs.len();
    proof {
        assert(orig.len() == n0);
        assert(orig.take(0) =~= Seq::<(String, Record)>::empty());
        assert(orig.skip(0) =~= orig);
        assert(store@ =~= old(store)@.union_prefer_right(pairs_map(orig.take(0))));
    }
    while src.pairs.len() > 0
        invariant
            orig.len() <= usize::MAX,
            unique_keys(orig),
            forall|j: int| 0 <= j < orig.len() ==> (#[trigger] orig[j]).1.wf(),
            i + src.pairs@.len() == orig.len(),
            src.pairs@ == orig.skip(i as int),
            store@ == old(store)@.union_prefer_right(pairs_map(orig.take(i as int))),
            store_wf(*store),
        decreases src.pairs@.len(),
    {
        let p0 = src.pairs.remove(0);
        proof {
            assert(p0 == orig[i as int]);
            assert(src.pairs@ =~= orig.skip(i as int + 1));
            assert(orig.take(i as int + 1).drop_last() =~= orig.take(i as int));
            assert(orig.take(i as int + 1).last() == orig[i as int]);
        }
        let ghost before = store.pairs@;
        let ghost key = p0.0;
        let ghost val = p0.1;
        store.set(p0.0, p0.1);
        proof {
            assert(store@ =~= old(store)@.union_prefer_right(pairs_map(orig.take(i as int + 1))));
            assert forall|j: int| 0 <= j < store.pairs@.len() implies (#[trigger] store.pairs@[j]).1.wf() by {
                if store.pairs@[j] == (key, val) {
                } else {
                    let j2 = choose|j2: int| 0 <= j2 < before.len() && store.pairs@[j] == before[j2];
                }
            }
        }
        i = i + 1;
    }
    proof {
        assert(orig.take(orig.len() as int) =~= orig);
    }
}

/// Deletes every selection key from the store; a key absent from the store
/// is no error. The caller persists the store afterwards.
pub fn commit_remove(store: &mut Store, sel: &Store)
    requires
        store_wf(*old(store)),
        sel.wf(),
    ensures
        store_wf(*final(store)),
        final(store)@ == old(store)@.remove_keys(sel@.dom()),
{
    let mut i: usize = 0;
    let n0 = sel.pairs.len();
    proof {
        assert(sel.pairs@.take(0) =~= Seq::<(String, Record)>::empty());
        assert(store@ =~= old(store)@.remove_keys(keys_of(sel.pairs@.take(0))));
    }
    while i < n0
        invariant
            n0 == sel.pairs@.len(),
            i <= n0,
            sel.wf(),
            store@ == old(store)@.remove_keys(keys_of(sel.pairs@.take(i as int))),
            store_wf(*store),
        decreases n0 - i,
    {
        let ghost before = store.pairs@;
        store.remove_key(sel.pairs[i].0.as_str());
        proof {
            lemma_keys_of_take_step(sel.pairs@, i as int);
            assert(store@ =~= old(store)@.remove_keys(keys_of(sel.pairs@.take(i as int + 1))));
            assert forall|j: int| 0 <= j < store.pairs@.len() implies (#[trigger] store.pairs@[j]).1.wf() by {
                let j2 = choose|j2: int| 0 <= j2 < before.len() && store.pairs@[j] == before[j2];
            }
        }
        i = i + 1;
    }
    proof {
        assert(sel.pairs@.take(n0 as int) =~= sel.pairs@);
        lemma_keys_of_full(sel.pairs@);
    }
}

/// The store after `update <field> <value>`: for every selection key the
/// store record gains that field (the record is created when absent);
/// every other entry is unchanged.
pub open spec fn apply_update(
    st: StoreV,
    keys: Set<Seq<char>>,
    field: Seq<char>,
    value: Seq<char>,
) -> StoreV {
    Map::new(
        |k: Seq<char>| st.dom().contains(k) || keys.contains(k),
        |k: Seq<char>|
            if keys.contains(k) {
                (if st.dom().contains(k) {
                    st[k]
                } else {
                    Map::empty()
                }).insert(field, ValueV::Text(value))
            } else {
                st[k]
            },
    )
}

/// Writes `field = value` into the store record of every selection key.
/// The caller persists the store afterwards.
pub fn commit_update(store: &mut Store, sel: &Store, field: &str, value: &str)
    requires
        store_wf(*old(store)),
        sel.wf(),
    ensures
        store_wf(*final(store)),
        final(store)@ == apply_update(old(store)@, sel@.dom(), field@, value@),
{
    let mut i: usize = 0;
    let n0 = sel.pairs.len();
    proof {
        assert(sel.pairs@.take(0) =~= Seq::<(String, Record)>::empty());
        assert(store@ =~= apply_update(
            old(store)@,
            keys_of(sel.pairs@.take(0)),
            field@,
            value@,
        ));
    }
    while i < n0
        invariant
            n0 == sel.pairs@.len(),
            i <= n0,
            sel.wf(),
            store@ == apply_update(old(store)@, keys_of(sel.pairs@.take(i as int)), field@, value@),
            store_wf(*store),
        decreases n0 - i,
    {
        let key = sel.pairs[i].0.clone();
        let ghost st_before = store@;
        let ghost pairs_before_take = store.pairs@;
        let rec_opt = store.take(key.as_str());
        let mut rec = match rec_opt {
            Some(r) => r,
            None => Table::new(),
        };
        proof {
            if rec_opt is Some {
                let j2 = choose|j2: int|
                    0 <= j2 < pairs_before_take.len() && pairs_before_take[j2].1
                        == rec_opt->Some_0;
            }
            assert(rec.wf());
        }
        rec.set(field.to_owned(), Value::Text(value.to_owned()));
        let ghost before = store.pairs@;
        let ghost reck = rec;
        store.set(key, rec);
        proof {
            lemma_keys_of_take_step(sel.pairs@, i as int);
            assert(store@ =~= apply_update(
                old(store)@,
                keys_of(sel.pairs@.take(i as int + 1)),
                field@,
                value@,
            ));
            assert forall|j: int| 0 <= j < store.pairs@.len() implies (#[trigger] store.pairs@[j]).1.wf() by {
                if store.pairs@[j] == (key, reck) {
                } else {
                    let j2 = choose|j2: int| 0 <= j2 < before.len() && store.pairs@[j] == before[j2];
                    let j3 = choose|j3: int|
                        0 <= j3 < pairs_before_take.len() && before[j2] == pairs_before_take[j3];
                }
            }
        }
        i = i + 1;
    }
    proof {
        assert(sel.pairs@.take(n0 as int) =~= sel.pairs@);
        lemma_keys_of_full(sel.pairs@);
    }
}

/// One command-chain session: the durable store and the working selection.
pub struct Session {
    pub store: Store,
    pub selection: Store,
}

impl Session {
    /// Opens a session: the selection starts as a full copy of the store.
    pub fn new(store: Store) -> (s: Session)
        requires
            store_wf(store),
        ensures
            store_wf(s.store),
            store_wf(s.selection),
            s.store@ == store@,
            s.selection@ == store@,
    {
        let selection = dup_store(&store);
        Session { store, selection }
    }

    /// The `by <field> <value>` command: prunes the selection.
    pub fn filter(&mut self, field: &str, value: &str)
        requires
            store_wf(old(self).store),
            store_wf(old(self).selection),
        ensures
            store_wf(final(self).store),
            store_wf(final(self).selection),
            final(self).store == old(self).store,
            final(self).selection@ == filter_step(old(self).selection@, field@, value@),
    {
        let mut tmp: Store = Table::new();
        core::mem::swap(&mut self.selection, &mut tmp);
        self.selection = filter_by(tmp, field, value);
    }

    /// Applying a pick: prunes the selection to the chosen keys.
    pub fn retain(&mut self, keys: &Vec<String>)
        requires
            store_wf(old(self).store),
            store_wf(old(self).selection),
        ensures
            store_wf(final(self).store),
            store_wf(final(self).selection),
            final(self).store == old(self).store,
            final(self).selection@ == old(self).selection@.restrict(
                key_list_set(keys.deep_view()),
            ),
    {
        let mut tmp: Store = Table::new();
        core::mem::swap(&mut self.selection, &mut tmp);
        self.selection = retain_keys(tmp, keys);
    }

    /// An import replaces the selection wholesale.
    pub fn replace_selection(&mut self, sel: Store)
        requires
            store_wf(old(self).store),
            store_wf(sel),
        ensures
            store_wf(final(self).store),
            store_wf(final(self).selection),
            final(self).store == old(self).store,
            final(self).selection@ == sel@,
    {
        self.selection = sel;
    }

    /// The `add` commit: upserts the selection into the store, consuming
    /// the selection, which is left empty.
    pub fn add(&mut self)
        requires
            store_wf(old(self).store),
            store_wf(old(self).selection),
        ensures
            store_wf(final(self).store),
            final(self).store@ == old(self).store@.union_prefer_right(old(self).selection@),
            store_wf(final(self).selection),
            final(self).selection@ == Map::<Seq<char>, RecordV>::empty(),
    {
        let mut tmp: Store = Table::new();
        core::mem::swap(&mut self.selection, &mut tmp);
        commit_add(&mut self.store, tmp);
    }

    /// The `remove` commit: deletes the selection's keys from the store.
    pub fn remove(&mut self)
        requires
            store_wf(old(self).store),
            store_wf(old(self).selection),
        ensures
            store_wf(final(self).store),
            final(self).store@ == old(self).store@.remove_keys(old(self).selection@.dom()),
            final(self).selection == old(self).selection,
    {
        commit_remove(&mut self.store, &self.selection);
    }

    /// The `update <field> <value>` commit.
    pub fn update(&mut self, field: &str, value: &str)
        requires
            store_wf(old(self).store),
            store_wf(old(self).selection),
        ensures
            store_wf(final(self).store),
            final(self).store@ == apply_update(
                old(self).store@,
                old(self).selection@.dom(),
                field@,
                value@,
            ),
            final(self).selection == old(self).selection,
    {
        commit_update(&mut self.store, &self.selection, field, value);
    }
}

} // verus!
