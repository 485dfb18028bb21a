use paperman::records::{Record, Store, dup_store};
use paperman::session::{commit_add, commit_remove, commit_update, filter_by, retain_keys, Session};
use paperman::table::Table;
use paperman::value::Value;

fn record(fields: &[(&str, &str)]) -> Record {
    let mut r: Record = Table::new();
    for (k, v) in fields {
        r.set(k.to_string(), Value::Text(v.to_string()));
    }
    r
}

fn store(entries: &[(&str, &[(&str, &str)])]) -> Store {
    let mut s: Store = Table::new();
    for (k, fields) in entries {
        s.set(k.to_string(), record(fields));
    }
    s
}

fn text_of<'a>(s: &'a Store, key: &str, field: &str) -> &'a String {
    s.get(key).unwrap().get(field).unwrap().as_text().unwrap()
}

#[test]
fn table_get_set_remove() {
    let mut t: Record = Table::new();
    assert_eq!(t.len(), 0);
    assert!(t.get("a").is_none());
    t.set("a".to_string(), Value::Text("1".to_string()));
    t.set("b".to_string(), Value::Text("2".to_string()));
    assert_eq!(t.len(), 2);
    assert_eq!(t.get("a").unwrap().as_text().unwrap(), "1");
    t.set("a".to_string(), Value::Text("3".to_string()));
    assert_eq!(t.len(), 2);
    assert_eq!(t.get("a").unwrap().as_text().unwrap(), "3");
    t.remove_key("a");
    assert_eq!(t.len(), 1);
    assert!(t.get("a").is_none());
    t.remove_key("missing");
    assert_eq!(t.len(), 1);
}

#[test]
fn commit_add_inserts_the_selection_record() {
    let mut db = store(&[]);
    let sel = store(&[("k1", &[("title", "A Study")])]);
    commit_add(&mut db, sel);
    assert_eq!(db.len(), 1);
    assert_eq!(text_of(&db, "k1", "title"), "A Study");
}

#[test]
fn commit_add_selection_wins_on_conflict() {
    let mut db = store(&[("k1", &[("title", "Old")]), ("k2", &[("title", "Keep")])]);
    let sel = store(&[("k1", &[("title", "New")])]);
    commit_add(&mut db, sel);
    assert_eq!(db.len(), 2);
    assert_eq!(text_of(&db, "k1", "title"), "New");
    assert_eq!(text_of(&db, "k2", "title"), "Keep");
}

#[test]
fn commit_remove_deletes_present_and_ignores_absent() {
    let mut db = store(&[("k1", &[("title", "A")]), ("k2", &[("title", "B")])]);
    let sel = store(&[("k1", &[]), ("k3", &[])]);
    commit_remove(&mut db, &sel);
    assert_eq!(db.len(), 1);
    assert!(db.get("k1").is_none());
    assert!(db.get("k2").is_some());

    let mut empty_db = store(&[]);
    let sel2 = store(&[("k1", &[])]);
    commit_remove(&mut empty_db, &sel2);
    assert_eq!(empty_db.len(), 0);
}

#[test]
fn commit_update_sets_and_creates_fields() {
    let mut db = store(&[("k1", &[("title", "A")])]);
    let sel = store(&[("k1", &[]), ("k2", &[])]);
    commit_update(&mut db, &sel, "year", "2020");
    assert_eq!(text_of(&db, "k1", "year"), "2020");
    assert_eq!(text_of(&db, "k1", "title"), "A");
    assert_eq!(text_of(&db, "k2", "year"), "2020");
    assert_eq!(db.get("k2").unwrap().len(), 1);
}

#[test]
fn filter_by_keeps_matching_records_only() {
    let sel = store(&[
        ("a", &[("title", "Alpha")]),
        ("b", &[("title", "Beta García")]),
        ("g", &[("title", "Gamma")]),
    ]);
    let out = filter_by(sel, "title", "garcia");
    assert_eq!(out.len(), 1);
    assert!(out.get("b").is_some());
    assert_eq!(text_of(&out, "b", "title"), "Beta García");
}

#[test]
fn filter_by_raw_field_is_literal() {
    let sel = store(&[("a", &[("year", "2019")]), ("b", &[("year", "2020")])]);
    let out = filter_by(sel, "year", "2020");
    assert_eq!(out.len(), 1);
    assert!(out.get("b").is_some());
}

#[test]
fn filter_chain_is_monotonic() {
    let sel = store(&[
        ("a", &[("title", "Alpha"), ("year", "2020")]),
        ("b", &[("title", "Beta"), ("year", "2020")]),
        ("g", &[("title", "Gamma"), ("year", "2019")]),
    ]);
    let n0 = sel.len();
    let once = filter_by(sel, "year", "2020");
    assert!(once.len() <= n0);
    let keys: Vec<String> = once.pairs.iter().map(|p| p.0.clone()).collect();
    let twice = filter_by(once, "title", "beta");
    assert!(twice.len() <= keys.len());
    for p in twice.pairs.iter() {
        assert!(keys.contains(&p.0));
    }
    assert_eq!(twice.len(), 1);
    assert!(twice.get("b").is_some());
}

#[test]
fn retain_keys_keeps_exactly_the_given_keys() {
    let sel = store(&[("a", &[]), ("b", &[]), ("c", &[])]);
    let keep = vec!["c".to_string(), "a".to_string()];
    let out = retain_keys(sel, &keep);
    assert_eq!(out.len(), 2);
    assert!(out.get("a").is_some());
    assert!(out.get("b").is_none());
    assert!(out.get("c").is_some());
}

#[test]
fn session_selection_is_a_copy_of_the_store() {
    let db = store(&[("a", &[("title", "Alpha")]), ("b", &[("title", "Beta")])]);
    let mut session = Session::new(db);
    session.filter("title", "beta");
    assert_eq!(session.selection.len(), 1);
    assert_eq!(session.store.len(), 2);
    assert_eq!(text_of(&session.store, "a", "title"), "Alpha");
}

#[test]
fn dup_store_copies_every_field() {
    let db = store(&[("a", &[("title", "Alpha"), ("year", "2020")])]);
    let copy = dup_store(&db);
    assert_eq!(copy.len(), 1);
    assert_eq!(text_of(&copy, "a", "title"), "Alpha");
    assert_eq!(text_of(&copy, "a", "year"), "2020");
}

#[test]
fn session_update_writes_through_to_the_store() {
    let db = store(&[("a", &[("title", "Alpha")]), ("b", &[("title", "Beta")])]);
    let mut session = Session::new(db);
    session.filter("title", "alpha");
    session.update("read", "yes");
    assert_eq!(text_of(&session.store, "a", "read"), "yes");
    assert!(session.store.get("b").unwrap().get("read").is_none());
}
