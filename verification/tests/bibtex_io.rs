use paperman::bibtex::{generate_bibtex, parse_bibtex};
use paperman::output::{display_titles, file_list, list_lines};
use paperman::records::{Record, Store};
use paperman::session::{commit_add, Session};
use paperman::table::Table;
use paperman::value::Value;

fn record(fields: &[(&str, &str)]) -> Record {
    let mut r: Record = Table::new();
    for (k, v) in fields {
        r.set(k.to_string(), Value::Text(v.to_string()));
    }
    r
}

fn store(entries: &[(&str, &[(&str, &str)])]) -> Store {
    let mut s: Store = Table::new();
    for (k, fields) in entries {
        s.set(k.to_string(), record(fields));
    }
    s
}

#[test]
fn parse_bibtex_builds_the_selection() {
    let text = "@article{doe2020,\n    title = {A Study}\n}\n";
    let sel = parse_bibtex(text).expect("well-formed citation text");
    assert_eq!(sel.len(), 1);
    let rec = sel.get("doe2020").unwrap();
    assert_eq!(rec.get("entry_type").unwrap().as_text().unwrap(), "article");
    assert_eq!(rec.get("title").unwrap().as_text().unwrap(), "A Study");
}

#[test]
fn malformed_citation_text_is_rejected() {
    assert!(parse_bibtex("@article{unclosed,").is_none());
}

#[test]
fn text_ending_inside_a_value_is_rejected() {
    assert!(parse_bibtex("@misc{k,t={").is_none());
    assert!(parse_bibtex("@misc{k,t=\"").is_none());
    assert!(parse_bibtex("@misc{k,t={abc\u{e9}").is_none());
}

#[test]
fn string_variables_expand_into_tags() {
    let text = "@string{name = \"Ada Lovelace\"}\n@misc{k,\n author = name,\n title = {X} # \" and \" # name\n}\n";
    let sel = parse_bibtex(text).expect("well-formed citation text");
    let rec = sel.get("k").unwrap();
    assert_eq!(rec.get("author").unwrap().as_text().unwrap(), "Ada Lovelace");
    assert_eq!(rec.get("title").unwrap().as_text().unwrap(), "X and Ada Lovelace");
}

#[test]
fn month_abbreviations_expand() {
    let sel = parse_bibtex("@misc{k,\n month = jan\n}\n").expect("well-formed citation text");
    let rec = sel.get("k").unwrap();
    assert_eq!(rec.get("month").unwrap().as_text().unwrap(), "January");
}

#[test]
fn self_referential_variable_drops_its_tags() {
    let text = "@string{a = a}\n@misc{k,\n t = a,\n u = {x}\n}\n";
    let sel = parse_bibtex(text).expect("the chain of entries still parses");
    let rec = sel.get("k").unwrap();
    assert_eq!(rec.get("entry_type").unwrap().as_text().unwrap(), "misc");
    assert_eq!(rec.get("u").unwrap().as_text().unwrap(), "x");
    assert!(rec.get("t").is_none());
}

#[test]
fn unknown_abbreviation_drops_only_its_tag() {
    let text = "@misc{k,\n t = nosuchvar,\n u = {x}\n}\n";
    let sel = parse_bibtex(text).expect("the entry itself parses");
    let rec = sel.get("k").unwrap();
    assert!(rec.get("t").is_none());
    assert_eq!(rec.get("u").unwrap().as_text().unwrap(), "x");
}

#[test]
fn import_then_add_lands_in_the_store() {
    let db = store(&[]);
    let mut session = Session::new(db);
    let sel = parse_bibtex("@article{doe2020,\n    title = {A Study}\n}\n").unwrap();
    session.replace_selection(sel);
    session.add();
    assert_eq!(session.store.len(), 1);
    let rec = session.store.get("doe2020").unwrap();
    assert_eq!(rec.len(), 2);
    assert_eq!(rec.get("entry_type").unwrap().as_text().unwrap(), "article");
    assert_eq!(rec.get("title").unwrap().as_text().unwrap(), "A Study");
}

#[test]
fn export_renders_one_entry() {
    let sel = store(&[("doe2020", &[("entry_type", "article"), ("title", "A Study")])]);
    let out = generate_bibtex(&sel);
    assert_eq!(out, "@article{doe2020,\n    title = {A Study},\n}\n");
}

#[test]
fn export_closes_the_whole_batch_with_one_brace() {
    let sel = store(&[
        ("a", &[("entry_type", "book"), ("title", "One")]),
        ("b", &[("entry_type", "misc"), ("title", "Two")]),
    ]);
    let out = generate_bibtex(&sel);
    assert_eq!(out.lines().filter(|l| *l == "}").count(), 1);
    assert_eq!(out, "@book{a,\n    title = {One},\n@misc{b,\n    title = {Two},\n}\n");
}

#[test]
fn export_renders_lists_and_missing_entry_type() {
    let mut rec: Record = Table::new();
    rec.set(
        "author".to_string(),
        Value::List(vec!["Ada".to_string(), "Grace \"G\"".to_string()]),
    );
    let mut sel: Store = Table::new();
    sel.set("k".to_string(), rec);
    let out = generate_bibtex(&sel);
    assert_eq!(out, "@null{k,\n    author = {[\"Ada\",\"Grace \\\"G\\\"\"]},\n}\n");
}

#[test]
fn list_lines_clean_the_field_values() {
    let sel = store(&[
        ("a", &[("title", "Al\\\"oha   there")]),
        ("b", &[("title", "Beta")]),
    ]);
    let lines = list_lines(&sel, "title").unwrap();
    assert_eq!(lines, vec!["Alöha there".to_string(), "Beta".to_string()]);
}

#[test]
fn list_lines_fail_on_a_missing_field() {
    let sel = store(&[("a", &[("title", "Alpha")]), ("b", &[("year", "2020")])]);
    assert!(list_lines(&sel, "title").is_none());
}

#[test]
fn titles_fall_back_to_null() {
    let sel = store(&[("a", &[("title", "Alpha")]), ("b", &[("year", "2020")])]);
    let titles = display_titles(&sel);
    assert_eq!(titles, vec!["Alpha".to_string(), "null".to_string()]);
}

#[test]
fn file_list_returns_every_path_or_nothing() {
    let sel = store(&[("a", &[("file", "/tmp/a.pdf")]), ("b", &[("file", "/tmp/b.pdf")])]);
    assert_eq!(
        file_list(&sel).unwrap(),
        vec!["/tmp/a.pdf".to_string(), "/tmp/b.pdf".to_string()]
    );
    let sel2 = store(&[("a", &[("file", "/tmp/a.pdf")]), ("b", &[])]);
    assert!(file_list(&sel2).is_none());
}
