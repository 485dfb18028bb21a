use paperman::picker::{keys_at_indices, parse_index, selection_keys};
use paperman::records::Store;
use paperman::session::retain_keys;
use paperman::table::Table;

fn keyed_store(keys: &[&str]) -> Store {
    let mut s: Store = Table::new();
    for k in keys {
        s.set(k.to_string(), Table::new());
    }
    s
}

#[test]
fn parse_index_accepts_digit_runs() {
    assert_eq!(parse_index("0"), Some(0));
    assert_eq!(parse_index("12"), Some(12));
    assert_eq!(parse_index("007"), Some(7));
}

#[test]
fn parse_index_rejects_non_numbers() {
    assert_eq!(parse_index(""), None);
    assert_eq!(parse_index("1a"), None);
    assert_eq!(parse_index("-1"), None);
    assert_eq!(parse_index(" 1"), None);
    assert_eq!(parse_index("99999999999999999999999999"), None);
}

#[test]
fn selection_keys_come_in_display_order() {
    let s = keyed_store(&["b", "a", "c"]);
    assert_eq!(
        selection_keys(&s),
        vec!["b".to_string(), "a".to_string(), "c".to_string()]
    );
}

#[test]
fn keys_at_indices_maps_answers_back() {
    let keys = vec!["a".to_string(), "b".to_string(), "c".to_string()];
    assert_eq!(
        keys_at_indices(&keys, &vec![2, 0]).unwrap(),
        vec!["c".to_string(), "a".to_string()]
    );
    assert!(keys_at_indices(&keys, &vec![1, 3]).is_none());
}

#[test]
fn picked_keys_prune_the_selection() {
    let s = keyed_store(&["a", "b", "c"]);
    let keys = selection_keys(&s);
    let chosen = keys_at_indices(&keys, &vec![1]).unwrap();
    let out = retain_keys(s, &chosen);
    assert_eq!(out.len(), 1);
    assert!(out.get("b").is_some());
}
