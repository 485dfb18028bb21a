use paperman::filter::{match_string, match_values, normalize_for, contains_str};
use paperman::latex_decoder::decode_latex;
use paperman::string_cleaner::{clean_and_decode, clean_string, remove_extra_whitespace};
use paperman::value::Value;

#[test]
fn whitespace_is_collapsed() {
    assert_eq!(remove_extra_whitespace("  Hello \t\n world  "), "Hello world");
    assert_eq!(remove_extra_whitespace(""), "");
    assert_eq!(remove_extra_whitespace("   \t "), "");
    assert_eq!(remove_extra_whitespace("a"), "a");
    assert_eq!(remove_extra_whitespace("a  b   c"), "a b c");
}

#[test]
fn clean_string_decodes_and_collapses() {
    assert_eq!(clean_string("Hello  \\\"a  world"), "Hello ä world");
    assert_eq!(clean_string("{A  Study}"), "A Study");
}

#[test]
fn clean_and_decode_strips_accents() {
    assert_eq!(clean_and_decode("García"), "Garcia");
    assert_eq!(clean_and_decode("Bj\\\"ork"), "Bjork");
}

#[test]
fn decode_is_idempotent_on_marker_free_output() {
    let once = decode_latex("Hello \\\"a world");
    let twice = decode_latex(&once);
    assert_eq!(twice, once);
}

#[test]
fn raw_containment_is_literal_substring() {
    assert!(contains_str("Beta Garcia", "Gar"));
    assert!(!contains_str("Beta Garcia", "gar"));
    assert!(contains_str("anything", ""));
    assert!(!contains_str("", "a"));
    assert!(match_string("Stud", "A Study", false));
    assert!(!match_string("stud", "A Study", false));
}

#[test]
fn normalized_match_is_case_and_accent_insensitive() {
    assert!(match_string("garcia", "García", true));
    assert!(match_string("GARCIA", "garcía", true));
    assert!(!match_string("garciax", "García", true));
}

#[test]
fn scalar_and_list_values_match_by_the_scalar_rule() {
    let text = Value::Text(String::from("A Study of Things"));
    assert!(match_values("Study", Some(&text), false));
    assert!(!match_values("study", Some(&text), false));

    let list = Value::List(vec![String::from("Ada"), String::from("Grace")]);
    assert!(match_values("race", Some(&list), false));
    assert!(!match_values("bob", Some(&list), false));
}

#[test]
fn other_shapes_and_missing_fields_never_match() {
    let other = Value::Other(String::from("{\"nested\": 1}"));
    assert!(!match_values("nested", Some(&other), false));
    assert!(!match_values("anything", None, false));
    assert!(!match_values("", None, true));
}

#[test]
fn only_title_and_author_normalize() {
    assert!(normalize_for("title"));
    assert!(normalize_for("author"));
    assert!(!normalize_for("year"));
    assert!(!normalize_for("Title"));
}
