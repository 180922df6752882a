use std::collections::BTreeMap;

use tsql::helper::get_first_element;
use tsql::parser::lexer::{get_word, preceded_space_get_word};

#[test]
fn helper_just_works() {
    let mut map = BTreeMap::new();
    assert_eq!(get_first_element(&map), None);

    map.insert("value", 1);
    assert_eq!(get_first_element(&map), Some((&"value", &1)));
}

#[test]
fn first_element_is_the_smallest_key() {
    let mut map = BTreeMap::new();
    map.insert("b", 2);
    map.insert("a", 1);
    map.insert("c", 3);
    assert_eq!(get_first_element(&map), Some((&"a", &1)));
}

fn ok(rest: &str, word: &str) -> Result<(String, String), tsql::error::TsqlError> {
    Ok((rest.to_string(), word.to_string()))
}

#[test]
fn helper_parses_alphabetic_chars() {
    assert_eq!(get_word("Hello"), ok("", "Hello"));
    assert_eq!(get_word("Hello123"), ok("123", "Hello"));
    assert_eq!(get_word("Hello@World"), ok("@World", "Hello"));
    assert_eq!(get_word("Hello World"), ok(" World", "Hello"));
}

#[test]
fn helper_parses_alphabetic_with_underscore() {
    assert_eq!(get_word("Hello_World"), ok("", "Hello_World"));
    assert_eq!(get_word("Hello_World123"), ok("123", "Hello_World"));
    assert_eq!(get_word("Hello_World_World World"), ok(" World", "Hello_World_World"));
}

#[test]
fn helper_errors() {
    assert!(get_word("").is_err());
    assert!(get_word("123").is_err());
}

#[test]
fn words_take_non_ascii_letters() {
    assert_eq!(get_word("Grüße rest"), ok(" rest", "Grüße"));
}

#[test]
fn word_after_blanks() {
    assert_eq!(preceded_space_get_word("  Hello World"), ok(" World", "Hello"));
    assert!(preceded_space_get_word("Hello").is_err());
    assert!(preceded_space_get_word("   ").is_err());
}
