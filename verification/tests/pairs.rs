use tron_core::pairs::{parse_key_values, split_key_value, KeyValues};

fn args(items: &[&str]) -> Vec<String> {
    items.iter().map(|s| s.to_string()).collect()
}

#[test]
fn pairs_are_split_at_the_first_separator() {
    assert_eq!(split_key_value("a=1"), Some(("a".to_string(), "1".to_string())));
    assert_eq!(split_key_value("a=1=2"), Some(("a".to_string(), "1=2".to_string())));
    assert_eq!(split_key_value("a="), Some(("a".to_string(), "".to_string())));
    assert_eq!(split_key_value("=1"), Some(("".to_string(), "1".to_string())));
    assert_eq!(split_key_value("="), Some(("".to_string(), "".to_string())));
    assert_eq!(
        split_key_value("ключ=значение"),
        Some(("ключ".to_string(), "значение".to_string()))
    );
}

#[test]
fn text_without_separator_is_no_pair() {
    assert_eq!(split_key_value(""), None);
    assert_eq!(split_key_value("novalue"), None);
    assert_eq!(split_key_value("a:1"), None);
}

#[test]
fn arguments_become_key_values() {
    let kv = parse_key_values(&args(&["name=World", "greeting=Hello"]));
    assert_eq!(kv.len(), 2);
    assert_eq!(kv.get("name"), Some("World"));
    assert_eq!(kv.get("greeting"), Some("Hello"));
    assert_eq!(kv.get("other"), None);
    assert_eq!(kv.key(0), "name");
    assert_eq!(kv.value(0), "World");
    assert_eq!(kv.key(1), "greeting");
    assert_eq!(kv.value(1), "Hello");
}

#[test]
fn arguments_without_separator_are_dropped() {
    let kv = parse_key_values(&args(&["a=1", "junk", "", "b=2"]));
    assert_eq!(kv.len(), 2);
    assert_eq!(kv.get("a"), Some("1"));
    assert_eq!(kv.get("b"), Some("2"));
    assert_eq!(kv.get("junk"), None);
}

#[test]
fn no_arguments_give_no_pairs() {
    let kv = parse_key_values(&[]);
    assert_eq!(kv.len(), 0);
    assert_eq!(kv, KeyValues::new());
}

#[test]
fn a_later_argument_replaces_an_earlier_one() {
    let kv = parse_key_values(&args(&["a=1", "b=2", "a=3"]));
    assert_eq!(kv.len(), 2);
    assert_eq!(kv.get("a"), Some("3"));
    assert_eq!(kv.key(0), "a");
    assert_eq!(kv.value(0), "3");
    assert_eq!(kv.key(1), "b");
}

#[test]
fn the_value_keeps_later_separators() {
    let kv = parse_key_values(&args(&["expr=a==b"]));
    assert_eq!(kv.get("expr"), Some("a==b"));
}

#[test]
fn empty_keys_and_values_are_kept() {
    let kv = parse_key_values(&args(&["=x", "k="]));
    assert_eq!(kv.len(), 2);
    assert_eq!(kv.get(""), Some("x"));
    assert_eq!(kv.get("k"), Some(""));
}

#[test]
fn insert_sets_and_replaces() {
    let mut kv = KeyValues::new();
    kv.insert("a".to_string(), "1".to_string());
    kv.insert("b".to_string(), "2".to_string());
    kv.insert("a".to_string(), "9".to_string());
    assert_eq!(kv.len(), 2);
    assert_eq!(kv.get("a"), Some("9"));
    assert_eq!(kv.get("b"), Some("2"));
    assert_eq!(kv.key(0), "a");
}
