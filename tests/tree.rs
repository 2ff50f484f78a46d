use sw_mc::text::{parse_decimal, with_decimal};
use sw_mc::tree::{map_eq, AttrMap, Value};

fn leaf(s: &str) -> Value {
    Value::Leaf(s.to_string())
}

#[test]
fn insert_replaces_or_appends() {
    let mut m = AttrMap::new();
    m.insert("a".to_string(), leaf("1"));
    m.insert("b".to_string(), leaf("2"));
    m.insert("a".to_string(), leaf("3"));
    assert_eq!(m.len(), 2);
    assert_eq!(m.get("a"), Some(&leaf("3")));
    assert_eq!(m.entries[0].0, "a");
}

#[test]
fn duplicate_keys_kept_in_order() {
    let mut m = AttrMap::new();
    m.push("x".to_string(), leaf("1"));
    m.push("y".to_string(), leaf("2"));
    m.push("x".to_string(), leaf("3"));
    assert_eq!(m.find("x"), Some(0));
    assert_eq!(m.find_from("x", 1), Some(2));
    assert_eq!(m.remove("x"), Some(leaf("1")));
    assert_eq!(m.get("x"), Some(&leaf("3")));
    assert_eq!(m.remove("z"), None);
}

#[test]
fn duplicate_key_places_copy_after_source() {
    let mut m = AttrMap::new();
    m.push("a".to_string(), leaf("1"));
    m.push("b".to_string(), leaf("2"));
    m.push("c".to_string(), leaf("3"));
    m.duplicate_key("b", "b2".to_string());
    let keys: Vec<&str> = m.entries.iter().map(|e| e.0.as_str()).collect();
    assert_eq!(keys, vec!["a", "b", "b2", "c"]);
    assert_eq!(m.entries[2].1, leaf("2"));
    m.duplicate_key("missing", "q".to_string());
    assert_eq!(m.len(), 4);
}

#[test]
fn insert_at_and_rename() {
    let mut m = AttrMap::new();
    m.push("a".to_string(), leaf("1"));
    m.push("c".to_string(), leaf("3"));
    m.insert_at(1, "b".to_string(), leaf("2"));
    m.rename_at(0, "z".to_string());
    let keys: Vec<&str> = m.entries.iter().map(|e| e.0.as_str()).collect();
    assert_eq!(keys, vec!["z", "b", "c"]);
}

#[test]
fn tree_equality_is_deep() {
    let mut a = AttrMap::new();
    let mut inner = AttrMap::new();
    inner.push("@k".to_string(), leaf("v"));
    a.push("e".to_string(), Value::Element(inner));
    let mut b = AttrMap::new();
    let mut inner2 = AttrMap::new();
    inner2.push("@k".to_string(), leaf("w"));
    b.push("e".to_string(), Value::Element(inner2));
    assert!(!map_eq(&a, &b));
    assert!(map_eq(&a, &a));
}

#[test]
fn decimal_text() {
    assert_eq!(with_decimal("in", 34), "in34");
    assert_eq!(with_decimal("", 0), "0");
    assert_eq!(parse_decimal("4294967295"), Some(4294967295));
    assert_eq!(parse_decimal("4294967296"), None);
    assert_eq!(parse_decimal("007"), None);
    assert_eq!(parse_decimal(""), None);
    assert_eq!(parse_decimal("12a"), None);
    assert_eq!(parse_decimal("120"), Some(120));
}
