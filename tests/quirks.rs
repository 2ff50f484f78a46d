use sw_mc::quirks::{
    channel_input_from_document, channel_input_to_document, dual_output_from_document,
    dual_output_to_document, indexed_from_document, indexed_to_document,
};
use sw_mc::tree::{AttrMap, Value};

fn leaf(s: &str) -> Value {
    Value::Leaf(s.to_string())
}

fn empty() -> Value {
    Value::Element(AttrMap::new())
}

fn map(entries: Vec<(&str, Value)>) -> AttrMap {
    let mut m = AttrMap::new();
    for (k, v) in entries {
        m.push(k.to_string(), v);
    }
    m
}

fn keys(m: &AttrMap) -> Vec<String> {
    m.entries.iter().map(|e| e.0.clone()).collect()
}

#[test]
fn dual_output_shares_one_tag() {
    let connected = map(vec![("@component_id", leaf("4"))]);
    let mut o = map(vec![
        ("@id", leaf("7")),
        ("in1", empty()),
        ("in2", empty()),
        ("out1", Value::Element(connected)),
        ("out2", empty()),
    ]);
    let expected = map(vec![
        ("@id", leaf("7")),
        ("in1", empty()),
        ("in2", empty()),
        ("out1", Value::Element(map(vec![("@component_id", leaf("4"))]))),
        ("out2", empty()),
    ]);
    dual_output_to_document(&mut o);
    assert_eq!(keys(&o), vec!["@id", "in1", "in2", "out1", "out1"]);
    assert_eq!(o.entries[3].1, o.entries[4].1);
    dual_output_from_document(&mut o);
    assert_eq!(o, expected);
}

fn indexed_catalog_map() -> AttrMap {
    let mut m = map(vec![("@id", leaf("3")), ("@count", leaf("5")), ("@offset", leaf("-1"))]);
    for i in 1..=34 {
        m.push(format!("in{i}"), empty());
    }
    m.push("out1".to_string(), empty());
    m
}

#[test]
fn indexed_variable_offset_shape() {
    let mut o = indexed_catalog_map();
    indexed_to_document(&mut o, 5, true);
    assert_eq!(
        keys(&o),
        vec!["@id", "@count", "@offset", "inc", "in1", "in2", "in3", "in4", "in5", "inoff", "out1"]
    );
    indexed_from_document(&mut o);
    assert_eq!(
        keys(&o),
        vec!["@id", "@count", "@offset", "in1", "in2", "in3", "in4", "in5", "in6", "in34", "out1"]
    );
}

#[test]
fn indexed_fixed_offset_drops_offset_tag() {
    let mut o = indexed_catalog_map();
    indexed_to_document(&mut o, 5, false);
    let k = keys(&o);
    assert!(k.contains(&"inc".to_string()));
    assert!(!k.contains(&"inoff".to_string()));
    assert!(!k.contains(&"in6".to_string()));
    assert_eq!(k.len(), 10);
}

#[test]
fn indexed_round_trip_within_count() {
    let mut o = map(vec![("@id", leaf("3")), ("in1", empty()), ("in2", leaf("x")), ("in3", empty()), ("out1", empty())]);
    let copy = map(vec![("@id", leaf("3")), ("in1", empty()), ("in2", leaf("x")), ("in3", empty()), ("out1", empty())]);
    indexed_to_document(&mut o, 2, false);
    assert_eq!(keys(&o), vec!["@id", "inc", "in1", "in2", "out1"]);
    indexed_from_document(&mut o);
    assert_eq!(o, copy);
}

#[test]
fn channel_variable_moves_input_after_output() {
    let mut o = map(vec![("@id", leaf("2")), ("@i", leaf("-1")), ("in1", empty()), ("in2", leaf("c")), ("out1", empty())]);
    channel_input_to_document(&mut o, true);
    assert_eq!(keys(&o), vec!["@id", "@i", "in1", "out1", "in2"]);
    channel_input_from_document(&mut o, true);
    assert_eq!(keys(&o), vec!["@id", "@i", "in1", "in2", "out1"]);
    assert_eq!(o.entries[3].1, leaf("c"));
}

#[test]
fn channel_fixed_drops_input() {
    let mut o = map(vec![("@id", leaf("2")), ("@i", leaf("3")), ("in1", empty()), ("in2", empty()), ("out1", empty())]);
    channel_input_to_document(&mut o, false);
    assert_eq!(keys(&o), vec!["@id", "@i", "in1", "out1"]);
    channel_input_from_document(&mut o, false);
    assert_eq!(keys(&o), vec!["@id", "@i", "in1", "out1"]);
}
