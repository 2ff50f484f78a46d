use sw_mc::components::{
    input_from_tree, input_to_tree, output_from_tree, output_to_tree, ComponentConnection,
    TypedInputConnection, TypedOutputConnection,
};
use sw_mc::tree::{AttrMap, Value};
use sw_mc::types::Type;

fn keys(m: &AttrMap) -> Vec<String> {
    m.entries.iter().map(|e| e.0.clone()).collect()
}

#[test]
fn connected_slot_round_trip() {
    let s = TypedInputConnection::new(ComponentConnection { component_id: 12, node_index: 1 });
    let m = input_to_tree(&s, Type::Number, false).unwrap();
    assert_eq!(keys(&m), vec!["@component_id", "@node_index"]);
    assert_eq!(m.entries[0].1, Value::Leaf("12".to_string()));
    let back = input_from_tree(&m, Type::Number, false).unwrap();
    assert!(!s.force_visible);
    let expected = TypedInputConnection {
        connection: Some(ComponentConnection { component_id: 12, node_index: 1 }),
        force_visible: true,
        v_attr: None,
        v: None,
    };
    assert_eq!(back, expected);
}

#[test]
fn node_index_zero_is_omitted() {
    let s = TypedInputConnection::new(ComponentConnection { component_id: 5, node_index: 0 });
    let m = input_to_tree(&s, Type::OnOff, false).unwrap();
    assert_eq!(keys(&m), vec!["@component_id"]);
}

#[test]
fn empty_slot_is_left_out() {
    let s = TypedInputConnection::empty();
    assert!(input_to_tree(&s, Type::Number, false).is_none());
    let mut s = TypedInputConnection::empty();
    s.set(ComponentConnection { component_id: 1, node_index: 0 });
    assert!(!s.force_visible);
    assert!(input_to_tree(&s, Type::Number, false).is_some());
    s.clear();
    assert!(input_to_tree(&s, Type::Number, false).is_none());
    let mut s = TypedInputConnection::new(ComponentConnection { component_id: 1, node_index: 0 });
    s.clear();
    assert!(input_to_tree(&s, Type::Number, false).is_none());
}

#[test]
fn read_empty_slot_stays_written_after_set_and_clear() {
    let m = AttrMap::new();
    let mut s = input_from_tree(&m, Type::Number, false).unwrap();
    assert!(s.force_visible);
    s.set(ComponentConnection { component_id: 4, node_index: 0 });
    s.clear();
    assert_eq!(input_to_tree(&s, Type::Number, false).unwrap().len(), 0);
}

#[test]
fn legacy_block_visibility_rule() {
    let mut s = TypedOutputConnection::empty();
    s.force_visible = true;
    s.v = Some(AttrMap::new());
    let m = output_to_tree(&s, Type::Number, false).unwrap();
    assert_eq!(m.len(), 0);
    let m = output_to_tree(&s, Type::Composite, false).unwrap();
    assert_eq!(keys(&m), vec!["v"]);
    let m = output_to_tree(&s, Type::OnOff, true).unwrap();
    assert_eq!(keys(&m), vec!["v"]);
    assert!(output_from_tree(&m, Type::OnOff, true).is_some());
    assert!(output_from_tree(&m, Type::OnOff, false).is_none());
}

#[test]
fn malformed_slots_are_rejected() {
    let mut m = AttrMap::new();
    m.push("@component_id".to_string(), Value::Leaf("01".to_string()));
    assert!(input_from_tree(&m, Type::Number, false).is_none());
    let mut m = AttrMap::new();
    m.push("@node_index".to_string(), Value::Leaf("2".to_string()));
    assert!(input_from_tree(&m, Type::Number, false).is_none());
    let mut m = AttrMap::new();
    m.push("@component_id".to_string(), Value::Leaf("3".to_string()));
    m.push("@node_index".to_string(), Value::Leaf("0".to_string()));
    assert!(input_from_tree(&m, Type::Number, false).is_none());
    let mut m = AttrMap::new();
    m.push("@component_id".to_string(), Value::Leaf("3".to_string()));
    assert!(output_from_tree(&m, Type::Number, false).is_none());
}

#[test]
fn legacy_attributes_survive() {
    let mut v = AttrMap::new();
    v.push("@bools".to_string(), Value::Leaf("1".to_string()));
    let mut m = AttrMap::new();
    m.push("@component_id".to_string(), Value::Leaf("3".to_string()));
    m.push("@v".to_string(), Value::Leaf("x".to_string()));
    m.push("v".to_string(), Value::Element(v));
    let s = input_from_tree(&m, Type::OnOff, false).unwrap();
    assert_eq!(s.v_attr, Some("x".to_string()));
    let again = input_to_tree(&s, Type::OnOff, false).unwrap();
    assert_eq!(again, m);
}
