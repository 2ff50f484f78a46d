use sw_mc::catalog::io_def;
use sw_mc::components::{
    BridgeComponent, Component, ComponentConnection, ComponentType, PositionXY, TypedInputConnection,
    TypedOutputConnection,
};
use sw_mc::tree::{AttrMap, Value};

fn blank(kind: u8) -> ComponentType {
    let d = io_def(kind);
    ComponentType {
        kind,
        inputs: d.inputs.iter().map(|_| TypedInputConnection::empty()).collect(),
        outputs: d.outputs.iter().map(|_| TypedOutputConnection::empty()).collect(),
        attrs: AttrMap::new(),
        elems: AttrMap::new(),
    }
}

#[test]
fn every_logic_kind_round_trips() {
    for kind in 0..60u8 {
        let mut c = Component { id: 5, pos: PositionXY::origin(), component: blank(kind) };
        if !c.component.inputs.is_empty() {
            c.component.inputs[0] =
                TypedInputConnection::new(ComponentConnection { component_id: 2, node_index: 0 });
        }
        let t = c.to_tree();
        let back = Component::from_tree(&t).unwrap_or_else(|| panic!("kind {kind}"));
        // a slot holding something reads back marked as written
        if !c.component.inputs.is_empty() {
            c.component.inputs[0].force_visible = true;
        }
        assert_eq!(back, c, "kind {kind}");
    }
}

#[test]
fn every_bridge_kind_round_trips() {
    for kind in 0..10u8 {
        let c = BridgeComponent {
            id: 9,
            pos: PositionXY { x: Some("1.5".to_string()), y: None },
            component: ComponentType {
                kind,
                inputs: vec![TypedInputConnection::empty()],
                outputs: vec![TypedOutputConnection::empty()],
                attrs: AttrMap::new(),
                elems: AttrMap::new(),
            },
        };
        let t = c.to_tree();
        let back = BridgeComponent::from_tree(&t).unwrap();
        assert_eq!(back, c);
    }
}

#[test]
fn node_with_attributes_position_and_children() {
    let mut c = Component { id: 12, pos: PositionXY { x: Some("0.25".to_string()), y: Some("-1".to_string()) }, component: blank(11) };
    c.component.attrs.push("@e".to_string(), Value::Leaf("x+1".to_string()));
    let mut min = AttrMap::new();
    min.push("@text".to_string(), Value::Leaf("0".to_string()));
    c.component.elems.push("min".to_string(), Value::Element(min));
    let t = c.to_tree();
    assert_eq!(t.entries[0], ("@type".to_string(), Value::Leaf("11".to_string())));
    let obj = match &t.entries[1].1 {
        Value::Element(o) => o,
        _ => panic!(),
    };
    let keys: Vec<&str> = obj.entries.iter().map(|e| e.0.as_str()).collect();
    assert_eq!(keys, vec!["@id", "@e", "pos", "min"]);
    assert_eq!(Component::from_tree(&t).unwrap(), c);
}

#[test]
fn unknown_type_code_is_rejected() {
    let c = Component { id: 1, pos: PositionXY::origin(), component: blank(0) };
    let mut t = c.to_tree();
    t.insert_at(0, "@type".to_string(), Value::Leaf("60".to_string()));
    assert!(Component::from_tree(&t).is_none());
}
