use sw_mc::catalog::io_def;
use sw_mc::components::{ComponentConnection, ComponentType, TypedInputConnection, TypedOutputConnection};
use sw_mc::microcontroller::{MCSerDeError, MCValidationError, Microcontroller};
use sw_mc::tree::{map_eq, AttrMap, Value};
use sw_mc::types::{IONodeType, Type};

fn node(kind: u8, attrs: Vec<(&str, &str)>) -> ComponentType {
    let d = io_def(kind);
    let mut a = AttrMap::new();
    for (k, v) in attrs {
        a.push(k.to_string(), Value::Leaf(v.to_string()));
    }
    ComponentType {
        kind,
        inputs: d.inputs.iter().map(|_| TypedInputConnection::empty()).collect(),
        outputs: d.outputs.iter().map(|_| TypedOutputConnection::empty()).collect(),
        attrs: a,
        elems: AttrMap::new(),
    }
}

fn visible_output() -> TypedOutputConnection {
    let mut o = TypedOutputConnection::empty();
    o.force_visible = true;
    o
}

fn sample() -> Microcontroller {
    let mut mc = Microcontroller::new("Sample".to_string(), "A test".to_string(), 3, 2).unwrap();
    mc.icon[0] = 7;
    let input = mc.add_io(None, None, Type::Number, IONodeType::Input);
    assert_eq!(input, 1);
    let not = mc.add_component(node(0, vec![]));
    let mut junction = node(21, vec![]);
    junction.outputs[0] = visible_output();
    junction.outputs[1] = visible_output();
    let junction_id = mc.add_component(junction);
    let mut write = node(40, vec![("@count", "2"), ("@offset", "-1")]);
    write.inputs[1] = TypedInputConnection::new(ComponentConnection { component_id: junction_id, node_index: 1 });
    write.inputs[33] = TypedInputConnection::new(ComponentConnection { component_id: 1, node_index: 0 });
    let write_id = mc.add_component(write);
    let mut read = node(31, vec![("@i", "-1")]);
    read.inputs[0] = TypedInputConnection::new(ComponentConnection { component_id: write_id, node_index: 0 });
    read.inputs[1] = TypedInputConnection::new(ComponentConnection { component_id: 1, node_index: 0 });
    read.outputs[0] = visible_output();
    mc.add_component(read);
    assert!(mc
        .connect(
            &ComponentConnection { component_id: 1, node_index: 0 },
            &ComponentConnection { component_id: not, node_index: 0 },
        )
        .is_ok());
    mc
}

fn keys(v: &Value) -> Vec<String> {
    match v {
        Value::Element(m) => m.entries.iter().map(|e| e.0.clone()).collect(),
        Value::Leaf(_) => vec![],
    }
}

fn child<'a>(m: &'a AttrMap, key: &str) -> &'a Value {
    m.get(key).unwrap()
}

#[test]
fn document_round_trip_from_tree() {
    let mc = sample();
    assert!(mc.has_catalog_shape());
    let tree = mc.to_tree().unwrap();
    let back = Microcontroller::from_tree(&tree).unwrap();
    let again = back.to_tree().unwrap();
    assert!(map_eq(&tree, &again));
    assert_eq!(back.components().len(), 4);
    assert_eq!(back.io_nodes().len(), 1);
    assert_eq!(back.id_counter(), mc.id_counter());
    assert_eq!(back.id_counter_node(), Some(1));
    for (a, b) in mc.components().iter().zip(back.components().iter()) {
        assert_eq!(a.id, b.id);
        assert_eq!(a.component.kind, b.component.kind);
        for (x, y) in a.component.inputs.iter().zip(b.component.inputs.iter()) {
            assert_eq!(x.connection, y.connection);
        }
    }
}

#[test]
fn document_shape() {
    let mc = sample();
    let tree = mc.to_tree().unwrap();
    let top: Vec<&str> = tree.entries.iter().map(|e| e.0.as_str()).collect();
    assert_eq!(
        top,
        vec!["@name", "@description", "@width", "@length", "@id_counter", "@id_counter_node", "@sym0", "nodes", "group"]
    );
    let group = match child(&tree, "group") {
        Value::Element(g) => g,
        _ => panic!("group"),
    };
    assert_eq!(
        keys(&Value::Element(AttrMap { entries: group.entries.iter().map(|e| (e.0.clone(), Value::Leaf(String::new()))).collect() })),
        vec!["data", "components", "components_bridge", "groups", "component_states", "component_bridge_states", "group_states"]
    );
    let comps = match child(group, "components") {
        Value::Element(c) => c,
        _ => panic!("components"),
    };
    // the junction: a single output tag, twice
    let junction = match &comps.entries[1].1 {
        Value::Element(c) => c,
        _ => panic!(),
    };
    assert_eq!(junction.entries[0], ("@type".to_string(), Value::Leaf("21".to_string())));
    let obj = child(junction, "object");
    assert_eq!(keys(obj), vec!["@id", "out1", "out1"]);
    // the composite write: carry and offset names, two channel inputs
    let write = match &comps.entries[2].1 {
        Value::Element(c) => c,
        _ => panic!(),
    };
    assert_eq!(keys(child(write, "object")), vec!["@id", "@count", "@offset", "in1", "inoff"]);
    // the composite read: channel input after the output
    let read = match &comps.entries[3].1 {
        Value::Element(c) => c,
        _ => panic!(),
    };
    assert_eq!(keys(child(read, "object")), vec!["@id", "@i", "in1", "out1", "in2"]);
}

#[test]
fn edited_document_is_malformed() {
    let mc = sample();
    let mut tree = mc.to_tree().unwrap();
    tree.entries[2].1 = Value::Leaf("03".to_string());
    assert_eq!(Microcontroller::from_tree(&tree).unwrap_err(), MCSerDeError::Malformed);
}

#[test]
fn invalid_document_reports_validation_error() {
    let mut mc = sample();
    mc.width = 9;
    assert_eq!(mc.to_tree().unwrap_err(), MCValidationError::InvalidSize { w: 9, h: 2 });
    let tree = {
        mc.width = 3;
        let mut t = mc.to_tree().unwrap();
        t.entries[2].1 = Value::Leaf("9".to_string());
        t
    };
    assert_eq!(
        Microcontroller::from_tree(&tree).unwrap_err(),
        MCSerDeError::ValidationError(MCValidationError::InvalidSize { w: 9, h: 2 })
    );
}

#[test]
fn connect_rejects_missing_input() {
    let mut mc = sample();
    let missing = mc.connect(
        &ComponentConnection { component_id: 1, node_index: 0 },
        &ComponentConnection { component_id: 99, node_index: 0 },
    );
    assert!(missing.is_err());
    let out_of_range = mc.connect(
        &ComponentConnection { component_id: 1, node_index: 0 },
        &ComponentConnection { component_id: 2, node_index: 5 },
    );
    assert!(out_of_range.is_err());
    assert!(mc
        .connect(
            &ComponentConnection { component_id: 2, node_index: 0 },
            &ComponentConnection { component_id: 1, node_index: 0 },
        )
        .is_ok());
    assert_eq!(
        mc.io_nodes()[0].logic.component.inputs[0].connection,
        Some(ComponentConnection { component_id: 2, node_index: 0 })
    );
}

#[test]
fn default_microcontroller() {
    let mc = Microcontroller::default();
    assert_eq!(mc.width, 2);
    assert_eq!(mc.name, "New microcontroller");
    assert_eq!(mc.description, "No description set.");
    assert_eq!(mc.validate(), Ok(()));
}
