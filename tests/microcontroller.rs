use sw_mc::components::{ComponentType, TypedInputConnection, TypedOutputConnection};
use sw_mc::microcontroller::{MCValidationError, Microcontroller};
use sw_mc::tree::AttrMap;
use sw_mc::types::{IONodeType, Type};

fn not_gate() -> ComponentType {
    ComponentType {
        kind: 0,
        inputs: vec![TypedInputConnection::empty()],
        outputs: vec![TypedOutputConnection::empty()],
        attrs: AttrMap::new(),
        elems: AttrMap::new(),
    }
}

fn blank() -> Microcontroller {
    Microcontroller::new("mc".to_string(), "desc".to_string(), 2, 2).unwrap()
}

#[test]
fn new_rejects_width_seven() {
    let r = Microcontroller::new("mc".to_string(), "d".to_string(), 7, 2);
    assert_eq!(r.unwrap_err(), MCValidationError::InvalidSize { w: 7, h: 2 });
    let r = Microcontroller::new("mc".to_string(), "d".to_string(), 3, 0);
    assert_eq!(r.unwrap_err(), MCValidationError::InvalidSize { w: 3, h: 0 });
    assert!(Microcontroller::new("mc".to_string(), "d".to_string(), 6, 1).is_ok());
}

#[test]
fn duplicate_component_id_fails_validation() {
    let mut mc = blank();
    mc.add_component(not_gate());
    mc.add_component(not_gate());
    mc.add_component(not_gate());
    assert_eq!(mc.validate(), Ok(()));
    mc.components_mut()[0].id = 3;
    assert_eq!(mc.validate(), Err(MCValidationError::DuplicateComponentId(3)));
}

#[test]
fn component_id_above_counter_fails_validation() {
    let mut mc = blank();
    mc.add_component(not_gate());
    mc.components_mut()[0].id = 9;
    assert_eq!(
        mc.validate(),
        Err(MCValidationError::ComponentIdTooHigh { found_id: 9, max: 1 })
    );
}

#[test]
fn ids_are_not_reused_after_removing_a_middle_node() {
    let mut mc = blank();
    let a = mc.add_component(not_gate());
    let b = mc.add_component(not_gate());
    let c = mc.add_component(not_gate());
    assert_eq!((a, b, c), (1, 2, 3));
    assert!(mc.remove_component_id(b).is_some());
    let d = mc.add_component(not_gate());
    assert!(d > a && d > b && d > c);
    assert_eq!(d, 4);
    assert_eq!(mc.validate(), Ok(()));
}

#[test]
fn removing_the_last_id_lowers_the_counter() {
    let mut mc = blank();
    mc.add_component(not_gate());
    let b = mc.add_component(not_gate());
    assert!(mc.remove_component_id(b).is_some());
    assert_eq!(mc.id_counter(), 1);
    assert!(mc.remove_component_id(b).is_none());
    assert!(mc.remove_component(5).is_none());
    assert!(mc.remove_component(0).is_some());
    assert_eq!(mc.id_counter(), 0);
}

#[test]
fn io_nodes_get_ids_and_bridge_order() {
    let mut mc = blank();
    let n1 = mc.add_io(None, None, Type::Number, IONodeType::Input);
    let n2 = mc.add_io(Some("out".to_string()), None, Type::Video, IONodeType::Output);
    assert_eq!((n1, n2), (1, 2));
    assert_eq!(mc.id_counter_node(), Some(2));
    assert_eq!(mc.id_counter(), 2);
    let io = mc.io_nodes();
    assert_eq!(io[0].design.label, "Input");
    assert_eq!(io[0].design.description, "The input signal to be processed.");
    assert_eq!(io[0].logic.component.kind, 2);
    assert_eq!(io[1].logic.component.kind, 7);
    assert_eq!(io[1].get_id(), 2);
    assert_eq!(mc.validate(), Ok(()));
    assert!(mc.remove_io_id(n2));
    assert_eq!(mc.id_counter_node(), Some(1));
    assert_eq!(mc.id_counter(), 1);
    assert!(!mc.remove_io(3));
    assert_eq!(mc.validate(), Ok(()));
}

#[test]
fn add_io_builds_the_matching_bridge_node() {
    let mut mc = blank();
    mc.add_component(not_gate());
    let n = mc.add_io(Some("pin".to_string()), Some("d".to_string()), Type::OnOff, IONodeType::Input);
    let io = &mc.io_nodes()[0];
    assert_eq!(io.design.node_id, n);
    assert_eq!(io.design.label, "pin");
    assert_eq!(io.design.description, "d");
    assert_eq!(io.design.typ, Type::OnOff);
    assert_eq!(io.design.mode, IONodeType::Input);
    assert!(io.design.position.x.is_none() && io.design.position.y.is_none());
    assert_eq!(io.logic.id, 2);
    assert_eq!(io.logic.component.kind, 0);
    assert_eq!(io.logic.component.inputs, vec![TypedInputConnection::empty()]);
    assert_eq!(io.logic.component.outputs, vec![TypedOutputConnection::empty()]);
    mc.add_io(None, None, Type::Audio, IONodeType::Output);
    assert_eq!(mc.io_nodes()[1].logic.component.kind, 9);
    assert_eq!(mc.io_nodes()[1].logic.id, 3);
}

#[test]
fn removal_returns_the_node() {
    let mut mc = blank();
    let mut gate = not_gate();
    gate.kind = 14;
    mc.add_component(not_gate());
    mc.add_component(gate);
    let removed = mc.remove_component(1).unwrap();
    assert_eq!(removed.kind, 14);
    assert_eq!(mc.components().len(), 1);
    assert_eq!(mc.components()[0].component.kind, 0);
}
