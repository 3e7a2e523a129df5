use wasm_host::value::{ComponentValue, PrimitiveType};
use wasm_host::world::{ComponentDef, ComponentDesc, ECSError, World};

fn world() -> World {
    World::new(vec![
        ComponentDef { name: "health".to_string(), ty: PrimitiveType::I32 },
        ComponentDef { name: "label".to_string(), ty: PrimitiveType::String },
        ComponentDef { name: "cells".to_string(), ty: PrimitiveType::VecU32 },
        ComponentDef { name: "player".to_string(), ty: PrimitiveType::Empty },
    ])
}

#[test]
fn new_world_has_resource_entities() {
    let w = world();
    assert_eq!(w.component_count(), 4);
    assert_eq!(w.slot_count(), 2);
    assert!(w.is_live(w.resources()));
    assert!(w.is_live(w.persisted_resources()));
    assert_eq!(w.resources(), 0);
    assert_eq!(w.persisted_resources(), 1);
    assert!(!w.is_live(2));
}

#[test]
fn spawn_assigns_fresh_ids_and_stores_values() {
    let mut w = world();
    let a = w.spawn(vec![(0, ComponentValue::I32(7))]).unwrap();
    let b = w.spawn(vec![(1, ComponentValue::String("x".to_string())), (2, ComponentValue::VecU32(vec![1, 2]))]).unwrap();
    assert_ne!(a, b);
    assert_ne!(a, w.resources());
    assert_ne!(b, w.persisted_resources());
    assert!(w.is_live(a) && w.is_live(b));
    assert_eq!(w.get(a, 0), Ok(ComponentValue::I32(7)));
    assert_eq!(w.get(b, 2), Ok(ComponentValue::VecU32(vec![1, 2])));
    assert_eq!(w.get_ref(b, 1), Ok(ComponentValue::String("x".to_string())));
    assert_eq!(w.get(a, 1), Err(ECSError::EntityDoesntHaveComponent));
    assert_eq!(w.get(a, 9), Err(ECSError::EntityDoesntHaveComponent));
    assert_eq!(w.get(99, 0), Err(ECSError::EntityDoesntHaveComponent));
}

#[test]
fn spawn_later_entry_for_same_component_wins() {
    let mut w = world();
    let a = w.spawn(vec![(0, ComponentValue::I32(1)), (0, ComponentValue::I32(2))]).unwrap();
    assert_eq!(w.get(a, 0), Ok(ComponentValue::I32(2)));
}

#[test]
fn spawn_rejects_type_mismatch_and_unknown_component() {
    let mut w = world();
    assert_eq!(w.spawn(vec![(0, ComponentValue::U32(7))]), Err(ECSError::TypeMismatch));
    assert_eq!(w.spawn(vec![(0, ComponentValue::I32(7)), (4, ComponentValue::Empty)]), Err(ECSError::UnknownComponent));
    assert_eq!(w.slot_count(), 2);
}

#[test]
fn despawn_returns_true_exactly_once() {
    let mut w = world();
    let a = w.spawn(vec![(3, ComponentValue::Empty)]).unwrap();
    assert!(w.despawn(a));
    assert!(!w.despawn(a));
    assert!(!w.is_live(a));
    assert_eq!(w.get(a, 3), Err(ECSError::EntityDoesntHaveComponent));
    assert!(!w.despawn(1234));
}

#[test]
fn add_and_set_components() {
    let mut w = world();
    let a = w.spawn(vec![]).unwrap();
    assert_eq!(w.set(a, 0, ComponentValue::I32(1)), Err(ECSError::EntityDoesntHaveComponent));
    assert_eq!(w.add_component(a, 0, ComponentValue::I32(1)), Ok(()));
    assert_eq!(w.set(a, 0, ComponentValue::I32(5)), Ok(()));
    assert_eq!(w.get(a, 0), Ok(ComponentValue::I32(5)));
    assert_eq!(w.set(a, 0, ComponentValue::Bool(true)), Err(ECSError::TypeMismatch));
    assert_eq!(w.add_component(a, 7, ComponentValue::I32(1)), Err(ECSError::UnknownComponent));
    assert_eq!(w.add_component(77, 0, ComponentValue::I32(1)), Err(ECSError::NoSuchEntity));
    assert!(w.has_component(a, 0));
    assert!(!w.has_component(a, 1));
}

#[test]
fn batch_updates_are_all_or_nothing() {
    let mut w = world();
    let a = w.spawn(vec![(0, ComponentValue::I32(1))]).unwrap();
    let r = w.add_components(a, vec![(1, ComponentValue::String("n".to_string())), (0, ComponentValue::U64(3))]);
    assert_eq!(r, Err(ECSError::TypeMismatch));
    assert!(!w.has_component(a, 1));
    assert_eq!(w.get(a, 0), Ok(ComponentValue::I32(1)));
    let r = w.set_components(a, vec![(0, ComponentValue::I32(2)), (1, ComponentValue::String("n".to_string()))]);
    assert_eq!(r, Err(ECSError::EntityDoesntHaveComponent));
    assert_eq!(w.get(a, 0), Ok(ComponentValue::I32(1)));
    assert_eq!(w.add_components(a, vec![(1, ComponentValue::String("n".to_string())), (0, ComponentValue::I32(4))]), Ok(()));
    assert_eq!(w.get(a, 0), Ok(ComponentValue::I32(4)));
    assert!(w.has_components(a, &vec![0, 1]));
    assert!(!w.has_components(a, &vec![0, 2]));
    assert_eq!(w.set_components(a, vec![(0, ComponentValue::I32(9))]), Ok(()));
    assert_eq!(w.get(a, 0), Ok(ComponentValue::I32(9)));
}

#[test]
fn remove_components_and_get_all() {
    let mut w = world();
    let a = w.spawn(vec![(0, ComponentValue::I32(1)), (3, ComponentValue::Empty)]).unwrap();
    let b = w.spawn(vec![(0, ComponentValue::I32(2))]).unwrap();
    assert_eq!(w.get_all(0), vec![a, b]);
    assert_eq!(w.get_all(3), vec![a]);
    assert_eq!(w.remove_component(a, 0), Ok(()));
    assert_eq!(w.get_all(0), vec![b]);
    assert_eq!(w.remove_component(a, 0), Ok(()));
    assert_eq!(w.remove_components(b, &vec![0, 8]), Err(ECSError::UnknownComponent));
    assert_eq!(w.remove_components(b, &vec![0, 3]), Ok(()));
    assert!(w.get_all(0).is_empty());
    assert_eq!(w.remove_component(55, 0), Err(ECSError::NoSuchEntity));
}

#[test]
fn resources_and_component_lookup() {
    let mut w = world();
    assert_eq!(w.add_component(0, 1, ComponentValue::String("global".to_string())), Ok(()));
    assert_eq!(w.resource(1), ComponentValue::String("global".to_string()));
    assert_eq!(w.get_index("label"), Some(1));
    assert_eq!(w.get_index("nothing"), None);
    assert_eq!(ComponentDesc::new(3).index(), 3);
}

#[test]
fn events_are_checked_and_queued_in_order() {
    let mut w = world();
    assert_eq!(w.send_event("hit".to_string(), vec![(0, ComponentValue::I32(3))]), Ok(()));
    assert_eq!(w.send_event("bad".to_string(), vec![(0, ComponentValue::Bool(false))]), Err(ECSError::TypeMismatch));
    assert_eq!(w.send_event("miss".to_string(), vec![]), Ok(()));
    let events = w.take_events();
    assert_eq!(events.len(), 2);
    assert_eq!(events[0].name, "hit");
    assert_eq!(events[0].data, vec![(0, ComponentValue::I32(3))]);
    assert_eq!(events[1].name, "miss");
    assert!(w.take_events().is_empty());
}

#[test]
fn values_report_their_tag() {
    assert_eq!(ComponentValue::OptionU32(Some(3)).tag(), PrimitiveType::OptionU32);
    assert_eq!(ComponentValue::EntityId(3).tag(), PrimitiveType::EntityId);
    let v = ComponentValue::VecU32(vec![4, 5, 6]);
    assert_eq!(v.duplicate(), v);
}
