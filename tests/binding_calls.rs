use wasm_host::bindings::{unsupported, BindingError, Bindings, PhysicsCommand, QueryBuild, QueryEvent, Side, Vec3Bits};
use wasm_host::physics::{apply_force, freeze, set_gravity, stop_motor, unfreeze};
use wasm_host::player::{get_prev_raw_input, get_raw_input, url};
use wasm_host::value::{ComponentValue, PrimitiveType};
use wasm_host::window::get_clipboard;
use wasm_host::world::{ComponentDef, ECSError, World};

fn world() -> World {
    World::new(vec![
        ComponentDef { name: "health".to_string(), ty: PrimitiveType::I32 },
        ComponentDef { name: "player".to_string(), ty: PrimitiveType::Empty },
        ComponentDef { name: "hidden".to_string(), ty: PrimitiveType::Bool },
    ])
}

fn health_query() -> QueryBuild {
    QueryBuild { components: vec![0], required: vec![1], exclude: vec![2] }
}

#[test]
fn spawn_tracks_entity_and_despawn_forgets_it() {
    let mut w = world();
    let mut b = Bindings::new(Side::Server);
    let a = b.spawn(&mut w, vec![(0, ComponentValue::I32(10))]).unwrap();
    let c = b.spawn(&mut w, vec![(1, ComponentValue::Empty)]).unwrap();
    assert_eq!(b.base.spawned_entities, vec![a, c]);
    assert!(b.despawn(&mut w, a));
    assert!(!b.despawn(&mut w, a));
    assert_eq!(b.base.spawned_entities, vec![c]);
    assert_eq!(b.spawn(&mut w, vec![(0, ComponentValue::Bool(true))]), Err(BindingError::Ecs(ECSError::TypeMismatch)));
    assert_eq!(b.base.spawned_entities, vec![c]);
}

#[test]
fn component_calls_forward_to_world() {
    let mut w = world();
    let b = Bindings::new(Side::Client);
    let a = w.spawn(vec![]).unwrap();
    assert_eq!(b.get_component(&w, a, 0), None);
    assert_eq!(b.add_component(&mut w, a, 0, ComponentValue::I32(1)), Ok(()));
    assert_eq!(b.get_component(&w, a, 0), Some(ComponentValue::I32(1)));
    assert_eq!(b.set_component(&mut w, a, 0, ComponentValue::I32(2)), Ok(()));
    assert_eq!(b.set_component(&mut w, a, 1, ComponentValue::Empty), Err(BindingError::Ecs(ECSError::EntityDoesntHaveComponent)));
    assert_eq!(b.add_components(&mut w, a, vec![(1, ComponentValue::Empty), (2, ComponentValue::I32(0))]), Err(BindingError::Ecs(ECSError::TypeMismatch)));
    assert!(!b.has_component(&w, a, 1));
    assert_eq!(b.add_components(&mut w, a, vec![(1, ComponentValue::Empty)]), Ok(()));
    assert!(b.has_components(&w, a, &vec![0, 1]));
    assert_eq!(b.set_components(&mut w, a, vec![(0, ComponentValue::I32(3))]), Ok(()));
    assert_eq!(b.remove_components(&mut w, a, &vec![1]), Ok(()));
    assert_eq!(b.remove_component(&mut w, a, 0), Ok(()));
    assert_eq!(b.get_component(&w, a, 0), None);
    assert_eq!(b.remove_component(&mut w, 900, 0), Err(BindingError::Ecs(ECSError::NoSuchEntity)));
}

#[test]
fn query_is_empty_before_match_and_sees_spawned_entity() {
    let mut w = world();
    let mut b = Bindings::new(Side::Server);
    let h = b.query(health_query(), QueryEvent::Frame);
    assert_eq!(b.query_eval(&w, h), Ok(vec![]));
    let a = b.spawn(&mut w, vec![(0, ComponentValue::I32(5)), (1, ComponentValue::Empty)]).unwrap();
    b.spawn(&mut w, vec![(0, ComponentValue::I32(6))]).unwrap();
    b.spawn(&mut w, vec![(0, ComponentValue::I32(7)), (1, ComponentValue::Empty), (2, ComponentValue::Bool(true))]).unwrap();
    assert_eq!(b.query_eval(&w, h), Ok(vec![(a, vec![ComponentValue::I32(5)])]));
    assert_eq!(b.query_eval(&w, h), Ok(vec![(a, vec![ComponentValue::I32(5)])]));
}

#[test]
fn query_handles_are_monotonic_and_owned() {
    let mut b = Bindings::new(Side::Client);
    let w = world();
    let h0 = b.query(health_query(), QueryEvent::Frame);
    let h1 = b.query(health_query(), QueryEvent::Spawn);
    assert_eq!(h0, 0);
    assert_eq!(h1, 1);
    assert_eq!(b.query_eval(&w, 7), Err(BindingError::UnknownQueryHandle));
}

#[test]
fn spawn_and_despawn_queries_report_changes_once() {
    let mut w = world();
    let mut b = Bindings::new(Side::Server);
    let spawned = b.query(health_query(), QueryEvent::Spawn);
    let gone = b.query(health_query(), QueryEvent::Despawn);
    let a = b.spawn(&mut w, vec![(0, ComponentValue::I32(1)), (1, ComponentValue::Empty)]).unwrap();
    assert_eq!(b.query_eval(&w, gone), Ok(vec![]));
    assert_eq!(b.query_eval(&w, spawned), Ok(vec![(a, vec![ComponentValue::I32(1)])]));
    assert_eq!(b.query_eval(&w, spawned), Ok(vec![]));
    let c = b.spawn(&mut w, vec![(0, ComponentValue::I32(2)), (1, ComponentValue::Empty)]).unwrap();
    assert_eq!(b.query_eval(&w, spawned), Ok(vec![(c, vec![ComponentValue::I32(2)])]));
    assert!(b.despawn(&mut w, a));
    assert_eq!(b.query_eval(&w, gone), Ok(vec![(a, vec![])]));
    assert_eq!(b.query_eval(&w, gone), Ok(vec![]));
}

#[test]
fn send_checks_payload() {
    let mut w = world();
    let b = Bindings::new(Side::Client);
    assert_eq!(b.send(&mut w, "ping".to_string(), vec![(0, ComponentValue::I32(1))]), Ok(()));
    assert_eq!(b.send(&mut w, "ping".to_string(), vec![(5, ComponentValue::I32(1))]), Err(BindingError::Ecs(ECSError::UnknownComponent)));
    assert_eq!(w.take_events().len(), 1);
}

#[test]
fn server_only_calls_are_unsupported_on_client() {
    let mut b = Bindings::new(Side::Client);
    let force = Vec3Bits { x: 0, y: 0, z: 3000.0f32.to_bits() };
    assert_eq!(apply_force(&mut b, vec![2, 3], force), Err(BindingError::Unsupported));
    assert_eq!(set_gravity(&mut b, force), Err(BindingError::Unsupported));
    assert_eq!(freeze(&mut b, 2), Err(BindingError::Unsupported));
    assert_eq!(unfreeze(&mut b, 2), Err(BindingError::Unsupported));
    assert_eq!(stop_motor(&mut b, 2), Err(BindingError::Unsupported));
    assert!(b.physics.is_empty());
    assert_eq!(unsupported::<u32>(), Err(BindingError::Unsupported));
}

#[test]
fn server_calls_are_queued_for_physics() {
    let mut b = Bindings::new(Side::Server);
    let force = Vec3Bits { x: 0, y: 0, z: 3000.0f32.to_bits() };
    assert_eq!(apply_force(&mut b, vec![2, 3], force), Ok(()));
    assert_eq!(freeze(&mut b, 4), Ok(()));
    assert_eq!(b.physics, vec![PhysicsCommand::ApplyForce { entities: vec![2, 3], force }, PhysicsCommand::Freeze(4)]);
}

#[test]
fn clipboard_is_not_shared() {
    assert_eq!(get_clipboard(), None);
}

#[test]
fn changed_query_reports_new_and_modified_entities() {
    let mut w = world();
    let mut b = Bindings::new(Side::Server);
    let h = b.query(health_query(), QueryEvent::Changed);
    let a = b.spawn(&mut w, vec![(0, ComponentValue::I32(1)), (1, ComponentValue::Empty)]).unwrap();
    let c = b.spawn(&mut w, vec![(0, ComponentValue::I32(2)), (1, ComponentValue::Empty)]).unwrap();
    assert_eq!(b.query_eval(&w, h), Ok(vec![(a, vec![ComponentValue::I32(1)]), (c, vec![ComponentValue::I32(2)])]));
    assert_eq!(b.query_eval(&w, h), Ok(vec![]));
    assert_eq!(b.set_component(&mut w, c, 0, ComponentValue::I32(5)), Ok(()));
    assert_eq!(b.query_eval(&w, h), Ok(vec![(c, vec![ComponentValue::I32(5)])]));
    assert_eq!(b.set_component(&mut w, a, 0, ComponentValue::I32(1)), Ok(()));
    assert_eq!(b.query_eval(&w, h), Ok(vec![]));
}

#[test]
fn unsupported_error_carries_its_message() {
    let e = unsupported::<()>().unwrap_err();
    assert_eq!(
        e.message(),
        "This function is not supported on this side of the API. Please report this if you were able to access this function."
    );
    assert_eq!(BindingError::UnknownQueryHandle.message(), "unknown query handle");
    assert_eq!(BindingError::Ecs(ECSError::NoSuchEntity).message(), "no such entity");
    assert_eq!(ECSError::EntityDoesntHaveComponent.message(), "entity doesn't have component");
}

#[test]
fn input_and_asset_calls_are_server_only() {
    let mut w = world();
    let player = w.spawn(vec![(0, ComponentValue::I32(42))]).unwrap();
    let client = Bindings::new(Side::Client);
    let server = Bindings::new(Side::Server);
    assert_eq!(get_raw_input(&client, &w, player, 0), Err(BindingError::Unsupported));
    assert_eq!(get_prev_raw_input(&client, &w, player, 0), Err(BindingError::Unsupported));
    assert_eq!(url(&client, "http://host/", "a.png"), Err(BindingError::Unsupported));
    assert_eq!(get_raw_input(&server, &w, player, 0), Ok(Some(ComponentValue::I32(42))));
    assert_eq!(get_prev_raw_input(&server, &w, player, 1), Ok(None));
    assert_eq!(url(&server, "http://host/", "a.png"), Ok(Some("http://host/a.png".to_string())));
}
