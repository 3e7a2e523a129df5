use wasm_host::bindings::{BindingError, QueryBuild, QueryEvent, Side};
use wasm_host::identifier::Identifier;
use wasm_host::registry::{derive_module_name, has_module_header, Bytecode, DeferredContinuation, ModuleRegistry};
use wasm_host::value::{ComponentValue, PrimitiveType};
use wasm_host::world::{ComponentDef, ECSError, World};

fn world() -> World {
    World::new(vec![ComponentDef { name: "cell".to_string(), ty: PrimitiveType::I32 }])
}

fn project() -> Identifier {
    Identifier::new("tictactoe").unwrap()
}

fn stems(names: &[&str]) -> Vec<String> {
    names.iter().map(|s| s.to_string()).collect()
}

#[test]
fn sole_artifact_reuses_project_identifier() {
    let mut reg = ModuleRegistry::new();
    let r = reg.register(Side::Server, &project(), &"Tic Tac Toe".to_string(), &stems(&["server"]));
    assert_eq!(r, vec![Ok(0)]);
    assert_eq!(reg.modules[0].name.as_str(), "tictactoe");
    assert_eq!(reg.modules[0].description, "Tic Tac Toe");
    assert!(reg.modules[0].enabled);
    assert!(matches!(reg.modules[0].bytecode, Bytecode::Missing));
}

#[test]
fn several_artifacts_get_suffixed_distinct_names() {
    let mut reg = ModuleRegistry::new();
    let r = reg.register(Side::Client, &project(), &"Game".to_string(), &stems(&["board", "ui", "sound"]));
    assert_eq!(r, vec![Ok(0), Ok(1), Ok(2)]);
    assert_eq!(reg.modules[0].name.as_str(), "tictactoe_board");
    assert_eq!(reg.modules[1].name.as_str(), "tictactoe_ui");
    assert_eq!(reg.modules[2].name.as_str(), "tictactoe_sound");
    assert_eq!(reg.modules[1].description, "Game (ui)");
    assert_eq!(reg.modules[2].bindings.side, Side::Client);
}

#[test]
fn invalid_stem_is_skipped_and_siblings_register() {
    let mut reg = ModuleRegistry::new();
    let r = reg.register(Side::Server, &project(), &String::new(), &stems(&["good", "Bad", "", "9lives", "also-bad", "fine_2"]));
    assert_eq!(
        r,
        vec![
            Ok(0),
            Err("identifier must start with a lowercase ASCII character"),
            Err("identifier must not be empty"),
            Err("identifier must start with a lowercase ASCII character"),
            Err("identifier must be snake-case ASCII"),
            Ok(1)
        ]
    );
    assert_eq!(reg.modules.len(), 2);
    assert_eq!(reg.modules[1].name.as_str(), "tictactoe_fine_2");
}

#[test]
fn derive_module_name_exact_values() {
    let (name, text) = derive_module_name(&project(), &"D".to_string(), "x1", false).unwrap();
    assert_eq!(name.as_str(), "tictactoe_x1");
    assert_eq!(text, "D (x1)");
    let (name, text) = derive_module_name(&project(), &"D".to_string(), "x1", true).unwrap();
    assert_eq!(name.as_str(), "tictactoe");
    assert_eq!(text, "D");
    assert!(derive_module_name(&project(), &"D".to_string(), "X", true).is_err());
}

#[test]
fn url_only_for_client_modules() {
    let mut reg = ModuleRegistry::new();
    let c = reg.spawn_module(Identifier::new("c").unwrap(), String::new(), Side::Client);
    let s = reg.spawn_module(Identifier::new("s").unwrap(), String::new(), Side::Server);
    assert!(reg.attach_bytecode_url(c, "http://host/client/c.wasm".to_string()));
    assert!(!reg.attach_bytecode_url(s, "http://host/server/s.wasm".to_string()));
    assert!(matches!(&reg.modules[c as usize].bytecode, Bytecode::Url(u) if u == "http://host/client/c.wasm"));
    assert!(matches!(reg.modules[s as usize].bytecode, Bytecode::Missing));
    assert!(!reg.attach_bytecode_url(9, String::new()));
}

#[test]
fn fetch_failure_of_one_module_does_not_block_another() {
    let mut reg = ModuleRegistry::new();
    reg.register(Side::Client, &project(), &String::new(), &stems(&["a", "b"]));
    // module 0's fetch failed: nothing was queued for it
    reg.enqueue(DeferredContinuation { module: 1, bytecode: vec![0, 97, 115, 109] });
    assert!(reg.tick_order().is_empty());
    reg.drain_continuations();
    assert!(reg.continuations.is_empty());
    assert!(matches!(reg.modules[0].bytecode, Bytecode::Missing));
    assert!(matches!(&reg.modules[1].bytecode, Bytecode::Bytes(b) if *b == vec![0, 97, 115, 109]));
    assert_eq!(reg.tick_order(), vec![1]);
    assert!(reg.take_reload(1));
    assert!(!reg.take_reload(1));
}

#[test]
fn latest_continuation_wins_and_late_ones_are_dropped() {
    let mut world = world();
    let mut reg = ModuleRegistry::new();
    reg.register(Side::Client, &project(), &String::new(), &stems(&["a", "b"]));
    reg.enqueue(DeferredContinuation { module: 0, bytecode: vec![1] });
    reg.enqueue(DeferredContinuation { module: 0, bytecode: vec![2] });
    reg.enqueue(DeferredContinuation { module: 1, bytecode: vec![3] });
    reg.enqueue(DeferredContinuation { module: 7, bytecode: vec![4] });
    assert!(reg.unload(&mut world, 1));
    reg.drain_continuations();
    assert!(matches!(&reg.modules[0].bytecode, Bytecode::Bytes(b) if *b == vec![2]));
    assert!(matches!(reg.modules[1].bytecode, Bytecode::Missing));
    assert_eq!(reg.tick_order(), vec![0]);
}

#[test]
fn unload_despawns_owned_entities_and_is_idempotent() {
    let mut world = world();
    let mut reg = ModuleRegistry::new();
    reg.register(Side::Server, &project(), &String::new(), &stems(&["a", "b"]));
    let e1 = reg.spawn_entity(&mut world, 0, vec![(0, ComponentValue::I32(1))]).unwrap();
    let e2 = reg.spawn_entity(&mut world, 0, vec![]).unwrap();
    let other = reg.spawn_entity(&mut world, 1, vec![]).unwrap();
    assert_eq!(reg.modules[0].bindings.base.spawned_entities, vec![e1, e2]);
    assert_eq!(reg.modules[1].bindings.base.spawned_entities, vec![other]);
    assert!(reg.subscribe(0, "tick".to_string()));
    assert!(reg.unload(&mut world, 0));
    assert!(!world.is_live(e1));
    assert!(!world.is_live(e2));
    assert!(world.is_live(other));
    assert_eq!(world.get(e1, 0), Err(ECSError::EntityDoesntHaveComponent));
    assert!(!reg.modules[0].loaded);
    assert!(!reg.modules[0].enabled);
    assert!(reg.modules[0].bindings.base.spawned_entities.is_empty());
    assert!(reg.subscribers(&"tick".to_string()).is_empty());
    assert!(!reg.unload(&mut world, 0));
    assert!(!reg.unload(&mut world, 42));
    assert!(!reg.attach_bytecode(0, vec![1]));
}

#[test]
fn server_module_end_to_end() {
    let mut world = world();
    let mut reg = ModuleRegistry::new();
    let ids = reg.register(Side::Server, &project(), &"Tic Tac Toe".to_string(), &stems(&["tictactoe"]));
    let id = ids[0].unwrap();
    assert!(reg.attach_bytecode(id, vec![0, 97, 115, 109, 1, 0, 0, 0]));
    assert_eq!(reg.tick_order(), vec![id]);
    let h = reg.modules[id as usize].bindings.query(QueryBuild { components: vec![0], required: vec![], exclude: vec![] }, QueryEvent::Frame);
    let e = reg.spawn_entity(&mut world, id, vec![(0, ComponentValue::I32(4))]).unwrap();
    assert_eq!(reg.modules[id as usize].bindings.query_eval(&world, h), Ok(vec![(e, vec![ComponentValue::I32(4)])]));
    assert!(reg.unload(&mut world, id));
    assert!(!world.is_live(e));
    assert_eq!(reg.modules[id as usize].bindings.query_eval(&world, h), Err(BindingError::UnknownQueryHandle));
    assert!(reg.tick_order().is_empty());
}

#[test]
fn faulting_module_is_disabled_and_others_tick() {
    let mut reg = ModuleRegistry::new();
    reg.register(Side::Server, &project(), &String::new(), &stems(&["a", "b", "c"]));
    for id in 0..3 {
        assert!(reg.attach_bytecode(id, vec![id as u8]));
    }
    assert_eq!(reg.tick_order(), vec![0, 1, 2]);
    assert!(reg.record_fault(1));
    assert_eq!(reg.tick_order(), vec![0, 2]);
    assert!(reg.set_enabled(1, true));
    assert_eq!(reg.tick_order(), vec![0, 1, 2]);
    assert!(!reg.record_fault(5));
}

#[test]
fn subscriptions_are_idempotent_and_ordered() {
    let mut reg = ModuleRegistry::new();
    reg.register(Side::Server, &project(), &String::new(), &stems(&["a", "b", "c"]));
    assert!(reg.subscribe(2, "hit".to_string()));
    assert!(reg.subscribe(0, "hit".to_string()));
    assert!(!reg.subscribe(2, "hit".to_string()));
    assert!(reg.subscribe(1, "miss".to_string()));
    assert!(!reg.subscribe(9, "hit".to_string()));
    assert_eq!(reg.subscribers(&"hit".to_string()), vec![2, 0]);
    assert_eq!(reg.subscribers(&"miss".to_string()), vec![1]);
    assert!(reg.subscribers(&"none".to_string()).is_empty());
}

#[test]
fn display_name_is_module_identifier() {
    let mut reg = ModuleRegistry::new();
    reg.register(Side::Server, &project(), &String::new(), &stems(&["a", "b"]));
    assert_eq!(reg.display_name(1), Some("tictactoe_b".to_string()));
    assert_eq!(reg.display_name(2), None);
}

#[test]
fn events_are_delivered_to_subscribers_in_order() {
    let mut world = world();
    let mut reg = ModuleRegistry::new();
    reg.register(Side::Server, &project(), &String::new(), &stems(&["a", "b", "c"]));
    assert!(reg.subscribe(1, "score".to_string()));
    assert!(reg.subscribe(0, "score".to_string()));
    assert!(reg.subscribe(2, "reset".to_string()));
    assert_eq!(reg.modules[2].bindings.send(&mut world, "score".to_string(), vec![(0, ComponentValue::I32(1))]), Ok(()));
    assert_eq!(reg.modules[2].bindings.send(&mut world, "reset".to_string(), vec![]), Ok(()));
    assert_eq!(reg.modules[2].bindings.send(&mut world, "other".to_string(), vec![]), Ok(()));
    let events = world.take_events();
    assert_eq!(reg.deliveries(&events), vec![vec![1, 0], vec![2], vec![]]);
}

#[test]
fn registry_spawn_and_despawn_track_owner() {
    let mut world = world();
    let mut reg = ModuleRegistry::new();
    reg.register(Side::Server, &project(), &String::new(), &stems(&["a", "b"]));
    let e = reg.spawn_entity(&mut world, 1, vec![(0, ComponentValue::I32(8))]).unwrap();
    assert_eq!(reg.spawn_entity(&mut world, 1, vec![(0, ComponentValue::U32(8))]), Err(BindingError::Ecs(ECSError::TypeMismatch)));
    assert_eq!(reg.modules[1].bindings.base.spawned_entities, vec![e]);
    assert!(reg.despawn_entity(&mut world, 1, e));
    assert!(!reg.despawn_entity(&mut world, 1, e));
    assert!(reg.modules[1].bindings.base.spawned_entities.is_empty());
    assert!(!world.is_live(e));
}

#[test]
fn despawn_forgets_entity_already_removed_by_another_module() {
    let mut world = world();
    let mut reg = ModuleRegistry::new();
    reg.register(Side::Server, &project(), &String::new(), &stems(&["a", "b"]));
    let e = reg.spawn_entity(&mut world, 0, vec![]).unwrap();
    assert!(reg.despawn_entity(&mut world, 1, e));
    assert_eq!(reg.modules[0].bindings.base.spawned_entities, vec![e]);
    assert!(!reg.despawn_entity(&mut world, 0, e));
    assert!(reg.modules[0].bindings.base.spawned_entities.is_empty());
}

#[test]
fn module_header_is_checked() {
    assert!(has_module_header(&vec![0, 97, 115, 109, 1, 0, 0, 0]));
    assert!(has_module_header(&vec![0, 97, 115, 109]));
    assert!(!has_module_header(&vec![0, 97, 115]));
    assert!(!has_module_header(&vec![1, 97, 115, 109]));
    assert!(!has_module_header(&vec![]));
}
