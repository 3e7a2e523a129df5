use wasm_host::identifier::{Identifier, IdentifierPathBuf};
use wasm_host::identifier::{Identifier as I, IdentifierPathBuf as IP};

#[test]
fn can_validate_identifiers() {
    assert_eq!(I::new(""), Err("identifier must not be empty"));
    assert_eq!(I::new("5asd"), Err("identifier must start with a lowercase ASCII character"));
    assert_eq!(I::new("_asd"), Err("identifier must start with a lowercase ASCII character"));
    assert_eq!(I::new("mY_COOL_COMPONENT"), Err("identifier must be snake-case ASCII"));
    assert_eq!(I::new("cool_component!"), Err("identifier must be snake-case ASCII"));
    assert_eq!(I::new("cool-component"), Err("identifier must be snake-case ASCII"));

    assert_eq!(I::new("cool_component"), Ok(I("cool_component".to_string())));
    assert_eq!(I::new("cool_component_00"), Ok(I("cool_component_00".to_string())));

    assert_eq!(IP::new("my::cool_component_00"), Ok(IP(vec![I("my".to_string()), I("cool_component_00".to_string())])));
}

#[test]
fn identifier_single_letter_and_digits() {
    assert_eq!(Identifier::new("a"), Ok(Identifier("a".to_string())));
    assert_eq!(Identifier::new("a1_2"), Ok(Identifier("a1_2".to_string())));
    assert_eq!(Identifier::new("Abc"), Err("identifier must start with a lowercase ASCII character"));
    assert_eq!(Identifier::new("aé"), Err("identifier must be snake-case ASCII"));
    assert_eq!(Identifier::new("a b"), Err("identifier must be snake-case ASCII"));
}

#[test]
fn identifier_path_single_segment_and_errors() {
    assert_eq!(IdentifierPathBuf::new("core"), Ok(IdentifierPathBuf(vec![Identifier("core".to_string())])));
    assert_eq!(
        IdentifierPathBuf::new("a::b::c"),
        Ok(IdentifierPathBuf(vec![
            Identifier("a".to_string()),
            Identifier("b".to_string()),
            Identifier("c".to_string())
        ]))
    );
    assert_eq!(IdentifierPathBuf::new("a::"), Err("identifier must not be empty"));
    assert_eq!(IdentifierPathBuf::new(""), Err("identifier must not be empty"));
    assert_eq!(IdentifierPathBuf::new("a::B"), Err("identifier must start with a lowercase ASCII character"));
    assert_eq!(IdentifierPathBuf::new("a:b"), Err("identifier must be snake-case ASCII"));
}

#[test]
fn identifier_duplicate_keeps_text() {
    let id = Identifier::new("cool_component").unwrap();
    assert_eq!(id.duplicate(), id);
    assert_eq!(id.as_str(), "cool_component");
}
