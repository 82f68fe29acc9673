use circuit_data::error::CircuitError;
use circuit_data::resource::{Resource, ResourceTable};

fn resource(id: u64, repr: &str) -> Resource {
    Resource { id, repr: repr.to_string() }
}

#[test]
fn register_assigns_indices_in_order() {
    let mut table = ResourceTable::new();
    assert_eq!(table.len(), 0);
    assert_eq!(table.register(resource(70, "a")), Ok(0));
    assert_eq!(table.register(resource(30, "b")), Ok(1));
    assert_eq!(table.register(resource(50, "c")), Ok(2));
    assert_eq!(table.len(), 3);
    assert_eq!(table.get(1).unwrap().id, 30);
    assert_eq!(table.get(1).unwrap().repr, "b");
    assert!(table.get(3).is_none());
}

#[test]
fn register_rejects_the_same_identity() {
    let mut table = ResourceTable::new();
    assert_eq!(table.register(resource(1, "a")), Ok(0));
    assert_eq!(table.register(resource(1, "other")), Err(CircuitError::DuplicateResource));
    assert_eq!(table.len(), 1);
    assert_eq!(table.get(0).unwrap().repr, "a");
}

#[test]
fn register_rejects_the_same_representation() {
    let mut table = ResourceTable::new();
    assert_eq!(table.register(resource(1, "a")), Ok(0));
    assert_eq!(table.register(resource(2, "a")), Err(CircuitError::DuplicateResource));
    assert_eq!(table.len(), 1);
    assert_eq!(table.register(resource(2, "b")), Ok(1));
}

#[test]
fn index_of_finds_by_identity_then_by_representation() {
    let mut table = ResourceTable::new();
    table.register(resource(10, "a")).unwrap();
    table.register(resource(20, "b")).unwrap();
    table.register(resource(30, "c")).unwrap();
    assert_eq!(table.index_of(&resource(20, "b")), Ok(1));
    assert_eq!(table.index_of(&resource(30, "renamed")), Ok(2));
    assert_eq!(table.index_of(&resource(99, "a")), Ok(0));
    assert_eq!(table.index_of(&resource(20, "a")), Ok(1));
    assert_eq!(table.index_of(&resource(99, "z")), Err(CircuitError::UnknownResource));
}

#[test]
fn index_of_in_an_empty_table_fails() {
    let table = ResourceTable::new();
    assert_eq!(table.index_of(&resource(1, "a")), Err(CircuitError::UnknownResource));
}

#[test]
fn from_resources_keeps_the_order() {
    let table = ResourceTable::from_resources(vec![resource(3, "x"), resource(1, "y")]).unwrap();
    assert_eq!(table.len(), 2);
    assert_eq!(table.index_of(&resource(1, "y")), Ok(1));
    assert_eq!(table.index_of(&resource(3, "x")), Ok(0));
}

#[test]
fn from_resources_rejects_duplicates() {
    let made = ResourceTable::from_resources(vec![
        resource(3, "x"),
        resource(1, "y"),
        resource(4, "x"),
    ]);
    assert!(matches!(made, Err(CircuitError::DuplicateResource)));
}

#[test]
fn table_clone_is_independent() {
    let mut table = ResourceTable::new();
    table.register(resource(1, "a")).unwrap();
    let mut copy = table.clone();
    assert_eq!(copy.register(resource(2, "b")), Ok(1));
    assert_eq!(copy.index_of(&resource(1, "a")), Ok(0));
    assert_eq!(table.len(), 1);
    assert_eq!(table.index_of(&resource(2, "b")), Err(CircuitError::UnknownResource));
}

#[test]
fn is_same_goes_by_identity_or_representation() {
    assert!(resource(1, "a").is_same(&resource(1, "b")));
    assert!(resource(1, "a").is_same(&resource(2, "a")));
    assert!(!resource(1, "a").is_same(&resource(2, "b")));
}
