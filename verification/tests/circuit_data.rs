use circuit_data::circuit_data::CircuitData;
use circuit_data::instruction::{CircuitInstruction, Item};
use circuit_data::error::CircuitError;
use circuit_data::resource::Resource;
use circuit_data::slice::SliceOrInt;

fn qubit(i: u64) -> Resource {
    Resource { id: 1000 + i, repr: format!("Qubit({})", i) }
}

fn clbit(i: u64) -> Resource {
    Resource { id: 2000 + i, repr: format!("Clbit({})", i) }
}

fn gate(name: &str, qubits: &[u64], clbits: &[u64]) -> CircuitInstruction<String> {
    CircuitInstruction {
        operation: name.to_string(),
        qubits: qubits.iter().map(|i| qubit(*i)).collect(),
        clbits: clbits.iter().map(|i| clbit(*i)).collect(),
    }
}

fn circuit(names: &[&str]) -> CircuitData<String> {
    let qubits = (0..4).map(qubit).collect();
    let clbits = (0..2).map(clbit).collect();
    let data = names.iter().map(|name| gate(name, &[0], &[])).collect();
    CircuitData::new(Some(qubits), Some(clbits), Some(data), 0).unwrap()
}

fn names(circuit: &CircuitData<String>) -> Vec<String> {
    let len = circuit.len() as isize;
    circuit.get_slice(0, len, 1).unwrap().into_iter().map(|i| i.operation).collect()
}

fn ids(resources: &[Resource]) -> Vec<u64> {
    resources.iter().map(|r| r.id).collect()
}

#[test]
fn new_without_arguments_is_empty() {
    let circuit: CircuitData<String> = CircuitData::new(None, None, None, 0).unwrap();
    assert_eq!(circuit.len(), 0);
    assert_eq!(circuit.qubits().len(), 0);
    assert_eq!(circuit.clbits().len(), 0);
}

#[test]
fn new_registers_resources_in_order() {
    let circuit: CircuitData<String> = CircuitData::new(
        Some(vec![qubit(2), qubit(0), qubit(1)]),
        Some(vec![clbit(5)]),
        None,
        16,
    )
    .unwrap();
    assert_eq!(circuit.len(), 0);
    assert_eq!(circuit.qubits().len(), 3);
    assert_eq!(circuit.qubits().index_of(&qubit(2)), Ok(0));
    assert_eq!(circuit.qubits().index_of(&qubit(0)), Ok(1));
    assert_eq!(circuit.qubits().index_of(&qubit(1)), Ok(2));
    assert_eq!(circuit.clbits().index_of(&clbit(5)), Ok(0));
}

#[test]
fn new_rejects_a_duplicate_resource() {
    let made: Result<CircuitData<String>, CircuitError> =
        CircuitData::new(Some(vec![qubit(0), qubit(1), qubit(0)]), None, None, 0);
    assert!(matches!(made, Err(CircuitError::DuplicateResource)));
    let made: Result<CircuitData<String>, CircuitError> =
        CircuitData::new(None, Some(vec![clbit(3), clbit(3)]), None, 0);
    assert!(matches!(made, Err(CircuitError::DuplicateResource)));
}

#[test]
fn new_stores_the_instructions_in_order() {
    let circuit = CircuitData::new(
        Some(vec![qubit(0), qubit(1)]),
        Some(vec![clbit(0)]),
        Some(vec![gate("h", &[0], &[]), gate("cx", &[0, 1], &[]), gate("measure", &[1], &[0])]),
        0,
    )
    .unwrap();
    assert_eq!(names(&circuit), vec!["h", "cx", "measure"]);
    let last = circuit.get(2).unwrap();
    assert_eq!(ids(&last.qubits), vec![1001]);
    assert_eq!(ids(&last.clbits), vec![2000]);
}

#[test]
fn new_rejects_an_instruction_on_an_unknown_resource() {
    let made = CircuitData::new(
        Some(vec![qubit(0)]),
        None,
        Some(vec![gate("h", &[0], &[]), gate("x", &[1], &[])]),
        0,
    );
    assert!(matches!(made, Err(CircuitError::UnknownResource)));
}

#[test]
fn add_qubit_and_add_clbit_register_at_the_end() {
    let mut circuit = circuit(&[]);
    assert_eq!(circuit.add_qubit(qubit(7)), Ok(()));
    assert_eq!(circuit.add_clbit(clbit(7)), Ok(()));
    assert_eq!(circuit.qubits().index_of(&qubit(7)), Ok(4));
    assert_eq!(circuit.clbits().index_of(&clbit(7)), Ok(2));
    assert_eq!(circuit.add_qubit(qubit(7)), Err(CircuitError::DuplicateResource));
    assert_eq!(circuit.add_clbit(clbit(0)), Err(CircuitError::DuplicateResource));
    assert_eq!(circuit.qubits().len(), 5);
    assert_eq!(circuit.clbits().len(), 3);
    assert_eq!(circuit.append(gate("x", &[7], &[7])), Ok(()));
    let stored = circuit.get(0).unwrap();
    assert_eq!(ids(&stored.qubits), vec![1007]);
    assert_eq!(ids(&stored.clbits), vec![2007]);
}

#[test]
fn get_returns_operation_and_resources() {
    let mut circuit = circuit(&[]);
    circuit.append(gate("ccx", &[2, 0, 3], &[1, 0])).unwrap();
    let found = circuit.get(0).unwrap();
    assert_eq!(found.operation, "ccx");
    assert_eq!(ids(&found.qubits), vec![1002, 1000, 1003]);
    assert_eq!(ids(&found.clbits), vec![2001, 2000]);
    assert_eq!(found.qubits[0].repr, "Qubit(2)");
}

#[test]
fn get_finds_a_resource_by_its_representation() {
    let mut circuit = circuit(&[]);
    let lookalike = Resource { id: 5, repr: "Qubit(3)".to_string() };
    circuit
        .append(CircuitInstruction {
            operation: "x".to_string(),
            qubits: vec![lookalike],
            clbits: vec![],
        })
        .unwrap();
    let found = circuit.get(0).unwrap();
    assert_eq!(ids(&found.qubits), vec![1003]);
}

#[test]
fn get_counts_negative_indices_from_the_end() {
    let circuit = circuit(&["a", "b", "c", "d", "e"]);
    assert_eq!(circuit.len(), 5);
    assert_eq!(circuit.get(-1).unwrap().operation, circuit.get(4).unwrap().operation);
    assert_eq!(circuit.get(-1).unwrap().operation, "e");
    assert_eq!(circuit.get(-5).unwrap().operation, "a");
    assert_eq!(circuit.get(0).unwrap().operation, "a");
}

#[test]
fn get_rejects_an_index_outside() {
    let circuit = circuit(&["a", "b"]);
    assert!(matches!(circuit.get(2), Err(CircuitError::IndexOutOfRange)));
    assert!(matches!(circuit.get(-3), Err(CircuitError::IndexOutOfRange)));
}

#[test]
fn pop_on_an_empty_sequence_fails() {
    let mut circuit = circuit(&[]);
    assert!(matches!(circuit.pop(None), Err(CircuitError::IndexOutOfRange)));
    assert!(matches!(circuit.pop(Some(0)), Err(CircuitError::IndexOutOfRange)));
    assert_eq!(circuit.len(), 0);
}

#[test]
fn pop_takes_the_last_instruction_by_default() {
    let mut circuit = circuit(&["a", "b", "c"]);
    let taken = circuit.pop(None).unwrap();
    assert_eq!(taken.operation, "c");
    assert_eq!(ids(&taken.qubits), vec![1000]);
    assert_eq!(names(&circuit), vec!["a", "b"]);
}

#[test]
fn pop_takes_the_instruction_at_the_index() {
    let mut circuit = circuit(&["a", "b", "c"]);
    assert_eq!(circuit.pop(Some(0)).unwrap().operation, "a");
    assert_eq!(circuit.pop(Some(-2)).unwrap().operation, "b");
    assert!(matches!(circuit.pop(Some(1)), Err(CircuitError::IndexOutOfRange)));
    assert_eq!(names(&circuit), vec!["c"]);
}

#[test]
fn get_slice_follows_the_step() {
    let circuit = circuit(&["a", "b", "c", "d", "e"]);
    let pick = |start, stop, step| -> Vec<String> {
        circuit.get_slice(start, stop, step).unwrap().into_iter().map(|i| i.operation).collect()
    };
    assert_eq!(pick(0, 5, 1), vec!["a", "b", "c", "d", "e"]);
    assert_eq!(pick(0, 5, 2), vec!["a", "c", "e"]);
    assert_eq!(pick(1, 4, 1), vec!["b", "c", "d"]);
    assert_eq!(pick(4, -1, -1), vec!["e", "d", "c", "b", "a"]);
    assert_eq!(pick(3, 0, -2), vec!["d", "b"]);
    assert_eq!(pick(2, 2, 1), Vec::<String>::new());
    assert_eq!(pick(4, 1, 1), Vec::<String>::new());
    assert_eq!(pick(0, 5, 0), Vec::<String>::new());
}

#[test]
fn get_slice_rejects_an_index_outside() {
    let circuit = circuit(&["a", "b", "c"]);
    assert!(matches!(circuit.get_slice(0, 4, 1), Err(CircuitError::IndexOutOfRange)));
    assert!(matches!(circuit.get_slice(2, -5, -1), Err(CircuitError::IndexOutOfRange)));
}

#[test]
fn getitem_selects_one_or_many() {
    let circuit = circuit(&["a", "b", "c"]);
    match circuit.getitem(SliceOrInt::Int(-1)).unwrap() {
        Item::One(found) => assert_eq!(found.operation, "c"),
        Item::Many(_) => panic!("a single index selects one instruction"),
    }
    match circuit.getitem(SliceOrInt::Slice { start: 2, stop: 0, step: -1 }).unwrap() {
        Item::Many(found) => {
            let found: Vec<String> = found.into_iter().map(|i| i.operation).collect();
            assert_eq!(found, vec!["c", "b"]);
        }
        Item::One(_) => panic!("a slice selects a list"),
    }
    assert!(matches!(circuit.getitem(SliceOrInt::Int(3)), Err(CircuitError::IndexOutOfRange)));
}

#[test]
fn append_stores_behind_the_last() {
    let mut circuit = circuit(&["a"]);
    assert_eq!(circuit.append(gate("b", &[1], &[0])), Ok(()));
    assert_eq!(names(&circuit), vec!["a", "b"]);
    assert_eq!(ids(&circuit.get(1).unwrap().clbits), vec![2000]);
}

#[test]
fn append_rejects_an_unknown_resource() {
    let mut circuit = circuit(&["a"]);
    assert_eq!(circuit.append(gate("b", &[9], &[])), Err(CircuitError::UnknownResource));
    assert_eq!(circuit.append(gate("b", &[0], &[9])), Err(CircuitError::UnknownResource));
    assert_eq!(names(&circuit), vec!["a"]);
    assert_eq!(circuit.intern_context().occupied_slot_count(), 2);
}

#[test]
fn insert_clamps_the_index() {
    let mut circuit = circuit(&["a", "b", "c"]);
    circuit.insert(1, gate("x", &[0], &[])).unwrap();
    assert_eq!(names(&circuit), vec!["a", "x", "b", "c"]);
    circuit.insert(-1, gate("y", &[0], &[])).unwrap();
    assert_eq!(names(&circuit), vec!["a", "x", "b", "y", "c"]);
    circuit.insert(100, gate("end", &[0], &[])).unwrap();
    assert_eq!(names(&circuit), vec!["a", "x", "b", "y", "c", "end"]);
    circuit.insert(-100, gate("front", &[0], &[])).unwrap();
    assert_eq!(names(&circuit), vec!["front", "a", "x", "b", "y", "c", "end"]);
    circuit.insert(7, gate("last", &[0], &[])).unwrap();
    assert_eq!(names(&circuit), vec!["front", "a", "x", "b", "y", "c", "end", "last"]);
}

#[test]
fn insert_rejects_an_unknown_resource() {
    let mut circuit = circuit(&["a"]);
    assert_eq!(circuit.insert(0, gate("b", &[4], &[])), Err(CircuitError::UnknownResource));
    assert_eq!(names(&circuit), vec!["a"]);
}

#[test]
fn set_replaces_the_instruction() {
    let mut circuit = circuit(&["a", "b", "c"]);
    assert_eq!(circuit.set(1, gate("x", &[1, 2], &[1])), Ok(()));
    assert_eq!(circuit.set(-1, gate("y", &[3], &[])), Ok(()));
    assert_eq!(names(&circuit), vec!["a", "x", "y"]);
    assert_eq!(ids(&circuit.get(1).unwrap().qubits), vec![1001, 1002]);
    assert_eq!(ids(&circuit.get(1).unwrap().clbits), vec![2001]);
    assert_eq!(ids(&circuit.get(2).unwrap().qubits), vec![1003]);
}

#[test]
fn set_rejects_an_index_outside_before_anything_else() {
    let mut circuit = circuit(&["a", "b"]);
    assert_eq!(circuit.set(2, gate("x", &[0], &[])), Err(CircuitError::IndexOutOfRange));
    assert_eq!(circuit.set(-3, gate("x", &[9], &[])), Err(CircuitError::IndexOutOfRange));
    assert_eq!(circuit.set(0, gate("x", &[9], &[])), Err(CircuitError::UnknownResource));
    assert_eq!(names(&circuit), vec!["a", "b"]);
}

#[test]
fn delete_removes_the_instruction() {
    let mut circuit = circuit(&["a", "b", "c", "d"]);
    assert_eq!(circuit.delete(1), Ok(()));
    assert_eq!(names(&circuit), vec!["a", "c", "d"]);
    assert_eq!(circuit.delete(-1), Ok(()));
    assert_eq!(names(&circuit), vec!["a", "c"]);
    assert_eq!(circuit.delete(2), Err(CircuitError::IndexOutOfRange));
    assert_eq!(circuit.delete(-3), Err(CircuitError::IndexOutOfRange));
    assert_eq!(names(&circuit), vec!["a", "c"]);
}

#[test]
fn delete_slice_removes_a_run() {
    let mut circuit = circuit(&["a", "b", "c", "d", "e"]);
    assert_eq!(circuit.delete_slice(1, 4, 1), Ok(()));
    assert_eq!(names(&circuit), vec!["a", "e"]);
}

#[test]
fn delete_slice_removes_every_other() {
    let mut circuit = circuit(&["a", "b", "c", "d", "e"]);
    assert_eq!(circuit.delete_slice(0, 5, 2), Ok(()));
    assert_eq!(names(&circuit), vec!["b", "d"]);
}

#[test]
fn delete_slice_with_a_negative_step_removes_the_same_positions() {
    let mut circuit = circuit(&["a", "b", "c", "d", "e"]);
    assert_eq!(circuit.delete_slice(4, 0, -2), Ok(()));
    assert_eq!(names(&circuit), vec!["a", "b", "d"]);
    let mut circuit = self::circuit(&["a", "b", "c", "d", "e"]);
    assert_eq!(circuit.delete_slice(4, -1, -1), Ok(()));
    assert_eq!(circuit.len(), 0);
}

#[test]
fn delete_slice_of_nothing_changes_nothing() {
    let mut circuit = circuit(&["a", "b"]);
    assert_eq!(circuit.delete_slice(1, 1, 1), Ok(()));
    assert_eq!(circuit.delete_slice(0, 2, 0), Ok(()));
    assert_eq!(circuit.delete_slice(5, 0, 1), Ok(()));
    assert_eq!(names(&circuit), vec!["a", "b"]);
}

#[test]
fn delete_slice_rejects_an_index_outside() {
    let mut circuit = circuit(&["a", "b", "c"]);
    assert_eq!(circuit.delete_slice(1, 5, 1), Err(CircuitError::IndexOutOfRange));
    assert_eq!(names(&circuit), vec!["a", "b", "c"]);
}

#[test]
fn delitem_removes_one_or_many() {
    let mut circuit = circuit(&["a", "b", "c", "d"]);
    assert_eq!(circuit.delitem(SliceOrInt::Int(0)), Ok(()));
    assert_eq!(names(&circuit), vec!["b", "c", "d"]);
    assert_eq!(circuit.delitem(SliceOrInt::Slice { start: 0, stop: 3, step: 2 }), Ok(()));
    assert_eq!(names(&circuit), vec!["c"]);
    assert_eq!(circuit.delitem(SliceOrInt::Int(1)), Err(CircuitError::IndexOutOfRange));
}

#[test]
fn set_slice_extended_needs_as_many_values_as_positions() {
    let mut circuit = circuit(&["a", "b", "c", "d", "e"]);
    let done = circuit.set_slice(0, 5, 2, vec![gate("x", &[1], &[]), gate("y", &[2], &[])]);
    assert_eq!(done, Err(CircuitError::LengthMismatch));
    assert_eq!(names(&circuit), vec!["a", "b", "c", "d", "e"]);
    assert_eq!(circuit.intern_context().occupied_slot_count(), 2);
    let done = circuit.set_slice(4, 0, -1, vec![]);
    assert_eq!(done, Err(CircuitError::LengthMismatch));
    assert_eq!(names(&circuit), vec!["a", "b", "c", "d", "e"]);
}

#[test]
fn set_slice_extended_overwrites_position_by_position() {
    let mut circuit = circuit(&["a", "b", "c", "d", "e"]);
    let values = vec![gate("x", &[1], &[]), gate("y", &[2], &[]), gate("z", &[3], &[])];
    assert_eq!(circuit.set_slice(0, 5, 2, values), Ok(()));
    assert_eq!(names(&circuit), vec!["x", "b", "y", "d", "z"]);
    let values = vec![gate("p", &[1], &[]), gate("q", &[2], &[])];
    assert_eq!(circuit.set_slice(3, -1, -2, values), Ok(()));
    assert_eq!(names(&circuit), vec!["x", "q", "y", "p", "z"]);
    assert_eq!(ids(&circuit.get(1).unwrap().qubits), vec![1002]);
}

#[test]
fn set_slice_contiguous_shrinks() {
    let mut circuit = circuit(&["a", "b", "c", "d"]);
    assert_eq!(circuit.set_slice(1, 3, 1, vec![gate("x", &[1], &[])]), Ok(()));
    assert_eq!(names(&circuit), vec!["a", "x", "d"]);
}

#[test]
fn set_slice_contiguous_shrinks_by_more_than_one() {
    let mut circuit = circuit(&["a", "b", "c", "d", "e"]);
    assert_eq!(circuit.set_slice(0, 3, 1, vec![gate("x", &[1], &[])]), Ok(()));
    assert_eq!(names(&circuit), vec!["x", "d", "e"]);
    assert_eq!(circuit.set_slice(0, 3, 1, vec![]), Ok(()));
    assert_eq!(circuit.len(), 0);
}

#[test]
fn set_slice_contiguous_grows() {
    let mut circuit = circuit(&["a", "b", "c"]);
    let values = vec![gate("x", &[1], &[]), gate("y", &[2], &[]), gate("z", &[3], &[])];
    assert_eq!(circuit.set_slice(1, 2, 1, values), Ok(()));
    assert_eq!(names(&circuit), vec!["a", "x", "y", "z", "c"]);
}

#[test]
fn set_slice_contiguous_of_equal_length_overwrites() {
    let mut circuit = circuit(&["a", "b", "c"]);
    let values = vec![gate("x", &[1], &[]), gate("y", &[2], &[])];
    assert_eq!(circuit.set_slice(1, 3, 1, values), Ok(()));
    assert_eq!(names(&circuit), vec!["a", "x", "y"]);
}

#[test]
fn set_slice_on_an_empty_slice_inserts_at_stop() {
    let mut circuit = circuit(&["a", "b", "c"]);
    let values = vec![gate("x", &[1], &[]), gate("y", &[2], &[])];
    assert_eq!(circuit.set_slice(1, 1, 1, values), Ok(()));
    assert_eq!(names(&circuit), vec!["a", "x", "y", "b", "c"]);
    assert_eq!(circuit.set_slice(5, 5, 1, vec![gate("end", &[0], &[])]), Ok(()));
    assert_eq!(names(&circuit), vec!["a", "x", "y", "b", "c", "end"]);
}

#[test]
fn set_slice_rejects_an_index_outside() {
    let mut circuit = circuit(&["a", "b", "c"]);
    let done = circuit.set_slice(2, 5, 1, vec![gate("x", &[1], &[])]);
    assert_eq!(done, Err(CircuitError::IndexOutOfRange));
    assert_eq!(names(&circuit), vec!["a", "b", "c"]);
}

#[test]
fn set_slice_rejects_an_unknown_resource_and_changes_nothing() {
    let mut circuit = circuit(&["a", "b", "c"]);
    let values = vec![gate("x", &[1], &[]), gate("y", &[8], &[])];
    assert_eq!(circuit.set_slice(0, 2, 1, values), Err(CircuitError::UnknownResource));
    assert_eq!(names(&circuit), vec!["a", "b", "c"]);
    assert_eq!(circuit.intern_context().occupied_slot_count(), 2);
}

#[test]
fn extend_appends_in_order() {
    let mut circuit = circuit(&["a"]);
    let values = vec![gate("b", &[1], &[]), gate("c", &[2], &[0]), gate("d", &[1], &[])];
    assert_eq!(circuit.extend(values), Ok(()));
    assert_eq!(names(&circuit), vec!["a", "b", "c", "d"]);
    assert_eq!(circuit.extend(vec![]), Ok(()));
    assert_eq!(circuit.len(), 4);
}

#[test]
fn extend_stops_at_an_unknown_resource() {
    let mut circuit = circuit(&["a"]);
    let values = vec![gate("b", &[1], &[]), gate("c", &[6], &[]), gate("d", &[1], &[])];
    assert_eq!(circuit.extend(values), Err(CircuitError::UnknownResource));
    assert_eq!(names(&circuit), vec!["a", "b"]);
    // [0], [1] and the empty list
    assert_eq!(circuit.intern_context().occupied_slot_count(), 3);
    assert_eq!(ids(&circuit.get(1).unwrap().qubits), vec![1001]);
}

#[test]
fn extend_that_fails_at_once_stores_nothing() {
    let mut circuit = circuit(&["a"]);
    let values = vec![gate("c", &[0], &[6]), gate("d", &[1], &[])];
    assert_eq!(circuit.extend(values), Err(CircuitError::UnknownResource));
    assert_eq!(names(&circuit), vec!["a"]);
    assert_eq!(circuit.intern_context().occupied_slot_count(), 2);
}

#[test]
fn new_fails_with_the_error_of_the_first_refused_instruction() {
    let made = CircuitData::new(
        Some(vec![qubit(0)]),
        Some(vec![clbit(0)]),
        Some(vec![gate("h", &[0], &[0]), gate("x", &[0], &[3]), gate("y", &[2], &[])]),
        0,
    );
    assert!(matches!(made, Err(CircuitError::UnknownResource)));
}

#[test]
fn a_shared_list_keeps_its_handle_until_its_last_user_goes() {
    let mut circuit = circuit(&[]);
    circuit.append(gate("filler", &[3], &[])).unwrap();
    circuit.append(gate("a", &[0, 1], &[])).unwrap();
    circuit.append(gate("b", &[0, 1], &[])).unwrap();
    let shared = (0..4)
        .find(|h| circuit.intern_context().try_lookup(*h) == Ok(&vec![0, 1]))
        .unwrap();
    circuit.delete(1).unwrap();
    assert_eq!(circuit.intern_context().try_lookup(shared), Ok(&vec![0, 1]));
    assert_eq!(ids(&circuit.get(1).unwrap().qubits), vec![1000, 1001]);
    circuit.delete(1).unwrap();
    assert_eq!(circuit.intern_context().try_lookup(shared), Err(CircuitError::InvalidHandle));
    assert_eq!(circuit.intern_context().occupied_slot_count(), 2);
}

#[test]
fn clear_removes_instructions_and_keeps_resources() {
    let mut circuit = circuit(&["a", "b"]);
    circuit.clear();
    assert_eq!(circuit.len(), 0);
    assert_eq!(circuit.qubits().len(), 4);
    assert_eq!(circuit.intern_context().occupied_slot_count(), 0);
    assert_eq!(circuit.append(gate("x", &[3], &[1])), Ok(()));
    assert_eq!(names(&circuit), vec!["x"]);
}

#[test]
fn reserve_changes_nothing() {
    let mut circuit = circuit(&["a", "b"]);
    circuit.reserve(100);
    circuit.reserve(usize::MAX);
    assert_eq!(names(&circuit), vec!["a", "b"]);
}

#[test]
fn copy_is_independent() {
    let mut first = circuit(&["a", "b"]);
    let mut copy = first.copy();
    assert!(copy.equals(&first));
    copy.append(gate("c", &[1], &[])).unwrap();
    copy.delete(0).unwrap();
    copy.add_qubit(qubit(9)).unwrap();
    first.set(0, gate("z", &[2], &[])).unwrap();
    assert_eq!(names(&first), vec!["z", "b"]);
    assert_eq!(names(&copy), vec!["b", "c"]);
    assert_eq!(first.qubits().len(), 4);
    assert_eq!(copy.qubits().len(), 5);
    assert!(!copy.equals(&first));
}

#[test]
fn equal_lists_are_stored_once() {
    let mut circuit = circuit(&[]);
    circuit.append(gate("a", &[0, 1], &[0])).unwrap();
    circuit.append(gate("b", &[0, 1], &[0])).unwrap();
    circuit.append(gate("c", &[1, 0], &[])).unwrap();
    circuit.append(gate("d", &[0], &[0])).unwrap();
    // [0, 1], [0], [1, 0] and the empty list
    assert_eq!(circuit.intern_context().occupied_slot_count(), 4);
    circuit.delete(2).unwrap();
    // [0, 1] and [0]
    assert_eq!(circuit.intern_context().occupied_slot_count(), 2);
    circuit.set(0, gate("e", &[3], &[1])).unwrap();
    // [0, 1], [0], [3] and [1]
    assert_eq!(circuit.intern_context().occupied_slot_count(), 4);
    circuit.delete_slice(0, 3, 1).unwrap();
    assert_eq!(circuit.len(), 0);
    assert_eq!(circuit.intern_context().occupied_slot_count(), 0);
}

#[test]
fn a_list_shared_by_both_domains_is_stored_once() {
    let mut circuit = circuit(&[]);
    circuit.append(gate("a", &[1], &[1])).unwrap();
    assert_eq!(circuit.intern_context().occupied_slot_count(), 1);
    let found = circuit.get(0).unwrap();
    assert_eq!(ids(&found.qubits), vec![1001]);
    assert_eq!(ids(&found.clbits), vec![2001]);
    circuit.pop(None).unwrap();
    assert_eq!(circuit.intern_context().occupied_slot_count(), 0);
}

#[test]
fn equals_compares_what_is_shown() {
    let mut left = circuit(&["a", "b"]);
    let mut right = circuit(&["x", "a", "b"]);
    assert!(!left.equals(&right));
    right.delete(0).unwrap();
    // the handles differ by now, the instructions do not
    assert!(left.equals(&right));
    assert!(right.equals(&left));
    left.set(1, gate("b", &[1], &[])).unwrap();
    assert!(!left.equals(&right));
    right.set(1, gate("b", &[1], &[])).unwrap();
    assert!(left.equals(&right));
    right.set(0, gate("a", &[0], &[0])).unwrap();
    assert!(!left.equals(&right));
    right.set(0, gate("c", &[0], &[])).unwrap();
    assert!(!left.equals(&right));
}

#[test]
fn equals_goes_by_resources_not_by_indices() {
    let left: CircuitData<String> = CircuitData::new(
        Some(vec![qubit(0), qubit(1)]),
        None,
        Some(vec![gate("x", &[1], &[])]),
        0,
    )
    .unwrap();
    let right: CircuitData<String> = CircuitData::new(
        Some(vec![qubit(1), qubit(0)]),
        None,
        Some(vec![gate("x", &[1], &[])]),
        0,
    )
    .unwrap();
    let other: CircuitData<String> = CircuitData::new(
        Some(vec![qubit(1), qubit(0)]),
        None,
        Some(vec![gate("x", &[0], &[])]),
        0,
    )
    .unwrap();
    assert!(left.equals(&right));
    assert!(!left.equals(&other));
}

#[test]
fn what_a_sequence_shows_can_be_stored_again() {
    let mut source = circuit(&["a", "b", "c"]);
    source.append(gate("cx", &[0, 1], &[])).unwrap();
    source.append(gate("measure", &[1], &[0])).unwrap();
    source.delete(1).unwrap();
    let len = source.len() as isize;
    let shown = source.get_slice(0, len, 1).unwrap();
    let mut target: CircuitData<String> = CircuitData::new(
        Some((0..4).map(qubit).collect()),
        Some((0..2).map(clbit).collect()),
        None,
        0,
    )
    .unwrap();
    assert_eq!(target.extend(shown), Ok(()));
    assert!(target.equals(&source));
    assert_eq!(names(&target), vec!["a", "c", "cx", "measure"]);
    assert_eq!(
        target.intern_context().occupied_slot_count(),
        source.intern_context().occupied_slot_count()
    );
}

#[test]
fn operation_gives_the_stored_operation() {
    let circuit = circuit(&["a", "b"]);
    assert_eq!(circuit.operation(0), Some(&"a".to_string()));
    assert_eq!(circuit.operation(1), Some(&"b".to_string()));
    assert_eq!(circuit.operation(2), None);
}

#[test]
fn equals_needs_the_same_length() {
    let left = circuit(&["a", "b"]);
    let right = circuit(&["a", "b", "c"]);
    assert!(!left.equals(&right));
    assert!(!right.equals(&left));
    assert!(left.equals(&left));
}

#[test]
fn lists_in_use_keep_their_slot_when_others_go() {
    let mut circuit = circuit(&[]);
    circuit.append(gate("a", &[0, 1], &[])).unwrap();
    circuit.append(gate("b", &[0, 1], &[])).unwrap();
    circuit.append(gate("c", &[0, 1], &[])).unwrap();
    // [0, 1] and the empty list
    assert_eq!(circuit.intern_context().occupied_slot_count(), 2);
    circuit.delete(0).unwrap();
    circuit.delete(0).unwrap();
    assert_eq!(circuit.intern_context().occupied_slot_count(), 2);
    assert_eq!(ids(&circuit.get(0).unwrap().qubits), vec![1000, 1001]);
    circuit.delete(0).unwrap();
    assert_eq!(circuit.intern_context().occupied_slot_count(), 0);
    assert_eq!(circuit.intern_context().free_slot_count(), 2);
}
