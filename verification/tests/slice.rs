use circuit_data::error::CircuitError;
use circuit_data::slice::{clamped_index, normalize_index, slice_length, slice_to_positions};

#[test]
fn normalize_index_counts_negative_from_the_end() {
    assert_eq!(normalize_index(0, 5), Ok(0));
    assert_eq!(normalize_index(4, 5), Ok(4));
    assert_eq!(normalize_index(-1, 5), Ok(4));
    assert_eq!(normalize_index(-5, 5), Ok(0));
}

#[test]
fn normalize_index_rejects_what_lies_outside() {
    assert_eq!(normalize_index(5, 5), Err(CircuitError::IndexOutOfRange));
    assert_eq!(normalize_index(-6, 5), Err(CircuitError::IndexOutOfRange));
    assert_eq!(normalize_index(0, 0), Err(CircuitError::IndexOutOfRange));
    assert_eq!(normalize_index(-1, 0), Err(CircuitError::IndexOutOfRange));
    assert_eq!(normalize_index(isize::MAX, 3), Err(CircuitError::IndexOutOfRange));
    assert_eq!(normalize_index(isize::MIN, 3), Err(CircuitError::IndexOutOfRange));
}

#[test]
fn clamped_index_brings_every_index_into_range() {
    assert_eq!(clamped_index(0, 4), 0);
    assert_eq!(clamped_index(2, 4), 2);
    assert_eq!(clamped_index(4, 4), 4);
    assert_eq!(clamped_index(9, 4), 4);
    assert_eq!(clamped_index(-1, 4), 3);
    assert_eq!(clamped_index(-4, 4), 0);
    assert_eq!(clamped_index(-9, 4), 0);
    assert_eq!(clamped_index(isize::MAX, 0), 0);
    assert_eq!(clamped_index(isize::MIN, 0), 0);
}

#[test]
fn slice_length_counts_the_selected_indices() {
    assert_eq!(slice_length(0, 5, 1), 5);
    assert_eq!(slice_length(0, 5, 2), 3);
    assert_eq!(slice_length(0, 10, 3), 4);
    assert_eq!(slice_length(1, 4, 1), 3);
    assert_eq!(slice_length(4, -1, -1), 5);
    assert_eq!(slice_length(10, 0, -3), 4);
    assert_eq!(slice_length(5, 0, 1), 0);
    assert_eq!(slice_length(0, 5, -1), 0);
    assert_eq!(slice_length(3, 3, 1), 0);
    assert_eq!(slice_length(0, 5, 0), 0);
    assert_eq!(slice_length(0, 5, 7), 1);
    assert_eq!(slice_length(isize::MIN, isize::MAX, 1), usize::MAX);
    assert_eq!(slice_length(isize::MAX, isize::MIN, -1), usize::MAX);
    assert_eq!(slice_length(isize::MIN, isize::MAX, isize::MAX), 3);
}

#[test]
fn slice_to_positions_follows_the_step() {
    assert_eq!(slice_to_positions(0, 5, 2, 5), Ok(vec![0, 2, 4]));
    assert_eq!(slice_to_positions(1, 4, 1, 5), Ok(vec![1, 2, 3]));
    assert_eq!(slice_to_positions(4, -1, -1, 5), Ok(vec![4, 3, 2, 1, 0]));
    assert_eq!(slice_to_positions(4, 0, -2, 5), Ok(vec![4, 2]));
    assert_eq!(slice_to_positions(3, 3, 1, 5), Ok(vec![]));
    assert_eq!(slice_to_positions(0, 5, 0, 5), Ok(vec![]));
    assert_eq!(slice_to_positions(9, 2, 1, 5), Ok(vec![]));
}

#[test]
fn slice_to_positions_counts_negative_indices_from_the_end() {
    assert_eq!(slice_to_positions(-2, 0, 1, 5), Ok(vec![3, 4]));
    assert_eq!(slice_to_positions(-1, -4, -1, 5), Ok(vec![4, 3, 2]));
}

#[test]
fn slice_to_positions_rejects_an_index_outside() {
    assert_eq!(slice_to_positions(0, 6, 1, 5), Err(CircuitError::IndexOutOfRange));
    assert_eq!(slice_to_positions(3, 9, 2, 5), Err(CircuitError::IndexOutOfRange));
    assert_eq!(slice_to_positions(4, -7, -1, 5), Err(CircuitError::IndexOutOfRange));
    assert_eq!(slice_to_positions(0, 1, 1, 0), Err(CircuitError::IndexOutOfRange));
    assert_eq!(
        slice_to_positions(isize::MIN, isize::MAX, 1, 5),
        Err(CircuitError::IndexOutOfRange)
    );
}
