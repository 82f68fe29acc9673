use circuit_data::error::CircuitError;
use circuit_data::intern_context::InternContext;

#[test]
fn intern_existing() {
    let mut context = InternContext::new();
    let slot_idx = context.intern(vec![1, 2, 3]).unwrap();
    assert_eq!(slot_idx, context.intern(vec![1, 2, 3]).unwrap());
    assert!(context.free_slot_count() == 0);

    let interned_args = context.lookup(slot_idx);
    assert_eq!(interned_args, &vec![1, 2, 3]);
}

#[test]
fn slot_reused() {
    let mut context = InternContext::new();
    let slot_idx_0 = context.intern(vec![1, 2, 3]).unwrap();
    let slot_idx_1 = context.intern(vec![4, 5, 6]).unwrap();
    assert_ne!(slot_idx_0, slot_idx_1);

    context.drop_use(slot_idx_0);
    assert_eq!(slot_idx_0, context.intern(vec![7, 8, 9]).unwrap());
}

#[test]
fn new_handles_count_up_from_zero() {
    let mut context = InternContext::new();
    assert_eq!(context.intern(vec![0]), Some(0));
    assert_eq!(context.intern(vec![1]), Some(1));
    assert_eq!(context.intern(vec![]), Some(2));
    assert_eq!(context.intern(vec![1, 0]), Some(3));
    assert_eq!(context.intern(vec![0, 1]), Some(4));
    assert_eq!(context.occupied_slot_count(), 5);
}

#[test]
fn equal_lists_share_a_handle() {
    let mut context = InternContext::new();
    let first = context.intern(vec![5, 5, 2]).unwrap();
    let other = context.intern(vec![2, 5, 5]).unwrap();
    let again = context.intern(vec![5, 5, 2]).unwrap();
    assert_eq!(first, again);
    assert_ne!(first, other);
    assert_eq!(context.occupied_slot_count(), 2);
    assert_eq!(context.lookup(first), &vec![5, 5, 2]);
    assert_eq!(context.lookup(other), &vec![2, 5, 5]);
}

#[test]
fn slot_stays_until_last_use_is_given_up() {
    let mut context = InternContext::new();
    let filler = context.intern(vec![9]).unwrap();
    let handle = context.intern(vec![1, 2]).unwrap();
    assert_eq!(context.intern(vec![1, 2]), Some(handle));
    assert_eq!(context.intern(vec![1, 2]), Some(handle));

    context.drop_use(handle);
    assert_eq!(context.lookup(handle), &vec![1, 2]);
    context.drop_use(handle);
    assert_eq!(context.lookup(handle), &vec![1, 2]);
    assert_eq!(context.free_slot_count(), 0);
    assert_eq!(context.occupied_slot_count(), 2);

    context.drop_use(handle);
    assert_eq!(context.try_lookup(handle), Err(CircuitError::InvalidHandle));
    assert_eq!(context.free_slot_count(), 1);
    assert_eq!(context.occupied_slot_count(), 1);

    assert_eq!(context.intern(vec![3, 4]), Some(handle));
    assert_eq!(context.lookup(handle), &vec![3, 4]);
    assert_eq!(context.lookup(filler), &vec![9]);
}

#[test]
fn freed_handles_are_reused_oldest_first() {
    let mut context = InternContext::new();
    let a = context.intern(vec![1]).unwrap();
    let b = context.intern(vec![2]).unwrap();
    let c = context.intern(vec![3]).unwrap();
    context.drop_use(b);
    context.drop_use(a);
    context.drop_use(c);
    assert_eq!(context.free_slot_count(), 3);
    assert_eq!(context.intern(vec![10]), Some(b));
    assert_eq!(context.intern(vec![11]), Some(a));
    assert_eq!(context.intern(vec![12]), Some(c));
    assert_eq!(context.intern(vec![13]), Some(3));
}

#[test]
fn interning_a_held_list_takes_no_free_slot() {
    let mut context = InternContext::new();
    let a = context.intern(vec![1]).unwrap();
    let b = context.intern(vec![2]).unwrap();
    context.drop_use(a);
    assert_eq!(context.intern(vec![2]), Some(b));
    assert_eq!(context.free_slot_count(), 1);
    assert_eq!(context.intern(vec![1]), Some(a));
    assert_eq!(context.free_slot_count(), 0);
}

#[test]
fn try_lookup_reports_invalid_handle() {
    let mut context = InternContext::new();
    assert_eq!(context.try_lookup(0), Err(CircuitError::InvalidHandle));
    let handle = context.intern(vec![4, 2]).unwrap();
    assert_eq!(context.try_lookup(handle), Ok(&vec![4, 2]));
    assert_eq!(context.try_lookup(handle + 1), Err(CircuitError::InvalidHandle));
    context.drop_use(handle);
    assert_eq!(context.try_lookup(handle), Err(CircuitError::InvalidHandle));
}

#[test]
fn release_reports_invalid_handle() {
    let mut context = InternContext::new();
    assert_eq!(context.release(7), Err(CircuitError::InvalidHandle));
    let handle = context.intern(vec![1]).unwrap();
    assert_eq!(context.release(handle), Ok(()));
    assert_eq!(context.release(handle), Err(CircuitError::InvalidHandle));
    assert_eq!(context.free_slot_count(), 1);
}

#[test]
fn clone_has_a_pool_of_its_own() {
    let mut context = InternContext::new();
    let a = context.intern(vec![1, 1]).unwrap();
    let b = context.intern(vec![2]).unwrap();
    context.drop_use(b);
    let mut copy = context.clone();
    assert_eq!(copy.lookup(a), &vec![1, 1]);
    assert_eq!(copy.free_slot_count(), 1);
    assert_eq!(copy.intern(vec![1, 1]), Some(a));

    copy.drop_use(a);
    copy.drop_use(a);
    assert_eq!(copy.try_lookup(a), Err(CircuitError::InvalidHandle));
    assert_eq!(context.lookup(a), &vec![1, 1]);
    assert_eq!(context.intern(vec![3]), Some(b));
    assert_eq!(copy.intern(vec![4]), Some(b));
    assert_eq!(context.lookup(b), &vec![3]);
    assert_eq!(copy.lookup(b), &vec![4]);
}

#[test]
fn default_is_an_empty_pool() {
    let mut context = InternContext::default();
    assert_eq!(context.occupied_slot_count(), 0);
    assert_eq!(context.free_slot_count(), 0);
    assert_eq!(context.intern(vec![8]), Some(0));
}
