use pyo3_commonize::registry::{
    registry_action, unify, DescriptorCell, DescriptorHandle, RegistryAction, SharedSlot, UnifyError, UnifyOutcome,
};

fn h(id: u64) -> DescriptorHandle {
    DescriptorHandle { id }
}

#[test]
fn shared_type_resolves_to_first_descriptor() {
    let tag: u64 = 0x5151;
    let mut slot = SharedSlot::new();
    let mut cell_a = DescriptorCell::new();
    let r_a = unify(&mut slot, &mut cell_a, tag, h(1));
    assert_eq!(r_a, Ok(UnifyOutcome::FirstWriter(h(1))));
    assert_eq!(slot.lookup(tag), Some(h(1)));
    let mut cell_b = DescriptorCell::new();
    assert!(cell_b.try_initialize(h(2)));
    cell_b.attach_auxiliary(7);
    let r_b = unify(&mut slot, &mut cell_b, tag, h(2));
    assert_eq!(r_b, Ok(UnifyOutcome::Reused(h(1))));
    assert_eq!(slot.lookup(tag), Some(h(1)));
    assert_eq!(cell_b.descriptor(), Some(h(1)));
    assert_eq!(cell_a.descriptor(), cell_b.descriptor());
}

#[test]
fn many_modules_share_one_descriptor() {
    let tag: u64 = 42;
    let mut slot = SharedSlot::new();
    let mut outcomes = Vec::new();
    for i in 0..5u64 {
        let mut cell = DescriptorCell::new();
        let r = unify(&mut slot, &mut cell, tag, h(100 + i));
        outcomes.push(r.unwrap().handle());
        assert_eq!(cell.descriptor(), Some(h(100)));
    }
    assert!(outcomes.iter().all(|d| *d == h(100)));
    assert_eq!(slot.lookup(tag), Some(h(100)));
}

#[test]
fn second_unify_is_idempotent() {
    let mut slot = SharedSlot::new();
    let mut cell = DescriptorCell::new();
    let first = unify(&mut slot, &mut cell, 9, h(3)).unwrap();
    assert_eq!(first, UnifyOutcome::FirstWriter(h(3)));
    let exposed = cell.get_or_init(h(4));
    assert_eq!(exposed, h(3));
    let second = unify(&mut slot, &mut cell, 9, h(5));
    assert_eq!(second, Ok(UnifyOutcome::Reused(h(3))));
    assert_eq!(slot.lookup(9), Some(h(3)));
    assert_eq!(cell.descriptor(), Some(h(3)));
}

#[test]
fn distinct_tags_keep_their_own_descriptors() {
    let mut slot = SharedSlot::new();
    let mut cell_a = DescriptorCell::new();
    let mut cell_b = DescriptorCell::new();
    assert_eq!(unify(&mut slot, &mut cell_a, 1, h(10)), Ok(UnifyOutcome::FirstWriter(h(10))));
    assert_eq!(unify(&mut slot, &mut cell_b, 2, h(20)), Ok(UnifyOutcome::FirstWriter(h(20))));
    assert_eq!(slot.lookup(1), Some(h(10)));
    assert_eq!(slot.lookup(2), Some(h(20)));
    assert_eq!(cell_b.descriptor(), Some(h(20)));
}

#[test]
fn rebinding_an_exposed_descriptor_is_refused() {
    let mut slot = SharedSlot::new();
    let mut cell_a = DescriptorCell::new();
    unify(&mut slot, &mut cell_a, 7, h(1)).unwrap();
    let mut cell_b = DescriptorCell::new();
    assert_eq!(cell_b.get_or_init(h(2)), h(2));
    let r = unify(&mut slot, &mut cell_b, 7, h(2));
    assert_eq!(r, Err(UnifyError::DescriptorAlreadyExposed));
    assert_eq!(cell_b.descriptor(), Some(h(2)));
    assert_eq!(slot.lookup(7), Some(h(1)));
}

#[test]
fn first_writer_keeps_descriptor_already_in_cell() {
    let mut slot = SharedSlot::new();
    let mut cell = DescriptorCell::new();
    assert!(cell.try_initialize(h(8)));
    assert!(!cell.try_initialize(h(9)));
    assert_eq!(unify(&mut slot, &mut cell, 3, h(9)), Ok(UnifyOutcome::FirstWriter(h(8))));
    assert_eq!(slot.lookup(3), Some(h(8)));
}

#[test]
fn force_rebind_overwrites_and_clears() {
    let mut cell = DescriptorCell::new();
    assert_eq!(cell.descriptor(), None);
    cell.try_initialize(h(1));
    cell.attach_auxiliary(5);
    cell.force_rebind(h(2));
    assert_eq!(cell.descriptor(), Some(h(2)));
}

#[test]
fn empty_slot_has_no_entry() {
    let slot = SharedSlot::new();
    assert_eq!(slot.lookup(0), None);
}

#[test]
fn decision_step_actions() {
    assert_eq!(registry_action(None, None, false), RegistryAction::Register);
    assert_eq!(registry_action(None, Some(h(1)), true), RegistryAction::Register);
    assert_eq!(registry_action(Some(h(1)), Some(h(1)), true), RegistryAction::Keep(h(1)));
    assert_eq!(registry_action(Some(h(1)), Some(h(2)), true), RegistryAction::Refuse);
    assert_eq!(registry_action(Some(h(1)), Some(h(2)), false), RegistryAction::Rebind(h(1)));
    assert_eq!(registry_action(Some(h(1)), None, false), RegistryAction::Rebind(h(1)));
}
