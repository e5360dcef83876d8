use core_lease::{
    bind_to_cpu_set, current_affinity, to_cpu_set, CoreAllocator, CoreError, CpuSet,
    GroupedAllocator, ManagedCore, NoAllocator,
};

/// A CPU this thread is currently allowed to run on: binding to it cannot
/// be refused by the OS.
fn usable_cpu() -> usize {
    let mask = current_affinity().unwrap();
    let mut i: usize = 0;
    while i < CpuSet::count() {
        if mask.is_set(i) == Some(true) {
            return i;
        }
        i += 1;
    }
    panic!("no usable cpu in the current affinity mask");
}

#[test]
fn to_cpu_set_selects_exactly_the_listed_cores() {
    let one = to_cpu_set(&vec![3]);
    assert_eq!(one.is_set(3), Some(true));
    assert_eq!(one.is_set(4), Some(false));
    let two = to_cpu_set(&vec![1, 5]);
    assert_eq!(two.is_set(1), Some(true));
    assert_eq!(two.is_set(5), Some(true));
    assert_eq!(two.is_set(0), Some(false));
}

#[test]
fn to_cpu_set_of_nothing_selects_every_cpu() {
    let all = to_cpu_set(&vec![]);
    assert_eq!(all.is_set(0), Some(true));
    assert_eq!(all.is_set(17), Some(true));
    assert_eq!(all.is_set(CpuSet::count() - 1), Some(true));
}

#[test]
fn empty_mask_cannot_be_installed() {
    let r = bind_to_cpu_set(CpuSet::new());
    assert!(matches!(r, Err(CoreError::AffinityFailure(_))));
}

#[test]
fn bind_and_restore_round_trip() {
    let target = usable_cpu();
    let mut reg = GroupedAllocator::new();
    reg.add_group(vec![ManagedCore::new(target)]);
    let lease = reg.allocate_core().unwrap();

    let before = current_affinity().unwrap();
    let guard = lease.bind_nth(&mut reg, 0).unwrap();
    let during = current_affinity().unwrap();
    assert_eq!(during, to_cpu_set(&vec![target]));
    guard.restore(&mut reg);
    let after = current_affinity().unwrap();
    assert_eq!(after, before);
}

#[test]
fn restore_frees_the_core_for_binding_again() {
    let target = usable_cpu();
    let before = current_affinity().unwrap();
    let mut reg = GroupedAllocator::new();
    reg.add_group(vec![ManagedCore::new(target)]);
    let lease = reg.allocate_core().unwrap();
    let guard = lease.bind_nth(&mut reg, 0).unwrap();
    guard.restore(&mut reg);
    let guard2 = lease.bind_nth(&mut reg, 0).unwrap();
    guard2.restore(&mut reg);
    let _ = bind_to_cpu_set(before);
}

#[test]
fn binding_the_same_core_twice_fails_with_already_bound() {
    let target = usable_cpu();
    let mut reg = GroupedAllocator::new();
    reg.add_group(vec![ManagedCore::new(target)]);
    reg.add_group(vec![ManagedCore::new(target)]);
    let lease0 = reg.allocate_core().unwrap();
    let lease1 = reg.allocate_core().unwrap();
    let guard = lease0.bind_nth(&mut reg, 0).unwrap();
    let second = lease1.bind_nth(&mut reg, 0);
    assert!(matches!(second, Err(CoreError::AlreadyBound)));
    guard.restore(&mut reg);
}

#[test]
fn out_of_range_index_fails_without_touching_affinity() {
    let target = usable_cpu();
    let mut reg = GroupedAllocator::new();
    reg.add_group(vec![ManagedCore::new(target)]);
    let lease = reg.allocate_core().unwrap();
    let before = current_affinity().unwrap();
    let r = lease.bind_nth(&mut reg, 1);
    assert!(matches!(r, Err(CoreError::IndexOutOfRange)));
    let r2 = lease.bind_nth(&mut reg, 99);
    assert!(matches!(r2, Err(CoreError::IndexOutOfRange)));
    let after = current_affinity().unwrap();
    assert_eq!(after, before);
}

#[test]
fn detach_leaves_affinity_bound_and_occupancy_claimed() {
    let target = usable_cpu();
    let before = current_affinity().unwrap();
    let mut reg = GroupedAllocator::new();
    reg.add_group(vec![ManagedCore::new(target)]);
    let lease = reg.allocate_core().unwrap();
    let guard = lease.bind_nth(&mut reg, 0).unwrap();
    guard.detach();
    let after = current_affinity().unwrap();
    assert_eq!(after, to_cpu_set(&vec![target]));
    // the occupancy claim was never released: binding fails from now on
    assert!(matches!(lease.bind_nth(&mut reg, 0), Err(CoreError::AlreadyBound)));
    let _ = bind_to_cpu_set(before);
}

#[test]
fn inert_lease_binds_as_a_no_op() {
    let mut a = NoAllocator;
    let lease = a.allocate_core().unwrap();
    let mut reg = GroupedAllocator::new();
    let before = current_affinity().unwrap();
    let guard = lease.bind_nth(&mut reg, 0).unwrap();
    guard.restore(&mut reg);
    let after = current_affinity().unwrap();
    assert_eq!(after, before);
}

#[test]
fn detached_core_binds_and_conflicts_with_itself() {
    let target = usable_cpu();
    let before = current_affinity().unwrap();
    let mut core = ManagedCore::new(target);
    let guard = core.bind().unwrap();
    assert!(core.is_occupied());
    assert!(matches!(core.bind(), Err(CoreError::AlreadyBound)));
    // restoring through an empty registry restores the mask only
    let mut reg = GroupedAllocator::new();
    guard.restore(&mut reg);
    let after = current_affinity().unwrap();
    assert_eq!(after, before);
}
