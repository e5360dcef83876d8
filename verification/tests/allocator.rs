use core_lease::{
    Cleanup, CoreAllocator, CoreError, CoreGroup, CpuSet, GroupedAllocator,
    HierarchicalAllocator, HierarchyLevel, ManagedCore, NoAllocator, Resource,
    SequentialAllocator, Topology, TopologyUnit, CPU_SET_CAPACITY,
};

#[test]
fn resource_exclusive_claim() {
    let mut r = Resource::new();
    assert!(!r.is_taken());
    let h = r.try_lock().unwrap();
    assert!(r.is_taken());
    assert!(matches!(r.try_lock(), Err(CoreError::WouldBlock)));
    r.release(h);
    assert!(!r.is_taken());
    let h2 = r.try_lock().unwrap();
    r.release(h2);
}

#[test]
fn cpuset_set_and_query() {
    let mut m = CpuSet::new();
    assert_eq!(CpuSet::count(), CPU_SET_CAPACITY);
    assert_eq!(m.is_set(0), Some(false));
    assert_eq!(m.set(0), Some(()));
    assert_eq!(m.is_set(0), Some(true));
    assert_eq!(m.set(CPU_SET_CAPACITY), None);
    assert_eq!(m.is_set(CPU_SET_CAPACITY), None);
    let empty = CpuSet::new();
    assert!(m != empty);
    let mut m2 = CpuSet::new();
    m2.set(0);
    assert!(m == m2);
}

#[test]
fn managed_core_reserve_is_permanent() {
    let mut c = ManagedCore::new(7);
    assert_eq!(c.get_raw(), 7);
    assert!(!c.is_occupied());
    let d = c.reserve().unwrap();
    assert_eq!(d.get_raw(), 7);
    assert!(!d.is_occupied());
    assert!(c.is_occupied());
    assert!(matches!(c.reserve(), Err(CoreError::AlreadyBound)));
}

#[test]
fn no_allocator_always_hands_out_inert_lease() {
    let mut a = NoAllocator;
    let lease = a.allocate_core().unwrap();
    assert!(lease.get_cores().is_none());
    let mut reg = GroupedAllocator::new();
    assert!(lease.reserve(&mut reg).is_empty());
}

#[test]
fn sequential_range_of_8_width_2_gives_4_groups_in_order() {
    let mut reg = SequentialAllocator::new_range(0..8, 2);
    let expected = [vec![0usize, 1], vec![2, 3], vec![4, 5], vec![6, 7]];
    for want in expected.iter() {
        let lease = reg.allocate_core().unwrap();
        assert_eq!(&lease.get_cores().unwrap(), want);
    }
    assert!(reg.allocate_core().is_none());
}

#[test]
fn sequential_range_drops_trailing_remainder() {
    let mut reg = SequentialAllocator::new_range(0..5, 2);
    assert_eq!(reg.allocate_core().unwrap().get_cores().unwrap(), vec![0, 1]);
    assert_eq!(reg.allocate_core().unwrap().get_cores().unwrap(), vec![2, 3]);
    assert!(reg.allocate_core().is_none());
}

#[test]
fn sequential_zero_width_gives_no_groups() {
    let mut reg = SequentialAllocator::new_range(0..8, 0);
    assert!(reg.allocate_core().is_none());
}

#[test]
fn exhausted_registry_returns_nothing_until_release() {
    let mut reg = SequentialAllocator::new_range(0..4, 2);
    let l1 = reg.allocate_core().unwrap();
    let l2 = reg.allocate_core().unwrap();
    assert!(reg.allocate_core().is_none());
    l2.release(&mut reg);
    let l3 = reg.allocate_core().unwrap();
    assert_eq!(l3.get_cores().unwrap(), vec![2, 3]);
    l3.release(&mut reg);
    l1.release(&mut reg);
}

#[test]
fn claim_release_claim_returns_same_group() {
    let mut reg = SequentialAllocator::new_range(0..8, 2);
    let a = reg.allocate_core().unwrap();
    let cores_a = a.get_cores().unwrap();
    let b = reg.allocate_core().unwrap();
    let cores_b = b.get_cores().unwrap();
    assert_ne!(cores_a, cores_b);
    a.release(&mut reg);
    let c = reg.allocate_core().unwrap();
    assert_eq!(c.get_cores().unwrap(), cores_a);
    c.release(&mut reg);
    b.release(&mut reg);
}

#[test]
fn filter_group_drops_groups_with_rejected_core() {
    let mut reg = GroupedAllocator::new();
    reg.add_group(vec![ManagedCore::new(0), ManagedCore::new(1)]);
    reg.add_group(vec![ManagedCore::new(2), ManagedCore::new(3)]);
    let _ = reg.filter_group(|c: &ManagedCore| c.get_raw() < 2);
    let lease = reg.allocate_core().unwrap();
    assert_eq!(lease.get_cores().unwrap(), vec![0, 1]);
    assert!(reg.allocate_core().is_none());
}

#[test]
fn filter_group_keeps_groups_whose_cores_all_pass() {
    let mut reg = GroupedAllocator::new();
    reg.add_group(vec![ManagedCore::new(0), ManagedCore::new(1)]);
    reg.add_group(vec![ManagedCore::new(2), ManagedCore::new(3)]);
    let _ = reg.filter_group(|_c: &ManagedCore| true);
    assert_eq!(reg.allocate_core().unwrap().get_cores().unwrap(), vec![0, 1]);
    assert_eq!(reg.allocate_core().unwrap().get_cores().unwrap(), vec![2, 3]);
}

#[test]
fn lease_handles_can_be_assembled_from_a_claim() {
    let mut r = Resource::new();
    let h = r.try_lock().unwrap();
    let lease = CoreGroup::cores(h, 0, vec![40, 41]);
    assert_eq!(lease.get_cores().unwrap(), vec![40, 41]);
    let mut reg = GroupedAllocator::new();
    // an empty registry has no group to give back: releasing is a no-op
    lease.release(&mut reg);
}

#[test]
fn inert_guard_restores_and_detaches_as_a_no_op() {
    let mut reg = GroupedAllocator::new();
    Cleanup::new(None, None, None).restore(&mut reg);
    Cleanup::new(None, None, None).detach();
}

#[test]
fn reserve_converts_lease_into_detached_claims() {
    let mut reg = GroupedAllocator::new();
    reg.add_group(vec![ManagedCore::new(100), ManagedCore::new(101)]);
    let lease = reg.allocate_core().unwrap();
    let cores = lease.reserve(&mut reg);
    assert_eq!(cores.len(), 2);
    assert_eq!(cores[0].get_raw(), 100);
    assert_eq!(cores[1].get_raw(), 101);
    assert!(!cores[0].is_occupied());
    // occupancy in the registry is claimed for good: binding now fails
    assert!(matches!(lease.bind_nth(&mut reg, 0), Err(CoreError::AlreadyBound)));
}

#[test]
fn hierarchical_llc_splits_units_into_halves() {
    let topo = Topology {
        packages: vec![vec![0, 1, 2, 3]],
        units: vec![TopologyUnit {
            cpuset: vec![0, 1, 2, 3],
            children: vec![vec![0, 2], vec![1, 3]],
        }],
    };
    let mut reg = HierarchicalAllocator::new_at_depth(HierarchyLevel::LastLevelCache)
        .finish(&topo)
        .unwrap();
    assert_eq!(reg.allocate_core().unwrap().get_cores().unwrap(), vec![0, 1]);
    assert_eq!(reg.allocate_core().unwrap().get_cores().unwrap(), vec![2, 3]);
    assert!(reg.allocate_core().is_none());
}

#[test]
fn hierarchical_llc_rejects_child_without_two_ids() {
    let topo = Topology {
        packages: vec![vec![0, 1, 2]],
        units: vec![TopologyUnit {
            cpuset: vec![0, 1, 2],
            children: vec![vec![0, 1, 2]],
        }],
    };
    let r = HierarchicalAllocator::new_at_depth(HierarchyLevel::LastLevelCache).finish(&topo);
    assert!(matches!(r, Err(CoreError::TopologyConstructionInvariantViolated)));
}

#[test]
fn hierarchical_package_level_respects_allow_list() {
    let topo = Topology {
        packages: vec![vec![0, 1], vec![2, 3]],
        units: vec![
            TopologyUnit { cpuset: vec![0, 1], children: vec![] },
            TopologyUnit { cpuset: vec![2, 3], children: vec![] },
        ],
    };
    let mut reg = HierarchicalAllocator::new_at_depth(HierarchyLevel::PhysicalPackage)
        .on_cpu(vec![1])
        .finish(&topo)
        .unwrap();
    assert_eq!(reg.allocate_core().unwrap().get_cores().unwrap(), vec![2, 3]);
    assert!(reg.allocate_core().is_none());
}

#[test]
fn hierarchical_package_level_without_restriction_keeps_all() {
    let topo = Topology {
        packages: vec![vec![0, 1], vec![2, 3]],
        units: vec![
            TopologyUnit { cpuset: vec![0, 1], children: vec![] },
            TopologyUnit { cpuset: vec![2, 3], children: vec![] },
        ],
    };
    let mut reg = HierarchicalAllocator::new_at_depth(HierarchyLevel::PhysicalPackage)
        .finish(&topo)
        .unwrap();
    assert_eq!(reg.allocate_core().unwrap().get_cores().unwrap(), vec![0, 1]);
    assert_eq!(reg.allocate_core().unwrap().get_cores().unwrap(), vec![2, 3]);
}
