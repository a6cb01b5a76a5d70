use zero_kernel::cap::types::cap_rights::{
    is_rights_subset, DEV_ATTACH, DEV_CONTROL, DEV_MAP_MMIO, DEV_READ, DEV_RESET, DEV_WRITE,
};
use zero_kernel::dev::dma::{
    alloc_dma_buffer, free_dma_buffer, get_active_buffer_count, get_pinned_frame_count,
    is_frame_pinned, teardown_process_dma, DmaTables,
};
use zero_kernel::dev::interrupt::{
    dispatch_interrupt, get_vector_binding_count, get_vector_cooldown_remaining,
    is_vector_in_storm, is_vector_masked, on_timer_tick, register_irq_binding, signal_event_by_id,
    unregister_irq_binding, InterruptTable,
};
use zero_kernel::dev::mmio::{
    allocate_mmio_virtual_window, finish_device_mmio, map_device_mmio, unmap_device_mmio,
    validate_mmio_isolation, MmioAperture, MAX_MMIO_MAP_SIZE, USER_DEV_MMIO_BASE,
    USER_DEV_MMIO_END,
};
use zero_kernel::dev::registry::{
    count_devices, find_device, find_device_by_class, register_device, register_resource,
    teardown_process_devices, transition_state, DeviceRegistry, DeviceRegistryLock,
    DeviceResourceLock,
};
use zero_kernel::dev::types::{
    DeviceClass, DeviceError, DeviceId, DeviceLifecycleState, ResourceSharing, ResourceType,
    BOOTSTRAP_ATA_DEVICE_ID, BOOTSTRAP_MEM_DEVICE_ID, FIRST_DYNAMIC_DEVICE_ID, MAX_DEVICES,
    MAX_DEVICE_RESOURCES,
};
use zero_kernel::ipc::object::{
    allocate_object_slot_locked, KernelObjectTable, KernelObjectTableLock, KernelObjectType,
};
use zero_kernel::mm::MapOutcome;

const A: DeviceId = DeviceId(2);
const B: DeviceId = DeviceId(3);

fn two_devices() -> DeviceRegistry {
    let mut r = DeviceRegistry::new();
    register_device(&mut r, A, DeviceClass::Platform).unwrap();
    register_device(&mut r, B, DeviceClass::Network).unwrap();
    r
}

fn steps(r: &mut DeviceRegistry, slot: usize, states: &[DeviceLifecycleState]) {
    for s in states {
        assert_eq!(transition_state(r, slot, *s), Ok(()));
    }
}

#[test]
fn stage3l_a_device_table_and_identity() {
    assert_eq!(BOOTSTRAP_MEM_DEVICE_ID, 0);
    assert_eq!(BOOTSTRAP_ATA_DEVICE_ID, 1);
    let mut next = FIRST_DYNAMIC_DEVICE_ID;
    let a = DeviceId::next_dynamic(&mut next);
    let b = DeviceId::next_dynamic(&mut next);
    assert!(a.as_u64() >= 2);
    assert!(b.as_u64() > a.as_u64());
    let mut r = DeviceRegistry::new();
    let slot_a = register_device(&mut r, a, DeviceClass::Platform).unwrap();
    let slot_b = register_device(&mut r, b, DeviceClass::Network).unwrap();
    assert_eq!(find_device(&r, a), Some(slot_a));
    assert_eq!(find_device(&r, b), Some(slot_b));
    assert_eq!(
        register_device(&mut r, a, DeviceClass::Timer),
        Err(DeviceError::ResourceConflict)
    );
    assert_eq!(r.devices[slot_a].generation, 2);
}

#[test]
fn device_table_fills_up() {
    let mut r = DeviceRegistry::new();
    for i in 0..MAX_DEVICES {
        assert_eq!(register_device(&mut r, DeviceId(i as u64), DeviceClass::Timer), Ok(i));
    }
    assert_eq!(
        register_device(&mut r, DeviceId(99), DeviceClass::Timer),
        Err(DeviceError::CapacityExceeded)
    );
    assert_eq!(count_devices(&r), MAX_DEVICES);
}

#[test]
fn stage3l_b_discovery_and_enumeration() {
    let r = two_devices();
    assert_eq!(find_device_by_class(&r, DeviceClass::Platform), Some(0));
    assert_eq!(find_device_by_class(&r, DeviceClass::Network), Some(1));
    assert_eq!(find_device_by_class(&r, DeviceClass::Display), None);
    assert_eq!(count_devices(&r), 2);
}

#[test]
fn stage3l_c_lifecycle_transitions() {
    let mut r = DeviceRegistry::new();
    let c = register_device(&mut r, A, DeviceClass::Accelerator).unwrap();
    steps(
        &mut r,
        c,
        &[
            DeviceLifecycleState::Probed,
            DeviceLifecycleState::Attached,
            DeviceLifecycleState::Ready,
            DeviceLifecycleState::Active,
            DeviceLifecycleState::Ready,
            DeviceLifecycleState::Quiescing,
            DeviceLifecycleState::Detached,
            DeviceLifecycleState::Released,
        ],
    );
    assert_eq!(
        transition_state(&mut r, c, DeviceLifecycleState::Active),
        Err(DeviceError::DeviceNotFound)
    );
    let d = register_device(&mut r, B, DeviceClass::Accelerator).unwrap();
    assert_eq!(
        transition_state(&mut r, d, DeviceLifecycleState::Active),
        Err(DeviceError::InvalidParameter)
    );
    assert_eq!(
        transition_state(&mut r, MAX_DEVICES, DeviceLifecycleState::Active),
        Err(DeviceError::InvalidParameter)
    );
}

#[test]
fn stage3l_d_resource_allocation() {
    let mut r = two_devices();
    let port = register_resource(
        &mut r, A, ResourceType::IoPort, ResourceSharing::Exclusive, 0x2F8, 8,
    )
    .unwrap();
    let mmio = register_resource(
        &mut r, A, ResourceType::Mmio, ResourceSharing::Exclusive, 0xE000_0000, 0x10000,
    )
    .unwrap();
    assert_eq!((port, mmio), (0, 1));
    assert_eq!(r.devices[0].resource_mask, 0b11);
    assert_eq!(r.devices[1].resource_mask, 0);
}

#[test]
fn stage3l_e_resource_overlap_rejection() {
    let mut r = two_devices();
    register_resource(&mut r, A, ResourceType::IoPort, ResourceSharing::Exclusive, 0x2F8, 8)
        .unwrap();
    register_resource(
        &mut r, A, ResourceType::Mmio, ResourceSharing::Exclusive, 0xE000_0000, 0x10000,
    )
    .unwrap();
    assert_eq!(
        register_resource(&mut r, B, ResourceType::IoPort, ResourceSharing::Exclusive, 0x2F9, 4),
        Err(DeviceError::ResourceConflict)
    );
    assert_eq!(
        register_resource(
            &mut r, B, ResourceType::Mmio, ResourceSharing::Exclusive, 0xE000_4000, 0x1000,
        ),
        Err(DeviceError::ResourceConflict)
    );
    assert_eq!(
        register_resource(&mut r, B, ResourceType::IoPort, ResourceSharing::Shared, 0x300, 4),
        Ok(2)
    );
}

#[test]
fn resources_are_shared_where_both_agree() {
    let mut r = two_devices();
    register_resource(&mut r, A, ResourceType::Irq, ResourceSharing::Shared, 10, 1).unwrap();
    assert_eq!(
        register_resource(&mut r, B, ResourceType::Irq, ResourceSharing::Shared, 10, 1),
        Ok(1)
    );
    assert_eq!(
        register_resource(&mut r, B, ResourceType::Irq, ResourceSharing::Exclusive, 10, 1),
        Err(DeviceError::ResourceConflict)
    );
    register_resource(&mut r, A, ResourceType::IoPort, ResourceSharing::Shared, 10, 1).unwrap();
    assert_eq!(
        register_resource(&mut r, B, ResourceType::IoPort, ResourceSharing::Shared, 10, 1),
        Err(DeviceError::ResourceConflict)
    );
    assert_eq!(
        register_resource(&mut r, B, ResourceType::Mmio, ResourceSharing::Shared, 10, 0),
        Err(DeviceError::InvalidParameter)
    );
    assert_eq!(
        register_resource(&mut r, B, ResourceType::Mmio, ResourceSharing::Shared, u64::MAX, 1),
        Err(DeviceError::InvalidParameter)
    );
    for i in 3..MAX_DEVICE_RESOURCES {
        assert_eq!(
            register_resource(
                &mut r, B, ResourceType::Mmio, ResourceSharing::Shared, i as u64, 1,
            ),
            Ok(i)
        );
    }
    assert_eq!(
        register_resource(&mut r, B, ResourceType::Mmio, ResourceSharing::Shared, 900, 1),
        Err(DeviceError::CapacityExceeded)
    );
}

#[test]
fn stage3l_f_capability_rights() {
    let parent = DEV_READ | DEV_WRITE | DEV_CONTROL | DEV_MAP_MMIO;
    assert!(is_rights_subset(DEV_READ | DEV_MAP_MMIO, parent));
    assert!(!is_rights_subset(DEV_READ | DEV_RESET, parent));
}

#[test]
fn stage3l_g_mmio_mapping() {
    let mut a = MmioAperture::new();
    let plan = map_device_mmio(&mut a, 0x1234_5000, 4096, true).unwrap();
    assert_eq!(plan.vaddr, USER_DEV_MMIO_BASE);
    assert_eq!(plan.page_count, 1);
    assert!(plan.flags.cache_disable && plan.flags.write_through && plan.flags.no_execute);
    assert!(plan.flags.writable && plan.flags.user && plan.flags.present);
    let (r, undo) = finish_device_mmio(&plan, MapOutcome::Mapped);
    assert_eq!(r, Ok(USER_DEV_MMIO_BASE));
    assert!(undo.is_empty());
    assert_eq!(unmap_device_mmio(plan.vaddr, 4096), Ok(vec![USER_DEV_MMIO_BASE]));
    let next = map_device_mmio(&mut a, 0, 8192, false).unwrap();
    assert_eq!(next.vaddr, USER_DEV_MMIO_BASE + 4096);
    assert!(!next.flags.writable);
    let (r, undo) = finish_device_mmio(&next, MapOutcome::Failed(1));
    assert_eq!(r, Err(DeviceError::OutOfMemory));
    assert_eq!(undo, vec![USER_DEV_MMIO_BASE + 4096]);
    let (r, undo) = finish_device_mmio(&next, MapOutcome::BadPage(1));
    assert_eq!(r, Err(DeviceError::InvalidParameter));
    assert!(undo.is_empty());
}

#[test]
fn mmio_requests_are_checked() {
    let mut a = MmioAperture::new();
    assert_eq!(map_device_mmio(&mut a, 1, 4096, true), Err(DeviceError::InvalidParameter));
    for size in [0, 1, MAX_MMIO_MAP_SIZE + 4096] {
        assert_eq!(
            allocate_mmio_virtual_window(&mut a, size),
            Err(DeviceError::InvalidParameter)
        );
    }
    assert_eq!(a, MmioAperture::new());
    a.next = USER_DEV_MMIO_END - 4096;
    assert_eq!(
        allocate_mmio_virtual_window(&mut a, 8192),
        Err(DeviceError::CapacityExceeded)
    );
    assert_eq!(a.next, USER_DEV_MMIO_END + 4096);
    assert_eq!(
        unmap_device_mmio(USER_DEV_MMIO_BASE, 100),
        Err(DeviceError::InvalidParameter)
    );
}

#[test]
fn stage3l_i_j_interrupt_binding_and_delivery() {
    let mut t = InterruptTable::new();
    let id = register_irq_binding(&mut t, 48, ResourceSharing::Exclusive, A, 1, 100, Some(7))
        .unwrap();
    assert_eq!(id, 48 * 256);
    assert_eq!(get_vector_binding_count(&t, 48), 1);
    let told = dispatch_interrupt(&mut t, 48);
    assert_eq!(told.len(), 1);
    assert_eq!(told[0].device_id, A);
    assert_eq!(told[0].event_object_id, 100);
    assert_eq!(told[0].top_half, Some(7));
    assert_eq!(t.bindings[48][0].interrupt_count, 1);
    assert_eq!(unregister_irq_binding(&mut t, id), Ok(()));
    assert_eq!(get_vector_binding_count(&t, 48), 0);
    assert_eq!(unregister_irq_binding(&mut t, id), Err(DeviceError::DeviceNotFound));
    assert_eq!(unregister_irq_binding(&mut t, 48 * 256 + 4), Err(DeviceError::InvalidParameter));
}

#[test]
fn event_is_signalled() {
    let mut objects = KernelObjectTable::new();
    let idx =
        allocate_object_slot_locked(&mut objects, KernelObjectType::Event, 0, 1).unwrap();
    let id = objects.slots[idx].header.object_id;
    signal_event_by_id(&mut objects, id + 1);
    assert_eq!(objects.slots[idx].header.signals, 0);
    signal_event_by_id(&mut objects, id);
    assert_eq!(objects.slots[idx].header.signals, 1);
}

#[test]
fn stage3l_k_interrupt_storm_mitigation() {
    let mut t = InterruptTable::new();
    let id = register_irq_binding(&mut t, 49, ResourceSharing::Exclusive, A, 1, 0, None).unwrap();
    for _ in 0..999 {
        assert_eq!(dispatch_interrupt(&mut t, 49).len(), 1);
    }
    assert!(!is_vector_in_storm(&t, 49));
    assert!(!is_vector_masked(&t, 49));
    dispatch_interrupt(&mut t, 49);
    assert!(!is_vector_in_storm(&t, 49));
    assert!(!is_vector_masked(&t, 49));
    assert_eq!(dispatch_interrupt(&mut t, 49).len(), 0);
    assert!(is_vector_in_storm(&t, 49));
    assert!(is_vector_masked(&t, 49));
    assert_eq!(get_vector_cooldown_remaining(&t, 49), 50);
    for _ in 0..49 {
        on_timer_tick(&mut t);
    }
    assert!(is_vector_in_storm(&t, 49));
    assert!(is_vector_masked(&t, 49));
    assert_eq!(get_vector_cooldown_remaining(&t, 49), 1);
    assert_eq!(dispatch_interrupt(&mut t, 49).len(), 0);
    on_timer_tick(&mut t);
    assert!(!is_vector_in_storm(&t, 49));
    assert!(!is_vector_masked(&t, 49));
    assert_eq!(get_vector_cooldown_remaining(&t, 49), 0);
    assert_eq!(dispatch_interrupt(&mut t, 49).len(), 1);
    assert_eq!(t.lines[49].total_line_interrupts, 1003);
    unregister_irq_binding(&mut t, id).unwrap();
}

#[test]
fn stage3l_l_dma_allocation_and_pinning() {
    let mut d = DmaTables::new();
    let mut freed = Vec::new();
    let (id, phys) = alloc_dma_buffer(
        &mut d, A, 1, 2, ResourceSharing::Exclusive, &[0x5000, 0x9000], &mut freed,
    )
    .unwrap();
    assert_eq!(id, 1);
    assert_eq!(phys, 0x5000);
    assert!(is_frame_pinned(&d, 0x5000));
    assert!(is_frame_pinned(&d, 0x9000));
    assert_eq!(get_active_buffer_count(&d), 1);
    assert_eq!(get_pinned_frame_count(&d), 2);
    assert_eq!(free_dma_buffer(&mut d, id, &mut freed), Ok(()));
    assert_eq!(freed, vec![0x5000, 0x9000]);
    assert!(!is_frame_pinned(&d, 0x5000));
    assert_eq!(get_active_buffer_count(&d), 0);
    assert_eq!(get_pinned_frame_count(&d), 0);
    assert_eq!(free_dma_buffer(&mut d, id, &mut freed), Err(DeviceError::DeviceNotFound));
}

#[test]
fn stage3l_m_dma_bounds_checking() {
    let mut d = DmaTables::new();
    let mut freed = Vec::new();
    assert_eq!(
        alloc_dma_buffer(&mut d, A, 1, 17, ResourceSharing::Exclusive, &[], &mut freed),
        Err(DeviceError::InvalidParameter)
    );
    assert_eq!(
        alloc_dma_buffer(&mut d, A, 1, 0, ResourceSharing::Exclusive, &[], &mut freed),
        Err(DeviceError::InvalidParameter)
    );
}

#[test]
fn stage3l_n_o_p_fault_reset_and_detach() {
    let mut r = DeviceRegistry::new();
    let n = register_device(&mut r, A, DeviceClass::Storage).unwrap();
    steps(
        &mut r,
        n,
        &[
            DeviceLifecycleState::Probed,
            DeviceLifecycleState::Attached,
            DeviceLifecycleState::Ready,
            DeviceLifecycleState::Faulted,
        ],
    );
    assert_eq!(r.devices[n].state, DeviceLifecycleState::Faulted);
    steps(&mut r, n, &[DeviceLifecycleState::Resetting, DeviceLifecycleState::Ready]);
    assert_eq!(r.devices[n].state, DeviceLifecycleState::Ready);
    steps(
        &mut r,
        n,
        &[
            DeviceLifecycleState::Quiescing,
            DeviceLifecycleState::Detached,
            DeviceLifecycleState::Released,
        ],
    );
    assert!(!r.devices[n].occupied);
}

#[test]
fn stage3l_q_process_exit_teardown() {
    let mut r = two_devices();
    let mut d = DmaTables::new();
    let mut freed = Vec::new();
    steps(
        &mut r,
        1,
        &[
            DeviceLifecycleState::Probed,
            DeviceLifecycleState::Attached,
            DeviceLifecycleState::Ready,
        ],
    );
    r.devices[1].driver_pid = 42;
    alloc_dma_buffer(&mut d, B, 42, 1, ResourceSharing::Exclusive, &[0x7000], &mut freed).unwrap();
    alloc_dma_buffer(&mut d, A, 1, 1, ResourceSharing::Exclusive, &[0x8000], &mut freed).unwrap();
    assert_eq!(teardown_process_dma(&mut d, 42, &mut freed), 1);
    assert_eq!(freed, vec![0x7000]);
    assert!(is_frame_pinned(&d, 0x8000));
    assert_eq!(teardown_process_devices(&mut r, 42), 1);
    assert_eq!(r.devices[1].state, DeviceLifecycleState::Detached);
    assert_eq!(r.devices[1].driver_pid, 0);
    assert_eq!(r.devices[0].state, DeviceLifecycleState::Discovered);
    steps(&mut r, 1, &[DeviceLifecycleState::Released]);
}

#[test]
fn stage3l_r_amplification_is_rejected() {
    assert!(!is_rights_subset(DEV_ATTACH, DEV_READ | DEV_WRITE));
}

#[test]
fn stage3l_s_locks_are_taken_in_order() {
    let mut registry = DeviceRegistryLock::new();
    let mut resources = DeviceResourceLock::new();
    let mut objects = KernelObjectTableLock::new();
    registry.acquire();
    resources.acquire();
    let rflags = objects.acquire(0x202);
    assert!(registry.lock && resources.lock && objects.is_locked());
    assert!(objects.unlock_restore(rflags));
    resources.release();
    registry.release();
    assert!(!registry.lock && !resources.lock && !objects.is_locked());
}

#[test]
fn stage3l_u_mmio_collision_rejection() {
    assert_eq!(validate_mmio_isolation(0x0020_0000, 4096), Err(DeviceError::InvalidParameter));
    assert_eq!(
        validate_mmio_isolation(0x0000_7F7F_FFFC_0000, 4096),
        Err(DeviceError::InvalidParameter)
    );
    assert_eq!(
        validate_mmio_isolation(0x0000_7F80_0000_0000, 4096),
        Err(DeviceError::InvalidParameter)
    );
    assert_eq!(validate_mmio_isolation(USER_DEV_MMIO_BASE, 4096), Ok(()));
    assert_eq!(
        validate_mmio_isolation(USER_DEV_MMIO_END - 4096, 8192),
        Err(DeviceError::InvalidParameter)
    );
    assert_eq!(
        validate_mmio_isolation(u64::MAX - 4095, 4096),
        Err(DeviceError::InvalidParameter)
    );
}

#[test]
fn stage3l_v_shared_bindings() {
    let mut t = InterruptTable::new();
    let b1 = register_irq_binding(&mut t, 50, ResourceSharing::Shared, A, 1, 101, None).unwrap();
    let b2 = register_irq_binding(&mut t, 50, ResourceSharing::Shared, B, 2, 102, None).unwrap();
    assert_eq!(get_vector_binding_count(&t, 50), 2);
    assert_eq!(
        register_irq_binding(&mut t, 50, ResourceSharing::Exclusive, B, 2, 0, None),
        Err(DeviceError::ResourceConflict)
    );
    let told = dispatch_interrupt(&mut t, 50);
    assert_eq!(told.len(), 2);
    assert_eq!(t.bindings[50][0].interrupt_count, 1);
    assert_eq!(t.bindings[50][1].interrupt_count, 1);
    unregister_irq_binding(&mut t, b1).unwrap();
    unregister_irq_binding(&mut t, b2).unwrap();
    assert_eq!(get_vector_binding_count(&t, 50), 0);
}

#[test]
fn shared_line_fills_up() {
    let mut t = InterruptTable::new();
    for i in 0..4u16 {
        assert_eq!(
            register_irq_binding(&mut t, 9, ResourceSharing::Shared, A, 1, 0, None),
            Ok(9 * 256 + i)
        );
    }
    assert_eq!(
        register_irq_binding(&mut t, 9, ResourceSharing::Shared, A, 1, 0, None),
        Err(DeviceError::CapacityExceeded)
    );
    assert_eq!(unregister_irq_binding(&mut t, 9 * 256 + 2), Ok(()));
    assert_eq!(
        register_irq_binding(&mut t, 9, ResourceSharing::Shared, A, 1, 0, None),
        Ok(9 * 256 + 2)
    );
}

#[test]
fn stage3l_w_multi_frame_dma() {
    let mut d = DmaTables::new();
    let mut freed = Vec::new();
    let (id, _) = alloc_dma_buffer(
        &mut d, A, 1, 4, ResourceSharing::Exclusive, &[1, 2, 3, 4], &mut freed,
    )
    .unwrap();
    assert_eq!(get_pinned_frame_count(&d), 4);
    assert_eq!(get_active_buffer_count(&d), 1);
    free_dma_buffer(&mut d, id, &mut freed).unwrap();
    assert_eq!(get_pinned_frame_count(&d), 0);
    assert_eq!(get_active_buffer_count(&d), 0);
    assert_eq!(freed, vec![1, 2, 3, 4]);
}

#[test]
fn stage3l_x_partial_allocation_rolls_back() {
    let mut d = DmaTables::new();
    let mut freed = Vec::new();
    assert_eq!(
        alloc_dma_buffer(&mut d, A, 1, 3, ResourceSharing::Exclusive, &[1, 2], &mut freed),
        Err(DeviceError::OutOfMemory)
    );
    assert_eq!(freed, vec![1, 2]);
    assert_eq!(get_pinned_frame_count(&d), 0);
    freed.clear();
    let frames: Vec<u64> = (0..16).collect();
    for i in 0..8 {
        let (id, _) = alloc_dma_buffer(
            &mut d, A, 1, 16, ResourceSharing::Exclusive, &frames, &mut freed,
        )
        .unwrap();
        assert_eq!(id, i + 1);
    }
    assert_eq!(get_pinned_frame_count(&d), 128);
    assert_eq!(
        alloc_dma_buffer(&mut d, A, 1, 1, ResourceSharing::Exclusive, &[77], &mut freed),
        Err(DeviceError::CapacityExceeded)
    );
    assert_eq!(freed, vec![77]);
}

#[test]
fn buffer_descriptors_run_out() {
    let mut d = DmaTables::new();
    let mut freed = Vec::new();
    for i in 0..32u64 {
        alloc_dma_buffer(&mut d, A, 1, 1, ResourceSharing::Shared, &[i], &mut freed).unwrap();
    }
    assert_eq!(
        alloc_dma_buffer(&mut d, A, 1, 1, ResourceSharing::Shared, &[99], &mut freed),
        Err(DeviceError::CapacityExceeded)
    );
    assert_eq!(freed, vec![99]);
    assert_eq!(teardown_process_dma(&mut d, 1, &mut freed), 32);
    assert_eq!(freed.len(), 33);
}

#[test]
fn stage3l_y_storm_isolation() {
    let mut t = InterruptTable::new();
    register_irq_binding(&mut t, 51, ResourceSharing::Shared, A, 1, 0, None).unwrap();
    register_irq_binding(&mut t, 51, ResourceSharing::Shared, B, 2, 0, None).unwrap();
    register_irq_binding(&mut t, 52, ResourceSharing::Exclusive, B, 2, 0, None).unwrap();
    for _ in 0..1001 {
        dispatch_interrupt(&mut t, 51);
    }
    assert!(is_vector_in_storm(&t, 51));
    assert!(is_vector_masked(&t, 51));
    assert!(!is_vector_in_storm(&t, 52));
    assert!(!is_vector_masked(&t, 52));
    assert_eq!(dispatch_interrupt(&mut t, 52).len(), 1);
    for _ in 0..50 {
        on_timer_tick(&mut t);
    }
    assert!(!is_vector_in_storm(&t, 51));
    assert!(!is_vector_masked(&t, 51));
    assert!(!is_vector_in_storm(&t, 52));
}

#[test]
fn stage3l_z_reset_by_the_driver() {
    let mut r = DeviceRegistry::new();
    let z = register_device(&mut r, A, DeviceClass::Platform).unwrap();
    steps(
        &mut r,
        z,
        &[
            DeviceLifecycleState::Probed,
            DeviceLifecycleState::Attached,
            DeviceLifecycleState::Ready,
        ],
    );
    r.devices[z].driver_pid = 10;
    steps(&mut r, z, &[DeviceLifecycleState::Resetting, DeviceLifecycleState::Ready]);
    assert_eq!(r.devices[z].state, DeviceLifecycleState::Ready);
    steps(
        &mut r,
        z,
        &[
            DeviceLifecycleState::Quiescing,
            DeviceLifecycleState::Detached,
            DeviceLifecycleState::Released,
        ],
    );
    assert_eq!(count_devices(&r), 0);
}

#[test]
fn everything_can_be_forgotten() {
    let mut r = two_devices();
    let mut t = InterruptTable::new();
    let mut d = DmaTables::new();
    let mut freed = Vec::new();
    register_irq_binding(&mut t, 1, ResourceSharing::Shared, A, 1, 0, None).unwrap();
    alloc_dma_buffer(&mut d, A, 1, 1, ResourceSharing::Shared, &[5], &mut freed).unwrap();
    zero_kernel::dev::init(&mut r, &mut t, &mut d);
    assert_eq!(count_devices(&r), 0);
    assert_eq!(get_vector_binding_count(&t, 1), 0);
    assert_eq!(get_active_buffer_count(&d), 0);
    assert_eq!(d.next_buffer_id, 2);
}

#[test]
fn ended_process_leaves_no_resources() {
    let mut r = two_devices();
    let port = ResourceType::IoPort;
    let own = ResourceSharing::Exclusive;
    assert_eq!(register_resource(&mut r, B, port, own, 0x300, 16), Ok(0));
    assert_eq!(register_resource(&mut r, A, port, own, 0x400, 16), Ok(1));
    r.devices[1].driver_pid = 42;
    assert_eq!(
        register_resource(&mut r, A, port, own, 0x308, 4),
        Err(DeviceError::ResourceConflict)
    );
    assert_eq!(teardown_process_devices(&mut r, 42), 1);
    assert!(!r.resources[0].occupied);
    assert_eq!(r.devices[1].resource_mask, 0);
    assert!(r.resources[1].occupied);
    assert_eq!(r.devices[0].resource_mask, 2);
    assert_eq!(register_resource(&mut r, A, port, own, 0x308, 4), Ok(0));
    assert_eq!(
        register_resource(&mut r, B, port, own, 0x408, 4),
        Err(DeviceError::ResourceConflict)
    );
    assert_eq!(teardown_process_devices(&mut r, 42), 0);
}
