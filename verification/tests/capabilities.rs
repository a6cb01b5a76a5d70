use zero_kernel::cap::exit::process_exit_capability_cleanup_locked;
use zero_kernel::cap::node::{
    allocate_capability_id, lookup_capability_by_id_locked, remove_child_locked,
    replace_child_locked,
};
use zero_kernel::cap::ops::{
    capability_close_locked, capability_derive, capability_duplicate,
    capability_revoke_descendants_locked, validate_capability_locked,
};
use zero_kernel::cap::transfer::{transfer_delegate_locked, transfer_move_locked};
use zero_kernel::cap::types::{cap_rights, CapabilityNode};
use zero_kernel::ipc::channel::ops::{
    channel_close, channel_create, channel_receive, channel_send, Progress,
};
use zero_kernel::ipc::handle::{
    allocate_handle_entry_locked, close_handle_locked, Handle, HandleEntry, HandleTable,
    MAX_HANDLES_PER_PROCESS,
};
use zero_kernel::ipc::object::{
    allocate_object_slot_locked, KernelObjectType, MAX_KERNEL_OBJECTS,
};
use zero_kernel::ipc::shm::ops::{finish_shm_map, shm_close, shm_create, shm_map, shm_unmap};
use zero_kernel::ipc::space::Effects;
use zero_kernel::ipc::types::{IpcError, IpcMessage};
use zero_kernel::ipc::wait::Waiter;
use zero_kernel::kernel::KernelState;
use zero_kernel::mm::MapOutcome;
use zero_kernel::process::{ProcessRecord, MAX_PROCESSES};

const PEER: usize = 1;

struct Machine {
    k: KernelState,
    fx: Effects,
}

impl Machine {
    fn new() -> Self {
        let mut k = KernelState::new(4);
        k.processes[0] = ProcessRecord { occupied: true, id: 0 };
        Machine { k, fx: Effects::new() }
    }

    fn create(&mut self) -> (Handle, Handle) {
        channel_create(&mut self.k, 0).unwrap()
    }

    fn close(&mut self, h: Handle) {
        channel_close(&mut self.k, &mut self.fx, 0, h).unwrap();
    }

    fn dup(&mut self, h: Handle) -> Handle {
        capability_duplicate(&mut self.k, 0, h).unwrap()
    }

    fn derive(&mut self, h: Handle, rights: u16) -> Result<Handle, IpcError> {
        capability_derive(&mut self.k, 0, h, rights)
    }

    fn entry(&self, p: usize, h: Handle) -> HandleEntry {
        self.k.caps.tables[p].entries[h.slot_index()]
    }

    fn node(&self, p: usize, h: Handle) -> CapabilityNode {
        self.k.caps.nodes[p][h.slot_index()]
    }

    fn move_to_peer(&mut self, h: Handle) -> Result<Handle, IpcError> {
        transfer_move_locked(&mut self.k, 0, h.slot_index(), PEER)
    }

    fn revoke(&mut self, p: usize, h: Handle) -> Result<usize, IpcError> {
        capability_revoke_descendants_locked(&mut self.k, p, h.slot_index(), &mut self.fx)
    }

    fn object(&mut self, pool_index: u16, pid: u64) -> usize {
        allocate_object_slot_locked(
            &mut self.k.objs.objects,
            KernelObjectType::Channel,
            pool_index,
            pid,
        )
        .unwrap()
    }

    fn install(&mut self, p: usize, obj: usize, rights: u16, endpoint: u8) -> Handle {
        allocate_handle_entry_locked(&mut self.k, p, obj, rights, endpoint).unwrap()
    }

    fn exit(&mut self, p: usize, pid: u64) {
        process_exit_capability_cleanup_locked(&mut self.k, p, pid, &mut self.fx);
    }

    fn send(&mut self, h: Handle, m: &IpcMessage) -> Result<(), IpcError> {
        let me = Waiter { thread_slot: 0, process_id: 0, priority: 1 };
        match channel_send(&mut self.k, &mut self.fx, me, h, m, false) {
            Progress::Done(r) => r,
            Progress::Blocked(_) => panic!("the call does not wait"),
        }
    }

    fn receive(&mut self, h: Handle) -> Result<IpcMessage, IpcError> {
        let me = Waiter { thread_slot: 0, process_id: 0, priority: 1 };
        match channel_receive(&mut self.k, &mut self.fx, me, h, false) {
            Progress::Done(r) => r,
            Progress::Blocked(_) => panic!("the call does not wait"),
        }
    }

    fn is_scrubbed(&self, p: usize) -> bool {
        self.k.caps.tables[p].count == 0
            && (0..MAX_HANDLES_PER_PROCESS).all(|h| {
                !self.k.caps.tables[p].entries[h].occupied
                    && self.k.caps.nodes[p][h].capability_id == 0
            })
    }
}

#[test]
fn stage3h_a_root_capabilities() {
    let mut m = Machine::new();
    let (h0, h1) = m.create();
    let (n0, n1) = (m.node(0, h0), m.node(0, h1));
    assert!(n0.capability_id > 0);
    assert!(n1.capability_id > 0);
    assert_ne!(n0.capability_id, n1.capability_id);
    assert_eq!(n0.derivation_depth, 0);
    assert_eq!(n1.derivation_depth, 0);
    assert!(n0.is_root());
    assert!(n1.is_root());
}

#[test]
fn stage3h_b_lookup() {
    let mut m = Machine::new();
    let (h0, h1) = m.create();
    let (obj, ep, r) = validate_capability_locked(&m.k, 0, h0, 0).unwrap();
    assert!(obj < MAX_KERNEL_OBJECTS);
    assert_eq!(ep, 0);
    assert_ne!(r, 0);
    assert_eq!(validate_capability_locked(&m.k, 0, h1, 0).unwrap().1, 1);
}

#[test]
fn stage3h_c_d_e_ac_bad_handles() {
    let mut m = Machine::new();
    assert_eq!(
        validate_capability_locked(&m.k, 0, Handle::new(63, 1), 0),
        Err(IpcError::InvalidHandle)
    );
    let (h0, _) = m.create();
    let forged = Handle::new(h0.slot_index() as u16, h0.generation().wrapping_add(999));
    assert_eq!(
        validate_capability_locked(&m.k, 0, forged, 0),
        Err(IpcError::BadHandleGeneration)
    );
    m.close(h0);
    assert_eq!(
        validate_capability_locked(&m.k, 0, h0, 0),
        Err(IpcError::BadHandleGeneration)
    );
    assert!(validate_capability_locked(&m.k, PEER, Handle::new(0, 1), 0).is_err());
}

#[test]
fn stage3h_f_g_rights_are_enforced() {
    let mut m = Machine::new();
    let (h0, h1) = m.create();
    m.send(h0, &IpcMessage::new(42, b"cap_allowed").unwrap()).unwrap();
    assert_eq!(m.receive(h1).unwrap().tag, 42);
    let h_no_send = m.derive(h0, cap_rights::CHANNEL_RECEIVE).unwrap();
    assert_eq!(
        m.send(h_no_send, &IpcMessage::new(43, b"cap_denied").unwrap()),
        Err(IpcError::PermissionDenied)
    );
}

#[test]
fn stage3h_h_attenuation() {
    let mut m = Machine::new();
    let (h0, _) = m.create();
    let child = m.derive(h0, cap_rights::CHANNEL_SEND).unwrap();
    assert_eq!(m.entry(0, child).rights, cap_rights::CHANNEL_SEND);
}

#[test]
fn stage3h_i_amplification_is_rejected() {
    let mut m = Machine::new();
    let (h0, _) = m.create();
    let send_only =
        m.derive(h0, cap_rights::CHANNEL_SEND | cap_rights::DUPLICATE).unwrap();
    assert_eq!(
        m.derive(send_only, cap_rights::CHANNEL_SEND | cap_rights::CHANNEL_RECEIVE),
        Err(IpcError::RightsAmplificationRejected)
    );
    let no_dup = m.derive(h0, cap_rights::CHANNEL_SEND).unwrap();
    assert_eq!(
        m.derive(no_dup, cap_rights::CHANNEL_SEND),
        Err(IpcError::CapabilityNotDuplicable)
    );
}

#[test]
fn stage3h_j_duplicate_keeps_rights() {
    let mut m = Machine::new();
    let (h0, _) = m.create();
    let dup = m.dup(h0);
    assert_eq!(m.entry(0, h0).rights, m.entry(0, dup).rights);
}

#[test]
fn stage3h_k_tree_links() {
    let mut m = Machine::new();
    let (h0, _) = m.create();
    let c1 = m.dup(h0);
    let c2 = m.dup(c1);
    assert_eq!(m.node(0, c1).parent_hslot, h0.slot_index() as u8);
    assert_eq!(m.node(0, c2).parent_hslot, c1.slot_index() as u8);
    assert_eq!(m.node(0, h0).first_child_hslot, c1.slot_index() as u8);
    assert_eq!(m.node(0, c1).first_child_hslot, c2.slot_index() as u8);
    assert_eq!(m.node(0, c2).derivation_depth, 2);
}

#[test]
fn stage3h_l_depth_is_bounded() {
    let mut m = Machine::new();
    let (h0, _) = m.create();
    let mut current = h0;
    for _ in 0..8 {
        current = m.dup(current);
    }
    assert_eq!(
        capability_duplicate(&mut m.k, 0, current),
        Err(IpcError::MaxDerivationDepthExceeded)
    );
}

#[test]
fn stage3h_m_siblings() {
    let mut m = Machine::new();
    let (h0, _) = m.create();
    m.dup(h0);
    m.dup(h0);
    m.dup(h0);
    let n0 = m.node(0, h0);
    let mut visited = 0;
    let mut p = n0.first_child_pslot as usize;
    let mut h = n0.first_child_hslot as usize;
    while p < MAX_PROCESSES && h < MAX_HANDLES_PER_PROCESS {
        visited += 1;
        let child = m.k.caps.nodes[p][h];
        p = child.next_sibling_pslot as usize;
        h = child.next_sibling_hslot as usize;
    }
    assert_eq!(visited, 3);
}

#[test]
fn stage3h_n_ah_au_move() {
    let mut m = Machine::new();
    let (h0, _) = m.create();
    let id_before = m.k.caps.next_capability_id;
    let moved = m.move_to_peer(h0).unwrap();
    assert!(!m.entry(0, h0).occupied);
    assert_ne!(m.entry(0, h0).handle_generation, h0.generation());
    assert_eq!(m.node(0, h0).capability_id, 0);
    assert!(m.entry(PEER, moved).occupied);
    let obj = m.entry(PEER, moved).object_index as usize;
    assert_eq!(m.k.objs.objects.slots[obj].header.handle_refs, 2);
    assert_eq!(m.k.caps.next_capability_id, id_before + 1);
    assert_eq!(m.node(PEER, moved).capability_id, id_before);
    capability_close_locked(&mut m.k, PEER, moved.slot_index()).unwrap();
}

#[test]
fn stage3h_o_delegate() {
    let mut m = Machine::new();
    let (h0, _) = m.create();
    let d = transfer_delegate_locked(
        &mut m.k, 0, h0.slot_index(), PEER, cap_rights::CHANNEL_SEND,
    )
    .unwrap();
    assert!(m.entry(0, h0).occupied);
    assert!(m.entry(PEER, d).occupied);
    assert_eq!(m.node(PEER, d).parent_pslot, 0);
    assert_eq!(m.node(PEER, d).parent_hslot, h0.slot_index() as u8);
    assert_eq!(m.entry(PEER, d).rights, cap_rights::CHANNEL_SEND);
}

#[test]
fn stage3h_p_move_needs_the_right() {
    let mut m = Machine::new();
    let (h0, _) = m.create();
    let h = m.derive(h0, cap_rights::CHANNEL_SEND | cap_rights::DUPLICATE).unwrap();
    assert_eq!(m.move_to_peer(h), Err(IpcError::CapabilityNotTransferable));
}

#[test]
fn stage3h_q_full_table_of_the_receiver() {
    let mut m = Machine::new();
    let (h0, _) = m.create();
    let obj = m.entry(0, h0).object_index as usize;
    for _ in 0..MAX_HANDLES_PER_PROCESS {
        m.install(PEER, obj, cap_rights::CHANNEL_SEND, 0);
    }
    assert_eq!(m.move_to_peer(h0), Err(IpcError::HandleTableFull));
    assert!(m.entry(0, h0).occupied);
    assert_eq!(
        transfer_delegate_locked(&mut m.k, 0, h0.slot_index(), PEER, 0),
        Err(IpcError::HandleTableFull)
    );
}

#[test]
fn stage3h_r_v_revocation_leaves_the_root() {
    let mut m = Machine::new();
    let (h0, _) = m.create();
    let c1 = m.dup(h0);
    let c2 = m.dup(c1);
    let c3 = m.dup(c2);
    assert_eq!(m.revoke(0, h0), Ok(3));
    assert!(m.entry(0, h0).occupied);
    assert!(!m.entry(0, c1).occupied);
    assert!(!m.entry(0, c2).occupied);
    assert!(!m.entry(0, c3).occupied);
    let obj = m.entry(0, h0).object_index as usize;
    assert_eq!(m.k.objs.objects.slots[obj].header.handle_refs, 2);
}

#[test]
fn stage3h_s_revocation_is_scoped() {
    let mut m = Machine::new();
    let (h0, _) = m.create();
    let c1 = m.dup(h0);
    let c2 = m.dup(h0);
    let sub = m.dup(c1);
    assert_eq!(m.revoke(0, c1), Ok(1));
    assert!(m.entry(0, h0).occupied);
    assert!(m.entry(0, c1).occupied);
    assert!(m.entry(0, c2).occupied);
    assert!(!m.entry(0, sub).occupied);
}

#[test]
fn stage3h_t_u_revocation_is_checked() {
    let mut m = Machine::new();
    let (h0, _) = m.create();
    let c = m.derive(h0, cap_rights::CHANNEL_SEND | cap_rights::DUPLICATE).unwrap();
    assert_eq!(m.revoke(0, c), Err(IpcError::PermissionDenied));
    let c1 = m.dup(h0);
    m.revoke(0, h0).unwrap();
    assert_eq!(m.revoke(0, c1), Err(IpcError::InvalidHandle));
}

#[test]
fn stage3h_w_ar_exit_closes_own_capabilities() {
    let mut m = Machine::new();
    let obj0 = m.object(10, 9999);
    let obj1 = m.object(11, 9999);
    let h0 = m.install(2, obj0, cap_rights::CHANNEL_SEND, 0);
    m.install(2, obj1, cap_rights::CHANNEL_RECEIVE, 1);
    assert_eq!(m.k.caps.tables[2].count, 2);
    m.exit(2, 9999);
    assert_eq!(m.k.caps.tables[2].count, 0);
    assert!(!m.entry(2, h0).occupied);
    assert!(!m.k.objs.objects.slots[obj0].occupied);
}

#[test]
fn stage3h_x_as_exit_leaves_what_was_delegated() {
    let mut m = Machine::new();
    let obj = m.object(12, 8888);
    let ha = m.install(
        3,
        obj,
        cap_rights::CHANNEL_SEND | cap_rights::TRANSFER | cap_rights::DUPLICATE,
        0,
    );
    let hb =
        transfer_delegate_locked(&mut m.k, 3, ha.slot_index(), 4, cap_rights::CHANNEL_SEND)
            .unwrap();
    m.exit(3, 8888);
    assert!(m.entry(4, hb).occupied);
    assert!(!m.node(4, hb).is_revoked);
    assert_eq!(m.node(4, hb).derivation_depth, 0);
    assert!(m.is_scrubbed(3));
    capability_close_locked(&mut m.k, 4, hb.slot_index()).unwrap();
}

#[test]
fn stage3h_y_at_exit_scrubs_the_tables() {
    let mut m = Machine::new();
    for i in 0..5 {
        let obj = m.object(16 + i, 4444);
        m.install(5, obj, cap_rights::CHANNEL_SEND, 0);
    }
    assert_eq!(m.k.caps.tables[5].count, 5);
    m.exit(5, 4444);
    assert!(m.is_scrubbed(5));
}

#[test]
fn exit_after_a_revocation() {
    let mut m = Machine::new();
    let (h0, _) = m.create();
    let given = transfer_delegate_locked(
        &mut m.k,
        0,
        h0.slot_index(),
        PEER,
        cap_rights::CHANNEL_SEND | cap_rights::TRANSFER | cap_rights::DUPLICATE,
    )
    .unwrap();
    assert_eq!(m.revoke(0, h0), Ok(1));
    assert!(!m.entry(PEER, given).occupied);
    assert!(m.node(PEER, given).is_revoked);
    assert_ne!(m.node(PEER, given).capability_id, 0);
    let pid = m.k.processes[PEER].id;
    m.exit(PEER, pid);
    assert!(m.is_scrubbed(PEER));
    assert!(!m.node(PEER, given).is_revoked);
    assert!(m.entry(0, h0).occupied);
}

#[test]
fn a_stale_handle_derives_nothing() {
    let mut m = Machine::new();
    let (h0, _) = m.create();
    let stale = Handle::new(h0.slot_index() as u16, h0.generation() + 6);
    assert_eq!(
        m.derive(stale, cap_rights::CHANNEL_SEND),
        Err(IpcError::InvalidHandle)
    );
    assert!(m.derive(h0, cap_rights::CHANNEL_SEND).is_ok());
}

#[test]
fn a_freed_node_is_blank() {
    let mut m = Machine::new();
    let (h0, _) = m.create();
    let c1 = m.dup(h0);
    let c2 = m.dup(h0);
    assert_eq!(m.node(0, c2).next_sibling_hslot, c1.slot_index() as u8);
    m.move_to_peer(c2).unwrap();
    assert_eq!(m.node(0, c2).next_sibling_hslot, 0xFF);
    assert_eq!(m.node(0, c2).next_sibling_pslot, 0xFF);
    m.close(c1);
    assert_eq!(m.node(0, c1).capability_id, 0);
    assert_eq!(m.node(0, c1).next_sibling_hslot, 0xFF);
}

#[test]
fn exit_removes_mappings() {
    let mut m = Machine::new();
    let h = shm_create(&mut m.k, &mut m.fx, 0, 1, &[0x7000]).unwrap();
    let plan = shm_map(&m.k, 0, h, 0x2000_0000, true).unwrap();
    finish_shm_map(&mut m.k, &mut m.fx, &plan, MapOutcome::Mapped).unwrap();
    m.exit(0, 0);
    assert_eq!(m.fx.unmapped_pages, vec![0x2000_0000]);
    assert_eq!(m.fx.freed_frames, vec![0x7000]);
    assert!(m.is_scrubbed(0));
}

#[test]
fn stage3h_z_aa_ab_shared_memory_rights() {
    let mut m = Machine::new();
    let h = shm_create(&mut m.k, &mut m.fx, 0, 1, &[0x7000]).unwrap();
    let ro = m.derive(h, cap_rights::SHM_MAP_READ | cap_rights::SHM_UNMAP).unwrap();
    let plan = shm_map(&m.k, 0, ro, 0x2000_0000, false).unwrap();
    finish_shm_map(&mut m.k, &mut m.fx, &plan, MapOutcome::Mapped).unwrap();
    shm_unmap(&mut m.k, &mut m.fx, 0, ro, 0x2000_0000).unwrap();
    assert_eq!(
        shm_map(&m.k, 0, ro, 0x2000_1000, true).err(),
        Some(IpcError::PermissionDenied)
    );
    shm_close(&mut m.k, &mut m.fx, 0, ro).unwrap();
    let child = m.dup(h);
    assert_eq!(m.revoke(0, h), Ok(1));
    assert!(!m.entry(0, child).occupied);
    assert!(m.fx.freed_frames.is_empty());
    shm_close(&mut m.k, &mut m.fx, 0, h).unwrap();
    assert_eq!(m.fx.freed_frames, vec![0x7000]);
}

#[test]
fn stage3h_ad_object_goes_with_the_last_handle() {
    let mut m = Machine::new();
    let (h0, h1) = m.create();
    let obj = m.entry(0, h0).object_index as usize;
    assert_eq!(m.k.objs.objects.slots[obj].header.handle_refs, 2);
    m.close(h0);
    assert_eq!(m.k.objs.objects.slots[obj].header.handle_refs, 1);
    m.close(h1);
    assert!(!m.k.objs.objects.slots[obj].occupied);
}

#[test]
fn stage3h_ae_ai_identifiers() {
    let mut m = Machine::new();
    let id1 = allocate_capability_id(&mut m.k.caps).unwrap();
    let id2 = allocate_capability_id(&mut m.k.caps).unwrap();
    let id3 = allocate_capability_id(&mut m.k.caps).unwrap();
    assert!(id2 > id1);
    assert!(id3 > id2);
    m.k.caps.next_capability_id = u64::MAX;
    assert_eq!(
        allocate_capability_id(&mut m.k.caps),
        Err(IpcError::CapabilityIdExhausted)
    );
    assert_eq!(m.k.caps.next_capability_id, u64::MAX);
}

#[test]
fn stage3h_aj_lookup_by_identifier() {
    let mut m = Machine::new();
    let (h0, _) = m.create();
    let id = m.node(0, h0).capability_id;
    let (p, h, node) = lookup_capability_by_id_locked(&m.k.caps, id).unwrap();
    assert_eq!(p, 0);
    assert_eq!(h, h0.slot_index());
    assert_eq!(node.capability_id, id);
    assert_eq!(
        lookup_capability_by_id_locked(&m.k.caps, 0).err(),
        Some(IpcError::InvalidCapability)
    );
    assert_eq!(
        lookup_capability_by_id_locked(&m.k.caps, 1000).err(),
        Some(IpcError::InvalidCapability)
    );
}

#[test]
fn stage3h_ak_al_moved_capability_keeps_its_parent() {
    let mut m = Machine::new();
    let (h0, _) = m.create();
    let c1 = m.dup(h0);
    let moved = m.move_to_peer(c1).unwrap();
    assert_eq!(m.node(PEER, moved).parent_pslot, 0);
    assert_eq!(m.node(PEER, moved).parent_hslot, h0.slot_index() as u8);
    assert_eq!(m.node(0, c1).capability_id, 0);
    assert_eq!(m.revoke(0, h0), Ok(1));
    assert!(!m.entry(PEER, moved).occupied);
}

#[test]
fn stage3h_am_ao_ap_close_hands_children_up() {
    let mut m = Machine::new();
    let (h0, _) = m.create();
    let c1 = m.dup(h0);
    let c2 = m.dup(c1);
    assert!(!m.node(0, c1).is_root());
    m.close(c1);
    assert_eq!(m.node(0, c2).parent_pslot, 0);
    assert_eq!(m.node(0, c2).parent_hslot, h0.slot_index() as u8);
    assert_eq!(m.node(0, c2).derivation_depth, 1);
    assert!(m.entry(0, c2).occupied);
    m.close(h0);
    assert!(m.node(0, c2).is_root());
    assert_eq!(m.node(0, c2).derivation_depth, 0);
    assert!(m.entry(0, c2).occupied);
}

#[test]
fn stage3h_an_move_without_identifiers() {
    let mut m = Machine::new();
    let (h0, _) = m.create();
    let prev = m.k.caps.next_capability_id;
    m.k.caps.next_capability_id = u64::MAX;
    assert_eq!(m.move_to_peer(h0), Err(IpcError::CapabilityIdExhausted));
    assert!(m.entry(0, h0).occupied);
    m.k.caps.next_capability_id = prev;
    m.close(h0);
}

#[test]
fn stage3h_aq_move_takes_the_descendants_along() {
    let mut m = Machine::new();
    let (h0, _) = m.create();
    let c1 = m.dup(h0);
    let c2 = m.dup(c1);
    let c3 = m.dup(c1);
    let moved = m.move_to_peer(c1).unwrap();
    for c in [c2, c3] {
        assert_eq!(m.node(0, c).parent_pslot, PEER as u8);
        assert_eq!(m.node(0, c).parent_hslot, moved.slot_index() as u8);
    }
    assert_eq!(m.revoke(PEER, moved), Ok(2));
    assert!(!m.entry(0, c2).occupied);
    assert!(!m.entry(0, c3).occupied);
}

#[test]
fn handle_layer_closes() {
    let mut m = Machine::new();
    let (h0, _) = m.create();
    let obj = m.entry(0, h0).object_index as usize;
    assert_eq!(
        close_handle_locked(&mut m.k, 0, Handle::new(32, 1)),
        Err(IpcError::InvalidHandle)
    );
    assert_eq!(close_handle_locked(&mut m.k, 0, h0), Ok((obj, 0)));
    assert_eq!(
        close_handle_locked(&mut m.k, 0, h0),
        Err(IpcError::BadHandleGeneration)
    );
}

#[test]
fn rights_are_compared() {
    assert!(cap_rights::is_rights_subset(0, 0));
    assert!(cap_rights::is_rights_subset(0x0101, 0x0303));
    assert!(!cap_rights::is_rights_subset(0x0400, 0x0303));
}

#[test]
fn empty_table_has_empty_entries() {
    let t = HandleTable::empty();
    assert_eq!(t.count, 0);
    assert_eq!(t._reserved, [0; 6]);
    for e in t.entries {
        assert!(!e.occupied);
        assert_eq!(e.handle_generation, 1);
        assert_eq!((e.object_index, e.object_generation, e.rights, e.endpoint), (0, 0, 0, 0));
        assert_eq!(e._reserved, [0; 6]);
    }
}

#[test]
fn node_that_is_no_child_is_left_alone() {
    let mut m = Machine::new();
    let (a, b) = m.create();
    let kid = m.dup(a);
    let first = m.node(0, a).first_child_hslot;
    assert_eq!(first as usize, kid.slot_index());
    remove_child_locked(&mut m.k.caps, 0, a.slot_index(), 0, b.slot_index());
    assert_eq!(m.node(0, a).first_child_hslot, first);
    let spare = 20;
    replace_child_locked(&mut m.k.caps, 0, a.slot_index(), 0, b.slot_index(), 0, spare);
    assert_eq!(m.node(0, a).first_child_hslot, first);
    assert_eq!(m.k.caps.nodes[0][spare].next_sibling_hslot, 0xFF);
    remove_child_locked(&mut m.k.caps, 0, a.slot_index(), 0, kid.slot_index());
    assert_eq!(m.node(0, a).first_child_hslot, 0xFF);
}

#[test]
fn operations_and_mappings_are_counted() {
    let mut m = Machine::new();
    let (_, b) = m.create();
    let i = m.entry(0, b).object_index as usize;
    for t in 0..3 {
        let w = Waiter { thread_slot: t, process_id: 0, priority: 1 };
        assert!(matches!(
            channel_receive(&mut m.k, &mut m.fx, w, b, true),
            Progress::Blocked(_)
        ));
        let pinned = m.k.threads.iter().filter(|t| t.occupied && t.object_index as usize == i);
        assert_eq!(pinned.count(), t + 1);
        assert_eq!(m.k.objs.objects.slots[i].header.in_flight_op_refs as usize, t + 1);
    }
    let h = shm_create(&mut m.k, &mut m.fx, 0, 1, &[0x5000]).unwrap();
    let o = m.entry(0, h).object_index as usize;
    for n in 1..4u64 {
        let plan = shm_map(&m.k, 0, h, 0x10000 * n, true).unwrap();
        finish_shm_map(&mut m.k, &mut m.fx, &plan, MapOutcome::Mapped).unwrap();
        assert_eq!(m.k.objs.objects.slots[o].header.mapping_refs as u64, n);
    }
    assert_eq!(m.k.mappings.iter().filter(|x| x.occupied).count(), 3);
    shm_unmap(&mut m.k, &mut m.fx, 0, h, 0x20000).unwrap();
    assert_eq!(m.k.objs.objects.slots[o].header.mapping_refs, 2);
}
