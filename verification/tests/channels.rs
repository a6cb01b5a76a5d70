use zero_kernel::cap::ops::{capability_duplicate, resolve_current_process_slot};
use zero_kernel::cap::types::cap_rights;
use zero_kernel::ipc::channel::ops::{
    cancel_channel_waiters_for_process_locked, channel_close, channel_create, channel_receive,
    channel_send, release_in_flight_pin_locked, resume_receive, resume_send, Progress,
};
use zero_kernel::ipc::channel::ChannelRing;
use zero_kernel::ipc::handle::{allocate_handle_entry_locked, Handle};
use zero_kernel::ipc::object::{
    allocate_object_id, bump_generation, KernelObjectTableLock, ObjectLifecycleState,
};
use zero_kernel::ipc::shm::ops::{
    finish_shm_map, shm_close, shm_create, shm_frames_needed, shm_map, shm_unmap,
};
use zero_kernel::ipc::space::{check_and_reclaim_channel_locked, Effects};
use zero_kernel::ipc::types::{rights, IpcError, IpcMessage};
use zero_kernel::ipc::wait::{WaitQueue, Waiter};
use zero_kernel::kernel::KernelState;
use zero_kernel::mm::MapOutcome;
use zero_kernel::process::ProcessRecord;

const ME: Waiter = Waiter { thread_slot: 0, process_id: 0, priority: 1 };
const VADDR: u64 = 0x0000_1000_0000;

struct Machine {
    k: KernelState,
    fx: Effects,
}

impl Machine {
    fn new() -> Self {
        let mut k = KernelState::new(4);
        k.processes[0] = ProcessRecord { occupied: true, id: 0 };
        Machine { k, fx: Effects::new() }
    }

    fn create(&mut self) -> (Handle, Handle) {
        channel_create(&mut self.k, 0).unwrap()
    }

    fn send(&mut self, h: Handle, m: &IpcMessage, blocking: bool) -> Result<(), IpcError> {
        match channel_send(&mut self.k, &mut self.fx, ME, h, m, blocking) {
            Progress::Done(r) => r,
            Progress::Blocked(_) => panic!("the thread has to wait"),
        }
    }

    fn receive(&mut self, h: Handle, blocking: bool) -> Result<IpcMessage, IpcError> {
        match channel_receive(&mut self.k, &mut self.fx, ME, h, blocking) {
            Progress::Done(r) => r,
            Progress::Blocked(_) => panic!("the thread has to wait"),
        }
    }

    fn close(&mut self, h: Handle) {
        channel_close(&mut self.k, &mut self.fx, 0, h).unwrap();
    }

    fn object_of(&self, h: Handle) -> usize {
        self.k.caps.tables[0].entries[h.slot_index()].object_index as usize
    }

    fn channel_of(&self, h: Handle) -> usize {
        self.k.objs.objects.slots[self.object_of(h)].pool_index as usize
    }

    fn shm(&mut self, frames: &[u64]) -> Handle {
        shm_create(&mut self.k, &mut self.fx, 0, frames.len(), frames).unwrap()
    }

    fn map(&mut self, h: Handle, writable: bool) {
        let plan = shm_map(&self.k, 0, h, VADDR, writable).unwrap();
        finish_shm_map(&mut self.k, &mut self.fx, &plan, MapOutcome::Mapped).unwrap();
    }

    fn unmap(&mut self, h: Handle) -> Result<(), IpcError> {
        shm_unmap(&mut self.k, &mut self.fx, 0, h, VADDR)
    }
}

fn message(tag: u64) -> IpcMessage {
    IpcMessage::new(tag, &[]).unwrap()
}

#[test]
fn stage3g_a_creation() {
    let mut m = Machine::new();
    let (h0, _) = m.create();
    let obj = m.k.objs.objects.slots[m.object_of(h0)];
    assert_eq!(obj.header.ref_count(), 2);
    let ch = &m.k.objs.channels[obj.pool_index as usize];
    assert_eq!(ch.endpoint_0.handle_refs, 1);
    assert_eq!(ch.endpoint_1.handle_refs, 1);
    assert!(!ch.endpoint_0.is_closed);
    assert!(!ch.endpoint_1.is_closed);
}

#[test]
fn stage3g_b_destruction() {
    let mut m = Machine::new();
    let (h0, h1) = m.create();
    let (obj, ch) = (m.object_of(h0), m.channel_of(h0));
    m.close(h0);
    assert_eq!(m.k.objs.objects.slots[obj].header.ref_count(), 1);
    assert!(m.k.objs.channels[ch].endpoint_0.is_closed);
    assert!(m.k.objs.channels[ch].endpoint_1.peer_closed);
    m.close(h1);
    assert!(!m.k.objs.objects.slots[obj].occupied);
}

#[test]
fn stage3g_c_send_and_receive() {
    let mut m = Machine::new();
    let (tx, rx) = m.create();
    let payload = [42u8; 48];
    m.send(tx, &IpcMessage::new(0x1234_5678, &payload).unwrap(), false).unwrap();
    let got = m.receive(rx, false).unwrap();
    assert_eq!(got.tag, 0x1234_5678);
    assert_eq!(got.payload_len, 48);
    assert_eq!(got.payload, payload);
    m.send(rx, &message(9), false).unwrap();
    assert_eq!(m.receive(tx, false).unwrap().tag, 9);
}

#[test]
fn messages_are_checked() {
    assert_eq!(IpcMessage::new(1, &[0; 49]).err(), Some(IpcError::BadMessageSize));
    assert_eq!(
        IpcMessage::with_handles(1, &[], &[0; 5]).err(),
        Some(IpcError::BadMessageSize)
    );
    let w = IpcMessage::from_words(7, [1, 2, 3, 4, 5, 0x0102_0304_0506_0708]);
    assert_eq!(w.payload_len, 48);
    assert_eq!(&w.payload[..8], &[1, 0, 0, 0, 0, 0, 0, 0]);
    assert_eq!(&w.payload[40..], &[8, 7, 6, 5, 4, 3, 2, 1]);
    assert_eq!(IpcMessage::empty().payload_len, 0);
}

#[test]
fn stage3g_d_order() {
    let mut m = Machine::new();
    let (tx, rx) = m.create();
    for i in 1..=4u64 {
        m.send(tx, &IpcMessage::new(i, &[i as u8; 1]).unwrap(), false).unwrap();
    }
    for i in 1..=4u64 {
        let got = m.receive(rx, false).unwrap();
        assert_eq!(got.tag, i);
        assert_eq!(got.payload[0], i as u8);
    }
}

#[test]
fn ring_goes_round() {
    let mut r = ChannelRing::empty();
    for i in 0..10 {
        assert!(r.push(message(i)));
        assert!(r.push(message(i + 100)));
        assert_eq!(r.pop().unwrap().tag, i);
        assert_eq!(r.pop().unwrap().tag, i + 100);
    }
    assert!(r.pop().is_none());
    assert!(r.is_empty());
    for i in 0..4 {
        assert!(r.push(message(i)));
    }
    assert!(r.is_full());
    assert!(!r.push(message(5)));
}

#[test]
fn stage3g_e_full_ring() {
    let mut m = Machine::new();
    let (tx, rx) = m.create();
    for i in 0..4 {
        m.send(tx, &message(i), false).unwrap();
    }
    assert_eq!(m.send(tx, &message(5), false), Err(IpcError::WouldBlock));
    m.receive(rx, false).unwrap();
    assert!(m.send(tx, &message(5), false).is_ok());
}

#[test]
fn stage3g_f_empty_ring() {
    let mut m = Machine::new();
    let (_, rx) = m.create();
    assert_eq!(m.receive(rx, false).err(), Some(IpcError::WouldBlock));
    assert!(!m.k.threads[0].occupied);
}

#[test]
fn stage3g_g_blocking_calls_that_need_not_wait() {
    let mut m = Machine::new();
    let (tx, rx) = m.create();
    m.send(tx, &message(99), true).unwrap();
    assert_eq!(m.receive(rx, true).unwrap().tag, 99);
}

#[test]
fn blocked_receiver_is_woken() {
    let mut m = Machine::new();
    let (tx, rx) = m.create();
    let w = Waiter { thread_slot: 1, process_id: 0, priority: 1 };
    let op = match channel_receive(&mut m.k, &mut m.fx, w, rx, true) {
        Progress::Blocked(op) => op,
        Progress::Done(_) => panic!("the ring is empty"),
    };
    let obj = m.object_of(rx);
    assert!(m.k.threads[1].occupied);
    assert_eq!(m.k.objs.objects.slots[obj].header.in_flight_op_refs, 1);
    assert!(m.fx.woken.is_empty());
    m.send(tx, &message(3), false).unwrap();
    assert_eq!(m.fx.woken, vec![w]);
    match resume_receive(&mut m.k, &mut m.fx, op) {
        Progress::Done(Ok(got)) => assert_eq!(got.tag, 3),
        _ => panic!("the message is there"),
    }
    assert!(!m.k.threads[1].occupied);
    assert_eq!(m.k.objs.objects.slots[obj].header.in_flight_op_refs, 0);
}

#[test]
fn blocked_sender_is_woken() {
    let mut m = Machine::new();
    let (tx, rx) = m.create();
    for i in 0..4 {
        m.send(tx, &message(i), false).unwrap();
    }
    let w = Waiter { thread_slot: 2, process_id: 0, priority: 1 };
    let op = match channel_send(&mut m.k, &mut m.fx, w, tx, &message(4), true) {
        Progress::Blocked(op) => op,
        Progress::Done(_) => panic!("the ring is full"),
    };
    assert!(matches!(
        resume_send(&mut m.k, &mut m.fx, op, &message(4)),
        Progress::Blocked(_)
    ));
    m.receive(rx, false).unwrap();
    assert!(m.fx.woken.contains(&w));
    assert!(matches!(
        resume_send(&mut m.k, &mut m.fx, op, &message(4)),
        Progress::Done(Ok(()))
    ));
    for i in 1..=4 {
        assert_eq!(m.receive(rx, false).unwrap().tag, i);
    }
}

#[test]
fn stage3g_h_most_urgent_first() {
    let low = Waiter { thread_slot: 1, process_id: 0, priority: 1 };
    let high = Waiter { thread_slot: 2, process_id: 0, priority: 2 };
    let also_high = Waiter { thread_slot: 3, process_id: 0, priority: 2 };
    let mut q = WaitQueue::new();
    q.push(low);
    q.push(high);
    q.push(also_high);
    assert_eq!(q.pop_highest(), Some(high));
    assert_eq!(q.pop_highest(), Some(also_high));
    assert_eq!(q.pop_highest(), Some(low));
    assert_eq!(q.pop_highest(), None);
}

#[test]
fn stage3g_i_j_peer_is_gone() {
    let mut m = Machine::new();
    let (tx, rx) = m.create();
    m.close(tx);
    assert_eq!(m.receive(rx, false).err(), Some(IpcError::PeerClosed));
    m.close(rx);
    let (tx, rx) = m.create();
    m.close(rx);
    assert_eq!(m.send(tx, &message(1), false), Err(IpcError::PeerClosed));
}

#[test]
fn stage3g_k_l_drain_before_close() {
    let mut m = Machine::new();
    let (tx, rx) = m.create();
    m.send(tx, &IpcMessage::new(777, &[1, 2, 3]).unwrap(), false).unwrap();
    m.close(tx);
    assert_eq!(m.receive(rx, false).unwrap().tag, 777);
    assert_eq!(m.receive(rx, false).err(), Some(IpcError::PeerClosed));
}

#[test]
fn stage3g_m_stale_handle() {
    let mut m = Machine::new();
    let (tx, _) = m.create();
    m.close(tx);
    assert_eq!(m.send(tx, &message(1), false), Err(IpcError::BadHandleGeneration));
    assert_eq!(
        m.send(Handle::new(32, 1), &message(1), false),
        Err(IpcError::InvalidHandle)
    );
}

#[test]
fn stage3g_n_rights() {
    let mut m = Machine::new();
    let (_, rx) = m.create();
    m.k.caps.tables[0].entries[rx.slot_index()].rights &= !rights::WRITE;
    assert_eq!(m.send(rx, &message(1), false), Err(IpcError::PermissionDenied));
}

#[test]
fn stage3g_o_p_shared_memory() {
    let mut m = Machine::new();
    assert_eq!(shm_frames_needed(&m.k, 0, 2), Ok(2));
    let h = m.shm(&[0x5000, 0x9000]);
    let plan = shm_map(&m.k, 0, h, VADDR, true).unwrap();
    assert_eq!(plan.page_count, 2);
    let first = plan.page(0);
    assert_eq!((first.page, first.frame), (VADDR, 0x5000));
    assert!(first.flags.writable && first.flags.no_execute && first.flags.user);
    let second = plan.page(1);
    assert_eq!((second.page, second.frame), (VADDR + 4096, 0x9000));
    finish_shm_map(&mut m.k, &mut m.fx, &plan, MapOutcome::Mapped).unwrap();
    m.unmap(h).unwrap();
    assert_eq!(m.fx.unmapped_pages, vec![VADDR, VADDR + 4096]);
    shm_close(&mut m.k, &mut m.fx, 0, h).unwrap();
    assert_eq!(m.fx.freed_frames, vec![0x5000, 0x9000]);
}

#[test]
fn shared_memory_is_checked() {
    let mut m = Machine::new();
    assert_eq!(shm_frames_needed(&m.k, 0, 0), Err(IpcError::BadMessageSize));
    assert_eq!(shm_frames_needed(&m.k, 0, 17), Err(IpcError::BadMessageSize));
    assert_eq!(
        shm_create(&mut m.k, &mut m.fx, 0, 3, &[0x1000, 0x2000]),
        Err(IpcError::PmmExhausted)
    );
    assert_eq!(m.fx.freed_frames, vec![0x1000, 0x2000]);
    let h = m.shm(&[0x5000]);
    assert_eq!(shm_map(&m.k, 0, h, VADDR + 1, true).err(), Some(IpcError::InvalidAddress));
    let plan = shm_map(&m.k, 0, h, VADDR, false).unwrap();
    assert!(!plan.page(0).flags.writable);
    assert_eq!(
        finish_shm_map(&mut m.k, &mut m.fx, &plan, MapOutcome::Failed(0)),
        Err(IpcError::VmmError)
    );
    assert_eq!(m.unmap(h), Err(IpcError::InvalidAddress));
}

#[test]
fn stage3g_q_r_mapping_keeps_the_frames() {
    let mut m = Machine::new();
    let h = m.shm(&[0x5000]);
    m.map(h, false);
    shm_close(&mut m.k, &mut m.fx, 0, h).unwrap();
    assert!(m.fx.freed_frames.is_empty());
    m.unmap(h).unwrap();
    assert_eq!(m.fx.freed_frames, vec![0x5000]);
}

#[test]
fn stage3g_s_attached_handles() {
    let mut m = Machine::new();
    let (tx, rx) = m.create();
    let handles = [0x1111_2222, 0x3333_4444, 0x5555_6666, 0x7777_8888];
    let msg = IpcMessage::with_handles(100, &[1, 2, 3], &handles).unwrap();
    m.send(tx, &msg, false).unwrap();
    let got = m.receive(rx, false).unwrap();
    assert_eq!(got.handles_count, 4);
    assert_eq!(got.handles, handles);
}

#[test]
fn stage3g_t_ap_processes_are_kept_apart() {
    let mut m = Machine::new();
    m.k.processes[3] = ProcessRecord { occupied: true, id: 50 };
    assert_eq!(resolve_current_process_slot(&m.k, 0), Ok(0));
    assert_eq!(resolve_current_process_slot(&m.k, 50), Ok(3));
    assert_eq!(
        resolve_current_process_slot(&m.k, 999_999),
        Err(IpcError::InvalidProcess)
    );
    channel_create(&mut m.k, 50).unwrap();
    assert!(m.k.caps.tables[3].entries[0].occupied);
    assert!(!m.k.caps.tables[0].entries[0].occupied);
    assert_eq!(channel_create(&mut m.k, 7), Err(IpcError::InvalidProcess));
}

#[test]
fn stage3g_u_v_many_channels() {
    let mut m = Machine::new();
    for _ in 0..128 {
        let (tx, rx) = m.create();
        m.close(tx);
        m.close(rx);
    }
    assert!(m.k.objs.objects.slots.iter().all(|s| !s.occupied));
    assert!(m.fx.freed_frames.is_empty());
}

#[test]
fn tables_fill_up() {
    let mut m = Machine::new();
    for _ in 0..16 {
        m.create();
    }
    assert_eq!(channel_create(&mut m.k, 0), Err(IpcError::HandleTableFull));
    assert_eq!(m.k.objs.channels[16].endpoint_0.handle_refs, 0);
    m.k.processes[1] = ProcessRecord { occupied: true, id: 1 };
    for _ in 0..16 {
        channel_create(&mut m.k, 1).unwrap();
    }
    m.k.processes[2] = ProcessRecord { occupied: true, id: 2 };
    assert_eq!(channel_create(&mut m.k, 2), Err(IpcError::ChannelTableFull));
}

#[test]
fn stage3g_w_generation_advances() {
    let mut m = Machine::new();
    let (tx1, rx1) = m.create();
    m.close(tx1);
    m.close(rx1);
    let (tx2, _) = m.create();
    assert_eq!(tx2.slot_index(), tx1.slot_index());
    assert_ne!(tx2.generation(), tx1.generation());
    assert_eq!(bump_generation(u16::MAX), 1);
    assert_eq!(bump_generation(7), 8);
}

#[test]
fn stage3g_x_lock() {
    let mut lock = KernelObjectTableLock::new();
    assert!(!lock.is_locked());
    let rflags = lock.acquire(0x202);
    assert!(lock.is_locked());
    assert!(lock.unlock_restore(rflags));
    let rflags = lock.acquire(0x002);
    assert!(!lock.unlock_restore(rflags));
    assert!(!lock.is_locked());
}

#[test]
fn stage3g_z_waiters_of_a_process_go() {
    let mut m = Machine::new();
    let (tx, _) = m.create();
    let ch = m.channel_of(tx);
    let w = Waiter { thread_slot: 1, process_id: 999, priority: 1 };
    m.k.objs.channels[ch].endpoint_0.waiters_tx.push(w);
    assert_eq!(m.k.objs.channels[ch].endpoint_0.waiters_tx.len(), 1);
    cancel_channel_waiters_for_process_locked(&mut m.k.objs, 999);
    assert_eq!(m.k.objs.channels[ch].endpoint_0.waiters_tx.len(), 0);
}

#[test]
fn stage3g_aa_pin_is_released() {
    let mut m = Machine::new();
    let (tx, _) = m.create();
    let obj = m.object_of(tx);
    m.k.objs.objects.slots[obj].header.in_flight_op_refs += 1;
    m.k.threads[0].occupied = true;
    m.k.threads[0].object_index = obj as u16;
    release_in_flight_pin_locked(&mut m.k, 0, obj, &m.fx);
    assert!(!m.k.threads[0].occupied);
    assert_eq!(m.k.objs.objects.slots[obj].header.in_flight_op_refs, 0);
}

#[test]
fn stage3g_ac_two_handles_to_one_end() {
    let mut m = Machine::new();
    let (h0_a, h1) = m.create();
    let (obj, ch) = (m.object_of(h0_a), m.channel_of(h0_a));
    let h0_b =
        allocate_handle_entry_locked(&mut m.k, 0, obj, rights::READ | rights::WRITE, 0).unwrap();
    assert_eq!(m.k.objs.channels[ch].endpoint_0.handle_refs, 2);
    m.close(h0_a);
    assert_eq!(m.k.objs.channels[ch].endpoint_0.handle_refs, 1);
    assert!(!m.k.objs.channels[ch].endpoint_0.is_closed);
    assert!(!m.k.objs.channels[ch].endpoint_1.peer_closed);
    m.close(h0_b);
    assert!(m.k.objs.channels[ch].endpoint_0.is_closed);
    assert!(m.k.objs.channels[ch].endpoint_1.peer_closed);
    m.close(h1);
    assert!(!m.k.objs.objects.slots[obj].occupied);
}

#[test]
fn a_duplicate_keeps_its_end_open() {
    let mut m = Machine::new();
    let (h0, h1) = m.create();
    let (obj, ch) = (m.object_of(h0), m.channel_of(h0));
    let d = capability_duplicate(&mut m.k, 0, h0).unwrap();
    assert_eq!(m.k.objs.channels[ch].endpoint_0.handle_refs, 2);
    m.close(d);
    assert_eq!(m.k.objs.channels[ch].endpoint_0.handle_refs, 1);
    assert!(!m.k.objs.channels[ch].endpoint_0.is_closed);
    assert!(!m.k.objs.channels[ch].endpoint_1.peer_closed);
    let msg = IpcMessage::new(1, &[]).unwrap();
    assert_eq!(m.send(h0, &msg, false), Ok(()));
    m.close(h0);
    assert!(m.k.objs.channels[ch].endpoint_0.is_closed);
    assert!(m.k.objs.channels[ch].endpoint_1.peer_closed);
    m.close(h1);
    assert!(!m.k.objs.objects.slots[obj].occupied);
}

#[test]
fn a_handle_per_end_is_counted_on_its_end_only() {
    let mut m = Machine::new();
    let (h0, h1) = m.create();
    let ch = m.channel_of(h0);
    let d = capability_duplicate(&mut m.k, 0, h1).unwrap();
    assert_eq!(m.k.objs.channels[ch].endpoint_0.handle_refs, 1);
    assert_eq!(m.k.objs.channels[ch].endpoint_1.handle_refs, 2);
    m.close(h1);
    assert!(!m.k.objs.channels[ch].endpoint_1.is_closed);
    m.close(d);
    assert!(m.k.objs.channels[ch].endpoint_1.is_closed);
    m.close(h0);
}

#[test]
fn stage3g_ae_life_of_an_object() {
    let mut m = Machine::new();
    let (tx, rx) = m.create();
    let obj = m.object_of(tx);
    m.close(tx);
    assert!(m.k.objs.objects.slots[obj].occupied);
    assert_eq!(m.k.objs.objects.slots[obj].header.state, ObjectLifecycleState::Active);
    m.close(rx);
    assert!(!m.k.objs.objects.slots[obj].occupied);
}

#[test]
fn stage3g_af_one_operation_for_each_thread() {
    let mut m = Machine::new();
    m.k.threads[0].occupied = true;
    let (tx, _) = m.create();
    assert_eq!(m.send(tx, &message(1), false), Err(IpcError::ConcurrentOperation));
}

#[test]
fn stage3g_ag_unmapping_through_another_object() {
    let mut m = Machine::new();
    let shm1 = m.shm(&[0x1000]);
    let shm2 = m.shm(&[0x2000]);
    m.map(shm1, true);
    assert_eq!(m.unmap(shm2), Err(IpcError::PermissionDenied));
    m.unmap(shm1).unwrap();
}

#[test]
fn stage3g_ai_ar_pinned_object_stays() {
    let mut m = Machine::new();
    let (tx, rx) = m.create();
    let (obj, ch) = (m.object_of(tx), m.channel_of(tx));
    m.k.objs.objects.slots[obj].header.in_flight_op_refs += 1;
    check_and_reclaim_channel_locked(&mut m.k.objs, obj);
    assert!(m.k.objs.objects.slots[obj].occupied);
    m.close(tx);
    assert!(m.k.objs.objects.slots[obj].occupied);
    assert!(m.k.objs.channels[ch].endpoint_0.is_closed);
    m.close(rx);
    assert!(m.k.objs.objects.slots[obj].occupied);
    m.k.objs.objects.slots[obj].header.in_flight_op_refs -= 1;
    check_and_reclaim_channel_locked(&mut m.k.objs, obj);
    assert!(!m.k.objs.objects.slots[obj].occupied);
}

#[test]
fn stage3g_am_ao_identifiers_run_out() {
    let mut m = Machine::new();
    m.k.objs.objects.next_object_id = u64::MAX;
    for _ in 0..10 {
        assert_eq!(
            allocate_object_id(&mut m.k.objs.objects),
            Err(IpcError::ObjectIdExhausted)
        );
        assert_eq!(m.k.objs.objects.next_object_id, u64::MAX);
    }
    assert_eq!(channel_create(&mut m.k, 0), Err(IpcError::ObjectIdExhausted));
}

#[test]
fn stage3g_as_receive_on_a_closed_handle() {
    let mut m = Machine::new();
    let (_, rx) = m.create();
    m.close(rx);
    assert_eq!(m.receive(rx, false).err(), Some(IpcError::BadHandleGeneration));
}

#[test]
fn stage3g_at_closing_wakes_the_waiters() {
    let mut m = Machine::new();
    let (_, rx) = m.create();
    let w = Waiter { thread_slot: 1, process_id: 0, priority: 1 };
    let op = match channel_receive(&mut m.k, &mut m.fx, w, rx, true) {
        Progress::Blocked(op) => op,
        Progress::Done(_) => panic!("the ring is empty"),
    };
    let ch = m.channel_of(rx);
    m.close(rx);
    assert_eq!(m.k.objs.channels[ch].endpoint_1.waiters_rx.len(), 0);
    assert_eq!(m.fx.woken, vec![w]);
    assert!(matches!(
        resume_receive(&mut m.k, &mut m.fx, op),
        Progress::Done(Err(IpcError::EndpointClosed))
    ));
}

#[test]
fn rights_of_new_handles() {
    let mut m = Machine::new();
    let (h0, _) = m.create();
    let r = m.k.caps.tables[0].entries[h0.slot_index()].rights;
    assert_ne!(r & cap_rights::CHANNEL_SEND, 0);
    assert_ne!(r & cap_rights::REVOKE, 0);
}

#[test]
fn stage3g_ad_both_ends_are_closed() {
    let mut m = Machine::new();
    let (h0, h1) = m.create();
    let obj = m.object_of(h0);
    m.close(h0);
    m.close(h1);
    assert!(!m.k.objs.objects.slots[obj].occupied);
}

#[test]
fn head_stays_when_a_message_is_appended() {
    let mut r = ChannelRing::empty();
    assert!(r.push(message(1)) && r.push(message(2)));
    assert_eq!((r.head, r.tail, r.count), (0, 2, 2));
    assert_eq!(r.pop().unwrap().tag, 1);
    assert_eq!((r.head, r.tail, r.count), (1, 2, 1));
    assert!(r.push(message(3)) && r.push(message(4)) && r.push(message(5)));
    assert_eq!((r.head, r.tail, r.count), (1, 1, 4));
    assert!(!r.push(message(6)));
}

#[test]
fn stage3g_ah_operation_keeps_the_object() {
    let mut m = Machine::new();
    let (tx, rx) = m.create();
    let obj = m.object_of(rx);
    m.k.objs.objects.slots[obj].header.in_flight_op_refs += 1;
    m.close(tx);
    m.close(rx);
    assert!(m.k.objs.objects.slots[obj].occupied);
    assert_eq!(m.k.objs.objects.slots[obj].header.ref_count(), 1);
}
