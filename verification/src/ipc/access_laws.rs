//! Who may use channels and shared memory, and what comes of it.
use crate::cap::exit::mapping_pages;
use crate::cap::laws::law_handle_is_checked_completely;
use crate::cap::node::{is_slot, CapabilitySpace, Slot};
use crate::cap::ops::{handle_check, process_slot_of, table_full};
use crate::cap::sharing_laws::{has_room, law_process_is_found, none_free_before};
use crate::cap::tree::closed;
use crate::ipc::channel::{first_to_wake, ChannelView};
use crate::ipc::channel::ops::{
    channel_is_free, creating, end_installed, first_end_possible, first_free_channel, receiving,
    sending, two_free, IpcView, PendingOp, Progress,
};
use crate::ipc::handle::{close_fault, handle_gen, handle_slot, Handle};
use crate::ipc::laws::law_everyone_is_woken_once;
use crate::ipc::object::{first_free, next_generation, KernelObjectType};
use crate::ipc::shm::ops::{
    first_free_mapping, first_free_shm, mapping_at, planning, shm_creating, shm_is_unused,
    unmapping, ShmMapPlan,
};
use crate::ipc::shm::ShmMapping;
use crate::ipc::space::{object_allocation, Effects, EffectsView, ObjectsView, World};
use crate::ipc::types::{padded_handles, padded_payload, IpcError, IpcMessage};
use crate::ipc::wait::{law_most_urgent, most_urgent, wake_order, without_process, Waiter};
use crate::kernel::{mapping_ok, target_ok, KernelState};
use vstd::prelude::*;

verus! {

/// A handle that a process presents names the capability at `s`, which is in use.
pub open spec fn presents(k: &KernelState, pid: u64, h: Handle, s: Slot) -> bool {
    &&& process_slot_of(k, pid) == Ok::<int, IpcError>(s.p)
    &&& handle_slot(h) == s.h
    &&& k.caps.live(s)
    &&& k.caps.entry(s).handle_generation == handle_gen(h)
}

/// The capability that a handle of a process would name.
pub open spec fn named_slot(k: &KernelState, pid: u64, h: Handle) -> Slot {
    Slot { p: process_slot_of(k, pid)->Ok_0, h: handle_slot(h) }
}

/// A handle that passes the check yields the object, the end and the rights of its capability.
pub proof fn law_handle_yields_its_object(k: &KernelState, p: int, h: Handle, required_rights: u16)
    requires
        k.wf(),
        0 <= p < 16,
        handle_check(k, p, h, required_rights) is Ok,
    ensures
        ({
            let e = k.caps.entry(Slot { p, h: handle_slot(h) });
            let v = handle_check(k, p, h, required_rights)->Ok_0;
            &&& v.0 == e.object_index
            &&& v.1 == e.endpoint
            &&& v.2 == e.rights
            &&& e.object_index < 256
            &&& k.objs@.slots[v.0].occupied
            &&& k.objs@.slots[v.0].generation == e.object_generation
        }),
{
}

/// A handle is refused for what is wrong with it: a place that no table has or that is not in use,
/// a generation that has passed, or a right that is missing.
pub proof fn law_reason_of_a_refused_handle(
    k: &KernelState,
    p: int,
    h: Handle,
    required_rights: u16,
)
    requires
        k.wf(),
        0 <= p < 16,
    ensures
        ({
            let s = Slot { p, h: handle_slot(h) };
            let e = k.caps.entry(s);
            let r = handle_check(k, p, h, required_rights);
            let current = s.h < 32 && e.handle_generation == handle_gen(h);
            &&& r == Err::<(int, u8, u16), IpcError>(IpcError::BadHandleGeneration) <==> s.h < 32
                && e.handle_generation != handle_gen(h)
            &&& r == Err::<(int, u8, u16), IpcError>(IpcError::InvalidHandle) <==> s.h >= 32 || (
            current && !k.caps.live(s))
            &&& r == Err::<(int, u8, u16), IpcError>(IpcError::PermissionDenied) <==> current
                && k.caps.live(s) && e.rights & required_rights != required_rights
            &&& close_fault(k, p, h) == Some(IpcError::BadHandleGeneration) <==> s.h < 32
                && e.handle_generation != handle_gen(h)
            &&& close_fault(k, p, h) == Some(IpcError::InvalidHandle) <==> s.h >= 32 || (current
                && !k.caps.live(s))
        }),
{
    let s = Slot { p, h: handle_slot(h) };
    if k.caps.live(s) {
        assert(k.caps.node_ok(s));
        assert(target_ok(&k.caps, k.objs@, s));
    }
}

proof fn lemma_no_rights(r: u16)
    by (bit_vector)
    ensures
        r & 0u16 == 0u16,
        r & (0x0002u16 | 0x0002u16) == r & 0x0002u16,
        r & (0x0001u16 | 0x0001u16) == r & 0x0001u16,
        r & (0x0008u16 | 0x0008u16) == r & 0x0008u16,
        r & (0x0004u16 | 0x0004u16) == r & 0x0004u16,
{
}

/// What a check for any of the rights finds, in terms of the capability that the handle names.
proof fn lemma_presented(k: &KernelState, pid: u64, h: Handle)
    requires
        k.wf(),
    ensures
        ({
            let s = named_slot(k, pid, h);
            let e = k.caps.entry(s);
            process_slot_of(k, pid) is Ok ==> {
                &&& 0 <= s.p < 16
                &&& handle_check(k, s.p, h, 0) is Ok <==> presents(k, pid, h, s)
                &&& handle_check(k, s.p, h, 0) is Ok ==> handle_check(k, s.p, h, 0)->Ok_0 == (
                    e.object_index as int,
                    e.endpoint,
                    e.rights,
                ) && k.objs@.slots[e.object_index as int].occupied
            }
        }),
{
    law_process_is_found(k, pid);
    if process_slot_of(k, pid) is Ok {
        let s = named_slot(k, pid, h);
        law_handle_is_checked_completely(k, s.p, h, 0);
        lemma_no_rights(k.caps.entry(s).rights);
    }
}

/// A message is sent exactly if the handle names a capability of the caller that carries the right
/// to send, the thread has no other operation in progress, neither end is closed and the ring has
/// room. The thread has to wait exactly if only the room is missing and it asked for that.
pub proof fn law_send_succeeds_exactly_if_allowed(
    before: &KernelState,
    after: &KernelState,
    fx: &Effects,
    fx_after: &Effects,
    caller: Waiter,
    h: Handle,
    msg: IpcMessage,
    blocking: bool,
    r: Progress<()>,
)
    requires
        before.wf(),
        sending(before, after, fx, fx_after, caller, h, msg, blocking, r),
    ensures
        ({
            let s = named_slot(before, caller.process_id, h);
            let e = before.caps.entry(s);
            let ch = before.objs@.channel_of(e.object_index as int);
            let open = {
                &&& presents(before, caller.process_id, h, s)
                &&& e.rights & 0x0002 != 0
                &&& !before.threads@[caller.thread_slot as int].occupied
                &&& !ch.mine(e.endpoint).is_closed
                &&& !ch.mine(e.endpoint).peer_closed
                &&& !ch.peer(e.endpoint).is_closed
            };
            let room = ch.outbox(e.endpoint).len() < 4;
            &&& r == Progress::<()>::Done(Ok(())) <==> open && room
            &&& r is Blocked <==> open && !room && blocking
            &&& r == Progress::<()>::Done(Err(IpcError::WouldBlock)) ==> open && !room && !blocking
            &&& open && !room && !blocking ==> r == Progress::<()>::Done(
                Err(IpcError::WouldBlock),
            )
            &&& r is Blocked ==> r->Blocked_0.thread == caller && r->Blocked_0.object_index
                == e.object_index && r->Blocked_0.endpoint == e.endpoint
            &&& presents(before, caller.process_id, h, s) && e.rights & 0x0002 == 0 ==> r
                == Progress::<()>::Done(Err(IpcError::PermissionDenied)) && *after == *before
            &&& !presents(before, caller.process_id, h, s) ==> r is Done && r->Done_0 is Err
                && *after == *before && *fx_after == *fx
            &&& presents(before, caller.process_id, h, s) && e.rights & 0x0002 != 0 ==> {
                let busy = before.threads@[caller.thread_slot as int].occupied;
                let shut = ch.mine(e.endpoint).is_closed;
                &&& r == Progress::<()>::Done(Err(IpcError::ConcurrentOperation)) <==> busy
                &&& r == Progress::<()>::Done(Err(IpcError::EndpointClosed)) <==> !busy && shut
                &&& r == Progress::<()>::Done(Err(IpcError::PeerClosed)) <==> !busy && !shut && (
                ch.mine(e.endpoint).peer_closed || ch.peer(e.endpoint).is_closed)
            }
        }),
{
    lemma_presented(before, caller.process_id, h);
    lemma_no_rights(before.caps.entry(named_slot(before, caller.process_id, h)).rights);
}

/// A message is received exactly if the handle names a capability of the caller that carries the
/// right to receive, the thread has no other operation in progress and a message is there: then it
/// is the oldest. The thread has to wait exactly if there is none, neither end is closed and it
/// asked for that.
pub proof fn law_receive_succeeds_exactly_if_allowed(
    before: &KernelState,
    after: &KernelState,
    fx: &Effects,
    fx_after: &Effects,
    caller: Waiter,
    h: Handle,
    blocking: bool,
    r: Progress<IpcMessage>,
)
    requires
        before.wf(),
        receiving(before, after, fx, fx_after, caller, h, blocking, r),
    ensures
        ({
            let s = named_slot(before, caller.process_id, h);
            let e = before.caps.entry(s);
            let ch = before.objs@.channel_of(e.object_index as int);
            let inbox = ch.inbox(e.endpoint);
            let may = {
                &&& presents(before, caller.process_id, h, s)
                &&& e.rights & 0x0001 != 0
                &&& !before.threads@[caller.thread_slot as int].occupied
            };
            let shut = ch.mine(e.endpoint).is_closed || ch.mine(e.endpoint).peer_closed || ch.peer(
                e.endpoint,
            ).is_closed;
            &&& (r is Done && r->Done_0 is Ok) <==> may && inbox.len() > 0
            &&& may && inbox.len() > 0 ==> r == Progress::<IpcMessage>::Done(Ok(inbox[0]))
            &&& r is Blocked <==> may && inbox.len() == 0 && !shut && blocking
            &&& may && inbox.len() == 0 && !shut && !blocking ==> r == Progress::<
                IpcMessage,
            >::Done(Err(IpcError::WouldBlock))
            &&& r is Blocked ==> r->Blocked_0.thread == caller && r->Blocked_0.object_index
                == e.object_index && r->Blocked_0.endpoint == e.endpoint
            &&& presents(before, caller.process_id, h, s) && e.rights & 0x0001 == 0 ==> r
                == Progress::<IpcMessage>::Done(Err(IpcError::PermissionDenied)) && *after
                == *before
            &&& !presents(before, caller.process_id, h, s) ==> r is Done && r->Done_0 is Err
                && *after == *before && *fx_after == *fx
            &&& presents(before, caller.process_id, h, s) && e.rights & 0x0001 != 0 ==> {
                let busy = before.threads@[caller.thread_slot as int].occupied;
                let empty = inbox.len() == 0;
                let closed = ch.mine(e.endpoint).is_closed;
                &&& r == Progress::<IpcMessage>::Done(Err(IpcError::ConcurrentOperation)) <==> busy
                &&& r == Progress::<IpcMessage>::Done(Err(IpcError::EndpointClosed)) <==> !busy
                    && empty && closed
                &&& r == Progress::<IpcMessage>::Done(Err(IpcError::PeerClosed)) <==> !busy
                    && empty && !closed && shut
            }
        }),
{
    lemma_presented(before, caller.process_id, h);
    lemma_no_rights(before.caps.entry(named_slot(before, caller.process_id, h)).rights);
}

/// What an attempt to send does to a channel that stays: a message that goes out stands behind
/// those before it, and the most urgent receiver at the other end, if there is one, is woken and
/// waits no more; a sender that has to wait stands last in its queue; otherwise nothing changes.
/// A thread that is done has no operation in progress.
pub proof fn law_effect_of_sending(
    v: IpcView,
    op: PendingOp,
    msg: IpcMessage,
    blocking: bool,
    j: int,
)
    requires
        v.world.objs.wf(),
        v.world.objs.holds(op.object_index as int, KernelObjectType::Channel),
        v.world.objs.slots[op.object_index as int].header.handle_refs > 0,
        v.world.objs.slots[op.object_index as int].header.in_flight_op_refs > 0,
        op.thread.thread_slot < v.threads.len(),
        v.threads[op.thread.thread_slot as int].occupied,
        0 <= j < 256,
    ensures
        ({
            let i = op.object_index as int;
            let t = op.thread.thread_slot as int;
            let a = v.channel_of(i);
            let w = v.after_send(op, msg, blocking);
            let b = w.channel_of(i);
            let p = op.endpoint;
            &&& a.send_verdict(p, blocking) == Some(Ok::<(), IpcError>(())) ==> {
                &&& b.outbox(p) == a.outbox(p).push(msg)
                &&& b.inbox(p) == a.inbox(p)
                &&& a.peer(p).rx.len() == 0 ==> b.peer(p).rx.len() == 0 && w.world.fx.woken
                    == v.world.fx.woken
                &&& a.peer(p).rx.len() > 0 ==> {
                    &&& w.world.fx.woken.len() == v.world.fx.woken.len() + 1
                    &&& b.peer(p).rx.len() == a.peer(p).rx.len() - 1
                    &&& exists|n: int|
                        0 <= n < a.peer(p).rx.len() && w.world.fx.woken.last()
                            == #[trigger] a.peer(p).rx[n] && b.peer(p).rx == a.peer(p).rx.remove(n)
                            && forall|m: int|
                            0 <= m < a.peer(p).rx.len() ==> (#[trigger] a.peer(p).rx[m]).priority
                                <= a.peer(p).rx[n].priority
                }
                &&& b.mine(p) == a.mine(p)
                &&& b.peer(p).tx == a.peer(p).tx
                &&& !w.threads[t].occupied
            }
            &&& a.send_verdict(p, blocking) is None ==> {
                &&& b.outbox(p) == a.outbox(p) && b.inbox(p) == a.inbox(p)
                &&& b.mine(p).tx == a.mine(p).tx.push(op.thread)
                &&& b.mine(p).rx == a.mine(p).rx && b.peer(p) == a.peer(p)
                &&& w.threads == v.threads
                &&& w.world.fx == v.world.fx
                &&& w.world.objs.slots == v.world.objs.slots
            }
            &&& a.send_verdict(p, blocking) is Some && a.send_verdict(p, blocking)->0 is Err ==> {
                &&& b == a
                &&& !w.threads[t].occupied
                &&& w.world.fx == v.world.fx
            }
            &&& j != i ==> w.world.objs.slots[j] == v.world.objs.slots[j]
        }),
{
    let i = op.object_index as int;
    let a = v.channel_of(i);
    let q = a.peer(op.endpoint).rx;
    assert(v.world.objs.slot_ok(i));
    if q.len() > 0 {
        law_most_urgent(q);
        assert(first_to_wake(q).len() == 1);
        assert((v.world.fx.woken + first_to_wake(q)).last() == q[most_urgent(q)]);
    } else {
        assert(v.world.fx.woken + first_to_wake(q) =~= v.world.fx.woken);
    }
    assert(v.world.fx.woken + Seq::<Waiter>::empty() =~= v.world.fx.woken);
}

/// What an attempt to receive does to a channel that stays: the oldest message is taken, and the
/// most urgent sender at the other end, if there is one, is woken and waits no more; a receiver
/// that has to wait stands last in its queue; otherwise nothing changes. A thread that is done has
/// no operation in progress.
pub proof fn law_effect_of_receiving(v: IpcView, op: PendingOp, blocking: bool, j: int)
    requires
        v.world.objs.wf(),
        v.world.objs.holds(op.object_index as int, KernelObjectType::Channel),
        v.world.objs.slots[op.object_index as int].header.handle_refs > 0,
        v.world.objs.slots[op.object_index as int].header.in_flight_op_refs > 0,
        op.thread.thread_slot < v.threads.len(),
        v.threads[op.thread.thread_slot as int].occupied,
        0 <= j < 256,
    ensures
        ({
            let i = op.object_index as int;
            let t = op.thread.thread_slot as int;
            let a = v.channel_of(i);
            let w = v.after_receive(op, blocking);
            let b = w.channel_of(i);
            let p = op.endpoint;
            &&& a.receive_verdict(p, blocking) is Some && a.receive_verdict(p, blocking)->0 is Ok
                ==> {
                &&& a.inbox(p) == seq![a.receive_verdict(p, blocking)->0->Ok_0] + b.inbox(p)
                &&& b.outbox(p) == a.outbox(p)
                &&& a.peer(p).tx.len() == 0 ==> b.peer(p).tx.len() == 0 && w.world.fx.woken
                    == v.world.fx.woken
                &&& a.peer(p).tx.len() > 0 ==> {
                    &&& w.world.fx.woken.len() == v.world.fx.woken.len() + 1
                    &&& exists|n: int|
                        0 <= n < a.peer(p).tx.len() && w.world.fx.woken.last()
                            == #[trigger] a.peer(p).tx[n] && b.peer(p).tx == a.peer(p).tx.remove(n)
                            && forall|m: int|
                            0 <= m < a.peer(p).tx.len() ==> (#[trigger] a.peer(p).tx[m]).priority
                                <= a.peer(p).tx[n].priority
                }
                &&& b.mine(p) == a.mine(p)
                &&& b.peer(p).rx == a.peer(p).rx
                &&& !w.threads[t].occupied
            }
            &&& a.receive_verdict(p, blocking) is None ==> {
                &&& b.outbox(p) == a.outbox(p) && b.inbox(p) == a.inbox(p)
                &&& b.mine(p).rx == a.mine(p).rx.push(op.thread)
                &&& b.mine(p).tx == a.mine(p).tx && b.peer(p) == a.peer(p)
                &&& w.threads == v.threads
                &&& w.world.fx == v.world.fx
                &&& w.world.objs.slots == v.world.objs.slots
            }
            &&& a.receive_verdict(p, blocking) is Some && a.receive_verdict(p, blocking)->0 is Err
                ==> {
                &&& b == a
                &&& !w.threads[t].occupied
                &&& w.world.fx == v.world.fx
            }
            &&& j != i ==> w.world.objs.slots[j] == v.world.objs.slots[j]
        }),
{
    let i = op.object_index as int;
    let a = v.channel_of(i);
    let q = a.peer(op.endpoint).tx;
    assert(v.world.objs.slot_ok(i));
    if q.len() > 0 {
        law_most_urgent(q);
        assert(first_to_wake(q).len() == 1);
        assert((v.world.fx.woken + first_to_wake(q)).last() == q[most_urgent(q)]);
    } else {
        assert(v.world.fx.woken + first_to_wake(q) =~= v.world.fx.woken);
    }
    assert(v.world.fx.woken + Seq::<Waiter>::empty() =~= v.world.fx.woken);
    let inbox = a.inbox(op.endpoint);
    if inbox.len() > 0 {
        assert(inbox =~= seq![inbox[0]] + inbox.skip(1));
    }
}

/// There is a free channel from `from` on exactly if the first one is found.
proof fn lemma_first_free_channel(o: ObjectsView, from: int)
    requires
        0 <= from <= 32,
    ensures
        from <= first_free_channel(o, from) <= 32,
        first_free_channel(o, from) < 32 ==> channel_is_free(o, first_free_channel(o, from)),
        forall|c: int|
            from <= c < first_free_channel(o, from) ==> !(#[trigger] channel_is_free(o, c)),
    decreases 32 - from,
{
    if from < 32 && !channel_is_free(o, from) {
        lemma_first_free_channel(o, from + 1);
    }
}

proof fn lemma_first_free_shm(o: ObjectsView, from: int)
    requires
        0 <= from <= 64,
    ensures
        from <= first_free_shm(o, from) <= 64,
        first_free_shm(o, from) < 64 ==> shm_is_unused(o, first_free_shm(o, from)),
        forall|s: int| from <= s < first_free_shm(o, from) ==> !(#[trigger] shm_is_unused(o, s)),
    decreases 64 - from,
{
    if from < 64 && !shm_is_unused(o, from) {
        lemma_first_free_shm(o, from + 1);
    }
}

proof fn lemma_first_free_object(o: ObjectsView, from: int)
    requires
        o.slots.len() == 256,
        0 <= from <= 256,
    ensures
        from <= first_free(o.slots, from) <= 256,
        first_free(o.slots, from) < 256 ==> !o.slots[first_free(o.slots, from)].occupied,
        forall|i: int|
            from <= i < first_free(o.slots, from) ==> (#[trigger] o.slots[i]).occupied,
    decreases 256 - from,
{
    if from < 256 && o.slots[from].occupied {
        lemma_first_free_object(o, from + 1);
    }
}

proof fn lemma_first_free_mapping(ms: Seq<ShmMapping>, from: int)
    requires
        0 <= from <= ms.len(),
    ensures
        from <= first_free_mapping(ms, from) <= ms.len(),
        first_free_mapping(ms, from) < ms.len() ==> !ms[first_free_mapping(ms, from)].occupied,
        forall|i: int| from <= i < first_free_mapping(ms, from) ==> (#[trigger] ms[i]).occupied,
    decreases ms.len() - from,
{
    if from < ms.len() && ms[from].occupied {
        lemma_first_free_mapping(ms, from + 1);
    }
}

/// A mapping is that of a process at an address.
pub open spec fn maps_at(m: ShmMapping, pid: u64, vaddr: u64) -> bool {
    m.occupied && m.process_id == pid && m.virtual_base == vaddr
}

proof fn lemma_mapping_at(ms: Seq<ShmMapping>, pid: u64, vaddr: u64, from: int)
    requires
        0 <= from <= ms.len(),
    ensures
        from <= mapping_at(ms, pid, vaddr, from) <= ms.len(),
        mapping_at(ms, pid, vaddr, from) < ms.len() ==> maps_at(
            ms[mapping_at(ms, pid, vaddr, from)],
            pid,
            vaddr,
        ),
        forall|i: int|
            from <= i < mapping_at(ms, pid, vaddr, from) ==> !maps_at(#[trigger] ms[i], pid, vaddr),
    decreases ms.len() - from,
{
    if from < ms.len() && !maps_at(ms[from], pid, vaddr) {
        lemma_mapping_at(ms, pid, vaddr, from + 1);
    }
}

/// An object slot is free.
pub open spec fn object_room(o: ObjectsView) -> bool {
    exists|i: int| 0 <= i < 256 && !(#[trigger] o.slots[i]).occupied
}

/// A channel is free: no object stands for it, no handle refers to it, and no end of it is closed.
pub open spec fn channel_room(o: ObjectsView) -> bool {
    exists|c: int|
        0 <= c < 32 && (#[trigger] o.channels[c]).endpoint_0.handle_refs == 0
            && o.channels[c].endpoint_1.handle_refs == 0 && !o.channels[c].endpoint_0.is_closed
            && !o.channels[c].endpoint_1.is_closed && forall|i: int|
            !(#[trigger] o.holds(i, KernelObjectType::Channel) && o.slots[i].pool_index == c)
}

/// A shared memory object is free: no object stands for it, and it has no pages.
pub open spec fn shm_room(o: ObjectsView) -> bool {
    exists|s: int|
        0 <= s < 64 && (#[trigger] o.shm[s]).page_count == 0 && forall|i: int|
            !(#[trigger] o.holds(i, KernelObjectType::ShmObject) && o.slots[i].pool_index == s)
}

/// Two entries of the table of a process are free.
pub open spec fn room_for_two(k: &KernelState, p: int) -> bool {
    exists|g: int, h: int|
        0 <= g < h < 32 && !(#[trigger] k.caps.tables@[p].entries@[g]).occupied
            && !(#[trigger] k.caps.tables@[p].entries@[h]).occupied
}

proof fn lemma_default_rights()
    by (bit_vector)
    ensures
        0x0001u16 | 0x0002u16 | 0x0010u16 | 0x0020u16 | 0x0040u16 | 0x0080u16 | 0x0002u16
            | 0x0001u16 | 0x0100u16 | 0x0200u16 | 0x0400u16 | 0x0800u16 | 0x1000u16 | 0x2000u16
            == 0x3FF3u16,
        0x0001u16 | 0x0002u16 | 0x0004u16 | 0x0008u16 | 0x0010u16 | 0x0020u16 | 0x0004u16
            | 0x0008u16 | 0x0010u16 | 0x0100u16 | 0x0200u16 | 0x0400u16 | 0x0800u16 | 0x1000u16
            | 0x2000u16 == 0x3F3Fu16,
{
}

/// A channel is created exactly if the process is there, a channel, an object slot and two
/// entries of the process are free, and numbers are left for the object and both handles. The
/// handles then stand for the two ends of the same channel, which is empty and open at both ends,
/// with all rights; whatever happens, no other capability appears or goes.
pub proof fn law_channel_is_created_exactly_if_there_is_room(
    before: &KernelState,
    after: &KernelState,
    pid: u64,
    r: Result<(Handle, Handle), IpcError>,
)
    requires
        before.wf(),
        creating(before, after, pid, r),
    ensures
        ({
            let o = before.objs@;
            let p = process_slot_of(before, pid)->Ok_0;
            &&& r is Ok <==> {
                &&& process_slot_of(before, pid) is Ok
                &&& channel_room(o)
                &&& o.next_object_id < 0xFFFF_FFFF_FFFF_FFFF
                &&& object_room(o)
                &&& room_for_two(before, p)
                &&& before.caps.next_capability_id < 0xFFFF_FFFF_FFFF_FFFE
            }
            &&& r == Err::<(Handle, Handle), IpcError>(IpcError::InvalidProcess)
                <==> process_slot_of(before, pid) is Err
            &&& r == Err::<(Handle, Handle), IpcError>(IpcError::ChannelTableFull)
                <==> process_slot_of(before, pid) is Ok && !channel_room(o)
            &&& r == Err::<(Handle, Handle), IpcError>(IpcError::ObjectIdExhausted) ==> channel_room(
                o,
            ) && o.next_object_id == 0xFFFF_FFFF_FFFF_FFFF
            &&& r == Err::<(Handle, Handle), IpcError>(IpcError::ObjectTableFull) ==> channel_room(o)
                && !object_room(o)
            &&& r == Err::<(Handle, Handle), IpcError>(IpcError::HandleTableFull) ==> channel_room(o)
                && object_room(o) && !room_for_two(before, p)
            &&& r == Err::<(Handle, Handle), IpcError>(IpcError::CapabilityIdExhausted)
                ==> channel_room(o) && object_room(o) && before.caps.next_capability_id
                >= 0xFFFF_FFFF_FFFF_FFFE
            &&& r is Ok ==> {
                let s0 = Slot { p, h: handle_slot(r->Ok_0.0) };
                let s1 = Slot { p, h: handle_slot(r->Ok_0.1) };
                let e0 = after.caps.entry(s0);
                let e1 = after.caps.entry(s1);
                let i = e0.object_index as int;
                &&& s0.h < s1.h
                &&& none_free_before(&before.caps, p, s0.h)
                &&& forall|g: int|
                    s0.h < g < s1.h ==> #[trigger] before.caps.tables@[p].entries@[g].occupied
                &&& !before.caps.live(s0) && !before.caps.live(s1)
                &&& after.caps.live(s0) && after.caps.live(s1)
                &&& handle_gen(r->Ok_0.0) == e0.handle_generation
                &&& handle_gen(r->Ok_0.1) == e1.handle_generation
                &&& e1.object_index == i
                &&& e0.endpoint == 0 && e1.endpoint == 1
                &&& e0.rights == 0x3FF3 && e1.rights == 0x3FF3
                &&& 0 <= i < 256
                &&& !o.slots[i].occupied
                &&& forall|j: int| 0 <= j < i ==> (#[trigger] o.slots[j]).occupied
                &&& after.objs@.holds(i, KernelObjectType::Channel)
                &&& after.objs@.slots[i].header.handle_refs == 2
                &&& after.objs@.slots[i].header.creator_pid == pid
                &&& after.objs@.slots[i].header.object_id == o.next_object_id
                &&& e0.object_generation == after.objs@.slots[i].generation
                &&& e1.object_generation == after.objs@.slots[i].generation
                &&& after.objs@.channel_of(i).inbox(0).len() == 0
                &&& after.objs@.channel_of(i).inbox(1).len() == 0
                &&& !after.objs@.channel_of(i).mine(0).is_closed
                &&& !after.objs@.channel_of(i).mine(1).is_closed
                &&& !after.objs@.channel_of(i).mine(0).peer_closed
                &&& !after.objs@.channel_of(i).mine(1).peer_closed
                &&& after.objs@.channel_of(i).mine(0).handle_refs == 1
                &&& after.objs@.channel_of(i).mine(1).handle_refs == 1
                &&& forall|t: Slot|
                    is_slot(t) && t != s0 && t != s1 ==> (
                    #[trigger] after.caps.entry(t)) == before.caps.entry(t)
            }
            &&& r is Err ==> forall|t: Slot|
                #[trigger] after.caps.live(t) <==> before.caps.live(t)
            &&& r is Err ==> forall|j: int|
                0 <= j < 256 ==> (#[trigger] after.objs@.slots[j]).occupied == o.slots[j].occupied
                    && (o.slots[j].occupied ==> after.objs@.slots[j] == o.slots[j])
        }),
{
    let o = before.objs@;
    lemma_default_rights();
    law_process_is_found(before, pid);
    lemma_first_free_channel(o, 0);
    lemma_first_free_object(o, 0);
    let c = first_free_channel(o, 0);
    let i = first_free(o.slots, 0);
    assert(channel_room(o) == (c < 32)) by {
        if c < 32 {
            assert(channel_is_free(o, c));
            assert(o.channels[c].endpoint_0.handle_refs == 0);
        }
        if channel_room(o) && c >= 32 {
            let d = choose|d: int|
                0 <= d < 32 && (#[trigger] o.channels[d]).endpoint_0.handle_refs == 0
                    && o.channels[d].endpoint_1.handle_refs == 0
                    && !o.channels[d].endpoint_0.is_closed && !o.channels[d].endpoint_1.is_closed
                    && forall|i: int|
                    !(#[trigger] o.holds(i, KernelObjectType::Channel) && o.slots[i].pool_index
                        == d);
            assert(channel_is_free(o, d));
        }
    }
    assert(object_room(o) == (i < 256)) by {
        if i < 256 {
            assert(!o.slots[i].occupied);
        }
    }
    if process_slot_of(before, pid) is Ok {
        let p = process_slot_of(before, pid)->Ok_0;
        assert(two_free(&before.caps, p) == room_for_two(before, p));
        if two_free(&before.caps, p) {
            assert(!table_full(&before.caps, p));
        }
        if r is Ok {
            let h0 = handle_slot(r->Ok_0.0);
            let h1 = handle_slot(r->Ok_0.1);
            let mid = choose|mid: CapabilitySpace|
                #[trigger] end_installed(
                    &before.caps,
                    &mid,
                    p,
                    h0,
                    i,
                    o.slots[i].generation,
                    0,
                ) && end_installed(&mid, &after.caps, p, h1, i, o.slots[i].generation, 1);
            let s0 = Slot { p, h: h0 };
            let s1 = Slot { p, h: h1 };
            assert(mid.entry(s0).occupied);
            assert(after.caps.entry(s0) == mid.entry(s0));
            assert(mid.entry(s1) == before.caps.entry(s1));
            assert(mid.tables@[p].entries@[h0].occupied);
            if h1 < h0 {
                assert(before.caps.tables@[p].entries@[h1].occupied);
            }
            assert forall|g: int| h0 < g < h1 implies
                #[trigger] before.caps.tables@[p].entries@[g].occupied by {
                let t = Slot { p, h: g };
                assert(mid.entry(t) == before.caps.entry(t));
                assert(mid.tables@[p].entries@[g].occupied);
            }
            assert(after.objs@.slots[i].header.handle_refs == 2);
        } else {
            if first_end_possible(before, p) {
                let (mid, h) = choose|mid: CapabilitySpace, h: int|
                    #[trigger] end_installed(
                        &before.caps,
                        &mid,
                        p,
                        h,
                        i,
                        o.slots[i].generation,
                        0,
                    ) && closed(&mid, &after.caps, Slot { p, h });
                assert forall|t: Slot| #[trigger] after.caps.live(t) <==> before.caps.live(t) by {
                    if is_slot(t) && t != (Slot { p, h }) {
                        assert(mid.entry(t) == before.caps.entry(t));
                        assert(after.caps.entry(t) == mid.entry(t));
                    }
                }
            }
        }
    }
}

/// Shared memory is created exactly if it has one to sixteen pages, the process is there, a frame
/// was given for each page, a shared memory object, an object slot and an entry of the process are
/// free, and numbers are left for the object and the handle. The handle then stands for an object
/// that holds the frames given, in order, with all rights. Otherwise every frame given goes back
/// and no capability changes.
pub proof fn law_shared_memory_is_created_exactly_if_there_is_room(
    before: &KernelState,
    after: &KernelState,
    fx: EffectsView,
    fx_after: EffectsView,
    pid: u64,
    page_count: usize,
    granted: Seq<u64>,
    r: Result<Handle, IpcError>,
)
    requires
        before.wf(),
        granted.len() <= page_count,
        shm_creating(before, after, fx, fx_after, pid, page_count, granted, r),
    ensures
        ({
            let o = before.objs@;
            let p = process_slot_of(before, pid)->Ok_0;
            &&& r is Ok <==> {
                &&& 1 <= page_count <= 16
                &&& process_slot_of(before, pid) is Ok
                &&& granted.len() == page_count
                &&& shm_room(o)
                &&& o.next_object_id < 0xFFFF_FFFF_FFFF_FFFF
                &&& object_room(o)
                &&& has_room(&before.caps, p)
                &&& before.caps.next_capability_id < 0xFFFF_FFFF_FFFF_FFFF
            }
            &&& r == Err::<Handle, IpcError>(IpcError::BadMessageSize) <==> page_count == 0
                || page_count > 16
            &&& r == Err::<Handle, IpcError>(IpcError::InvalidProcess) ==> process_slot_of(
                before,
                pid,
            ) is Err
            &&& r == Err::<Handle, IpcError>(IpcError::PmmExhausted) ==> granted.len() < page_count
            &&& r == Err::<Handle, IpcError>(IpcError::ShmTableFull) ==> !shm_room(o)
            &&& r == Err::<Handle, IpcError>(IpcError::ObjectIdExhausted) ==> o.next_object_id
                == 0xFFFF_FFFF_FFFF_FFFF
            &&& r == Err::<Handle, IpcError>(IpcError::ObjectTableFull) ==> !object_room(o)
            &&& r == Err::<Handle, IpcError>(IpcError::HandleTableFull) ==> !has_room(
                &before.caps,
                p,
            )
            &&& r == Err::<Handle, IpcError>(IpcError::CapabilityIdExhausted)
                ==> before.caps.next_capability_id == 0xFFFF_FFFF_FFFF_FFFF
            &&& r is Err ==> {
                &&& fx_after.freed_frames == fx.freed_frames + granted
                &&& after.caps == before.caps
                &&& forall|j: int|
                    0 <= j < 256 ==> (#[trigger] after.objs@.slots[j]).occupied
                        == o.slots[j].occupied && (o.slots[j].occupied ==> after.objs@.slots[j]
                        == o.slots[j])
            }
            &&& r is Ok ==> {
                let s = Slot { p, h: handle_slot(r->Ok_0) };
                let e = after.caps.entry(s);
                let i = e.object_index as int;
                let m = after.objs@.shm_of(i);
                &&& !before.caps.live(s)
                &&& none_free_before(&before.caps, p, s.h)
                &&& after.caps.live(s)
                &&& handle_gen(r->Ok_0) == e.handle_generation
                &&& e.rights == 0x3F3F
                &&& 0 <= i < 256
                &&& !o.slots[i].occupied
                &&& forall|j: int| 0 <= j < i ==> (#[trigger] o.slots[j]).occupied
                &&& after.objs@.holds(i, KernelObjectType::ShmObject)
                &&& after.objs@.slots[i].header.handle_refs == 1
                &&& after.objs@.slots[i].header.creator_pid == pid
                &&& e.object_generation == after.objs@.slots[i].generation
                &&& m.page_count == page_count
                &&& m.frames.take(page_count as int) == granted
                &&& fx_after == fx
                &&& forall|t: Slot|
                    is_slot(t) && t != s ==> (#[trigger] after.caps.entry(t))
                        == before.caps.entry(t)
            }
        }),
{
    let o = before.objs@;
    lemma_default_rights();
    law_process_is_found(before, pid);
    lemma_first_free_shm(o, 0);
    lemma_first_free_object(o, 0);
    let c = first_free_shm(o, 0);
    let i = first_free(o.slots, 0);
    assert(shm_room(o) == (c < 64)) by {
        if c < 64 {
            assert(shm_is_unused(o, c));
            assert(o.shm[c].page_count == 0);
        }
        if shm_room(o) && c >= 64 {
            let d = choose|d: int|
                0 <= d < 64 && (#[trigger] o.shm[d]).page_count == 0 && forall|i: int|
                    !(#[trigger] o.holds(i, KernelObjectType::ShmObject) && o.slots[i].pool_index
                        == d);
            assert(shm_is_unused(o, d));
        }
    }
    assert(object_room(o) == (i < 256)) by {
        if i < 256 {
            assert(!o.slots[i].occupied);
        }
    }
    if r is Ok {
        let p = process_slot_of(before, pid)->Ok_0;
        let s = Slot { p, h: handle_slot(r->Ok_0) };
        assert(!before.caps.tables@[p].entries@[s.h].occupied);
        let m = after.objs@.shm_of(i);
        assert(m.frames.take(page_count as int) =~= granted);
    }
}

/// Shared memory can be mapped exactly if the address is that of a page in the lower half, the
/// handle names a capability of the process with the right to map, for writing if that is asked
/// for, and a mapping is free. The plan then names the object, the address and the frames that the
/// object holds.
pub proof fn law_mapping_begins_exactly_if_allowed(
    k: &KernelState,
    pid: u64,
    h: Handle,
    vaddr: u64,
    writable: bool,
    r: Result<ShmMapPlan, IpcError>,
)
    requires
        k.wf(),
        planning(k, pid, h, vaddr, writable, r),
    ensures
        ({
            let s = named_slot(k, pid, h);
            let e = k.caps.entry(s);
            let right = if writable {
                e.rights & 0x0008 != 0
            } else {
                e.rights & 0x0004 != 0
            };
            &&& r is Ok <==> {
                &&& vaddr % 4096 == 0
                &&& vaddr < 0x8000_0000_0000
                &&& presents(k, pid, h, s)
                &&& right
                &&& exists|m: int| 0 <= m < 64 && !(#[trigger] k.mappings@[m]).occupied
            }
            &&& r == Err::<ShmMapPlan, IpcError>(IpcError::InvalidAddress) <==> vaddr % 4096 != 0
                || vaddr >= 0x8000_0000_0000
            &&& vaddr % 4096 == 0 && vaddr < 0x8000_0000_0000 && presents(k, pid, h, s) && !right
                ==> r == Err::<ShmMapPlan, IpcError>(IpcError::PermissionDenied)
            &&& r == Err::<ShmMapPlan, IpcError>(IpcError::MappingTableFull) <==> {
                &&& vaddr % 4096 == 0 && vaddr < 0x8000_0000_0000
                &&& presents(k, pid, h, s) && right
                &&& forall|m: int| 0 <= m < 64 ==> (#[trigger] k.mappings@[m]).occupied
            }
            &&& r is Ok ==> {
                let plan = r->Ok_0;
                &&& plan.object_index == e.object_index
                &&& plan.virtual_base == vaddr
                &&& plan.process_id == pid
                &&& plan.writable == writable
                &&& plan.page_count == k.objs@.shm_of(e.object_index as int).page_count
                &&& plan.frames@ == k.objs@.shm_of(e.object_index as int).frames
                &&& plan.mapping_index < 64
                &&& !k.mappings@[plan.mapping_index as int].occupied
                &&& forall|m: int|
                    0 <= m < plan.mapping_index ==> (#[trigger] k.mappings@[m]).occupied
            }
        }),
{
    lemma_presented(k, pid, h);
    lemma_no_rights(k.caps.entry(named_slot(k, pid, h)).rights);
    lemma_first_free_mapping(k.mappings@, 0);
    let m = first_free_mapping(k.mappings@, 0);
    if m < 64 {
        assert(!k.mappings@[m].occupied);
    }
}

/// Shared memory can be unmapped exactly if the process is there, has a mapping at the address
/// whose object is still the one that was mapped, and does not present a handle to another object.
/// Then all pages of that mapping are unmapped and it is free; otherwise nothing changes.
pub proof fn law_unmapping_succeeds_exactly_if_mapped(
    before: &KernelState,
    after: &KernelState,
    fx: &Effects,
    fx_after: &Effects,
    pid: u64,
    h: Handle,
    vaddr: u64,
    r: Result<(), IpcError>,
)
    requires
        before.wf(),
        unmapping(before, after, fx, fx_after, pid, h, vaddr, r),
    ensures
        ({
            let s = named_slot(before, pid, h);
            let found = exists|j: int|
                0 <= j < 64 && maps_at(#[trigger] before.mappings@[j], pid, vaddr);
            &&& r is Err ==> *after == *before && *fx_after == *fx
            &&& process_slot_of(before, pid) is Ok ==> (r == Err::<(), IpcError>(
                IpcError::InvalidAddress,
            ) <==> !found)
            &&& r is Ok ==> found && process_slot_of(before, pid) is Ok
            &&& found && process_slot_of(before, pid) is Ok ==> exists|j: int|
                {
                    let m = before.mappings@[j];
                    let o = before.objs@.slots[m.object_index as int];
                    &&& 0 <= j < 64
                    &&& #[trigger] maps_at(before.mappings@[j], pid, vaddr)
                    &&& r is Ok <==> {
                        &&& o.occupied
                        &&& o.generation == m.object_generation
                        &&& presents(before, pid, h, s) ==> before.caps.entry(s).object_index
                            == m.object_index
                    }
                    &&& r == Err::<(), IpcError>(IpcError::InvalidHandle) <==> !o.occupied
                        || o.generation != m.object_generation
                    &&& r == Err::<(), IpcError>(IpcError::PermissionDenied) <==> o.occupied
                        && o.generation == m.object_generation && presents(before, pid, h, s)
                        && before.caps.entry(s).object_index != m.object_index
                    &&& r is Ok ==> {
                        &&& !after.mappings@[j].occupied
                        &&& forall|n: int|
                            0 <= n < 64 && n != j ==> (#[trigger] after.mappings@[n])
                                == before.mappings@[n]
                        &&& fx_after@.unmapped_pages.len() == fx@.unmapped_pages.len()
                            + m.page_count
                        &&& forall|n: int|
                            0 <= n < m.page_count ==> #[trigger] fx_after@.unmapped_pages[fx@.unmapped_pages.len()
                                + n] == vaddr + 4096 * n
                    }
                }
        }),
{
    lemma_presented(before, pid, h);
    let ms = before.mappings@;
    lemma_mapping_at(ms, pid, vaddr, 0);
    let j = mapping_at(ms, pid, vaddr, 0);
    if j < 64 {
        assert(maps_at(before.mappings@[j], pid, vaddr));
        assert(mapping_ok(before.mappings@[j]));
        let m = before.mappings@[j];
        if r is Ok {
            assert(after.world(fx_after).fx.unmapped_pages == fx@.unmapped_pages + mapping_pages(
                m,
                m.page_count as int,
            ));
        }
    }
}

/// A handle can be closed exactly if it names a capability in use.
pub proof fn law_closing_succeeds_exactly_if_in_use(k: &KernelState, p: int, h: Handle)
    requires
        0 <= p < 16,
    ensures
        ({
            let s = Slot { p, h: handle_slot(h) };
            close_fault(k, p, h) is None <==> k.caps.live(s) && k.caps.entry(s).handle_generation
                == handle_gen(h)
        }),
{
}

/// Striking a process off a queue takes its waiters and no others, and keeps the order.
pub proof fn law_only_waiters_of_the_process_go(q: Seq<Waiter>, pid: u64, w: Waiter)
    ensures
        without_process(q, pid).contains(w) <==> q.contains(w) && w.process_id != pid,
        q.len() > 0 ==> without_process(q, pid) == without_process(q.drop_last(), pid) + (
        if q.last().process_id != pid {
            seq![q.last()]
        } else {
            Seq::empty()
        }),
    decreases q.len(),
{
    let f = |x: Waiter| x.process_id != pid;
    reveal(Seq::filter);
    if q.len() > 0 {
        let front = q.drop_last();
        law_only_waiters_of_the_process_go(front, pid, w);
        let rest = front.filter(f);
        assert(rest == without_process(front, pid));
        assert(rest.push(q.last()) =~= rest + seq![q.last()]);
        assert(rest =~= rest + Seq::<Waiter>::empty());
        let all = without_process(q, pid);
        assert(q.contains(w) <==> front.contains(w) || q.last() == w) by {
            if q.contains(w) {
                let i = choose|i: int| 0 <= i < q.len() && q[i] == w;
                if i < front.len() {
                    assert(front[i] == w);
                }
            }
            if front.contains(w) {
                let i = choose|i: int| 0 <= i < front.len() && front[i] == w;
                assert(q[i] == w);
            }
            assert(q[q.len() - 1] == q.last());
        }
        assert(all.contains(w) <==> rest.contains(w) || (q.last() == w && w.process_id != pid)) by {
            if rest.contains(w) {
                let i = choose|i: int| 0 <= i < rest.len() && rest[i] == w;
                assert(all[i] == w);
            }
            if all.contains(w) {
                let i = choose|i: int| 0 <= i < all.len() && all[i] == w;
                if i < rest.len() {
                    assert(rest[i] == w);
                }
            }
            if q.last() == w && w.process_id != pid {
                assert(all[rest.len() as int] == w);
            }
        }
    }
}

/// The generation of a slot changes whenever the slot is freed, and is never zero: a handle to
/// what the slot held does not fit what it holds next.
pub proof fn law_generations_move_on(g: u16)
    ensures
        next_generation(g) != g,
        next_generation(g) != 0,
        g < 0xFFFF ==> next_generation(g) == g + 1,
{
}

/// A handle is determined by the slot and the generation that it names.
pub proof fn law_handle_is_slot_and_generation(h: Handle)
    ensures
        h.0 == handle_slot(h) + 0x1_0000 * handle_gen(h),
        0 <= handle_slot(h) < 0x1_0000,
        0 <= handle_gen(h) < 0x1_0000,
{
}

/// A message carries its bytes and its handles at the front, and zeros behind them.
pub proof fn law_message_carries_its_contents(data: Seq<u8>, handles: Seq<u32>, i: int)
    requires
        data.len() <= 48,
        handles.len() <= 4,
    ensures
        padded_payload(data).len() == 48,
        padded_payload(data).take(data.len() as int) == data,
        data.len() <= i < 48 ==> padded_payload(data)[i] == 0,
        padded_handles(handles).len() == 4,
        padded_handles(handles).take(handles.len() as int) == handles,
        handles.len() <= i < 4 ==> padded_handles(handles)[i] == 0,
{
    assert(padded_payload(data).take(data.len() as int) =~= data);
    assert(padded_handles(handles).take(handles.len() as int) =~= handles);
}

/// What is recorded of a mapping is what was planned: whose it is, where it begins, how many pages
/// it has, and of which object, as that is now.
pub proof fn law_recorded_mapping_is_the_planned(k: &KernelState, plan: ShmMapPlan)
    ensures
        ({
            let m = plan.mapping(k);
            &&& m.occupied
            &&& m.process_id == plan.process_id
            &&& m.virtual_base == plan.virtual_base
            &&& m.page_count == plan.page_count
            &&& plan.object_index < 256 ==> m.object_index == plan.object_index
            &&& m.object_generation == k.objs@.slots[plan.object_index as int].generation
            &&& plan.writable ==> m.rights & 0x0008 != 0
            &&& !plan.writable ==> m.rights & 0x0004 != 0
        }),
{
    lemma_map_rights();
}

proof fn lemma_map_rights()
    by (bit_vector)
    ensures
        (0x0008u16 | 0x0008u16) & 0x0008u16 != 0,
        (0x0004u16 | 0x0004u16) & 0x0004u16 != 0,
{
}

/// Everyone who waits at a channel is woken, each once: those who want to receive and those who want
/// to send, at both ends.
pub proof fn law_all_who_wait_are_woken(ch: ChannelView, endpoint: u8)
    ensures
        ch.all_waiters(endpoint).to_multiset() == ch.endpoint_0.rx.to_multiset().add(
            ch.endpoint_0.tx.to_multiset(),
        ).add(ch.endpoint_1.rx.to_multiset()).add(ch.endpoint_1.tx.to_multiset()),
        ch.all_waiters(endpoint).len() == ch.endpoint_0.rx.len() + ch.endpoint_0.tx.len()
            + ch.endpoint_1.rx.len() + ch.endpoint_1.tx.len(),
{
    let a = wake_order(ch.mine(endpoint).rx);
    let b = wake_order(ch.mine(endpoint).tx);
    let c = wake_order(ch.peer(endpoint).rx);
    let d = wake_order(ch.peer(endpoint).tx);
    law_everyone_is_woken_once(ch.mine(endpoint).rx);
    law_everyone_is_woken_once(ch.mine(endpoint).tx);
    law_everyone_is_woken_once(ch.peer(endpoint).rx);
    law_everyone_is_woken_once(ch.peer(endpoint).tx);
    vstd::seq_lib::lemma_multiset_commutative(a, b);
    vstd::seq_lib::lemma_multiset_commutative(c, d);
    vstd::seq_lib::lemma_multiset_commutative(a + b, c + d);
    assert(ch.all_waiters(endpoint).to_multiset() =~= ch.endpoint_0.rx.to_multiset().add(
        ch.endpoint_0.tx.to_multiset(),
    ).add(ch.endpoint_1.rx.to_multiset()).add(ch.endpoint_1.tx.to_multiset()));
    broadcast use vstd::seq_lib::group_to_multiset_ensures;

    assert(a.len() == a.to_multiset().len() && b.len() == b.to_multiset().len());
    assert(c.len() == c.to_multiset().len() && d.len() == d.to_multiset().len());
    assert(ch.mine(endpoint).rx.len() == ch.mine(endpoint).rx.to_multiset().len());
    assert(ch.mine(endpoint).tx.len() == ch.mine(endpoint).tx.to_multiset().len());
    assert(ch.peer(endpoint).rx.len() == ch.peer(endpoint).rx.to_multiset().len());
    assert(ch.peer(endpoint).tx.len() == ch.peer(endpoint).tx.to_multiset().len());
}

proof fn lemma_signal(s: u32)
    by (bit_vector)
    ensures
        (s | 4u32) & 4u32 != 0,
        (s | 4u32) & 0xFFFF_FFFBu32 == s & 0xFFFF_FFFBu32,
{
}

/// An end without handles is closed: its peer knows, the object signals it, everyone who waits is
/// woken, and what was sent stays to be received as long as the object is there. An end with
/// handles stays as it is.
pub proof fn law_end_closes_without_handles(w: World, i: int, endpoint: u8)
    requires
        w.objs.wf(),
        w.objs.holds(i, KernelObjectType::Channel),
        w.objs.slots[i].header.total_refs() > 0,
    ensures
        ({
            let a = w.objs.channel_of(i);
            let n = w.end_released(i, endpoint);
            let b = n.objs.channel_of(i);
            let h = n.objs.slots[i].header;
            &&& a.mine(endpoint).handle_refs > 0 ==> n == w
            &&& a.mine(endpoint).handle_refs == 0 ==> {
                &&& b.mine(endpoint).is_closed
                &&& b.peer(endpoint).peer_closed
                &&& b.peer(endpoint).is_closed == a.peer(endpoint).is_closed
                &&& b.mine(endpoint).peer_closed == a.mine(endpoint).peer_closed
                &&& b.inbox(0) == a.inbox(0)
                &&& b.inbox(1) == a.inbox(1)
                &&& b.endpoint_0.rx.len() == 0 && b.endpoint_0.tx.len() == 0
                &&& b.endpoint_1.rx.len() == 0 && b.endpoint_1.tx.len() == 0
                &&& n.fx.woken == w.fx.woken + a.all_waiters(endpoint)
                &&& h.signals & 4 != 0
                &&& h.signals & 0xFFFF_FFFB == w.objs.slots[i].header.signals & 0xFFFF_FFFB
                &&& h.handle_refs == w.objs.slots[i].header.handle_refs
            }
        }),
{
    assert(w.objs.slot_ok(i));
    lemma_signal(w.objs.slots[i].header.signals);
    assert(w.objs.reclaim_channel(i) == w.objs);
}

/// A revoked handle wakes everyone who waits at its channel, closes no end and takes no message
/// away, as long as the object is there.
pub proof fn law_revoked_handle_wakes_everyone(w: World, i: int, endpoint: u8)
    requires
        w.objs.wf(),
        w.objs.holds(i, KernelObjectType::Channel),
        w.objs.slots[i].header.handle_refs > 1,
        w.objs.channel_of(i).mine(endpoint).handle_refs > 0,
    ensures
        ({
            let a = w.objs.channel_of(i);
            let n = w.handle_revoked(i, endpoint);
            let b = n.objs.channel_of(i);
            &&& n.objs.holds(i, KernelObjectType::Channel)
            &&& n.objs.slots[i].header.handle_refs + 1 == w.objs.slots[i].header.handle_refs
            &&& b.mine(endpoint).handle_refs + 1 == a.mine(endpoint).handle_refs
            &&& b.peer(endpoint).handle_refs == a.peer(endpoint).handle_refs
            &&& b.mine(endpoint).is_closed == a.mine(endpoint).is_closed
            &&& b.peer(endpoint).is_closed == a.peer(endpoint).is_closed
            &&& b.peer(endpoint).peer_closed == a.peer(endpoint).peer_closed
            &&& b.inbox(0) == a.inbox(0)
            &&& b.inbox(1) == a.inbox(1)
            &&& b.endpoint_0.rx.len() == 0 && b.endpoint_0.tx.len() == 0
            &&& b.endpoint_1.rx.len() == 0 && b.endpoint_1.tx.len() == 0
            &&& n.fx.woken.len() == w.fx.woken.len() + a.endpoint_0.rx.len()
                + a.endpoint_0.tx.len() + a.endpoint_1.rx.len() + a.endpoint_1.tx.len()
        }),
{
    assert(w.objs.slot_ok(i));
    let a1 = w.objs.channel_of(i).one_ref_less(endpoint);
    law_all_who_wait_are_woken(a1, endpoint);
}

/// An object is added exactly if a slot is free and a number is left. It then has a number of its
/// own, is active, nobody refers to it, and the generation of its slot stays; other objects are as
/// they were.
pub proof fn law_object_is_added_exactly_if_there_is_room(
    o: ObjectsView,
    n: ObjectsView,
    t: KernelObjectType,
    pool_index: u16,
    pid: u64,
    r: Result<usize, IpcError>,
)
    requires
        o.wf(),
        object_allocation(o, n, t, pool_index, pid, r),
    ensures
        r is Ok <==> object_room(o) && o.next_object_id < 0xFFFF_FFFF_FFFF_FFFF,
        r == Err::<usize, IpcError>(IpcError::ObjectIdExhausted) <==> o.next_object_id
            == 0xFFFF_FFFF_FFFF_FFFF,
        r is Err ==> n.slots == o.slots && n.channels == o.channels && n.shm == o.shm,
        r is Ok ==> {
            let i = r->Ok_0 as int;
            let s = n.slots[i];
            &&& 0 <= i < 256
            &&& !o.slots[i].occupied
            &&& forall|j: int| 0 <= j < i ==> (#[trigger] o.slots[j]).occupied
            &&& s.occupied
            &&& s.obj_type == t
            &&& s.pool_index == pool_index
            &&& s.generation == o.slots[i].generation
            &&& s.header.object_id == o.next_object_id
            &&& s.header.creator_pid == pid
            &&& s.header.total_refs() == 0
            &&& s.header.signals == 0
            &&& n.next_object_id == o.next_object_id + 1
            &&& forall|j: int| 0 <= j < 256 && j != i ==> (#[trigger] n.slots[j]) == o.slots[j]
        },
{
    lemma_first_free_object(o, 0);
    let i = first_free(o.slots, 0);
    if i < 256 {
        assert(!o.slots[i].occupied);
    }
}

} // verus!
