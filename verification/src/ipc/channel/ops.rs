//! Operations on channels. A thread that has to wait is enrolled and told so; once it was woken,
//! it goes on with the operation it had begun.
use crate::cap::node::{CapabilitySpace, Slot};
use crate::cap::ops::{
    handle_check, is_first_free, names_slot, process_slot_of, resolve_current_process_slot,
    root_installed, table_full,
};
use crate::cap::tree::closed;
use crate::cap::types::cap_rights;
use crate::ipc::channel::{
    blank_channel, blank_endpoint, first_to_wake, Channel, ChannelView, EndpointView, MAX_CHANNELS,
};
use crate::ipc::handle::{
    allocate_handle_entry_locked, close_fault, close_handle_locked, handle_slot,
    validate_handle_locked, Handle, MAX_HANDLES_PER_PROCESS,
};
use crate::ipc::object::{
    first_free, freed_slot, KernelObjectHeader, KernelObjectType, MAX_KERNEL_OBJECTS,
};
use crate::ipc::space::{
    check_and_reclaim_channel_locked, handle_added, object_added, pool_entry_unused, with_header,
    Effects, ObjectSpace, ObjectsView, World,
};
use crate::ipc::types::{rights, IpcError, IpcMessage};
use crate::ipc::wait::Waiter;
use crate::kernel::{
    ends_counted, ends_to, lemma_ends_within_refs, lemma_new_object_keeps_refs, lemma_op_pins,
    lemma_pins_kept, lemma_room_for_op, lemma_shrunk_keeps_refs, lemma_thread_changed, slot_shrunk,
    slots_shrunk, target_ok, KernelState, ThreadIpcState,
};
use crate::process::MAX_PROCESSES;
use vstd::prelude::*;

verus! {

/// An operation that a thread has begun on a channel and that waits to go on.
#[derive(Debug, Clone, Copy, PartialEq, Eq, Structural)]
pub struct PendingOp {
    pub thread: Waiter,
    pub object_index: usize,
    pub endpoint: u8,
}

/// How far an operation got.
pub enum Progress<T> {
    Done(Result<T, IpcError>),
    /// The thread is enrolled and has to be blocked; after it was woken, the operation goes on.
    Blocked(PendingOp),
}

/// The objects, what is to be done outside, and the operations in progress.
#[verifier::ext_equal]
pub struct IpcView {
    pub world: World,
    pub threads: Seq<ThreadIpcState>,
}

impl KernelState {
    pub open spec fn ipc(&self, fx: &Effects) -> IpcView {
        IpcView { world: self.world(fx), threads: self.threads@ }
    }

    /// The capabilities, the mappings and the processes are the same.
    pub open spec fn same_but_ipc(&self, other: &Self) -> bool {
        &&& self.caps == other.caps
        &&& self.mappings == other.mappings
        &&& self.processes == other.processes
    }
}

/// The header `h` with one operation in progress more.
pub open spec fn one_op_more(h: KernelObjectHeader) -> KernelObjectHeader {
    KernelObjectHeader { in_flight_op_refs: (h.in_flight_op_refs + 1) as u16, ..h }
}

/// The header `h` with one operation in progress less.
pub open spec fn one_op_less(h: KernelObjectHeader) -> KernelObjectHeader {
    KernelObjectHeader {
        in_flight_op_refs: if h.in_flight_op_refs == 0 {
            0
        } else {
            (h.in_flight_op_refs - 1) as u16
        },
        ..h
    }
}

impl IpcView {
    /// A thread has begun an operation on an object: the object stays until it is done.
    pub open spec fn pinned(self, t: int, i: int) -> IpcView {
        let o = self.world.objs;
        IpcView {
            world: World {
                objs: o.with_slot(i, with_header(o.slots[i], one_op_more(o.slots[i].header))),
                ..self.world
            },
            threads: self.threads.update(
                t,
                ThreadIpcState { occupied: true, object_index: i as u16, ..self.threads[t] },
            ),
        }
    }

    /// A thread is done with its operation, and an object without references goes.
    pub open spec fn unpinned(self, t: int, i: int) -> IpcView {
        let o = self.world.objs;
        if self.threads[t].occupied {
            IpcView {
                world: World {
                    objs: o.with_slot(
                        i,
                        with_header(o.slots[i], one_op_less(o.slots[i].header)),
                    ).reclaim_channel(i),
                    ..self.world
                },
                threads: self.threads.update(
                    t,
                    ThreadIpcState { occupied: false, ..self.threads[t] },
                ),
            }
        } else {
            self
        }
    }

    /// The channel of an object changed, and threads are to be woken.
    pub open spec fn with_channel(self, i: int, ch: ChannelView, woken: Seq<Waiter>) -> IpcView {
        IpcView {
            world: World {
                objs: self.world.objs.with_channel(i, ch),
                fx: self.world.fx.waking(woken),
            },
            ..self
        }
    }

    pub open spec fn channel_of(self, i: int) -> ChannelView {
        self.world.objs.channel_of(i)
    }

    /// What an attempt to send leaves.
    pub open spec fn after_send(self, op: PendingOp, msg: IpcMessage, blocking: bool) -> IpcView {
        let i = op.object_index as int;
        let ch = self.channel_of(i);
        match ch.send_verdict(op.endpoint, blocking) {
            Some(Ok(_)) => self.with_channel(
                i,
                ch.sent(op.endpoint, msg),
                first_to_wake(ch.peer(op.endpoint).rx),
            ).unpinned(op.thread.thread_slot as int, i),
            Some(Err(_)) => self.unpinned(op.thread.thread_slot as int, i),
            None => self.with_channel(i, ch.with_sender(op.endpoint, op.thread), Seq::empty()),
        }
    }

    /// What an attempt to receive leaves.
    pub open spec fn after_receive(self, op: PendingOp, blocking: bool) -> IpcView {
        let i = op.object_index as int;
        let ch = self.channel_of(i);
        match ch.receive_verdict(op.endpoint, blocking) {
            Some(Ok(_)) => self.with_channel(
                i,
                ch.received(op.endpoint),
                first_to_wake(ch.peer(op.endpoint).tx),
            ).unpinned(op.thread.thread_slot as int, i),
            Some(Err(_)) => self.unpinned(op.thread.thread_slot as int, i),
            None => self.with_channel(i, ch.with_receiver(op.endpoint, op.thread), Seq::empty()),
        }
    }
}

/// A verdict as the caller sees it.
pub open spec fn progress<T>(v: Option<Result<T, IpcError>>, op: PendingOp) -> Progress<T> {
    match v {
        Some(r) => Progress::Done(r),
        None => Progress::Blocked(op),
    }
}

/// The operation may go on: its thread has it in progress.
pub open spec fn op_ok(k: &KernelState, op: PendingOp) -> bool {
    &&& op.thread.thread_slot < k.threads@.len()
    &&& k.threads@[op.thread.thread_slot as int].occupied
    &&& k.threads@[op.thread.thread_slot as int].object_index == op.object_index
}

/// An operation in progress keeps its channel.
proof fn lemma_op_keeps_channel(k: &KernelState, op: PendingOp)
    requires
        k.wf(),
        op_ok(k, op),
    ensures
        k.objs@.holds(op.object_index as int, KernelObjectType::Channel),
{
    lemma_op_pins(k.threads@, k.mappings@, k.objs@, op.thread.thread_slot as int);
}

/// Ends the operation that a thread has in progress on an object, and lets a channel go that
/// nobody refers to.
pub fn release_in_flight_pin_locked(
    k: &mut KernelState,
    thread_slot: usize,
    obj_idx: usize,
    fx: &Effects,
)
    requires
        old(k).wf(),
        thread_slot < old(k).threads@.len(),
        old(k).threads@[thread_slot as int].occupied ==> old(
            k,
        ).threads@[thread_slot as int].object_index == obj_idx,
        obj_idx < MAX_KERNEL_OBJECTS,
    ensures
        final(k).wf(),
        final(k).same_but_ipc(old(k)),
        final(k).ipc(fx) == old(k).ipc(fx).unpinned(thread_slot as int, obj_idx as int),
{
    let ghost i = obj_idx as int;
    let ghost o = k.objs@;
    if k.threads[thread_slot].occupied {
        let t = k.threads[thread_slot];
        k.threads.set(
            thread_slot,
            ThreadIpcState { occupied: false, _pad: t._pad, object_index: t.object_index },
        );
        let slot = k.objs.objects.slots[obj_idx];
        assert(slot == o.slots[i]);
        assert(o.slot_ok(i));
        let ghost n = o.with_slot(i, with_header(o.slots[i], one_op_less(o.slots[i].header)));
        if slot.occupied {
            let mut header = slot.header;
            header.in_flight_op_refs = header.in_flight_op_refs.saturating_sub(1);
            assert(header == one_op_less(o.slots[i].header));
            k.objs.set_header(obj_idx, header);
        }
        assert(k.objs@ =~= n);
        check_and_reclaim_channel_locked(&mut k.objs, obj_idx);
        proof {
            lemma_op_pins(old(k).threads@, k.mappings@, o, thread_slot as int);
            lemma_thread_changed(
                old(k).threads@,
                k.mappings@,
                o,
                n,
                thread_slot as int,
                k.threads@[thread_slot as int],
            );
            lemma_pins_kept(k.threads@, k.mappings@, n, k.objs@);
            assert(slots_shrunk(o, k.objs@)) by {
                assert forall|j: int| 0 <= j < MAX_KERNEL_OBJECTS implies #[trigger] slot_shrunk(
                    o,
                    k.objs@,
                    j,
                ) by {
                    assert(n.slots[j].header.handle_refs == o.slots[j].header.handle_refs);
                    assert(o.slot_ok(j) && o.apart(i, j));
                }
            }
            lemma_shrunk_keeps_refs(&k.caps, o, k.objs@);
            assert(k.ipc(fx) =~= old(k).ipc(fx).unpinned(thread_slot as int, i));
        }
    }
}

/// Begins an operation of a thread on an object.
fn pin(k: &mut KernelState, thread_slot: usize, obj_idx: usize, fx: &Effects)
    requires
        old(k).wf(),
        thread_slot < old(k).threads@.len(),
        obj_idx < MAX_KERNEL_OBJECTS,
        !old(k).threads@[thread_slot as int].occupied,
        old(k).objs@.holds(obj_idx as int, KernelObjectType::Channel),
    ensures
        final(k).wf(),
        final(k).same_but_ipc(old(k)),
        final(k).ipc(fx) == old(k).ipc(fx).pinned(thread_slot as int, obj_idx as int),
{
    let ghost i = obj_idx as int;
    let ghost o = k.objs@;
    let t = k.threads[thread_slot];
    k.threads.set(
        thread_slot,
        ThreadIpcState { occupied: true, _pad: t._pad, object_index: obj_idx as u16 },
    );
    let mut header = k.objs.objects.slots[obj_idx].header;
    assert(header == o.slots[i].header);
    proof {
        lemma_room_for_op(old(k).threads@, k.mappings@, o, thread_slot as int, i);
    }
    header.in_flight_op_refs = header.in_flight_op_refs + 1;
    assert(header == one_op_more(o.slots[i].header));
    k.objs.set_header(obj_idx, header);
    proof {
        assert(slots_shrunk(o, k.objs@));
        lemma_shrunk_keeps_refs(&k.caps, o, k.objs@);
        lemma_thread_changed(
            old(k).threads@,
            k.mappings@,
            o,
            k.objs@,
            thread_slot as int,
            k.threads@[thread_slot as int],
        );
        assert(k.ipc(fx) =~= old(k).ipc(fx).pinned(thread_slot as int, i));
    }
}

/// Puts a channel back that was changed, and keeps the rest.
fn put_channel(k: &mut KernelState, obj_idx: usize, ch: Channel)
    requires
        old(k).wf(),
        old(k).objs@.holds(obj_idx as int, KernelObjectType::Channel),
        ch.wf(),
        ch@.same_refs(old(k).objs@.channel_of(obj_idx as int)),
    ensures
        final(k).wf(),
        final(k).same_but_ipc(old(k)),
        final(k).threads == old(k).threads,
        final(k).objs@ == old(k).objs@.with_channel(obj_idx as int, ch@),
{
    let ghost o = k.objs@;
    assert(o.slot_ok(obj_idx as int));
    let c: usize = k.objs.objects.slots[obj_idx].pool_index as usize;
    assert(c == o.slots[obj_idx as int].pool_index);
    k.objs.set_channel(c, ch);
    proof {
        assert forall|j: int| 0 <= j < MAX_KERNEL_OBJECTS implies #[trigger] slot_shrunk(
            o,
            k.objs@,
            j,
        ) by {
            assert(o.slot_ok(j) && o.apart(obj_idx as int, j));
        }
        lemma_shrunk_keeps_refs(&k.caps, o, k.objs@);
        lemma_pins_kept(k.threads@, k.mappings@, o, k.objs@);
    }
}

/// A channel of which only the counts of handles are left.
spec fn only_refs(ch: ChannelView) -> ChannelView {
    ChannelView {
        endpoint_0: EndpointView { handle_refs: ch.endpoint_0.handle_refs, ..blank_endpoint() },
        endpoint_1: EndpointView { handle_refs: ch.endpoint_1.handle_refs, ..blank_endpoint() },
        ..blank_channel()
    }
}

/// Takes the channel of an object out of the tables. The counts of handles stay there.
fn take_channel_of(k: &mut KernelState, obj_idx: usize) -> (r: Channel)
    requires
        old(k).wf(),
        old(k).objs@.holds(obj_idx as int, KernelObjectType::Channel),
    ensures
        final(k).wf(),
        final(k).same_but_ipc(old(k)),
        final(k).threads == old(k).threads,
        r.wf(),
        r@ == old(k).objs@.channel_of(obj_idx as int),
        final(k).objs@ == old(k).objs@.with_channel(
            obj_idx as int,
            only_refs(old(k).objs@.channel_of(obj_idx as int)),
        ),
{
    let ghost o = k.objs@;
    assert(o.slot_ok(obj_idx as int));
    let c: usize = k.objs.objects.slots[obj_idx].pool_index as usize;
    assert(c == o.slots[obj_idx as int].pool_index);
    let ch = k.objs.take_channel(c);
    let mut left = Channel::empty();
    left.endpoint_0.handle_refs = ch.endpoint_0.handle_refs;
    left.endpoint_1.handle_refs = ch.endpoint_1.handle_refs;
    assert(left@ =~= only_refs(ch@));
    k.objs.set_channel(c, left);
    proof {
        assert(k.objs@ =~= o.with_channel(obj_idx as int, only_refs(ch@)));
        assert forall|j: int| 0 <= j < MAX_KERNEL_OBJECTS implies #[trigger] slot_shrunk(
            o,
            k.objs@,
            j,
        ) by {
            assert(o.slot_ok(j) && o.apart(obj_idx as int, j));
        }
        lemma_shrunk_keeps_refs(&k.caps, o, k.objs@);
        lemma_pins_kept(k.threads@, k.mappings@, o, k.objs@);
    }
    ch
}

/// One attempt to send for an operation in progress.
fn attempt_send(
    k: &mut KernelState,
    fx: &mut Effects,
    op: PendingOp,
    msg: &IpcMessage,
    blocking: bool,
) -> (r: Progress<()>)
    requires
        old(k).wf(),
        op_ok(old(k), op),
    ensures
        final(k).wf(),
        final(k).same_but_ipc(old(k)),
        r == progress(
            old(k).objs@.channel_of(op.object_index as int).send_verdict(op.endpoint, blocking),
            op,
        ),
        final(k).ipc(final(fx)) == old(k).ipc(old(fx)).after_send(op, *msg, blocking),
{
    let ghost i = op.object_index as int;
    let ghost o = k.objs@;
    let ghost v = k.ipc(fx);
    let ghost ch0 = o.channel_of(i);
    proof {
        lemma_op_keeps_channel(k, op);
    }
    assert(o.slot_ok(i));
    let mut ch = take_channel_of(k, op.object_index);
    let verdict = ch.try_send(op.endpoint, *msg, blocking, op.thread, &mut fx.woken);
    let ghost ch1 = ch@;
    put_channel(k, op.object_index, ch);
    assert(k.objs@ =~= o.with_channel(i, ch1));
    match verdict {
        Some(res) => {
            proof {
                match res {
                    Ok(_) => {
                        assert(k.ipc(fx) =~= v.with_channel(
                            i,
                            ch0.sent(op.endpoint, *msg),
                            first_to_wake(ch0.peer(op.endpoint).rx),
                        ));
                    },
                    Err(_) => {
                        assert(o.with_channel(i, ch0) =~= o);
                        assert(k.ipc(fx) =~= v);
                    },
                }
            }
            release_in_flight_pin_locked(k, op.thread.thread_slot, op.object_index, fx);
            Progress::Done(res)
        },
        None => {
            assert(k.ipc(fx) =~= v.with_channel(
                i,
                ch0.with_sender(op.endpoint, op.thread),
                Seq::empty(),
            ));
            Progress::Blocked(op)
        },
    }
}

/// One attempt to receive for an operation in progress.
fn attempt_receive(k: &mut KernelState, fx: &mut Effects, op: PendingOp, blocking: bool) -> (r:
    Progress<IpcMessage>)
    requires
        old(k).wf(),
        op_ok(old(k), op),
    ensures
        final(k).wf(),
        final(k).same_but_ipc(old(k)),
        r == progress(
            old(k).objs@.channel_of(op.object_index as int).receive_verdict(op.endpoint, blocking),
            op,
        ),
        final(k).ipc(final(fx)) == old(k).ipc(old(fx)).after_receive(op, blocking),
{
    let ghost i = op.object_index as int;
    let ghost o = k.objs@;
    let ghost v = k.ipc(fx);
    let ghost ch0 = o.channel_of(i);
    proof {
        lemma_op_keeps_channel(k, op);
    }
    assert(o.slot_ok(i));
    let mut ch = take_channel_of(k, op.object_index);
    let verdict = ch.try_receive(op.endpoint, blocking, op.thread, &mut fx.woken);
    let ghost ch1 = ch@;
    put_channel(k, op.object_index, ch);
    assert(k.objs@ =~= o.with_channel(i, ch1));
    match verdict {
        Some(res) => {
            proof {
                match res {
                    Ok(_) => {
                        assert(k.ipc(fx) =~= v.with_channel(
                            i,
                            ch0.received(op.endpoint),
                            first_to_wake(ch0.peer(op.endpoint).tx),
                        ));
                    },
                    Err(_) => {
                        assert(o.with_channel(i, ch0) =~= o);
                        assert(k.ipc(fx) =~= v);
                    },
                }
            }
            release_in_flight_pin_locked(k, op.thread.thread_slot, op.object_index, fx);
            Progress::Done(res)
        },
        None => {
            assert(k.ipc(fx) =~= v.with_channel(
                i,
                ch0.with_receiver(op.endpoint, op.thread),
                Seq::empty(),
            ));
            Progress::Blocked(op)
        },
    }
}

/// Why a thread cannot begin an operation through a handle, or on what it can: any of the rights
/// in `needed` will do.
pub open spec fn begin(k: &KernelState, caller: Waiter, h: Handle, needed: u16) -> Result<
    PendingOp,
    IpcError,
> {
    match process_slot_of(k, caller.process_id) {
        Err(e) => Err(e),
        Ok(p) => match handle_check(k, p, h, 0) {
            Err(e) => Err(e),
            Ok(v) => if v.2 & needed == 0 {
                Err(IpcError::PermissionDenied)
            } else if k.threads@[caller.thread_slot as int].occupied {
                Err(IpcError::ConcurrentOperation)
            } else {
                Ok(PendingOp { thread: caller, object_index: v.0 as usize, endpoint: v.1 })
            },
        },
    }
}

/// A handle that may be used for an operation on a channel stands for a channel.
pub open spec fn channel_expected(k: &KernelState, caller: Waiter, h: Handle, needed: u16) -> bool {
    match begin(k, caller, h, needed) {
        Ok(op) => k.objs@.slots[op.object_index as int].obj_type == KernelObjectType::Channel,
        Err(_) => true,
    }
}

/// Checks a handle and begins an operation on its channel.
fn begin_op(k: &mut KernelState, fx: &Effects, caller: Waiter, handle: Handle, needed: u16) -> (r:
    Result<PendingOp, IpcError>)
    requires
        old(k).wf(),
        caller.thread_slot < old(k).threads@.len(),
        channel_expected(old(k), caller, handle, needed),
    ensures
        final(k).wf(),
        r == begin(old(k), caller, handle, needed),
        r is Err ==> *final(k) == *old(k),
        r is Ok ==> {
            &&& final(k).same_but_ipc(old(k))
            &&& op_ok(final(k), r->Ok_0)
            &&& final(k).ipc(fx) == old(k).ipc(fx).pinned(
                caller.thread_slot as int,
                r->Ok_0.object_index as int,
            )
        },
{
    let p: usize = match resolve_current_process_slot(k, caller.process_id) {
        Err(e) => {
            return Err(e);
        },
        Ok(p) => p,
    };
    let (obj_idx, endpoint, granted) = match validate_handle_locked(k, p, handle, 0) {
        Err(e) => {
            return Err(e);
        },
        Ok(v) => v,
    };
    if granted & needed == 0 {
        return Err(IpcError::PermissionDenied);
    }
    if k.threads[caller.thread_slot].occupied {
        return Err(IpcError::ConcurrentOperation);
    }
    pin(k, caller.thread_slot, obj_idx, fx);
    Ok(PendingOp { thread: caller, object_index: obj_idx, endpoint })
}

/// The outcome of sending a message through a handle.
pub open spec fn sending(
    old_k: &KernelState,
    new_k: &KernelState,
    old_fx: &Effects,
    new_fx: &Effects,
    caller: Waiter,
    handle: Handle,
    msg: IpcMessage,
    blocking: bool,
    r: Progress<()>,
) -> bool {
    match begin(old_k, caller, handle, rights::WRITE | cap_rights::CHANNEL_SEND) {
        Err(e) => {
            &&& r == Progress::<()>::Done(Err(e))
            &&& *new_k == *old_k
            &&& *new_fx == *old_fx
        },
        Ok(op) => {
            let i = op.object_index as int;
            &&& r == progress(
                old_k.objs@.channel_of(i).send_verdict(op.endpoint, blocking),
                op,
            )
            &&& new_k.ipc(new_fx) == old_k.ipc(old_fx).pinned(
                caller.thread_slot as int,
                i,
            ).after_send(op, msg, blocking)
            &&& new_k.same_but_ipc(old_k)
        },
    }
}

/// Sends a message through a channel. A full ring blocks the caller, if that is asked for, until
/// there is room or one end closes.
pub fn channel_send(
    k: &mut KernelState,
    fx: &mut Effects,
    caller: Waiter,
    handle: Handle,
    msg: &IpcMessage,
    blocking: bool,
) -> (r: Progress<()>)
    requires
        old(k).wf(),
        caller.thread_slot < old(k).threads@.len(),
        channel_expected(old(k), caller, handle, rights::WRITE | cap_rights::CHANNEL_SEND),
    ensures
        final(k).wf(),
        sending(old(k), final(k), old(fx), final(fx), caller, handle, *msg, blocking, r),
{
    match begin_op(k, fx, caller, handle, rights::WRITE | cap_rights::CHANNEL_SEND) {
        Err(e) => Progress::Done(Err(e)),
        Ok(op) => {
            assert(k.objs@.channel_of(op.object_index as int) == old(k).objs@.channel_of(
                op.object_index as int,
            ));
            attempt_send(k, fx, op, msg, blocking)
        },
    }
}

/// Goes on with a send after its thread was woken.
pub fn resume_send(k: &mut KernelState, fx: &mut Effects, op: PendingOp, msg: &IpcMessage) -> (r:
    Progress<()>)
    requires
        old(k).wf(),
        op_ok(old(k), op),
    ensures
        final(k).wf(),
        final(k).same_but_ipc(old(k)),
        r == progress(
            old(k).objs@.channel_of(op.object_index as int).send_verdict(op.endpoint, true),
            op,
        ),
        final(k).ipc(final(fx)) == old(k).ipc(old(fx)).after_send(op, *msg, true),
{
    attempt_send(k, fx, op, msg, true)
}

/// The outcome of receiving a message through a handle.
pub open spec fn receiving(
    old_k: &KernelState,
    new_k: &KernelState,
    old_fx: &Effects,
    new_fx: &Effects,
    caller: Waiter,
    handle: Handle,
    blocking: bool,
    r: Progress<IpcMessage>,
) -> bool {
    match begin(old_k, caller, handle, rights::READ | cap_rights::CHANNEL_RECEIVE) {
        Err(e) => {
            &&& r == Progress::<IpcMessage>::Done(Err(e))
            &&& *new_k == *old_k
            &&& *new_fx == *old_fx
        },
        Ok(op) => {
            let i = op.object_index as int;
            &&& r == progress(
                old_k.objs@.channel_of(i).receive_verdict(op.endpoint, blocking),
                op,
            )
            &&& new_k.ipc(new_fx) == old_k.ipc(old_fx).pinned(
                caller.thread_slot as int,
                i,
            ).after_receive(op, blocking)
            &&& new_k.same_but_ipc(old_k)
        },
    }
}

/// Receives a message from a channel. An empty ring blocks the caller, if that is asked for,
/// until a message comes or one end closes.
pub fn channel_receive(
    k: &mut KernelState,
    fx: &mut Effects,
    caller: Waiter,
    handle: Handle,
    blocking: bool,
) -> (r: Progress<IpcMessage>)
    requires
        old(k).wf(),
        caller.thread_slot < old(k).threads@.len(),
        channel_expected(old(k), caller, handle, rights::READ | cap_rights::CHANNEL_RECEIVE),
    ensures
        final(k).wf(),
        receiving(old(k), final(k), old(fx), final(fx), caller, handle, blocking, r),
{
    match begin_op(k, fx, caller, handle, rights::READ | cap_rights::CHANNEL_RECEIVE) {
        Err(e) => Progress::Done(Err(e)),
        Ok(op) => {
            assert(k.objs@.channel_of(op.object_index as int) == old(k).objs@.channel_of(
                op.object_index as int,
            ));
            attempt_receive(k, fx, op, blocking)
        },
    }
}

/// Goes on with a receive after its thread was woken. If the end itself was closed meanwhile,
/// nothing is delivered.
pub fn resume_receive(k: &mut KernelState, fx: &mut Effects, op: PendingOp) -> (r: Progress<
    IpcMessage,
>)
    requires
        old(k).wf(),
        op_ok(old(k), op),
    ensures
        final(k).wf(),
        final(k).same_but_ipc(old(k)),
        ({
            let ch = old(k).objs@.channel_of(op.object_index as int);
            if ch.mine(op.endpoint).is_closed {
                &&& r == Progress::<IpcMessage>::Done(Err(IpcError::EndpointClosed))
                &&& final(k).ipc(final(fx)) == old(k).ipc(old(fx)).unpinned(
                    op.thread.thread_slot as int,
                    op.object_index as int,
                )
            } else {
                &&& r == progress(ch.receive_verdict(op.endpoint, true), op)
                &&& final(k).ipc(final(fx)) == old(k).ipc(old(fx)).after_receive(op, true)
            }
        }),
{
    proof {
        lemma_op_keeps_channel(k, op);
    }
    assert(k.objs@.slot_ok(op.object_index as int));
    let c: usize = k.objs.objects.slots[op.object_index].pool_index as usize;
    assert(k.objs@.channel_of(op.object_index as int) == k.objs.channels@[c as int]@);
    let (is_closed, gone) = k.objs.channels[c].closure(op.endpoint);
    if is_closed {
        release_in_flight_pin_locked(k, op.thread.thread_slot, op.object_index, fx);
        return Progress::Done(Err(IpcError::EndpointClosed));
    }
    if gone && k.objs.channels[c].inbox_empty(op.endpoint) {
        release_in_flight_pin_locked(k, op.thread.thread_slot, op.object_index, fx);
        return Progress::Done(Err(IpcError::PeerClosed));
    }
    attempt_receive(k, fx, op, true)
}

/// What closing a handle to a channel leaves of the objects.
pub open spec fn channel_end_released(w: World, i: int, endpoint: u8) -> World {
    (World { objs: w.objs.handle_gone(i, endpoint), ..w }).end_released(i, endpoint)
}

/// What closing a handle does to the end it stood for, when `left` other handles to that end are
/// left: with none left the end closes and its peer knows, otherwise both stay as they are.
pub open spec fn end_closes_with_its_last_handle(
    o: ObjectsView,
    n: ObjectsView,
    i: int,
    endpoint: u8,
    left: int,
) -> bool {
    let a = o.channel_of(i);
    let b = n.channel_of(i);
    &&& left > 0 ==> n.holds(i, KernelObjectType::Channel)
    &&& n.holds(i, KernelObjectType::Channel) ==> {
        &&& b.mine(endpoint).handle_refs == left
        &&& b.mine(endpoint).is_closed == (a.mine(endpoint).is_closed || left == 0)
        &&& b.peer(endpoint).peer_closed == (a.peer(endpoint).peer_closed || left == 0)
    }
}

/// Closes a handle to one end of a channel. The end closes exactly if no other handle to it is
/// left; then the other end is told and everyone who waits is woken. The channel goes once nobody
/// refers to it.
pub fn channel_close(k: &mut KernelState, fx: &mut Effects, current_pid: u64, handle: Handle) -> (r:
    Result<(), IpcError>)
    requires
        old(k).wf(),
        process_slot_of(old(k), current_pid) is Ok && close_fault(
            old(k),
            process_slot_of(old(k), current_pid)->Ok_0,
            handle,
        ) is None ==> {
            let e = old(k).caps.entry(
                Slot { p: process_slot_of(old(k), current_pid)->Ok_0, h: handle_slot(handle) },
            );
            old(k).objs@.slots[e.object_index as int].obj_type == KernelObjectType::Channel
        },
    ensures
        final(k).wf(),
        match process_slot_of(old(k), current_pid) {
            Err(e) => r == Err::<(), IpcError>(e) && *final(k) == *old(k) && *final(fx) == *old(fx),
            Ok(p) => match close_fault(old(k), p, handle) {
                Some(e) => r == Err::<(), IpcError>(e) && *final(k) == *old(k) && *final(fx) == *old(
                    fx,
                ),
                None => {
                    let s = Slot { p, h: handle_slot(handle) };
                    let e = old(k).caps.entry(s);
                    &&& r is Ok
                    &&& final(k).same_rest(old(k))
                    &&& closed(&old(k).caps, &final(k).caps, s)
                    &&& final(k).world(final(fx)) == channel_end_released(
                        old(k).world(old(fx)),
                        e.object_index as int,
                        e.endpoint,
                    )
                    &&& end_closes_with_its_last_handle(
                        old(k).objs@,
                        final(k).objs@,
                        e.object_index as int,
                        e.endpoint,
                        ends_to(&final(k).caps, e.object_index as int, e.endpoint == 0),
                    )
                },
            },
        },
{
    let p: usize = match resolve_current_process_slot(k, current_pid) {
        Err(e) => {
            return Err(e);
        },
        Ok(p) => p,
    };
    let (obj_idx, endpoint) = match close_handle_locked(k, p, handle) {
        Err(e) => {
            return Err(e);
        },
        Ok(v) => v,
    };
    let ghost o = k.objs@;
    let ghost w = k.world(fx);
    proof {
        let s = Slot { p: p as int, h: handle_slot(handle) };
        assert(old(k).caps.live(s));
        assert(target_ok(&old(k).caps, old(k).objs@, s));
        assert(o.slots[obj_idx as int].occupied);
    }
    k.objs.release_closed(obj_idx, endpoint, fx);
    proof {
        crate::cap::ops::lemma_end_released_shrinks(w, obj_idx as int, endpoint);
        lemma_shrunk_keeps_refs(&k.caps, o, k.objs@);
        lemma_pins_kept(k.threads@, k.mappings@, o, k.objs@);
        assert(k.world(fx) =~= w.end_released(obj_idx as int, endpoint));
        assert(w =~= (World {
            objs: old(k).objs@.handle_gone(obj_idx as int, endpoint),
            ..old(k).world(old(fx))
        }));
        let i = obj_idx as int;
        assert(o.slot_ok(i));
        assert(ends_counted(o, i, ends_to(&k.caps, i, true), ends_to(&k.caps, i, false)));
        lemma_ends_within_refs(&k.caps, i, endpoint == 0);
    }
    Ok(())
}

/// Strikes the waiters of a process that ends off all queues.
pub fn cancel_channel_waiters_for_process_locked(o: &mut ObjectSpace, pid: u64)
    requires
        old(o).wf(),
    ensures
        final(o).wf(),
        final(o)@.slots == old(o)@.slots,
        final(o)@.next_object_id == old(o)@.next_object_id,
        final(o)@.shm == old(o)@.shm,
        final(o)@.channels == Seq::new(
            MAX_CHANNELS as nat,
            |i: int| old(o)@.channels[i].without_process(pid),
        ),
{
    let ghost before = o@;
    let mut i: usize = 0;
    while i < MAX_CHANNELS
        invariant
            i <= MAX_CHANNELS,
            before.wf(),
            o.wf(),
            o@.slots == before.slots,
            o@.next_object_id == before.next_object_id,
            o@.shm == before.shm,
            o@.channels.len() == MAX_CHANNELS,
            forall|j: int|
                0 <= j < MAX_CHANNELS ==> (#[trigger] o@.channels[j]) == (if j < i {
                    before.channels[j].without_process(pid)
                } else {
                    before.channels[j]
                }),
        decreases MAX_CHANNELS - i,
    {
        let ghost now = o@;
        let mut ch = o.take_channel(i);
        ch.remove_process(pid);
        o.set_channel(i, ch);
        assert forall|j: int| 0 <= j < MAX_CHANNELS implies (#[trigger] o@.channels[j]) == (if j < i
            + 1 {
            before.channels[j].without_process(pid)
        } else {
            before.channels[j]
        }) by {
            assert(now.channels[j] == (if j < i {
                before.channels[j].without_process(pid)
            } else {
                before.channels[j]
            }));
        }
        i = i + 1;
    }
    assert(o@.channels =~= Seq::new(
        MAX_CHANNELS as nat,
        |i: int| before.channels[i].without_process(pid),
    ));
}

/// The rights of both ends of a new channel.
pub const CHANNEL_DEFAULT_RIGHTS: u16 = rights::READ | rights::WRITE | rights::TRANSFER
    | rights::DUPLICATE | rights::SIGNAL | rights::WAIT | cap_rights::CHANNEL_SEND
    | cap_rights::CHANNEL_RECEIVE | cap_rights::DUPLICATE | cap_rights::TRANSFER
    | cap_rights::REVOKE | cap_rights::CLOSE | cap_rights::INSPECT | cap_rights::AUDIT;

/// A channel that may be given to a new object.
pub open spec fn channel_is_free(o: ObjectsView, c: int) -> bool {
    let ch = o.channels[c];
    &&& ch.endpoint_0.handle_refs == 0
    &&& ch.endpoint_1.handle_refs == 0
    &&& !ch.endpoint_0.is_closed
    &&& !ch.endpoint_1.is_closed
    &&& pool_entry_unused(o, KernelObjectType::Channel, c)
}

/// The first free channel at or after `from`, or the number of channels.
pub open spec fn first_free_channel(o: ObjectsView, from: int) -> int
    decreases MAX_CHANNELS - from,
{
    if from >= MAX_CHANNELS {
        MAX_CHANNELS as int
    } else if channel_is_free(o, from) {
        from
    } else {
        first_free_channel(o, from + 1)
    }
}

/// A channel with one handle at each end.
pub open spec fn fresh_channel() -> ChannelView {
    let e = EndpointView { handle_refs: 1, ..blank_endpoint() };
    ChannelView { endpoint_0: e, endpoint_1: e, ..blank_channel() }
}

/// The objects after channel `c` was given to a new object in slot `i`, to which there is no
/// handle yet.
pub open spec fn channel_added(o: ObjectsView, i: int, c: int, pid: u64) -> ObjectsView {
    let n = object_added(o, i, KernelObjectType::Channel, c as u16, pid);
    ObjectsView { channels: n.channels.update(c, blank_channel()), ..n }
}

/// Two entries of the table of a process are free.
pub open spec fn two_free(c: &CapabilitySpace, p: int) -> bool {
    exists|g: int, h: int|
        0 <= g < h < MAX_HANDLES_PER_PROCESS && !(#[trigger] c.tables@[p].entries@[g]).occupied
            && !(#[trigger] c.tables@[p].entries@[h]).occupied
}

/// Why no channel can be created for a process; `None` when one can.
pub open spec fn create_fault(k: &KernelState, p: int) -> Option<IpcError> {
    if first_free_channel(k.objs@, 0) >= MAX_CHANNELS {
        Some(IpcError::ChannelTableFull)
    } else if k.objs@.next_object_id == u64::MAX {
        Some(IpcError::ObjectIdExhausted)
    } else if first_free(k.objs@.slots, 0) >= MAX_KERNEL_OBJECTS {
        Some(IpcError::ObjectTableFull)
    } else if table_full(&k.caps, p) {
        Some(IpcError::HandleTableFull)
    } else if k.caps.next_capability_id == u64::MAX {
        Some(IpcError::CapabilityIdExhausted)
    } else if !two_free(&k.caps, p) {
        Some(IpcError::HandleTableFull)
    } else if k.caps.next_capability_id == u64::MAX - 1 {
        Some(IpcError::CapabilityIdExhausted)
    } else {
        None
    }
}

/// There is room for a channel and for a handle to its first end.
pub open spec fn first_end_possible(k: &KernelState, p: int) -> bool {
    &&& first_free_channel(k.objs@, 0) < MAX_CHANNELS
    &&& k.objs@.next_object_id < u64::MAX
    &&& first_free(k.objs@.slots, 0) < MAX_KERNEL_OBJECTS
    &&& !table_full(&k.caps, p)
    &&& k.caps.next_capability_id < u64::MAX
}

/// A root capability for one end of a channel appeared in the first free slot of a process.
pub open spec fn end_installed(
    before: &CapabilitySpace,
    after: &CapabilitySpace,
    p: int,
    h: int,
    i: int,
    gen: u16,
    endpoint: u8,
) -> bool {
    &&& is_first_free(before, p, h)
    &&& root_installed(
        before,
        after,
        Slot { p, h },
        i as u16,
        gen,
        CHANNEL_DEFAULT_RIGHTS,
        endpoint,
    )
}

/// The capabilities hold both ends of a new channel.
pub open spec fn both_ends_installed(
    old_space: &CapabilitySpace,
    new: &CapabilitySpace,
    p: int,
    i: int,
    gen: u16,
    h0: Handle,
    h1: Handle,
) -> bool {
    &&& names_slot(h0, new, Slot { p, h: handle_slot(h0) })
    &&& names_slot(h1, new, Slot { p, h: handle_slot(h1) })
    &&& exists|mid: CapabilitySpace|
        #[trigger] end_installed(old_space, &mid, p, handle_slot(h0), i, gen, 0) && end_installed(
            &mid,
            new,
            p,
            handle_slot(h1),
            i,
            gen,
            1,
        )
}

/// What a failed creation leaves of the capabilities: the handle to the first end, if it was
/// made, was closed again.
pub open spec fn first_end_withdrawn(
    old_space: &CapabilitySpace,
    new: &CapabilitySpace,
    p: int,
    i: int,
    gen: u16,
) -> bool {
    exists|mid: CapabilitySpace, h: int|
        #[trigger] end_installed(old_space, &mid, p, h, i, gen, 0) && closed(
            &mid,
            new,
            Slot { p, h },
        )
}

/// What a failed creation leaves of the objects: identifiers and generations that were used, and
/// a channel that is free again.
pub open spec fn objects_after_failure(o: ObjectsView, pid: u64) -> ObjectsView {
    let c = first_free_channel(o, 0);
    let i = first_free(o.slots, 0);
    if c >= MAX_CHANNELS || o.next_object_id == u64::MAX {
        o
    } else if i >= MAX_KERNEL_OBJECTS {
        ObjectsView { next_object_id: (o.next_object_id + 1) as u64, ..o }
    } else {
        let n = channel_added(o, i, c, pid);
        n.with_slot(i, freed_slot(n.slots[i]))
    }
}

/// Finds a channel that is not in use.
fn find_free_channel(o: &ObjectSpace) -> (r: Option<usize>)
    requires
        o.wf(),
    ensures
        match r {
            None => first_free_channel(o@, 0) >= MAX_CHANNELS,
            Some(c) => c < MAX_CHANNELS && first_free_channel(o@, 0) == c && channel_is_free(
                o@,
                c as int,
            ),
        },
{
    let mut c: usize = 0;
    while c < MAX_CHANNELS
        invariant
            c <= MAX_CHANNELS,
            o.wf(),
            first_free_channel(o@, 0) == first_free_channel(o@, c as int),
        decreases MAX_CHANNELS - c,
    {
        let ch = &o.channels[c];
        assert(ch@ == o@.channels[c as int]);
        if ch.endpoint_0.handle_refs == 0 && ch.endpoint_1.handle_refs == 0
            && !ch.endpoint_0.is_closed && !ch.endpoint_1.is_closed {
            let mut in_use = false;
            let mut i: usize = 0;
            while i < MAX_KERNEL_OBJECTS && !in_use
                invariant
                    i <= MAX_KERNEL_OBJECTS,
                    o.wf(),
                    !in_use ==> forall|j: int|
                        j < i ==> !(#[trigger] o@.holds(j, KernelObjectType::Channel)
                            && o@.slots[j].pool_index == c),
                    in_use ==> exists|j: int|
                        #[trigger] o@.holds(j, KernelObjectType::Channel) && o@.slots[j].pool_index
                            == c,
                decreases MAX_KERNEL_OBJECTS - i,
            {
                let s = o.objects.slots[i];
                assert(s == o@.slots[i as int]);
                if s.occupied && s.obj_type == KernelObjectType::Channel && s.pool_index as usize
                    == c {
                    assert(o@.holds(i as int, KernelObjectType::Channel));
                    in_use = true;
                }
                i = i + 1;
            }
            if !in_use {
                assert(channel_is_free(o@, c as int));
                return Some(c);
            }
            assert(!channel_is_free(o@, c as int));
        }
        c = c + 1;
    }
    None
}

/// Gives a channel to a new object: what `channel_create` does before the handles are made.
fn add_channel(k: &mut KernelState, c: usize, pid: u64) -> (r: Result<usize, IpcError>)
    requires
        old(k).wf(),
        c < MAX_CHANNELS,
        channel_is_free(old(k).objs@, c as int),
    ensures
        final(k).wf(),
        final(k).caps == old(k).caps,
        final(k).same_rest(old(k)),
        ({
            let o = old(k).objs@;
            let i = first_free(o.slots, 0);
            if o.next_object_id == u64::MAX {
                r == Err::<usize, IpcError>(IpcError::ObjectIdExhausted) && final(k).objs@ == o
            } else if i >= MAX_KERNEL_OBJECTS {
                &&& r == Err::<usize, IpcError>(IpcError::ObjectTableFull)
                &&& final(k).objs@ == (ObjectsView {
                    next_object_id: (o.next_object_id + 1) as u64,
                    ..o
                })
            } else {
                &&& r == Ok::<usize, IpcError>(i as usize)
                &&& 0 <= i
                &&& !o.slots[i].occupied
                &&& final(k).objs@ == channel_added(o, i, c as int, pid)
            }
        }),
{
    let ghost o = k.objs@;
    let obj_idx: usize = match k.objs.add_object(KernelObjectType::Channel, c as u16, pid) {
        Err(e) => {
            proof {
                assert(slots_shrunk(o, k.objs@));
                lemma_shrunk_keeps_refs(&k.caps, o, k.objs@);
                lemma_pins_kept(k.threads@, k.mappings@, o, k.objs@);
            }
            return Err(e);
        },
        Ok(i) => i,
    };
    k.objs.set_channel(c, Channel::empty());
    proof {
        let i = obj_idx as int;
        assert(k.objs@ =~= channel_added(o, i, c as int, pid));
        assert forall|j: int| 0 <= j < MAX_KERNEL_OBJECTS && j != i implies (
        #[trigger] k.objs@.slots[j]) == o.slots[j] && (o.holds(j, KernelObjectType::Channel)
            ==> k.objs@.channel_of(j).same_refs(o.channel_of(j))) by {
            assert(o.slot_ok(j));
            assert(!(o.holds(j, KernelObjectType::Channel) && o.slots[j].pool_index == c));
        }
        lemma_new_object_keeps_refs(&k.caps, o, k.objs@, i);
        assert(o.slot_ok(i));
        lemma_pins_kept(k.threads@, k.mappings@, o, k.objs@);
    }
    Ok(obj_idx)
}

/// Frees the slot of an object to which nobody refers.
fn give_slot_back(k: &mut KernelState, obj_idx: usize)
    requires
        old(k).wf(),
        obj_idx < MAX_KERNEL_OBJECTS,
        old(k).objs@.slots[obj_idx as int].occupied,
        old(k).objs@.slots[obj_idx as int].header.total_refs() == 0,
    ensures
        final(k).wf(),
        final(k).caps == old(k).caps,
        final(k).same_rest(old(k)),
        final(k).objs@ == old(k).objs@.with_slot(
            obj_idx as int,
            freed_slot(old(k).objs@.slots[obj_idx as int]),
        ),
{
    let ghost o = k.objs@;
    k.objs.free_slot(obj_idx);
    proof {
        assert(slots_shrunk(o, k.objs@));
        lemma_shrunk_keeps_refs(&k.caps, o, k.objs@);
        lemma_pins_kept(k.threads@, k.mappings@, o, k.objs@);
    }
}

/// A table with one free entry filled is full exactly if there were not two.
proof fn lemma_two_free(
    before: &CapabilitySpace,
    after: &CapabilitySpace,
    p: int,
    h: int,
)
    requires
        0 <= p < MAX_PROCESSES,
        is_first_free(before, p, h),
        after.entry(Slot { p, h }).occupied,
        forall|t: Slot|
            crate::cap::node::is_slot(t) && t != (Slot { p, h }) ==> (#[trigger] after.entry(t))
                == before.entry(t),
    ensures
        table_full(after, p) <==> !two_free(before, p),
{
    if two_free(before, p) {
        let (a, b) = choose|a: int, b: int|
            0 <= a < b < MAX_HANDLES_PER_PROCESS && !(
            #[trigger] before.tables@[p].entries@[a]).occupied && !(
            #[trigger] before.tables@[p].entries@[b]).occupied;
        assert(h <= a);
        assert(after.entry(Slot { p, h: b }) == before.entry(Slot { p, h: b }));
        assert(!after.tables@[p].entries@[b].occupied);
    } else {
        assert forall|g: int| 0 <= g < MAX_HANDLES_PER_PROCESS implies
            #[trigger] after.tables@[p].entries@[g].occupied by {
            if g != h {
                assert(after.entry(Slot { p, h: g }) == before.entry(Slot { p, h: g }));
                if !before.tables@[p].entries@[g].occupied {
                    assert(g > h);
                    assert(!before.tables@[p].entries@[h].occupied);
                }
            } else {
                assert(after.entry(Slot { p, h: g }).occupied);
            }
        }
    }
}

/// The outcome of creating a channel for a process.
pub open spec fn creating(
    old_k: &KernelState,
    new_k: &KernelState,
    pid: u64,
    r: Result<(Handle, Handle), IpcError>,
) -> bool {
    match process_slot_of(old_k, pid) {
        Err(e) => r == Err::<(Handle, Handle), IpcError>(e) && *new_k == *old_k,
        Ok(p) => {
            let o = old_k.objs@;
            let i = first_free(o.slots, 0);
            let c = first_free_channel(o, 0);
            match create_fault(old_k, p) {
                Some(e) => {
                    &&& r == Err::<(Handle, Handle), IpcError>(e)
                    &&& new_k.objs@ == objects_after_failure(o, pid)
                    &&& if first_end_possible(old_k, p) {
                        first_end_withdrawn(
                            &old_k.caps,
                            &new_k.caps,
                            p,
                            i,
                            o.slots[i].generation,
                        )
                    } else {
                        new_k.caps == old_k.caps
                    }
                },
                None => {
                    &&& r is Ok
                    &&& both_ends_installed(
                        &old_k.caps,
                        &new_k.caps,
                        p,
                        i,
                        o.slots[i].generation,
                        r->Ok_0.0,
                        r->Ok_0.1,
                    )
                    &&& new_k.objs@ == handle_added(
                        handle_added(channel_added(o, i, c, pid), i, 0),
                        i,
                        1,
                    )
                    &&& new_k.objs@.channel_of(i) == fresh_channel()
                },
            }
        },
    }
}

/// Creates a channel and a handle to each of its ends.
pub fn channel_create(k: &mut KernelState, current_pid: u64) -> (r: Result<
    (Handle, Handle),
    IpcError,
>)
    requires
        old(k).wf(),
    ensures
        final(k).wf(),
        final(k).same_rest(old(k)),
        creating(old(k), final(k), current_pid, r),
{
    let p: usize = match resolve_current_process_slot(k, current_pid) {
        Err(e) => {
            return Err(e);
        },
        Ok(p) => p,
    };
    let ghost o = k.objs@;
    let ghost c0 = k.caps;
    let c: usize = match find_free_channel(&k.objs) {
        None => {
            return Err(IpcError::ChannelTableFull);
        },
        Some(c) => c,
    };
    let obj_idx: usize = match add_channel(k, c, current_pid) {
        Err(e) => {
            return Err(e);
        },
        Ok(i) => i,
    };
    let ghost i = obj_idx as int;
    let ghost made = k.objs@;
    let ghost gen = o.slots[i].generation;
    let h0 = match allocate_handle_entry_locked(k, p, obj_idx, CHANNEL_DEFAULT_RIGHTS, 0) {
        Err(e) => {
            give_slot_back(k, obj_idx);
            return Err(e);
        },
        Ok(h) => h,
    };
    let ghost c1 = k.caps;
    let ghost s0 = Slot { p: p as int, h: handle_slot(h0) };
    proof {
        assert(end_installed(&c0, &c1, p as int, handle_slot(h0), i, gen, 0));
        lemma_two_free(&c0, &c1, p as int, handle_slot(h0));
    }
    let h1 = match allocate_handle_entry_locked(k, p, obj_idx, CHANNEL_DEFAULT_RIGHTS, 1) {
        Err(e) => {
            assert(close_fault(k, p as int, h0) is None);
            let _ = close_handle_locked(k, p, h0);
            give_slot_back(k, obj_idx);
            assert(k.objs@ =~= made.with_slot(i, freed_slot(made.slots[i])));
            return Err(e);
        },
        Ok(h) => h,
    };
    proof {
        assert(end_installed(&c1, &k.caps, p as int, handle_slot(h1), i, gen, 1));
        assert(handle_slot(h1) != handle_slot(h0)) by {
            assert(c1.entry(s0).occupied);
        }
        assert(k.caps.entry(s0) == c1.entry(s0));
    }
    Ok((h0, h1))
}

} // verus!
