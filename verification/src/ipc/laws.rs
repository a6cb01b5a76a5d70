//! What holds of channels and shared memory as a whole.
use crate::cap::exit::{mapping_pages, mapping_removed};
use crate::ipc::channel::ops::{
    channel_added, channel_end_released, fresh_channel, IpcView, PendingOp,
};
use crate::ipc::channel::{blank_channel, ChannelView, CHANNEL_RING_CAPACITY, MAX_CHANNELS};
use crate::ipc::object::{
    next_generation, KernelObjectSlot, KernelObjectType, MAX_KERNEL_OBJECTS,
};
use crate::ipc::shm::ops::{fresh_shm, mapping_added, shm_added};
use crate::ipc::shm::{
    blank_shm, ShmMapping, MAX_SHM_MAPPINGS, MAX_SHM_OBJECTS, MAX_SHM_PAGES,
};
use crate::ipc::space::{handle_added, World};
use crate::ipc::types::{IpcError, IpcMessage};
use crate::ipc::wait::{wake_order, Waiter};
use crate::kernel::{mappings_of, ops_on, pins_ok, KernelState};
use vstd::prelude::*;

verus! {

/// The other end.
pub open spec fn other_end(endpoint: u8) -> u8 {
    if endpoint == 0 {
        1
    } else {
        0
    }
}

/// The channel after messages were sent from an end, one after the other.
pub open spec fn all_sent(ch: ChannelView, endpoint: u8, msgs: Seq<IpcMessage>) -> ChannelView
    decreases msgs.len(),
{
    if msgs.len() == 0 {
        ch
    } else {
        all_sent(ch, endpoint, msgs.drop_last()).sent(endpoint, msgs.last())
    }
}

/// The channel after `n` messages were received at an end.
pub open spec fn after_receiving(ch: ChannelView, endpoint: u8, n: nat) -> ChannelView
    decreases n,
{
    if n == 0 {
        ch
    } else {
        after_receiving(ch, endpoint, (n - 1) as nat).received(endpoint)
    }
}

/// What `n` receives at an end deliver.
pub open spec fn delivered(ch: ChannelView, endpoint: u8, n: nat) -> Seq<IpcMessage> {
    Seq::new(n, |i: int| after_receiving(ch, endpoint, i as nat).inbox(endpoint)[0])
}

impl World {
    /// A handle to shared memory was closed.
    pub open spec fn shm_handle_gone(self, i: int) -> World {
        (World { objs: self.objs.handle_gone(i, 0), ..self }).reclaim_shm(i)
    }
}

/// What is sent at one end arrives at the other, behind what is there already; what goes the
/// other way is not touched.
pub proof fn law_sent_arrives(ch: ChannelView, endpoint: u8, msgs: Seq<IpcMessage>)
    ensures
        all_sent(ch, endpoint, msgs).inbox(other_end(endpoint)) == ch.inbox(other_end(endpoint))
            + msgs,
        all_sent(ch, endpoint, msgs).inbox(endpoint) == ch.inbox(endpoint),
    decreases msgs.len(),
{
    if msgs.len() == 0 {
        assert(ch.inbox(other_end(endpoint)) + msgs =~= ch.inbox(other_end(endpoint)));
    } else {
        law_sent_arrives(ch, endpoint, msgs.drop_last());
        assert(ch.inbox(other_end(endpoint)) + msgs.drop_last() + seq![msgs.last()] =~= ch.inbox(
            other_end(endpoint),
        ) + msgs);
        assert((ch.inbox(other_end(endpoint)) + msgs.drop_last()).push(msgs.last()) =~= ch.inbox(
            other_end(endpoint),
        ) + msgs);
    }
}

/// Messages are delivered in the order in which they stand in the ring, each once.
pub proof fn law_delivery_is_in_order(ch: ChannelView, endpoint: u8, n: nat)
    requires
        n <= ch.inbox(endpoint).len(),
    ensures
        delivered(ch, endpoint, n) == ch.inbox(endpoint).take(n as int),
        after_receiving(ch, endpoint, n).inbox(endpoint) == ch.inbox(endpoint).skip(n as int),
        after_receiving(ch, endpoint, n).inbox(other_end(endpoint)) == ch.inbox(
            other_end(endpoint),
        ),
    decreases n,
{
    if n == 0 {
        assert(ch.inbox(endpoint).skip(0) =~= ch.inbox(endpoint));
        assert(delivered(ch, endpoint, n) =~= ch.inbox(endpoint).take(0));
    } else {
        let m = (n - 1) as nat;
        law_delivery_is_in_order(ch, endpoint, m);
        let q = ch.inbox(endpoint);
        assert(q.skip(m as int).skip(1) =~= q.skip(n as int));
        assert forall|i: int| 0 <= i < n implies delivered(ch, endpoint, n)[i] == q.take(n as int)[i] by {
            if i < m {
                assert(delivered(ch, endpoint, m)[i] == q.take(m as int)[i]);
                assert(delivered(ch, endpoint, m)[i] == delivered(ch, endpoint, n)[i]);
            }
        }
        assert(delivered(ch, endpoint, n) =~= q.take(n as int));
    }
}

/// What is sent through an empty ring is received at the other end: the same messages, in the
/// same order.
pub proof fn law_received_is_what_was_sent(ch: ChannelView, endpoint: u8, msgs: Seq<IpcMessage>)
    requires
        ch.inbox(other_end(endpoint)).len() == 0,
    ensures
        delivered(all_sent(ch, endpoint, msgs), other_end(endpoint), msgs.len()) == msgs,
{
    law_sent_arrives(ch, endpoint, msgs);
    law_delivery_is_in_order(all_sent(ch, endpoint, msgs), other_end(endpoint), msgs.len());
    assert(ch.inbox(other_end(endpoint)) + msgs =~= msgs);
    assert(msgs.take(msgs.len() as int) =~= msgs);
}

/// A message that was accepted is neither lost nor doubled: a send adds one message to one ring
/// exactly if it succeeds, and the ring never holds more than its capacity.
pub proof fn law_send_keeps_to_the_ring(
    ch: ChannelView,
    endpoint: u8,
    msg: IpcMessage,
    blocking: bool,
)
    requires
        ch.outbox(endpoint).len() <= CHANNEL_RING_CAPACITY,
    ensures
        ch.send_verdict(endpoint, blocking) == Some(Ok::<(), IpcError>(())) ==> ch.sent(
            endpoint,
            msg,
        ).outbox(endpoint) == ch.outbox(endpoint).push(msg) && ch.sent(endpoint, msg).outbox(
            endpoint,
        ).len() <= CHANNEL_RING_CAPACITY,
        ch.send_verdict(endpoint, blocking) is None ==> blocking && ch.outbox(endpoint).len()
            == CHANNEL_RING_CAPACITY,
{
}

/// After the other end was closed, what it had sent is still delivered, and only after that the
/// receiver is told.
pub proof fn law_drained_before_closure(ch: ChannelView, endpoint: u8, blocking: bool)
    requires
        !ch.mine(other_end(endpoint)).is_closed,
    ensures
        ({
            let shut = ch.end_closed(endpoint);
            let peer = other_end(endpoint);
            &&& shut.inbox(peer) == ch.inbox(peer)
            &&& shut.receive_verdict(peer, blocking) == (if ch.inbox(peer).len() > 0 {
                Some(Ok::<IpcMessage, IpcError>(ch.inbox(peer)[0]))
            } else {
                Some(Err::<IpcMessage, IpcError>(IpcError::PeerClosed))
            })
            &&& shut.send_verdict(peer, blocking) == Some(
                Err::<(), IpcError>(IpcError::PeerClosed),
            )
        }),
{
}

/// At an end that was closed itself, nothing can be sent.
pub proof fn law_closed_end_refuses(ch: ChannelView, endpoint: u8, blocking: bool)
    ensures
        ch.end_closed(endpoint).send_verdict(endpoint, blocking) == Some(
            Err::<(), IpcError>(IpcError::EndpointClosed),
        ),
{
}

/// The object stays where it is, with its operations in progress.
pub open spec fn stays(s: KernelObjectSlot, t: KernelObjectSlot) -> bool {
    &&& t.occupied
    &&& t.obj_type == s.obj_type
    &&& t.generation == s.generation
    &&& t.pool_index == s.pool_index
    &&& t.header.object_id == s.header.object_id
    &&& t.header.in_flight_op_refs == s.header.in_flight_op_refs
}

/// An object on which an operation is in progress is never let go: not when its last handle is
/// closed or revoked, not when its last mapping goes, not by reclaiming.
pub proof fn law_pinned_object_stays(w: World, i: int, endpoint: u8, j: int)
    requires
        w.objs.wf(),
        0 <= i < MAX_KERNEL_OBJECTS,
        0 <= j < MAX_KERNEL_OBJECTS,
        w.objs.slots[j].occupied,
        w.objs.slots[j].header.in_flight_op_refs > 0,
    ensures
        stays(w.objs.slots[j], w.end_released(i, endpoint).objs.slots[j]),
        stays(w.objs.slots[j], w.handle_revoked(i, endpoint).objs.slots[j]),
        stays(w.objs.slots[j], w.reclaim_shm(i).objs.slots[j]),
        stays(w.objs.slots[j], w.objs.reclaim_channel(i).slots[j]),
        stays(w.objs.slots[j], w.objs.handle_gone(i, endpoint).slots[j]),
        stays(w.objs.slots[j], w.objs.mapping_gone(i).slots[j]),
{
}

/// Every object counts exactly the operations that threads have in progress on it and the mappings
/// that there are of it, and an operation or a mapping keeps its object.
pub proof fn law_operations_and_mappings_are_counted(k: &KernelState, i: int)
    requires
        k.wf(),
        0 <= i < MAX_KERNEL_OBJECTS,
    ensures
        k.objs@.slots[i].header.in_flight_op_refs == ops_on(k.threads@, i),
        k.objs@.slots[i].header.mapping_refs == mappings_of(k.mappings@, i),
        forall|t: int|
            0 <= t < k.threads@.len() && (#[trigger] k.threads@[t]).occupied ==> k.objs@.holds(
                k.threads@[t].object_index as int,
                KernelObjectType::Channel,
            ),
        forall|m: int|
            0 <= m < MAX_SHM_MAPPINGS && (#[trigger] k.mappings@[m]).occupied ==> k.objs@.holds(
                k.mappings@[m].object_index as int,
                KernelObjectType::ShmObject,
            ),
{
    reveal(pins_ok);
    assert(k.objs@.slots[i].header.in_flight_op_refs == ops_on(k.threads@, i));
}

/// The thread of an operation that ends holds no pin any more, and the operation no longer
/// counts; an operation that has to wait keeps its pin.
pub proof fn law_pin_lasts_as_long_as_the_operation(
    v: IpcView,
    op: PendingOp,
    msg: IpcMessage,
    blocking: bool,
)
    requires
        op.thread.thread_slot < v.threads.len(),
        v.threads[op.thread.thread_slot as int].occupied,
    ensures
        v.after_send(op, msg, blocking).threads[op.thread.thread_slot as int].occupied
            <==> v.channel_of(op.object_index as int).send_verdict(op.endpoint, blocking) is None,
        v.after_receive(op, blocking).threads[op.thread.thread_slot as int].occupied
            <==> v.channel_of(op.object_index as int).receive_verdict(op.endpoint, blocking) is None,
{
}

/// An operation in progress counts once: what a pin adds, its release takes off again.
pub proof fn law_pin_and_release_cancel_out(v: IpcView, t: int, i: int)
    requires
        0 <= t < v.threads.len(),
        0 <= i < v.world.objs.slots.len(),
        v.world.objs.slots[i].header.in_flight_op_refs < u16::MAX,
        v.world.objs.slots[i].header.handle_refs > 0,
    ensures
        v.pinned(t, i).unpinned(t, i).world.objs == v.world.objs,
{
    let o = v.world.objs;
    assert(v.pinned(t, i).unpinned(t, i).world.objs.slots =~= o.slots);
    assert(v.pinned(t, i).unpinned(t, i).world.objs =~= o);
}

/// Whoever waits at a channel is woken when its last handle at one end is closed.
pub proof fn law_closing_wakes_everyone(w: World, i: int, endpoint: u8)
    requires
        w.objs.wf(),
        w.objs.holds(i, KernelObjectType::Channel),
        w.objs.channel_of(i).mine(endpoint).handle_refs == 0,
    ensures
        ({
            let ch = w.objs.channel_of(i);
            let n = w.end_released(i, endpoint);
            &&& n.fx.woken == w.fx.woken + ch.all_waiters(endpoint)
            &&& n.objs.channels[w.objs.slots[i].pool_index as int].is_quiet()
        }),
{
    assert(w.objs.slot_ok(i));
}

/// A queue is emptied completely, each waiter once.
pub proof fn law_everyone_is_woken_once(q: Seq<Waiter>)
    ensures
        wake_order(q).to_multiset() == q.to_multiset(),
    decreases q.len(),
{
    broadcast use vstd::seq_lib::group_to_multiset_ensures;

    if q.len() > 0 {
        crate::ipc::wait::law_most_urgent(q);
        let m = crate::ipc::wait::most_urgent(q);
        law_everyone_is_woken_once(q.remove(m));
        vstd::seq_lib::lemma_multiset_commutative(seq![q[m]], wake_order(q.remove(m)));
        assert(seq![q[m]].to_multiset() =~= vstd::multiset::Multiset::singleton(q[m])) by {
            assert(seq![q[m]] =~= Seq::<Waiter>::empty().push(q[m]));
        }
        assert(wake_order(q).to_multiset() =~= q.to_multiset());
    } else {
        assert(wake_order(q) =~= q);
    }
}

/// An end stays open while another handle to it lives: a handle more and a handle less, whichever
/// of the two it is, leave the objects and whoever waits as they were.
pub proof fn law_end_stays_open_while_held(w: World, i: int, endpoint: u8)
    requires
        w.objs.wf(),
        w.objs.holds(i, KernelObjectType::Channel),
        0 < w.objs.slots[i].header.handle_refs < u16::MAX,
        0 < w.objs.channel_of(i).mine(endpoint).handle_refs < u16::MAX,
    ensures
        channel_end_released(
            World { objs: handle_added(w.objs, i, endpoint), ..w },
            i,
            endpoint,
        ) == w,
{
    let more = World { objs: handle_added(w.objs, i, endpoint), ..w };
    let end = channel_end_released(more, i, endpoint);
    assert(w.objs.slot_ok(i));
    let c = w.objs.slots[i].pool_index as int;
    assert(more.objs.channel_of(i).one_ref_less(endpoint) =~= w.objs.channel_of(i));
    assert(more.objs.handle_gone(i, endpoint).slots =~= w.objs.slots);
    assert(more.objs.handle_gone(i, endpoint).channels =~= w.objs.channels);
    assert(more.objs.handle_gone(i, endpoint) =~= w.objs);
    assert(end =~= w);
}

/// A channel goes with its ends: closing both handles of a new one leaves the object tables as they
/// were, but for the generation of the slot and the identifier that was used, and wakes nobody.
pub proof fn law_channel_goes_with_its_ends(w: World, i: int, c: int, pid: u64, endpoint: u8)
    requires
        w.objs.wf(),
        0 <= i < MAX_KERNEL_OBJECTS,
        !w.objs.slots[i].occupied,
        0 <= c < MAX_CHANNELS,
    ensures
        ({
            let made = handle_added(handle_added(channel_added(w.objs, i, c, pid), i, 0), i, 1);
            let end = channel_end_released(
                channel_end_released(World { objs: made, fx: w.fx }, i, endpoint),
                i,
                other_end(endpoint),
            );
            &&& end.fx == w.fx
            &&& end.objs.shm == w.objs.shm
            &&& end.objs.channels == w.objs.channels.update(c, blank_channel())
            &&& !end.objs.slots[i].occupied
            &&& end.objs.slots[i].generation == next_generation(w.objs.slots[i].generation)
            &&& forall|j: int|
                0 <= j < MAX_KERNEL_OBJECTS && j != i ==> (#[trigger] end.objs.slots[j])
                    == w.objs.slots[j]
        }),
{
    let made = handle_added(handle_added(channel_added(w.objs, i, c, pid), i, 0), i, 1);
    let start = World { objs: made, fx: w.fx };
    let half = channel_end_released(start, i, endpoint);
    let end = channel_end_released(half, i, other_end(endpoint));
    assert(wake_order(Seq::<Waiter>::empty()) =~= Seq::<Waiter>::empty());
    assert(made.holds(i, KernelObjectType::Channel));
    assert(made.channel_of(i) == fresh_channel());
    assert(made.slots[i].header.handle_refs == 2);
    assert(half.objs.slots[i].header.handle_refs == 1);
    assert(half.objs.channel_of(i).mine(other_end(endpoint)).handle_refs == 1);
    assert(half.fx =~= w.fx);
    assert(end.fx =~= w.fx);
    assert(end.objs.channels =~= w.objs.channels.update(c, blank_channel()));
}

/// Shared memory gives back exactly the frames it was made of, once nobody refers to it, and
/// keeps none.
pub proof fn law_frames_go_back(w: World, i: int)
    requires
        w.objs.wf(),
        w.objs.shm_is_free(i),
    ensures
        w.reclaim_shm(i).fx.freed_frames == w.fx.freed_frames + w.objs.shm_of(i).frames.take(
            w.objs.shm_of(i).page_count,
        ),
        w.reclaim_shm(i).objs.shm[w.objs.slots[i].pool_index as int].page_count == 0,
        !w.reclaim_shm(i).objs.slots[i].occupied,
{
    assert(w.objs.slot_ok(i));
}

/// Memory is neutral: shared memory that is created, mapped, unmapped and closed again gives back
/// exactly the frames it was made of, whichever of its handle and its mapping goes first, and
/// leaves the object tables as they were, but for the generation of the slot and the identifier
/// that was used.
pub proof fn law_shared_memory_is_neutral(
    w: World,
    i: int,
    s: int,
    frames: Seq<u64>,
    pid: u64,
    m: ShmMapping,
)
    requires
        w.objs.wf(),
        0 <= i < MAX_KERNEL_OBJECTS,
        !w.objs.slots[i].occupied,
        0 <= s < MAX_SHM_OBJECTS,
        frames.len() <= MAX_SHM_PAGES,
        m.object_index == i,
    ensures
        ({
            let made = handle_added(shm_added(w.objs, i, s, frames, pid), i, 0);
            let start = World { objs: mapping_added(made, i), fx: w.fx };
            let closed_first = mapping_removed(start.shm_handle_gone(i), m);
            let unmapped_first = mapping_removed(start, m).shm_handle_gone(i);
            &&& closed_first == unmapped_first
            &&& closed_first.fx == w.fx.unmapping(mapping_pages(m, m.page_count as int)).freeing(
                frames,
            )
            &&& closed_first.objs.channels == w.objs.channels
            &&& closed_first.objs.shm == w.objs.shm.update(s, blank_shm())
            &&& !closed_first.objs.slots[i].occupied
            &&& forall|j: int|
                0 <= j < MAX_KERNEL_OBJECTS && j != i ==> (#[trigger] closed_first.objs.slots[j])
                    == w.objs.slots[j]
        }),
{
    let made = handle_added(shm_added(w.objs, i, s, frames, pid), i, 0);
    let start = World { objs: mapping_added(made, i), fx: w.fx };
    assert(start.objs.slots[i].header.handle_refs == 1);
    assert(start.objs.slots[i].header.mapping_refs == 1);
    assert(start.objs.slots[i].header.in_flight_op_refs == 0);
    let a = start.shm_handle_gone(i);
    let b = mapping_removed(start, m);
    assert(!a.objs.shm_is_free(i));
    assert(!b.objs.shm_is_free(i));
    let c = mapping_removed(a, m);
    let d = b.shm_handle_gone(i);
    let rest = fresh_shm(frames, pid);
    assert(rest.frames.take(rest.page_count) =~= frames);
    let fx = w.fx.unmapping(mapping_pages(m, m.page_count as int)).freeing(frames);
    assert(c.fx =~= fx);
    assert(d.fx =~= fx);
    assert(c.objs.slots =~= d.objs.slots);
    assert(c.objs.shm =~= d.objs.shm);
    assert(c.objs.shm =~= w.objs.shm.update(s, blank_shm()));
}

/// Shared memory to which a handle or a mapping refers keeps its frames.
pub proof fn law_referenced_memory_stays(w: World, i: int)
    requires
        0 <= i < MAX_KERNEL_OBJECTS,
        w.objs.slots[i].header.total_refs() > 0,
    ensures
        w.reclaim_shm(i).objs == w.objs,
        w.reclaim_shm(i).fx == w.fx,
{
    assert(w.fx.freeing(Seq::empty()) =~= w.fx);
}

} // verus!
