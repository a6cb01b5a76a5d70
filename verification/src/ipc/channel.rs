//! Channels: two rings of messages between two endpoints.
use crate::ipc::types::{blank_message, IpcError, IpcMessage};
use crate::ipc::wait::{most_urgent, wake_order, without_process, WaitQueue, Waiter};
use vstd::array::spec_array_fill_for_copy_type;
use vstd::prelude::*;

pub mod ops;

pub use self::ops::{
    cancel_channel_waiters_for_process_locked, channel_close, channel_create, channel_receive,
    channel_send, release_in_flight_pin_locked, resume_receive, resume_send,
};
pub use crate::ipc::space::check_and_reclaim_channel_locked;
pub use crate::kernel::ThreadIpcState;

verus! {

pub const MAX_CHANNELS: usize = 32;

pub const CHANNEL_RING_CAPACITY: usize = 4;

/// A queue of at most four messages.
#[derive(Debug)]
pub struct ChannelRing {
    pub buffer: [IpcMessage; CHANNEL_RING_CAPACITY],
    /// Where the oldest message is.
    pub head: u8,
    /// Where the next message goes.
    pub tail: u8,
    pub count: u8,
    pub _reserved: [u8; 5],
}

impl ChannelRing {
    pub open spec fn wf(&self) -> bool {
        &&& self.head < CHANNEL_RING_CAPACITY
        &&& self.count <= CHANNEL_RING_CAPACITY
        &&& self.tail == (self.head + self.count) % 4
    }

    /// The messages, the oldest first.
    pub open spec fn view(&self) -> Seq<IpcMessage> {
        Seq::new(self.count as nat, |i: int| self.buffer@[(self.head + i) % 4])
    }

    pub fn empty() -> (r: Self)
        ensures
            r.wf(),
            r == blank_ring(),
            r@ == Seq::<IpcMessage>::empty(),
    {
        let r = ChannelRing {
            buffer: [IpcMessage::empty(); CHANNEL_RING_CAPACITY],
            head: 0,
            tail: 0,
            count: 0,
            _reserved: [0u8; 5],
        };
        assert(r@ =~= Seq::<IpcMessage>::empty());
        r
    }

    pub fn is_empty(&self) -> (r: bool)
        ensures
            r == (self@.len() == 0),
    {
        self.count == 0
    }

    pub fn is_full(&self) -> (r: bool)
        requires
            self.wf(),
        ensures
            r == (self@.len() == CHANNEL_RING_CAPACITY),
    {
        self.count == 4
    }

    /// Appends a message, unless the ring is full.
    pub fn push(&mut self, msg: IpcMessage) -> (r: bool)
        requires
            old(self).wf(),
        ensures
            final(self).wf(),
            r == (old(self)@.len() < CHANNEL_RING_CAPACITY),
            final(self)@ == (if r {
                old(self)@.push(msg)
            } else {
                old(self)@
            }),
            r ==> {
                &&& final(self).head == old(self).head
                &&& final(self).tail == (old(self).tail + 1) % 4
                &&& final(self).buffer@ == old(self).buffer@.update(old(self).tail as int, msg)
                &&& final(self)._reserved == old(self)._reserved
            },
            !r ==> *final(self) == *old(self),
    {
        if self.is_full() {
            return false;
        }
        self.buffer[self.tail as usize] = msg;
        self.tail = (self.tail + 1) % 4;
        self.count = self.count + 1;
        assert(self@ =~= old(self)@.push(msg));
        true
    }

    /// Takes the oldest message.
    pub fn pop(&mut self) -> (r: Option<IpcMessage>)
        requires
            old(self).wf(),
        ensures
            final(self).wf(),
            match r {
                None => old(self)@.len() == 0 && *final(self) == *old(self),
                Some(msg) => {
                    &&& old(self)@.len() > 0
                    &&& msg == old(self)@[0]
                    &&& final(self)@ == old(self)@.skip(1)
                    &&& final(self).head == (old(self).head + 1) % 4
                    &&& final(self).tail == old(self).tail
                    &&& final(self).buffer == old(self).buffer
                    &&& final(self)._reserved == old(self)._reserved
                },
            },
    {
        if self.is_empty() {
            return None;
        }
        let msg = self.buffer[self.head as usize];
        self.head = (self.head + 1) % 4;
        self.count = self.count - 1;
        assert(self@ =~= old(self)@.skip(1));
        Some(msg)
    }
}

/// A ring that never held a message.
pub open spec fn blank_ring() -> ChannelRing {
    ChannelRing {
        buffer: spec_array_fill_for_copy_type::<IpcMessage, 4>(blank_message()),
        head: 0,
        tail: 0,
        count: 0,
        _reserved: spec_array_fill_for_copy_type::<u8, 5>(0),
    }
}

/// One end of a channel.
pub struct ChannelEndpointData {
    pub is_closed: bool,
    pub peer_closed: bool,
    pub handle_refs: u16,
    pub _pad: u32,
    /// Threads that wait for a message.
    pub waiters_rx: WaitQueue,
    /// Threads that wait for room.
    pub waiters_tx: WaitQueue,
}

/// What one end of a channel holds.
#[verifier::ext_equal]
pub struct EndpointView {
    pub is_closed: bool,
    pub peer_closed: bool,
    pub handle_refs: u16,
    pub rx: Seq<Waiter>,
    pub tx: Seq<Waiter>,
}

/// An end that nobody holds.
pub open spec fn blank_endpoint() -> EndpointView {
    EndpointView {
        is_closed: false,
        peer_closed: false,
        handle_refs: 0,
        rx: Seq::empty(),
        tx: Seq::empty(),
    }
}

impl ChannelEndpointData {
    pub open spec fn view(&self) -> EndpointView {
        EndpointView {
            is_closed: self.is_closed,
            peer_closed: self.peer_closed,
            handle_refs: self.handle_refs,
            rx: self.waiters_rx@,
            tx: self.waiters_tx@,
        }
    }

    pub fn empty() -> (r: Self)
        ensures
            r@ == blank_endpoint(),
            r._pad == 0,
    {
        ChannelEndpointData {
            is_closed: false,
            peer_closed: false,
            handle_refs: 0,
            _pad: 0,
            waiters_rx: WaitQueue::new(),
            waiters_tx: WaitQueue::new(),
        }
    }

    /// Nobody waits at this end.
    pub fn is_quiet(&self) -> (r: bool)
        ensures
            r == (self@.rx.len() == 0 && self@.tx.len() == 0),
    {
        self.waiters_rx.is_empty() && self.waiters_tx.is_empty()
    }

    /// Wakes everyone who waits at this end: receivers first.
    pub fn wake_all(&mut self, woken: &mut Vec<Waiter>)
        ensures
            final(self)@ == (EndpointView { rx: Seq::empty(), tx: Seq::empty(), ..old(self)@ }),
            final(woken)@ == old(woken)@ + (wake_order(old(self)@.rx) + wake_order(old(self)@.tx)),
    {
        self.waiters_rx.drain(woken);
        self.waiters_tx.drain(woken);
        assert(woken@ =~= old(woken)@ + (wake_order(old(self)@.rx) + wake_order(old(self)@.tx)));
    }
}

/// A channel: what endpoint 0 sends goes through the first ring, what endpoint 1 sends through
/// the second.
pub struct Channel {
    pub ring_0_to_1: ChannelRing,
    pub ring_1_to_0: ChannelRing,
    pub endpoint_0: ChannelEndpointData,
    pub endpoint_1: ChannelEndpointData,
}

/// What a channel holds.
#[verifier::ext_equal]
pub struct ChannelView {
    pub ring_0_to_1: Seq<IpcMessage>,
    pub ring_1_to_0: Seq<IpcMessage>,
    pub endpoint_0: EndpointView,
    pub endpoint_1: EndpointView,
}

/// A channel that is not in use.
pub open spec fn blank_channel() -> ChannelView {
    ChannelView {
        ring_0_to_1: Seq::empty(),
        ring_1_to_0: Seq::empty(),
        endpoint_0: blank_endpoint(),
        endpoint_1: blank_endpoint(),
    }
}

impl ChannelView {
    /// The end with a number; every number but 0 means the second end.
    pub open spec fn mine(self, endpoint: u8) -> EndpointView {
        if endpoint == 0 {
            self.endpoint_0
        } else {
            self.endpoint_1
        }
    }

    pub open spec fn peer(self, endpoint: u8) -> EndpointView {
        if endpoint == 0 {
            self.endpoint_1
        } else {
            self.endpoint_0
        }
    }

    pub open spec fn with_ends(self, endpoint: u8, mine: EndpointView, peer: EndpointView) -> ChannelView {
        if endpoint == 0 {
            ChannelView { endpoint_0: mine, endpoint_1: peer, ..self }
        } else {
            ChannelView { endpoint_0: peer, endpoint_1: mine, ..self }
        }
    }

    /// The ring that an end sends through.
    pub open spec fn outbox(self, endpoint: u8) -> Seq<IpcMessage> {
        if endpoint == 0 {
            self.ring_0_to_1
        } else {
            self.ring_1_to_0
        }
    }

    /// The ring that an end receives from.
    pub open spec fn inbox(self, endpoint: u8) -> Seq<IpcMessage> {
        if endpoint == 0 {
            self.ring_1_to_0
        } else {
            self.ring_0_to_1
        }
    }

    pub open spec fn with_outbox(self, endpoint: u8, ring: Seq<IpcMessage>) -> ChannelView {
        if endpoint == 0 {
            ChannelView { ring_0_to_1: ring, ..self }
        } else {
            ChannelView { ring_1_to_0: ring, ..self }
        }
    }

    pub open spec fn with_inbox(self, endpoint: u8, ring: Seq<IpcMessage>) -> ChannelView {
        if endpoint == 0 {
            ChannelView { ring_1_to_0: ring, ..self }
        } else {
            ChannelView { ring_0_to_1: ring, ..self }
        }
    }

    /// Nobody waits at either end.
    pub open spec fn is_quiet(self) -> bool {
        &&& self.endpoint_0.rx.len() == 0
        &&& self.endpoint_0.tx.len() == 0
        &&& self.endpoint_1.rx.len() == 0
        &&& self.endpoint_1.tx.len() == 0
    }

    /// The channel after everyone who waits was woken.
    pub open spec fn quieted(self) -> ChannelView {
        ChannelView {
            endpoint_0: EndpointView { rx: Seq::empty(), tx: Seq::empty(), ..self.endpoint_0 },
            endpoint_1: EndpointView { rx: Seq::empty(), tx: Seq::empty(), ..self.endpoint_1 },
            ..self
        }
    }

    /// Everyone who waits, in the order of waking: first at the end with the number.
    pub open spec fn all_waiters(self, endpoint: u8) -> Seq<Waiter> {
        (wake_order(self.mine(endpoint).rx) + wake_order(self.mine(endpoint).tx)) + (wake_order(
            self.peer(endpoint).rx,
        ) + wake_order(self.peer(endpoint).tx))
    }

    /// The same number of handles at each end.
    pub open spec fn same_refs(self, other: ChannelView) -> bool {
        &&& self.endpoint_0.handle_refs == other.endpoint_0.handle_refs
        &&& self.endpoint_1.handle_refs == other.endpoint_1.handle_refs
    }

    /// One handle more at an end.
    pub open spec fn one_ref_more(self, endpoint: u8) -> ChannelView {
        let e = self.mine(endpoint);
        self.with_ends(
            endpoint,
            EndpointView { handle_refs: (e.handle_refs + 1) as u16, ..e },
            self.peer(endpoint),
        )
    }

    /// One handle less at an end.
    pub open spec fn one_ref_less(self, endpoint: u8) -> ChannelView {
        let e = self.mine(endpoint);
        self.with_ends(
            endpoint,
            EndpointView {
                handle_refs: if e.handle_refs == 0 {
                    0
                } else {
                    (e.handle_refs - 1) as u16
                },
                ..e
            },
            self.peer(endpoint),
        )
    }

    /// A message went out, and the most urgent receiver at the other end goes on.
    pub open spec fn sent(self, endpoint: u8, msg: IpcMessage) -> ChannelView {
        let peer = self.peer(endpoint);
        self.with_outbox(endpoint, self.outbox(endpoint).push(msg)).with_ends(
            endpoint,
            self.mine(endpoint),
            EndpointView { rx: without_most_urgent(peer.rx), ..peer },
        )
    }

    /// The oldest message was taken, and the most urgent sender at the other end goes on.
    pub open spec fn received(self, endpoint: u8) -> ChannelView {
        let peer = self.peer(endpoint);
        self.with_inbox(endpoint, self.inbox(endpoint).skip(1)).with_ends(
            endpoint,
            self.mine(endpoint),
            EndpointView { tx: without_most_urgent(peer.tx), ..peer },
        )
    }

    /// A thread waits for room at an end.
    pub open spec fn with_sender(self, endpoint: u8, w: Waiter) -> ChannelView {
        let e = self.mine(endpoint);
        self.with_ends(endpoint, EndpointView { tx: e.tx.push(w), ..e }, self.peer(endpoint))
    }

    /// A thread waits for a message at an end.
    pub open spec fn with_receiver(self, endpoint: u8, w: Waiter) -> ChannelView {
        let e = self.mine(endpoint);
        self.with_ends(endpoint, EndpointView { rx: e.rx.push(w), ..e }, self.peer(endpoint))
    }

    /// The other end is gone.
    pub open spec fn peer_gone(self, endpoint: u8) -> bool {
        self.mine(endpoint).peer_closed || self.peer(endpoint).is_closed
    }

    /// What a sender is told; `None` means that it has to wait.
    pub open spec fn send_verdict(self, endpoint: u8, blocking: bool) -> Option<
        Result<(), IpcError>,
    > {
        if self.mine(endpoint).is_closed {
            Some(Err(IpcError::EndpointClosed))
        } else if self.peer_gone(endpoint) {
            Some(Err(IpcError::PeerClosed))
        } else if self.outbox(endpoint).len() < CHANNEL_RING_CAPACITY {
            Some(Ok(()))
        } else if !blocking {
            Some(Err(IpcError::WouldBlock))
        } else {
            None
        }
    }

    /// What a receiver is told; `None` means that it has to wait. What was sent before the other
    /// end went is still delivered.
    pub open spec fn receive_verdict(self, endpoint: u8, blocking: bool) -> Option<
        Result<IpcMessage, IpcError>,
    > {
        if self.inbox(endpoint).len() > 0 {
            Some(Ok(self.inbox(endpoint)[0]))
        } else if self.mine(endpoint).is_closed {
            Some(Err(IpcError::EndpointClosed))
        } else if self.peer_gone(endpoint) {
            Some(Err(IpcError::PeerClosed))
        } else if !blocking {
            Some(Err(IpcError::WouldBlock))
        } else {
            None
        }
    }

    /// The waiters of a process are struck off.
    pub open spec fn without_process(self, pid: u64) -> ChannelView {
        ChannelView {
            endpoint_0: EndpointView {
                rx: without_process(self.endpoint_0.rx, pid),
                tx: without_process(self.endpoint_0.tx, pid),
                ..self.endpoint_0
            },
            endpoint_1: EndpointView {
                rx: without_process(self.endpoint_1.rx, pid),
                tx: without_process(self.endpoint_1.tx, pid),
                ..self.endpoint_1
            },
            ..self
        }
    }

    /// An end is closed, and its peer knows.
    pub open spec fn end_closed(self, endpoint: u8) -> ChannelView {
        self.with_ends(
            endpoint,
            EndpointView { is_closed: true, ..self.mine(endpoint) },
            EndpointView { peer_closed: true, ..self.peer(endpoint) },
        )
    }
}

/// The queue `q` after its most urgent waiter was taken.
pub open spec fn without_most_urgent(q: Seq<Waiter>) -> Seq<Waiter> {
    if q.len() == 0 {
        q
    } else {
        q.remove(most_urgent(q))
    }
}

/// The most urgent waiter of a queue, if there is one.
pub open spec fn first_to_wake(q: Seq<Waiter>) -> Seq<Waiter> {
    if q.len() == 0 {
        Seq::empty()
    } else {
        seq![q[most_urgent(q)]]
    }
}

/// Takes the most urgent waiter of a queue, if there is one, and lists it as woken.
fn wake_one(q: &mut WaitQueue, woken: &mut Vec<Waiter>)
    ensures
        final(q)@ == without_most_urgent(old(q)@),
        final(woken)@ == old(woken)@ + first_to_wake(old(q)@),
{
    match q.pop_highest() {
        None => {
            assert(woken@ =~= old(woken)@ + first_to_wake(old(q)@));
        },
        Some(w) => {
            woken.push(w);
            assert(woken@ =~= old(woken)@ + first_to_wake(old(q)@));
        },
    }
}

impl Channel {
    pub open spec fn wf(&self) -> bool {
        self.ring_0_to_1.wf() && self.ring_1_to_0.wf()
    }

    pub open spec fn view(&self) -> ChannelView {
        ChannelView {
            ring_0_to_1: self.ring_0_to_1@,
            ring_1_to_0: self.ring_1_to_0@,
            endpoint_0: self.endpoint_0@,
            endpoint_1: self.endpoint_1@,
        }
    }

    pub fn empty() -> (r: Self)
        ensures
            r.wf(),
            r@ == blank_channel(),
            r.ring_0_to_1 == blank_ring(),
            r.ring_1_to_0 == blank_ring(),
            r.endpoint_0._pad == 0,
            r.endpoint_1._pad == 0,
    {
        Channel {
            ring_0_to_1: ChannelRing::empty(),
            ring_1_to_0: ChannelRing::empty(),
            endpoint_0: ChannelEndpointData::empty(),
            endpoint_1: ChannelEndpointData::empty(),
        }
    }

    pub fn is_quiet(&self) -> (r: bool)
        ensures
            r == self@.is_quiet(),
    {
        self.endpoint_0.is_quiet() && self.endpoint_1.is_quiet()
    }

    /// Wakes everyone who waits at either end.
    pub fn wake_all(&mut self, endpoint: u8, woken: &mut Vec<Waiter>)
        requires
            old(self).wf(),
        ensures
            final(self).wf(),
            final(self)@ == old(self)@.quieted(),
            final(woken)@ == old(woken)@ + old(self)@.all_waiters(endpoint),
    {
        if endpoint == 0 {
            self.endpoint_0.wake_all(woken);
            self.endpoint_1.wake_all(woken);
        } else {
            self.endpoint_1.wake_all(woken);
            self.endpoint_0.wake_all(woken);
        }
        assert(woken@ =~= old(woken)@ + old(self)@.all_waiters(endpoint));
        assert(self@ =~= old(self)@.quieted());
    }

    /// Counts one handle more at an end.
    pub fn add_ref(&mut self, endpoint: u8)
        requires
            old(self).wf(),
            old(self)@.mine(endpoint).handle_refs < u16::MAX,
        ensures
            final(self).wf(),
            final(self)@ == old(self)@.one_ref_more(endpoint),
    {
        if endpoint == 0 {
            self.endpoint_0.handle_refs = self.endpoint_0.handle_refs + 1;
        } else {
            self.endpoint_1.handle_refs = self.endpoint_1.handle_refs + 1;
        }
    }

    /// Takes one handle off an end.
    pub fn drop_ref(&mut self, endpoint: u8)
        requires
            old(self).wf(),
        ensures
            final(self).wf(),
            final(self)@ == old(self)@.one_ref_less(endpoint),
    {
        if endpoint == 0 {
            self.endpoint_0.handle_refs = self.endpoint_0.handle_refs.saturating_sub(1);
        } else {
            self.endpoint_1.handle_refs = self.endpoint_1.handle_refs.saturating_sub(1);
        }
    }

    /// Nobody holds a handle to an end.
    pub fn is_unheld(&self, endpoint: u8) -> (r: bool)
        ensures
            r == (self@.mine(endpoint).handle_refs == 0),
    {
        if endpoint == 0 {
            self.endpoint_0.handle_refs == 0
        } else {
            self.endpoint_1.handle_refs == 0
        }
    }

    /// Closes an end and tells its peer.
    pub fn close_end(&mut self, endpoint: u8)
        requires
            old(self).wf(),
        ensures
            final(self).wf(),
            final(self)@ == old(self)@.end_closed(endpoint),
    {
        if endpoint == 0 {
            self.endpoint_0.is_closed = true;
            self.endpoint_1.peer_closed = true;
        } else {
            self.endpoint_1.is_closed = true;
            self.endpoint_0.peer_closed = true;
        }
    }

    /// Tries to send a message from an end. A sender that has to wait is enrolled.
    pub fn try_send(
        &mut self,
        endpoint: u8,
        msg: IpcMessage,
        blocking: bool,
        me: Waiter,
        woken: &mut Vec<Waiter>,
    ) -> (r: Option<Result<(), IpcError>>)
        requires
            old(self).wf(),
        ensures
            final(self).wf(),
            r == old(self)@.send_verdict(endpoint, blocking),
            match r {
                Some(Ok(_)) => {
                    &&& final(self)@ == old(self)@.sent(endpoint, msg)
                    &&& final(woken)@ == old(woken)@ + first_to_wake(old(self)@.peer(endpoint).rx)
                },
                Some(Err(_)) => final(self)@ == old(self)@ && final(woken)@ == old(woken)@,
                None => final(self)@ == old(self)@.with_sender(endpoint, me) && final(woken)@
                    == old(woken)@,
            },
    {
        let (closed, gone) = self.closure(endpoint);
        if closed {
            return Some(Err(IpcError::EndpointClosed));
        }
        if gone {
            return Some(Err(IpcError::PeerClosed));
        }
        if endpoint == 0 {
            if self.ring_0_to_1.push(msg) {
                wake_one(&mut self.endpoint_1.waiters_rx, woken);
                assert(self@ =~= old(self)@.sent(endpoint, msg));
                return Some(Ok(()));
            }
        } else {
            if self.ring_1_to_0.push(msg) {
                wake_one(&mut self.endpoint_0.waiters_rx, woken);
                assert(self@ =~= old(self)@.sent(endpoint, msg));
                return Some(Ok(()));
            }
        }
        if !blocking {
            return Some(Err(IpcError::WouldBlock));
        }
        if endpoint == 0 {
            self.endpoint_0.waiters_tx.push(me);
        } else {
            self.endpoint_1.waiters_tx.push(me);
        }
        assert(self@ =~= old(self)@.with_sender(endpoint, me));
        None
    }

    /// Tries to receive a message at an end. A receiver that has to wait is enrolled.
    pub fn try_receive(
        &mut self,
        endpoint: u8,
        blocking: bool,
        me: Waiter,
        woken: &mut Vec<Waiter>,
    ) -> (r: Option<Result<IpcMessage, IpcError>>)
        requires
            old(self).wf(),
        ensures
            final(self).wf(),
            r == old(self)@.receive_verdict(endpoint, blocking),
            match r {
                Some(Ok(_)) => {
                    &&& final(self)@ == old(self)@.received(endpoint)
                    &&& final(woken)@ == old(woken)@ + first_to_wake(old(self)@.peer(endpoint).tx)
                },
                Some(Err(_)) => final(self)@ == old(self)@ && final(woken)@ == old(woken)@,
                None => final(self)@ == old(self)@.with_receiver(endpoint, me) && final(woken)@
                    == old(woken)@,
            },
    {
        if endpoint == 0 {
            if let Some(msg) = self.ring_1_to_0.pop() {
                wake_one(&mut self.endpoint_1.waiters_tx, woken);
                assert(self@ =~= old(self)@.received(endpoint));
                return Some(Ok(msg));
            }
        } else {
            if let Some(msg) = self.ring_0_to_1.pop() {
                wake_one(&mut self.endpoint_0.waiters_tx, woken);
                assert(self@ =~= old(self)@.received(endpoint));
                return Some(Ok(msg));
            }
        }
        let (closed, gone) = self.closure(endpoint);
        if closed {
            return Some(Err(IpcError::EndpointClosed));
        }
        if gone {
            return Some(Err(IpcError::PeerClosed));
        }
        if !blocking {
            return Some(Err(IpcError::WouldBlock));
        }
        if endpoint == 0 {
            self.endpoint_0.waiters_rx.push(me);
        } else {
            self.endpoint_1.waiters_rx.push(me);
        }
        assert(self@ =~= old(self)@.with_receiver(endpoint, me));
        None
    }

    /// Whether an end is closed, and whether the other end is gone.
    pub fn closure(&self, endpoint: u8) -> (r: (bool, bool))
        ensures
            r.0 == self@.mine(endpoint).is_closed,
            r.1 == self@.peer_gone(endpoint),
    {
        if endpoint == 0 {
            (self.endpoint_0.is_closed, self.endpoint_0.peer_closed || self.endpoint_1.is_closed)
        } else {
            (self.endpoint_1.is_closed, self.endpoint_1.peer_closed || self.endpoint_0.is_closed)
        }
    }

    /// Nothing waits to be received at an end.
    pub fn inbox_empty(&self, endpoint: u8) -> (r: bool)
        ensures
            r == (self@.inbox(endpoint).len() == 0),
    {
        if endpoint == 0 {
            self.ring_1_to_0.is_empty()
        } else {
            self.ring_0_to_1.is_empty()
        }
    }

    /// Strikes the waiters of a process off.
    pub fn remove_process(&mut self, pid: u64)
        requires
            old(self).wf(),
        ensures
            final(self).wf(),
            final(self)@ == old(self)@.without_process(pid),
    {
        self.endpoint_0.waiters_rx.remove_process(pid);
        self.endpoint_0.waiters_tx.remove_process(pid);
        self.endpoint_1.waiters_rx.remove_process(pid);
        self.endpoint_1.waiters_tx.remove_process(pid);
        assert(self@ =~= old(self)@.without_process(pid));
    }
}

} // verus!
