//! Queues of blocked threads.
use vstd::prelude::*;

verus! {

/// A blocked thread.
#[derive(Debug, Clone, Copy, PartialEq, Eq, Structural)]
pub struct Waiter {
    /// Slot of the thread.
    pub thread_slot: usize,
    pub process_id: u64,
    /// Greater means more urgent.
    pub priority: u8,
}

/// Blocked threads in the order in which they blocked.
pub struct WaitQueue {
    pub waiters: Vec<Waiter>,
}

/// The index of the most urgent waiter, the earliest of several equally urgent ones.
pub open spec fn most_urgent(q: Seq<Waiter>) -> int
    decreases q.len(),
{
    if q.len() <= 1 {
        0
    } else {
        let m = most_urgent(q.drop_last());
        if q.last().priority > q[m].priority {
            q.len() - 1
        } else {
            m
        }
    }
}

/// The waiters in the order in which they are taken from the queue.
pub open spec fn wake_order(q: Seq<Waiter>) -> Seq<Waiter>
    decreases q.len(),
{
    if q.len() == 0 {
        Seq::empty()
    } else {
        let m = most_urgent(q);
        if 0 <= m < q.len() {
            seq![q[m]] + wake_order(q.remove(m))
        } else {
            Seq::empty()
        }
    }
}

/// The most urgent waiter is one of them, none is more urgent, and none before it is as urgent.
pub proof fn law_most_urgent(q: Seq<Waiter>)
    requires
        q.len() > 0,
    ensures
        0 <= most_urgent(q) < q.len(),
        forall|i: int|
            0 <= i < q.len() ==> (#[trigger] q[i]).priority <= q[most_urgent(q)].priority,
        forall|i: int|
            0 <= i < most_urgent(q) ==> (#[trigger] q[i]).priority < q[most_urgent(q)].priority,
    decreases q.len(),
{
    if q.len() > 1 {
        let r = q.drop_last();
        law_most_urgent(r);
        let m = most_urgent(r);
        assert(r[m] == q[m]);
        assert forall|i: int| 0 <= i < q.len() implies (#[trigger] q[i]).priority
            <= q[most_urgent(q)].priority by {
            if i < r.len() {
                assert(r[i] == q[i]);
            }
        }
        assert forall|i: int| 0 <= i < most_urgent(q) implies (#[trigger] q[i]).priority
            < q[most_urgent(q)].priority by {
            assert(r[i] == q[i]);
        }
    }
}

/// The queue `q` without the waiters of a process.
pub open spec fn without_process(q: Seq<Waiter>, pid: u64) -> Seq<Waiter> {
    q.filter(|w: Waiter| w.process_id != pid)
}

impl WaitQueue {
    pub open spec fn view(&self) -> Seq<Waiter> {
        self.waiters@
    }

    pub fn new() -> (r: Self)
        ensures
            r@ == Seq::<Waiter>::empty(),
    {
        WaitQueue { waiters: Vec::new() }
    }

    pub fn is_empty(&self) -> (r: bool)
        ensures
            r == (self@.len() == 0),
    {
        self.waiters.len() == 0
    }

    pub fn len(&self) -> (r: usize)
        ensures
            r == self@.len(),
    {
        self.waiters.len()
    }

    /// Enrols a thread.
    pub fn push(&mut self, w: Waiter)
        ensures
            final(self)@ == old(self)@.push(w),
    {
        self.waiters.push(w);
    }

    /// Takes the most urgent waiter.
    pub fn pop_highest(&mut self) -> (r: Option<Waiter>)
        ensures
            match r {
                None => old(self)@.len() == 0 && final(self)@ == old(self)@,
                Some(w) => {
                    let m = most_urgent(old(self)@);
                    &&& 0 <= m < old(self)@.len()
                    &&& w == old(self)@[m]
                    &&& final(self)@ == old(self)@.remove(m)
                },
            },
    {
        if self.waiters.len() == 0 {
            return None;
        }
        let ghost q = self.waiters@;
        let mut best: usize = 0;
        let mut i: usize = 1;
        while i < self.waiters.len()
            invariant
                q == self.waiters@,
                1 <= i <= q.len(),
                best < i,
                best == most_urgent(q.take(i as int)),
            decreases q.len() - i,
        {
            assert(q.take(i + 1).drop_last() =~= q.take(i as int));
            assert(q.take(i + 1)[best as int] == q[best as int]);
            if self.waiters[i].priority > self.waiters[best].priority {
                best = i;
            }
            i = i + 1;
        }
        assert(q.take(i as int) =~= q);
        let w = self.waiters.remove(best);
        Some(w)
    }

    /// Takes all waiters, the most urgent first, and appends them to `woken`.
    pub fn drain(&mut self, woken: &mut Vec<Waiter>)
        ensures
            final(self)@ == Seq::<Waiter>::empty(),
            final(woken)@ == old(woken)@ + wake_order(old(self)@),
    {
        let ghost all = wake_order(self@);
        assert(woken@ + all =~= old(woken)@ + all);
        while self.waiters.len() > 0
            invariant
                woken@ + wake_order(self@) == old(woken)@ + all,
            decreases self.waiters@.len(),
        {
            let ghost before = self@;
            let ghost w0 = woken@;
            match self.pop_highest() {
                None => {},
                Some(w) => {
                    woken.push(w);
                    assert(wake_order(before) == seq![w] + wake_order(self@));
                    assert(w0 + wake_order(before) =~= woken@ + wake_order(self@));
                },
            }
        }
        assert(self@ =~= Seq::<Waiter>::empty());
        assert(woken@ + Seq::<Waiter>::empty() =~= woken@);
    }

    /// Drops the waiters of a process.
    pub fn remove_process(&mut self, pid: u64)
        ensures
            final(self)@ == without_process(old(self)@, pid),
    {
        let ghost q = self.waiters@;
        let ghost keep = |w: Waiter| w.process_id != pid;
        let mut kept: Vec<Waiter> = Vec::new();
        let mut i: usize = 0;
        assert(q.take(0).filter(keep) =~= Seq::<Waiter>::empty()) by {
            reveal(Seq::filter);
        }
        while i < self.waiters.len()
            invariant
                q == self.waiters@,
                i <= q.len(),
                keep == (|w: Waiter| w.process_id != pid),
                kept@ == q.take(i as int).filter(keep),
            decreases q.len() - i,
        {
            assert(q.take(i + 1) =~= q.take(i as int).push(q[i as int]));
            assert(q.take(i + 1).drop_last() =~= q.take(i as int));
            reveal(Seq::filter);
            if self.waiters[i].process_id != pid {
                kept.push(self.waiters[i]);
            }
            i = i + 1;
        }
        assert(q.take(i as int) =~= q);
        self.waiters = kept;
    }
}

} // verus!
