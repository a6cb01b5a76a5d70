//! The capabilities derived from one, and how all of them are withdrawn.
use crate::cap::node::{
    core_of, first_of, is_slot, next_of, no_slot, parent_of, slot_at, CapabilitySpace, NodeCore,
    Slot,
};
use crate::cap::tree::{freed_entry, link_at};
use crate::cap::types::{
    CapabilityNode, MAX_CAPABILITY_NODES, MAX_DERIVATION_DEPTH, MAX_HANDLES_PER_PROCESS,
    MAX_PROCESSES, NO_SLOT,
};
use vstd::prelude::*;
use vstd::set_lib::set_int_range;

verus! {

/// The list `w`, to which the children of its members from `i` on are appended one after the
/// other.
pub open spec fn breadth_first(
    children: Map<Slot, Seq<Slot>>,
    w: Seq<Slot>,
    i: int,
    fuel: nat,
) -> Seq<Slot>
    decreases fuel,
{
    if fuel == 0 || i >= w.len() {
        w
    } else {
        breadth_first(children, w + children[w[i]], i + 1, (fuel - 1) as nat)
    }
}

/// The capabilities derived from `s`, directly or not, those nearer to it first.
pub open spec fn descendants(c: &CapabilitySpace, s: Slot) -> Seq<Slot> {
    breadth_first(c.children@, c.kids(s), 0, MAX_CAPABILITY_NODES as nat)
}

/// Going up from `k`, at most `n` steps lead to `s`.
pub open spec fn leads_to(c: &CapabilitySpace, k: Slot, s: Slot, n: nat) -> bool
    decreases n,
{
    let q = parent_of(c.node(k));
    n > 0 && q != no_slot() && (q == s || leads_to(c, q, s, (n - 1) as nat))
}

/// The capability at `k` was derived from the one at `s`, directly or not.
pub open spec fn derived_from(c: &CapabilitySpace, k: Slot, s: Slot) -> bool {
    c.live(k) && leads_to(c, k, s, MAX_DERIVATION_DEPTH as nat)
}

/// The number of a slot.
pub open spec fn slot_number(s: Slot) -> int {
    s.p * MAX_HANDLES_PER_PROCESS + s.h
}

/// A list of different slots is no longer than there are slots.
pub proof fn lemma_slots_are_few(w: Seq<Slot>)
    requires
        w.no_duplicates(),
        forall|i: int| 0 <= i < w.len() ==> is_slot(#[trigger] w[i]),
    ensures
        w.len() <= MAX_CAPABILITY_NODES,
{
    let f = Seq::new(w.len(), |i: int| slot_number(w[i]));
    assert(f.no_duplicates()) by {
        assert forall|i: int, j: int| 0 <= i < f.len() && 0 <= j < f.len() && i != j implies f[i]
            != f[j] by {
            assert(is_slot(w[i]) && is_slot(w[j]));
            assert(w[i] != w[j]);
        }
    }
    f.unique_seq_to_set();
    vstd::set_lib::lemma_int_range(0, MAX_CAPABILITY_NODES as int);
    assert(f.to_set().subset_of(set_int_range(0, MAX_CAPABILITY_NODES as int))) by {
        assert forall|x: int| f.to_set().contains(x) implies set_int_range(
            0,
            MAX_CAPABILITY_NODES as int,
        ).contains(x) by {
            let i = choose|i: int| 0 <= i < f.len() && f[i] == x;
            assert(is_slot(w[i]));
        }
    }
    vstd::set_lib::lemma_len_subset(f.to_set(), set_int_range(0, MAX_CAPABILITY_NODES as int));
}

/// The state of the collection of descendants of `s`: `w` so far, of which the children of the
/// first `i` are in it.
#[verifier::opaque]
pub open spec fn collecting(c: &CapabilitySpace, s: Slot, w: Seq<Slot>, i: int) -> bool {
    &&& 0 <= i <= w.len()
    &&& w.no_duplicates()
    &&& forall|j: int| 0 <= j < w.len() ==> c.live(#[trigger] w[j])
    &&& forall|j: int|
        0 <= j < w.len() ==> c.node(s).derivation_depth < c.node(
            #[trigger] w[j],
        ).derivation_depth
    &&& forall|j: int|
        0 <= j < w.len() ==> (parent_of(c.node(#[trigger] w[j])) == s || (exists|k: int|
            0 <= k < i && k < j && parent_of(c.node(w[j])) == #[trigger] w[k]))
    &&& forall|k: Slot| c.kids(s).contains(k) ==> #[trigger] w.contains(k)
    &&& forall|j: int, k: Slot|
        #![trigger w[j], w.contains(k)]
        0 <= j < i && c.kids(w[j]).contains(k) ==> w.contains(k)
}

/// Before anything is looked at, the children of `s` are collected.
proof fn lemma_collecting_starts(c: &CapabilitySpace, s: Slot)
    requires
        c.wf(),
        is_slot(s),
    ensures
        collecting(c, s, c.kids(s), 0),
{
    reveal(collecting);
    let w = c.kids(s);
    assert(c.chain(s, c.kids(s)));
    assert forall|j: int| 0 <= j < w.len() implies c.live(#[trigger] w[j]) && c.node(
        s,
    ).derivation_depth < c.node(w[j]).derivation_depth && parent_of(c.node(w[j])) == s by {
        assert(c.kid_ok(s, c.kids(s)[j]));
    }
}

/// The children of the next member were not collected before.
proof fn lemma_next_children_are_new(c: &CapabilitySpace, s: Slot, w: Seq<Slot>, i: int)
    requires
        c.wf(),
        is_slot(s),
        collecting(c, s, w, i),
        i < w.len(),
    ensures
        is_slot(w[i]),
        c.chain(w[i], c.kids(w[i])),
        forall|j: int|
            0 <= j < c.kids(w[i]).len() ==> c.kid_ok(w[i], #[trigger] c.kids(w[i])[j]),
        forall|a: int, b: int|
            0 <= a < w.len() && 0 <= b < c.kids(w[i]).len() ==> #[trigger] w[a]
                != #[trigger] c.kids(w[i])[b],
{
    reveal(collecting);
    let ks = c.kids(w[i]);
    assert(c.live(w[i]));
    assert(c.chain(w[i], c.kids(w[i])));
    assert forall|j: int| 0 <= j < ks.len() implies c.kid_ok(w[i], #[trigger] ks[j]) by {
        assert(c.kid_ok(w[i], c.kids(w[i])[j]));
    }
    assert forall|a: int, b: int| 0 <= a < w.len() && 0 <= b < ks.len() implies #[trigger] w[a]
        != #[trigger] ks[b] by {
        if w[a] == ks[b] {
            assert(c.kid_ok(w[i], ks[b]));
            let q = parent_of(c.node(w[a]));
            assert(q == w[i]);
            if q == s {
                assert(c.node(s).derivation_depth < c.node(w[i]).derivation_depth);
            } else {
                let k = choose|k: int| 0 <= k < i && k < a && q == #[trigger] w[k];
                assert(w[k] == w[i]);
            }
        }
    }
}

/// Appending the children of the next member keeps the state of the collection.
#[verifier::spinoff_prover]
#[verifier::rlimit(60)]
proof fn lemma_collecting_goes_on(c: &CapabilitySpace, s: Slot, w: Seq<Slot>, i: int)
    requires
        c.wf(),
        is_slot(s),
        collecting(c, s, w, i),
        i < w.len(),
    ensures
        collecting(c, s, w + c.kids(w[i]), i + 1),
{
    lemma_next_children_are_new(c, s, w, i);
    reveal(collecting);
    let ks = c.kids(w[i]);
    let v = w + ks;
    assert(v.no_duplicates()) by {
        assert forall|a: int, b: int| 0 <= a < v.len() && 0 <= b < v.len() && a != b implies v[a]
            != v[b] by {
            if a < w.len() && b >= w.len() {
                assert(w[a] != ks[b - w.len()]);
            }
            if b < w.len() && a >= w.len() {
                assert(w[b] != ks[a - w.len()]);
            }
        }
    }
    assert forall|j: int| 0 <= j < v.len() implies c.live(#[trigger] v[j]) && c.node(
        s,
    ).derivation_depth < c.node(v[j]).derivation_depth by {
        if j < w.len() {
            assert(c.live(w[j]));
            assert(v[j] == w[j]);
        } else {
            assert(v[j] == ks[j - w.len()]);
            assert(c.kid_ok(w[i], ks[j - w.len()]));
            assert(c.node(s).derivation_depth < c.node(w[i]).derivation_depth);
        }
    }
    assert forall|j: int| 0 <= j < v.len() implies (parent_of(c.node(#[trigger] v[j])) == s || (
    exists|k: int| 0 <= k < i + 1 && k < j && parent_of(c.node(v[j])) == #[trigger] v[k])) by {
        if j < w.len() {
            assert(v[j] == w[j]);
            if parent_of(c.node(w[j])) != s {
                let k = choose|k: int|
                    0 <= k < i && k < j && parent_of(c.node(w[j])) == #[trigger] w[k];
                assert(v[k] == w[k]);
            }
        } else {
            assert(v[j] == ks[j - w.len()]);
            assert(c.kid_ok(w[i], ks[j - w.len()]));
            assert(v[i] == w[i]);
        }
    }
    assert forall|k: Slot| c.kids(s).contains(k) implies #[trigger] v.contains(k) by {
        assert(w.contains(k));
        let a = w.index_of(k);
        assert(v[a] == k);
    }
    assert forall|j: int, k: Slot|
        #![trigger v[j], v.contains(k)]
        0 <= j < i + 1 && c.kids(v[j]).contains(k) implies v.contains(k) by {
        assert(v[j] == w[j]);
        if j < i {
            assert(w.contains(k));
            let a = w.index_of(k);
            assert(v[a] == k);
        } else {
            let a = ks.index_of(k);
            assert(v[w.len() + a] == k);
        }
    }
}

/// What the collection promises of its members.
pub proof fn lemma_collected(c: &CapabilitySpace, s: Slot, w: Seq<Slot>, i: int)
    requires
        collecting(c, s, w, i),
    ensures
        0 <= i <= w.len() <= MAX_CAPABILITY_NODES,
        w.no_duplicates(),
        forall|j: int| 0 <= j < w.len() ==> c.live(#[trigger] w[j]),
        !w.contains(s),
{
    reveal(collecting);
    assert forall|j: int| 0 <= j < w.len() implies is_slot(#[trigger] w[j]) by {
        assert(c.live(w[j]));
    }
    lemma_slots_are_few(w);
    if w.contains(s) {
        let j = w.index_of(s);
        assert(c.node(s).derivation_depth < c.node(w[j]).derivation_depth);
    }
}

/// A complete collection holds exactly what was derived from `s`.
proof fn lemma_collection_is_complete(c: &CapabilitySpace, s: Slot, w: Seq<Slot>)
    requires
        c.wf(),
        is_slot(s),
        collecting(c, s, w, w.len() as int),
    ensures
        forall|k: Slot| #[trigger] w.contains(k) <==> derived_from(c, k, s),
{
    reveal(collecting);
    assert forall|k: Slot| #[trigger] w.contains(k) <==> derived_from(c, k, s) by {
        if w.contains(k) {
            let j = w.index_of(k);
            assert(c.live(w[j]));
            assert(c.node_ok(w[j]));
            lemma_member_leads_to(c, s, w, j);
        }
        if derived_from(c, k, s) {
            lemma_leads_to_is_member(c, s, w, k, MAX_DERIVATION_DEPTH as nat);
        }
    }
}

/// Going up from a member leads to `s`, in as many steps as it lies deeper.
proof fn lemma_member_leads_to(c: &CapabilitySpace, s: Slot, w: Seq<Slot>, j: int)
    requires
        c.wf(),
        is_slot(s),
        collecting(c, s, w, w.len() as int),
        0 <= j < w.len(),
    ensures
        leads_to(c, w[j], s, MAX_DERIVATION_DEPTH as nat),
        leads_to(
            c,
            w[j],
            s,
            (c.node(w[j]).derivation_depth - c.node(s).derivation_depth) as nat,
        ),
    decreases j,
{
    reveal(collecting);
    let q = parent_of(c.node(w[j]));
    let d = (c.node(w[j]).derivation_depth - c.node(s).derivation_depth) as nat;
    assert(c.live(w[j]));
    assert(c.parent_ok(w[j]) && c.node_ok(w[j]));
    if q != s {
        let k = choose|k: int| 0 <= k < w.len() && k < j && q == #[trigger] w[k];
        lemma_member_leads_to(c, s, w, k);
        assert(c.live(w[k]));
        assert(c.kid_ok(q, c.kids(q)[c.kids(q).index_of(w[j])]));
        lemma_leads_to_grows(
            c,
            q,
            s,
            (c.node(q).derivation_depth - c.node(s).derivation_depth) as nat,
            (d - 1) as nat,
        );
    } else {
        assert(is_slot(s));
    }
    lemma_leads_to_grows(c, w[j], s, d, MAX_DERIVATION_DEPTH as nat);
}

/// More steps reach at least as far.
proof fn lemma_leads_to_grows(c: &CapabilitySpace, k: Slot, s: Slot, n: nat, m: nat)
    requires
        leads_to(c, k, s, n),
        n <= m,
    ensures
        leads_to(c, k, s, m),
    decreases n,
{
    let q = parent_of(c.node(k));
    if q != s {
        lemma_leads_to_grows(c, q, s, (n - 1) as nat, (m - 1) as nat);
    }
}

/// Whatever leads to `s` was collected.
proof fn lemma_leads_to_is_member(c: &CapabilitySpace, s: Slot, w: Seq<Slot>, k: Slot, n: nat)
    requires
        c.wf(),
        is_slot(s),
        collecting(c, s, w, w.len() as int),
        c.live(k),
        leads_to(c, k, s, n),
    ensures
        w.contains(k),
    decreases n,
{
    reveal(collecting);
    let q = parent_of(c.node(k));
    assert(c.parent_ok(k));
    if q == s {
        assert(c.kids(s).contains(k));
    } else {
        lemma_leads_to_is_member(c, s, w, q, (n - 1) as nat);
        let a = w.index_of(q);
        assert(w[a] == q && c.kids(w[a]).contains(k));
        assert(w.contains(k));
    }
}

/// The members of a collection, as pairs of indices.
pub open spec fn slots_of(v: Seq<(u8, u8)>) -> Seq<Slot> {
    Seq::new(v.len(), |i: int| link_at(v[i].0, v[i].1))
}

impl CapabilitySpace {
    /// Appends the chain below a slot to a list.
    fn append_chain(&self, p: usize, h: usize, out: &mut Vec<(u8, u8)>)
        requires
            is_slot(slot_at(p, h)),
            self.chain(slot_at(p, h), self.kids(slot_at(p, h))),
        ensures
            slots_of(final(out)@) == slots_of(old(out)@) + self.kids(slot_at(p, h)),
    {
        let ghost s = slot_at(p, h);
        let ghost ks = self.kids(s);
        let mut curr_p: u8 = self.nodes[p][h].first_child_pslot;
        let mut curr_h: u8 = self.nodes[p][h].first_child_hslot;
        assert(link_at(curr_p, curr_h) == first_of(self.node(s)));
        let ghost mut i: int = 0;
        assert(slots_of(out@) =~= slots_of(old(out)@) + ks.take(0));
        while curr_p != NO_SLOT && curr_h != NO_SLOT
            invariant
                self.chain(s, ks),
                0 <= i <= ks.len(),
                link_at(curr_p, curr_h) == (if i < ks.len() {
                    ks[i]
                } else {
                    no_slot()
                }),
                slots_of(out@) == slots_of(old(out)@) + ks.take(i),
            decreases ks.len() - i,
        {
            assert(i < ks.len());
            assert(is_slot(ks[i]));
            let ghost o = out@;
            out.push((curr_p, curr_h));
            let n = self.nodes[curr_p as usize][curr_h as usize];
            assert(n == self.node(ks[i]));
            curr_p = n.next_sibling_pslot;
            curr_h = n.next_sibling_hslot;
            proof {
                assert(slots_of(out@) =~= slots_of(o).push(ks[i]));
                assert(ks.take(i + 1) =~= ks.take(i).push(ks[i]));
                assert(slots_of(old(out)@) + ks.take(i + 1) =~= (slots_of(old(out)@) + ks.take(
                    i,
                )).push(ks[i]));
                i = i + 1;
            }
        }
        assert(i == ks.len()) by {
            if i < ks.len() {
                assert(is_slot(ks[i]));
            }
        }
        assert(ks.take(i) =~= ks);
    }

    /// Collects the capabilities derived from the one at a slot.
    pub(crate) fn collect_descendants(&self, p: usize, h: usize) -> (r: Vec<(u8, u8)>)
        requires
            self.wf(),
            is_slot(slot_at(p, h)),
        ensures
            slots_of(r@) == descendants(self, slot_at(p, h)),
            collecting(self, slot_at(p, h), slots_of(r@), r@.len() as int),
    {
        let ghost s = slot_at(p, h);
        let mut work: Vec<(u8, u8)> = Vec::new();
        assert(self.chain(s, self.kids(s)));
        self.append_chain(p, h, &mut work);
        proof {
            assert(slots_of(Seq::<(u8, u8)>::empty()) + self.kids(s) =~= self.kids(s));
            lemma_collecting_starts(self, s);
            lemma_collected(self, s, slots_of(work@), 0);
        }
        let mut idx: usize = 0;
        while idx < work.len()
            invariant
                self.wf(),
                is_slot(s),
                idx <= work@.len(),
                work@.len() <= MAX_CAPABILITY_NODES,
                collecting(self, s, slots_of(work@), idx as int),
                breadth_first(
                    self.children@,
                    slots_of(work@),
                    idx as int,
                    (MAX_CAPABILITY_NODES - idx) as nat,
                ) == descendants(self, s),
            decreases MAX_CAPABILITY_NODES - idx,
        {
            let ghost w = slots_of(work@);
            let (cp, ch) = work[idx];
            assert(w[idx as int] == link_at(cp, ch));
            proof {
                lemma_collected(self, s, w, idx as int);
            }
            assert(self.live(w[idx as int]));
            assert(self.chain(w[idx as int], self.kids(w[idx as int])));
            self.append_chain(cp as usize, ch as usize, &mut work);
            proof {
                lemma_collecting_goes_on(self, s, w, idx as int);
                assert(slots_of(work@) == w + self.kids(w[idx as int]));
                lemma_collected(self, s, slots_of(work@), idx + 1);
            }
            idx = idx + 1;
        }
        work
    }
}

/// The descendants of a capability are exactly those from which the links to the parents lead to
/// it, and each is listed once.
pub proof fn law_descendants(c: &CapabilitySpace, s: Slot)
    requires
        c.wf(),
        is_slot(s),
    ensures
        forall|k: Slot| #[trigger] descendants(c, s).contains(k) <==> derived_from(c, k, s),
        descendants(c, s).no_duplicates(),
{
    lemma_collecting_starts(c, s);
    lemma_breadth_first_collects(c, s, c.kids(s), 0);
    lemma_collection_is_complete(c, s, descendants(c, s));
    lemma_collected(c, s, descendants(c, s), descendants(c, s).len() as int);
}

/// Running the collection to its end gives a complete one.
proof fn lemma_breadth_first_collects(c: &CapabilitySpace, s: Slot, w: Seq<Slot>, i: int)
    requires
        c.wf(),
        is_slot(s),
        collecting(c, s, w, i),
    ensures
        ({
            let v = breadth_first(c.children@, w, i, (MAX_CAPABILITY_NODES - i) as nat);
            collecting(c, s, v, v.len() as int)
        }),
    decreases MAX_CAPABILITY_NODES - i,
{
    reveal(collecting);
    assert forall|j: int| 0 <= j < w.len() implies is_slot(#[trigger] w[j]) by {
        assert(c.live(w[j]));
    }
    lemma_slots_are_few(w);
    if i < w.len() {
        lemma_collecting_goes_on(c, s, w, i);
        lemma_breadth_first_collects(c, s, w + c.kids(w[i]), i + 1);
    }
}

/// The node `n` after its capability was withdrawn.
pub open spec fn revoked_node(n: CapabilityNode) -> CapabilityNode {
    CapabilityNode {
        is_revoked: true,
        first_child_pslot: NO_SLOT,
        first_child_hslot: NO_SLOT,
        next_sibling_pslot: NO_SLOT,
        next_sibling_hslot: NO_SLOT,
        ..n
    }
}

/// Everything derived from the capability at `s` is withdrawn: the entries are free, the nodes
/// are marked, the chains are empty. Nothing else changed.
pub open spec fn withdrawn(old_space: &CapabilitySpace, new: &CapabilitySpace, s: Slot) -> bool {
    let d = descendants(old_space, s);
    &&& new.next_capability_id == old_space.next_capability_id
    &&& forall|t: Slot|
        is_slot(t) ==> (#[trigger] new.entry(t)) == (if d.contains(t) {
            freed_entry(old_space.entry(t))
        } else {
            old_space.entry(t)
        })
    &&& forall|t: Slot|
        is_slot(t) ==> core_of(#[trigger] new.node(t)) == (if d.contains(t) {
            NodeCore { is_revoked: true, ..core_of(old_space.node(t)) }
        } else {
            core_of(old_space.node(t))
        })
    &&& forall|t: Slot|
        is_slot(t) ==> (#[trigger] new.kids(t)) == (if t == s || d.contains(t) {
            Seq::empty()
        } else {
            old_space.kids(t)
        })
}

impl CapabilitySpace {
    /// Marks a node as revoked and clears its links.
    fn mark_revoked(&mut self, p: usize, h: usize)
        requires
            is_slot(slot_at(p, h)),
        ensures
            final(self).same_but_node(old(self), slot_at(p, h)),
            final(self).node(slot_at(p, h)) == revoked_node(old(self).node(slot_at(p, h))),
    {
        self.nodes[p][h].is_revoked = true;
        self.nodes[p][h].first_child_pslot = NO_SLOT;
        self.nodes[p][h].first_child_hslot = NO_SLOT;
        self.nodes[p][h].next_sibling_pslot = NO_SLOT;
        self.nodes[p][h].next_sibling_hslot = NO_SLOT;
    }

    /// Withdraws all capabilities derived from the one at a slot, which `work` lists.
    pub(crate) fn withdraw(&mut self, p: usize, h: usize, work: &Vec<(u8, u8)>)
        requires
            old(self).wf(),
            is_slot(slot_at(p, h)),
            slots_of(work@) == descendants(old(self), slot_at(p, h)),
            collecting(old(self), slot_at(p, h), slots_of(work@), work@.len() as int),
        ensures
            final(self).wf(),
            withdrawn(old(self), final(self), slot_at(p, h)),
    {
        let ghost s = slot_at(p, h);
        let ghost w = slots_of(work@);
        let ghost before = *self;
        proof {
            lemma_collected(self, s, w, work@.len() as int);
        }
        self.set_first(p, h, NO_SLOT, NO_SLOT);
        let ghost start = *self;
        let mut idx: usize = 0;
        assert(w.take(0) =~= Seq::<Slot>::empty());
        while idx < work.len()
            invariant
                idx <= work@.len(),
                w == slots_of(work@),
                w.no_duplicates(),
                forall|j: int| 0 <= j < w.len() ==> before.live(#[trigger] w[j]),
                !w.contains(s),
                is_slot(s),
                self.next_capability_id == before.next_capability_id,
                self.children == before.children,
                self.counts_ok(),
                forall|t: Slot|
                    is_slot(t) ==> (#[trigger] self.entry(t)) == (if w.take(idx as int).contains(
                        t,
                    ) {
                        freed_entry(before.entry(t))
                    } else {
                        before.entry(t)
                    }),
                forall|t: Slot|
                    is_slot(t) ==> (#[trigger] self.node(t)) == (if w.take(idx as int).contains(t) {
                        revoked_node(before.node(t))
                    } else {
                        start.node(t)
                    }),
                forall|t: Slot| is_slot(t) && t != s ==> (#[trigger] start.node(t)) == before.node(t),
            decreases work@.len() - idx,
        {
            let (cp, ch) = work[idx];
            let ghost k = w[idx as int];
            let ghost at = *self;
            assert(k == slot_at(cp as usize, ch as usize));
            assert(before.live(k));
            assert(!w.take(idx as int).contains(k)) by {
                if w.take(idx as int).contains(k) {
                    let j = w.take(idx as int).index_of(k);
                    assert(w[j] == w[idx as int]);
                }
            }
            assert(k != s) by {
                assert(w.contains(k));
            }
            assert(at.entry(k) == before.entry(k));
            assert(at.node(k) == before.node(k));
            self.mark_revoked(cp as usize, ch as usize);
            let ghost marked = *self;
            assert(marked.counts_ok()) by {
                assert(marked.tables == at.tables);
                assert forall|q: int| 0 <= q < MAX_PROCESSES implies (#[trigger] marked.tables@[q])
                    == at.tables@[q] by {}
            }
            assert(marked.entry(k) == at.entry(k));
            self.free_entry(cp as usize, ch as usize);
            proof {
                let nt = w.take(idx + 1);
                assert(nt =~= w.take(idx as int).push(k));
                assert forall|t: Slot| nt.contains(t) == (w.take(idx as int).contains(t) || t
                    == k) by {
                    if w.take(idx as int).contains(t) {
                        let j = w.take(idx as int).index_of(t);
                        assert(nt[j] == t);
                    }
                    if t == k {
                        assert(nt[idx as int] == t);
                    }
                    if nt.contains(t) {
                        let j = nt.index_of(t);
                        if j < idx {
                            assert(w.take(idx as int)[j] == t);
                        }
                    }
                }
                assert forall|t: Slot| is_slot(t) implies (#[trigger] self.entry(t)) == (
                if nt.contains(t) {
                    freed_entry(before.entry(t))
                } else {
                    before.entry(t)
                }) by {
                    assert(marked.entry(t) == at.entry(t));
                }
                assert forall|t: Slot| is_slot(t) implies (#[trigger] self.node(t)) == (
                if nt.contains(t) {
                    revoked_node(before.node(t))
                } else {
                    start.node(t)
                }) by {
                    assert(self.node(t) == marked.node(t));
                    if t != k {
                        assert(marked.node(t) == at.node(t));
                    }
                }
            }
            idx = idx + 1;
        }
        assert(w.take(idx as int) =~= w);
        proof {
            let last = *self;
            self.children@ = Map::new(
                |t: Slot| true,
                |t: Slot|
                    if t == s || w.contains(t) {
                        Seq::empty()
                    } else {
                        before.children@[t]
                    },
            );
            assert forall|t: Slot| (#[trigger] self.node(t)) == last.node(t) by {}
            assert forall|t: Slot| (#[trigger] self.entry(t)) == last.entry(t) by {}
            assert(core_of(start.node(s)) == core_of(before.node(s)));
            assert(last.node(s) == start.node(s));
            lemma_withdrawn_keeps_wf(&before, self, s);
        }
    }
}

/// Withdrawing what was derived from a capability keeps the invariant.
proof fn lemma_withdrawn_keeps_wf(before: &CapabilitySpace, after: &CapabilitySpace, s: Slot)
    requires
        before.wf(),
        is_slot(s),
        collecting(before, s, descendants(before, s), descendants(before, s).len() as int),
        withdrawn(before, after, s),
        after.counts_ok(),
        first_of(after.node(s)) == no_slot(),
        forall|t: Slot|
            is_slot(t) && descendants(before, s).contains(t) ==> first_of(#[trigger] after.node(t))
                == no_slot(),
        forall|t: Slot|
            is_slot(t) && t != s && !descendants(before, s).contains(t) ==> (#[trigger] after.node(
                t,
            )) == before.node(t),
        next_of(after.node(s)) == next_of(before.node(s)),
    ensures
        after.wf(),
{
    let d = descendants(before, s);
    reveal(collecting);
    lemma_collected(before, s, d, d.len() as int);
    // A child of a slot outside is outside too.
    assert forall|t: Slot, k: Slot|
        is_slot(t) && t != s && !d.contains(t) && #[trigger] before.kids(t).contains(
            k,
        ) implies !d.contains(k) by {
        if d.contains(k) {
            let j = d.index_of(k);
            let i = before.kids(t).index_of(k);
            assert(before.kid_ok(t, before.kids(t)[i]));
            assert(d[j] == k);
            if parent_of(before.node(d[j])) != s {
                let m = choose|m: int|
                    0 <= m < d.len() && m < j && parent_of(before.node(d[j])) == #[trigger] d[m];
                assert(d.contains(d[m]));
            }
        }
    }
    assert forall|t: Slot| is_slot(t) implies after.chain(t, #[trigger] after.kids(t)) by {
        if t != s && !d.contains(t) {
            let ts = before.kids(t);
            assert(before.chain(t, before.kids(t)));
            assert forall|i: int| 0 <= i < ts.len() implies next_of(#[trigger] after.node(ts[i]))
                == next_of(before.node(ts[i])) by {
                assert(before.kids(t).contains(ts[i]));
                assert(is_slot(ts[i]));
            }
        }
    }
    assert forall|t: Slot, i: int| is_slot(t) && 0 <= i < after.kids(t).len() implies after.kid_ok(
        t,
        #[trigger] after.kids(t)[i],
    ) by {
        let k = before.kids(t)[i];
        assert(before.kid_ok(t, before.kids(t)[i]));
        assert(before.kids(t).contains(k));
        assert(core_of(after.node(k)) == core_of(before.node(k)));
        assert(core_of(after.node(t)) == core_of(before.node(t)));
    }
    assert forall|t: Slot| #[trigger] after.live(t) implies after.parent_ok(t) && after.node_ok(
        t,
    ) by {
        assert(!d.contains(t));
        assert(before.live(t));
        assert(before.parent_ok(t) && before.node_ok(t));
        assert(core_of(after.node(t)) == core_of(before.node(t)));
        let q = parent_of(before.node(t));
        if q != no_slot() {
            if d.contains(q) {
                let j = d.index_of(q);
                assert(d[j] == q && before.kids(d[j]).contains(t));
                assert(d.contains(t));
            }
            if q == s {
                assert(before.kids(s).contains(t));
                assert(d.contains(t));
            }
            assert(after.entry(q) == before.entry(q));
            assert(after.kids(q) == before.kids(q));
        }
    }
    assert forall|t: Slot| is_slot(t) && !after.live(t) implies (#[trigger] after.kids(t)).len()
        == 0 by {
        if t != s && !d.contains(t) {
            assert(!before.live(t));
            assert(before.kids(t).len() == 0);
        }
    }
    assert forall|t: Slot, u: Slot|
        #![trigger after.live(t), after.live(u)]
        after.live(t) && after.live(u) && t != u implies after.node(t).capability_id != after.node(
        u,
    ).capability_id by {
        assert(before.live(t) && before.live(u));
        assert(core_of(after.node(t)).capability_id == before.node(t).capability_id);
        assert(core_of(after.node(u)).capability_id == before.node(u).capability_id);
    }
    assert forall|t: Slot| is_slot(t) implies (#[trigger] after.entry(t)).handle_generation
        != 0 by {
        assert(before.entry(t).handle_generation != 0);
    }
}

} // verus!
