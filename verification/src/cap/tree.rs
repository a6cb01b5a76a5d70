//! What holds of the handle tables and the derivation tree at all times, and the steps that
//! change them: a capability appears, moves, or goes.
use crate::cap::node::{
    add_child_locked, core_of, first_of, is_slot, next_of, no_slot, parent_of, position,
    remove_child_locked, replace_child_locked, slot_at, CapabilitySpace, NodeCore, Slot,
};
use crate::cap::types::{
    CapabilityNode, MAX_DERIVATION_DEPTH, MAX_HANDLES_PER_PROCESS, MAX_PROCESSES, NO_SLOT,
};
use crate::ipc::handle::HandleEntry;
use crate::ipc::object::{bump_generation, next_generation};
use vstd::prelude::*;

verus! {

/// How many of the first `n` entries are in use.
pub open spec fn occupied_count(entries: Seq<HandleEntry>, n: int) -> int
    decreases n,
{
    if n <= 0 {
        0
    } else {
        occupied_count(entries, n - 1) + (if entries[n - 1].occupied {
            1int
        } else {
            0int
        })
    }
}

/// The entry `e` after a capability was put into its slot.
pub open spec fn installed_entry(
    e: HandleEntry,
    object_index: u16,
    object_generation: u16,
    rights: u16,
    endpoint: u8,
) -> HandleEntry {
    HandleEntry { object_index, object_generation, rights, endpoint, occupied: true, ..e }
}

/// The entry `e` after its capability is gone.
pub open spec fn freed_entry(e: HandleEntry) -> HandleEntry {
    HandleEntry {
        occupied: false,
        handle_generation: next_generation(e.handle_generation),
        ..e
    }
}

impl CapabilitySpace {
    pub open spec fn node_core(&self, s: Slot) -> NodeCore {
        core_of(self.node(s))
    }

    /// A child is in use, knows its parent and lies deeper than it.
    pub open spec fn kid_ok(&self, s: Slot, k: Slot) -> bool {
        &&& self.live(k)
        &&& parent_of(self.node(k)) == s
        &&& self.node(s).derivation_depth < self.node(k).derivation_depth
    }

    /// A capability is a root, or hangs in the chain of a parent that is in use.
    pub open spec fn parent_ok(&self, s: Slot) -> bool {
        let p = parent_of(self.node(s));
        p == no_slot() || (self.live(p) && self.kids(p).contains(s))
    }

    /// A capability in use is not revoked, has an identifier that was handed out, and is not
    /// too deep.
    pub open spec fn node_ok(&self, s: Slot) -> bool {
        &&& !self.node(s).is_revoked
        &&& 0 < self.node(s).capability_id < self.next_capability_id
        &&& self.node(s).derivation_depth <= MAX_DERIVATION_DEPTH
    }

    pub open spec fn chains_ok(&self) -> bool {
        forall|s: Slot| is_slot(s) ==> self.chain(s, #[trigger] self.kids(s))
    }

    pub open spec fn kids_ok(&self) -> bool {
        forall|s: Slot, i: int|
            is_slot(s) && 0 <= i < self.kids(s).len() ==> self.kid_ok(s, #[trigger] self.kids(s)[i])
    }

    pub open spec fn parents_ok(&self) -> bool {
        forall|s: Slot| #[trigger] self.live(s) ==> self.parent_ok(s) && self.node_ok(s)
    }

    /// A slot that is not in use has no children.
    pub open spec fn idle_ok(&self) -> bool {
        forall|s: Slot| is_slot(s) && !self.live(s) ==> (#[trigger] self.kids(s)).len() == 0
    }

    /// No two capabilities in use share an identifier.
    pub open spec fn ids_ok(&self) -> bool {
        forall|s: Slot, t: Slot|
            #![trigger self.live(s), self.live(t)]
            self.live(s) && self.live(t) && s != t ==> self.node(s).capability_id != self.node(
                t,
            ).capability_id
    }

    /// Every table counts its entries.
    pub open spec fn counts_ok(&self) -> bool {
        forall|p: int|
            0 <= p < MAX_PROCESSES ==> (#[trigger] self.tables@[p]).count == occupied_count(
                self.tables@[p].entries@,
                MAX_HANDLES_PER_PROCESS as int,
            )
    }

    pub open spec fn generations_ok(&self) -> bool {
        forall|s: Slot| is_slot(s) ==> (#[trigger] self.entry(s)).handle_generation != 0
    }

    pub open spec fn wf(&self) -> bool {
        &&& self.chains_ok()
        &&& self.kids_ok()
        &&& self.parents_ok()
        &&& self.idle_ok()
        &&& self.ids_ok()
        &&& self.counts_ok()
        &&& self.generations_ok()
        &&& self.next_capability_id >= 1
    }

    /// The two agree on everything but the entry at `s` and the count of its table.
    pub open spec fn same_but_entry(&self, other: &Self, s: Slot) -> bool {
        &&& self.nodes == other.nodes
        &&& self.next_capability_id == other.next_capability_id
        &&& self.children == other.children
        &&& forall|t: Slot| is_slot(t) && t != s ==> (#[trigger] self.entry(t)) == other.entry(t)
        &&& forall|t: Slot| (#[trigger] self.node(t)) == other.node(t)
    }

    /// Puts a capability into a free entry.
    pub(crate) fn install_entry(
        &mut self,
        p: usize,
        h: usize,
        object_index: u16,
        object_generation: u16,
        rights: u16,
        endpoint: u8,
    )
        requires
            is_slot(slot_at(p, h)),
            old(self).counts_ok(),
            !old(self).entry(slot_at(p, h)).occupied,
        ensures
            final(self).same_but_entry(old(self), slot_at(p, h)),
            final(self).counts_ok(),
            final(self).entry(slot_at(p, h)) == installed_entry(
                old(self).entry(slot_at(p, h)),
                object_index,
                object_generation,
                rights,
                endpoint,
            ),
    {
        let ghost before = self.tables@[p as int].entries@;
        proof {
            assert(self.tables@[p as int].count == occupied_count(before, 32));
            lemma_occupied_bound(before, 32);
        }
        self.tables[p].entries[h].occupied = true;
        self.tables[p].entries[h].object_index = object_index;
        self.tables[p].entries[h].object_generation = object_generation;
        self.tables[p].entries[h].rights = rights;
        self.tables[p].entries[h].endpoint = endpoint;
        self.tables[p].count = self.tables[p].count + 1;
        proof {
            lemma_occupied_update(
                before,
                h as int,
                self.entry(slot_at(p, h)),
                MAX_HANDLES_PER_PROCESS as int,
            );
            assert(self.tables@[p as int].entries@ =~= before.update(
                h as int,
                self.entry(slot_at(p, h)),
            ));
            assert forall|q: int| 0 <= q < MAX_PROCESSES implies (#[trigger] self.tables@[q]).count
                == occupied_count(self.tables@[q].entries@, MAX_HANDLES_PER_PROCESS as int) by {
                if q != p {
                    assert(self.tables@[q] == old(self).tables@[q]);
                }
            }
        }
    }

    /// Frees an entry and moves its generation on.
    pub(crate) fn free_entry(&mut self, p: usize, h: usize)
        requires
            is_slot(slot_at(p, h)),
            old(self).counts_ok(),
            old(self).entry(slot_at(p, h)).occupied,
        ensures
            final(self).same_but_entry(old(self), slot_at(p, h)),
            final(self).counts_ok(),
            final(self).entry(slot_at(p, h)) == freed_entry(old(self).entry(slot_at(p, h))),
    {
        let ghost before = self.tables@[p as int].entries@;
        proof {
            assert(self.tables@[p as int].count == occupied_count(before, 32));
        }
        let generation: u16 = bump_generation(self.tables[p].entries[h].handle_generation);
        self.tables[p].entries[h].occupied = false;
        self.tables[p].entries[h].handle_generation = generation;
        self.tables[p].count = self.tables[p].count.saturating_sub(1);
        proof {
            lemma_occupied_update(
                before,
                h as int,
                self.entry(slot_at(p, h)),
                MAX_HANDLES_PER_PROCESS as int,
            );
            lemma_occupied_bound(self.tables@[p as int].entries@, 32);
            assert(self.tables@[p as int].entries@ =~= before.update(
                h as int,
                self.entry(slot_at(p, h)),
            ));
            assert forall|q: int| 0 <= q < MAX_PROCESSES implies (#[trigger] self.tables@[q]).count
                == occupied_count(self.tables@[q].entries@, MAX_HANDLES_PER_PROCESS as int) by {
                if q != p {
                    assert(self.tables@[q] == old(self).tables@[q]);
                }
            }
        }
    }
}

/// A table holds no more capabilities than it has entries.
pub proof fn lemma_occupied_bound(entries: Seq<HandleEntry>, n: int)
    requires
        0 <= n,
    ensures
        0 <= occupied_count(entries, n) <= n,
    decreases n,
{
    if n > 0 {
        lemma_occupied_bound(entries, n - 1);
    }
}

/// Changing one entry changes the count by that entry.
proof fn lemma_occupied_update(entries: Seq<HandleEntry>, h: int, e: HandleEntry, n: int)
    requires
        0 <= h < entries.len(),
        n <= entries.len(),
    ensures
        occupied_count(entries.update(h, e), n) == occupied_count(entries, n) + (if h < n {
            (if e.occupied {
                1int
            } else {
                0int
            }) - (if entries[h].occupied {
                1int
            } else {
                0int
            })
        } else {
            0int
        }),
    decreases n,
{
    if n > 0 {
        lemma_occupied_update(entries, h, e, n - 1);
    }
}

/// The two agree on every entry and on what every node says of its capability, except at `s`.
pub open spec fn same_caps_but(new: &CapabilitySpace, old_space: &CapabilitySpace, s: Slot) -> bool {
    &&& forall|t: Slot| is_slot(t) && t != s ==> (#[trigger] new.entry(t)) == old_space.entry(t)
    &&& forall|t: Slot|
        is_slot(t) && t != s ==> core_of(#[trigger] new.node(t)) == core_of(old_space.node(t))
}

/// What a new node says of its capability.
pub open spec fn fresh_core(
    n: CapabilityNode,
    capability_id: u64,
    parent: Slot,
    parent_gen: u16,
    derivation_depth: u8,
    flags: u16,
) -> NodeCore {
    NodeCore {
        capability_id,
        parent,
        parent_gen,
        derivation_depth,
        is_revoked: false,
        flags,
        reserved: n._reserved,
    }
}

impl CapabilitySpace {
    /// Replaces what a node says of its capability, and its links.
    fn set_node(
        &mut self,
        p: usize,
        h: usize,
        capability_id: u64,
        parent_pslot: u8,
        parent_hslot: u8,
        parent_gen: u16,
        derivation_depth: u8,
        flags: u16,
        first_child_pslot: u8,
        first_child_hslot: u8,
    )
        requires
            is_slot(slot_at(p, h)),
        ensures
            final(self).same_but_node(old(self), slot_at(p, h)),
            final(self).node(slot_at(p, h)) == (CapabilityNode {
                capability_id,
                parent_pslot,
                parent_hslot,
                parent_gen,
                derivation_depth,
                is_revoked: false,
                flags,
                first_child_pslot,
                first_child_hslot,
                next_sibling_pslot: NO_SLOT,
                next_sibling_hslot: NO_SLOT,
                _reserved: old(self).node(slot_at(p, h))._reserved,
            }),
    {
        let reserved = self.nodes[p][h]._reserved;
        self.nodes[p][h] = CapabilityNode {
            capability_id,
            parent_pslot,
            parent_hslot,
            parent_gen,
            derivation_depth,
            is_revoked: false,
            flags,
            first_child_pslot,
            first_child_hslot,
            next_sibling_pslot: NO_SLOT,
            next_sibling_hslot: NO_SLOT,
            _reserved: reserved,
        };
    }

    /// Puts a root capability with a new identifier into a free slot.
    pub(crate) fn attach_root(
        &mut self,
        p: usize,
        h: usize,
        id: u64,
        object_index: u16,
        object_generation: u16,
        rights: u16,
        endpoint: u8,
    )
        requires
            old(self).wf(),
            is_slot(slot_at(p, h)),
            !old(self).live(slot_at(p, h)),
            0 < id < old(self).next_capability_id,
            forall|t: Slot| #[trigger] old(self).live(t) ==> old(self).node(t).capability_id != id,
        ensures
            final(self).wf(),
            same_caps_but(final(self), old(self), slot_at(p, h)),
            final(self).next_capability_id == old(self).next_capability_id,
            final(self).children == old(self).children,
            final(self).entry(slot_at(p, h)) == installed_entry(
                old(self).entry(slot_at(p, h)),
                object_index,
                object_generation,
                rights,
                endpoint,
            ),
            final(self).node_core(slot_at(p, h)) == fresh_core(
                old(self).node(slot_at(p, h)),
                id,
                no_slot(),
                0,
                0,
                0,
            ),
    {
        let ghost s = slot_at(p, h);
        let ghost before = *self;
        self.install_entry(p, h, object_index, object_generation, rights, endpoint);
        let ghost mid = *self;
        self.set_node(p, h, id, NO_SLOT, NO_SLOT, 0, 0, 0, NO_SLOT, NO_SLOT);
        proof {
            assert(before.kids(s).len() == 0);
            lemma_added_keeps_wf(&before, self, s);
        }
    }
}

/// A slot that was not in use is in no chain.
pub proof fn lemma_idle_is_unlinked(c: &CapabilitySpace, s: Slot, t: Slot)
    requires
        c.wf(),
        is_slot(t),
        !c.live(s),
    ensures
        !c.kids(t).contains(s),
{
    if c.kids(t).contains(s) {
        let i = c.kids(t).index_of(s);
        assert(c.kid_ok(t, c.kids(t)[i]));
    }
}

/// Adding a root in a free slot keeps the invariant.
proof fn lemma_added_keeps_wf(before: &CapabilitySpace, after: &CapabilitySpace, s: Slot)
    requires
        before.wf(),
        is_slot(s),
        !before.live(s),
        after.children == before.children,
        after.next_capability_id == before.next_capability_id,
        after.counts_ok(),
        after.live(s),
        after.entry(s).handle_generation == before.entry(s).handle_generation,
        forall|t: Slot| is_slot(t) && t != s ==> (#[trigger] after.entry(t)) == before.entry(t),
        forall|t: Slot| is_slot(t) && t != s ==> (#[trigger] after.node(t)) == before.node(t),
        parent_of(after.node(s)) == no_slot(),
        first_of(after.node(s)) == no_slot(),
        after.node_ok(s),
        forall|t: Slot| #[trigger] before.live(t) ==> before.node(t).capability_id != after.node(
            s,
        ).capability_id,
    ensures
        after.wf(),
{
    assert forall|t: Slot| is_slot(t) implies after.chain(t, #[trigger] after.kids(t)) by {
        let ks = before.kids(t);
        assert(before.chain(t, ks));
        lemma_idle_is_unlinked(before, s, t);
        assert forall|i: int| 0 <= i < ks.len() implies next_of(after.node(#[trigger] ks[i]))
            == next_of(before.node(ks[i])) by {
            assert(ks.contains(ks[i]));
        }
        if t == s {
            assert(ks.len() == 0);
        }
    }
    assert forall|t: Slot, i: int| is_slot(t) && 0 <= i < after.kids(t).len() implies after.kid_ok(
        t,
        #[trigger] after.kids(t)[i],
    ) by {
        assert(before.kid_ok(t, before.kids(t)[i]));
        if t == s {
            assert(before.kids(t).len() == 0);
        }
    }
    assert forall|t: Slot| #[trigger] after.live(t) implies after.parent_ok(t) && after.node_ok(
        t,
    ) by {
        if t != s {
            assert(before.live(t));
        }
    }
    assert forall|t: Slot| is_slot(t) && !after.live(t) implies (#[trigger] after.kids(t)).len()
        == 0 by {
        assert(!before.live(t));
        assert(before.kids(t).len() == 0);
    }
    assert forall|t: Slot, u: Slot|
        #![trigger after.live(t), after.live(u)]
        after.live(t) && after.live(u) && t != u implies after.node(t).capability_id != after.node(
        u,
    ).capability_id by {
        if t != s {
            assert(before.live(t));
        }
        if u != s {
            assert(before.live(u));
        }
    }
    assert forall|t: Slot| is_slot(t) implies (#[trigger] after.entry(t)).handle_generation
        != 0 by {
        assert(before.entry(t).handle_generation != 0);
    }
}

impl CapabilitySpace {
    /// Puts a capability with a new identifier into a free slot, as the first child of another.
    pub(crate) fn attach_child(
        &mut self,
        p: usize,
        h: usize,
        parent_p: usize,
        parent_h: usize,
        id: u64,
        rights: u16,
    )
        requires
            old(self).wf(),
            is_slot(slot_at(p, h)),
            !old(self).live(slot_at(p, h)),
            old(self).live(slot_at(parent_p, parent_h)),
            old(self).node(slot_at(parent_p, parent_h)).derivation_depth < MAX_DERIVATION_DEPTH,
            0 < id < old(self).next_capability_id,
            forall|t: Slot| #[trigger] old(self).live(t) ==> old(self).node(t).capability_id != id,
        ensures
            final(self).wf(),
            same_caps_but(final(self), old(self), slot_at(p, h)),
            final(self).next_capability_id == old(self).next_capability_id,
            ({
                let s = slot_at(p, h);
                let par = slot_at(parent_p, parent_h);
                let pe = old(self).entry(par);
                &&& final(self).children@ == old(self).children@.insert(
                    par,
                    seq![s] + old(self).kids(par),
                )
                &&& final(self).entry(s) == installed_entry(
                    old(self).entry(s),
                    pe.object_index,
                    pe.object_generation,
                    rights,
                    pe.endpoint,
                )
                &&& final(self).node_core(s) == fresh_core(
                    old(self).node(s),
                    id,
                    par,
                    pe.handle_generation,
                    (old(self).node(par).derivation_depth + 1) as u8,
                    0,
                )
            }),
    {
        let ghost s = slot_at(p, h);
        let ghost par = slot_at(parent_p, parent_h);
        let ghost before = *self;
        let pe = self.tables[parent_p].entries[parent_h];
        let depth: u8 = self.nodes[parent_p][parent_h].derivation_depth + 1;
        assert(pe == self.entry(par) && depth == self.node(par).derivation_depth + 1);
        self.install_entry(p, h, pe.object_index, pe.object_generation, rights, pe.endpoint);
        self.set_node(
            p,
            h,
            id,
            parent_p as u8,
            parent_h as u8,
            pe.handle_generation,
            depth,
            0,
            NO_SLOT,
            NO_SLOT,
        );
        let ghost mid = *self;
        proof {
            assert(before.chain(par, before.kids(par)));
            lemma_idle_is_unlinked(&before, s, par);
            let ks = before.kids(par);
            assert forall|i: int| 0 <= i < ks.len() implies next_of(mid.node(#[trigger] ks[i]))
                == next_of(before.node(ks[i])) by {
                assert(ks.contains(ks[i]));
            }
            assert(mid.chain(par, mid.kids(par)));
        }
        add_child_locked(self, parent_p, parent_h, p, h);
        proof {
            assert(before.kids(s).len() == 0);
            lemma_child_added_keeps_wf(&before, self, s, par);
        }
    }
}

/// Adding a child in a free slot keeps the invariant.
proof fn lemma_child_added_keeps_wf(
    before: &CapabilitySpace,
    after: &CapabilitySpace,
    s: Slot,
    par: Slot,
)
    requires
        before.wf(),
        is_slot(s),
        !before.live(s),
        before.live(par),
        after.children@ == before.children@.insert(par, seq![s] + before.kids(par)),
        after.next_capability_id == before.next_capability_id,
        after.counts_ok(),
        after.live(s),
        after.entry(s).handle_generation == before.entry(s).handle_generation,
        forall|t: Slot| is_slot(t) && t != s ==> (#[trigger] after.entry(t)) == before.entry(t),
        forall|t: Slot|
            is_slot(t) && t != s ==> core_of(#[trigger] after.node(t)) == core_of(before.node(t)),
        forall|t: Slot|
            is_slot(t) && t != s && t != par ==> first_of(#[trigger] after.node(t)) == first_of(
                before.node(t),
            ),
        forall|t: Slot|
            is_slot(t) && t != s ==> next_of(#[trigger] after.node(t)) == next_of(before.node(t)),
        after.chain(par, seq![s] + before.kids(par)),
        first_of(after.node(s)) == no_slot(),
        parent_of(after.node(s)) == par,
        after.node(s).derivation_depth > before.node(par).derivation_depth,
        after.node_ok(s),
        forall|t: Slot| #[trigger] before.live(t) ==> before.node(t).capability_id != after.node(
            s,
        ).capability_id,
    ensures
        after.wf(),
{
    let pks = seq![s] + before.kids(par);
    assert(pks[0] == s);
    assert forall|t: Slot| is_slot(t) implies after.chain(t, #[trigger] after.kids(t)) by {
        if t != par {
            let ks = before.kids(t);
            assert(before.chain(t, ks));
            lemma_idle_is_unlinked(before, s, t);
            assert forall|i: int| 0 <= i < ks.len() implies next_of(after.node(#[trigger] ks[i]))
                == next_of(before.node(ks[i])) by {
                assert(ks.contains(ks[i]));
            }
            if t == s {
                assert(ks.len() == 0);
            }
        }
    }
    assert forall|t: Slot, i: int| is_slot(t) && 0 <= i < after.kids(t).len() implies after.kid_ok(
        t,
        #[trigger] after.kids(t)[i],
    ) by {
        if t == s {
            assert(before.kids(t).len() == 0);
        }
        if t == par {
            if i > 0 {
                assert(after.kids(t)[i] == before.kids(t)[i - 1]);
                assert(before.kid_ok(t, before.kids(t)[i - 1]));
            }
        } else {
            assert(before.kid_ok(t, before.kids(t)[i]));
        }
    }
    assert forall|t: Slot| #[trigger] after.live(t) implies after.parent_ok(t) && after.node_ok(
        t,
    ) by {
        if t != s {
            assert(before.live(t));
            assert(before.parent_ok(t));
            let q = parent_of(before.node(t));
            if q == par {
                let j = before.kids(par).index_of(t);
                assert(pks[j + 1] == t);
            }
        } else {
            assert(pks.contains(s));
        }
    }
    assert forall|t: Slot| is_slot(t) && !after.live(t) implies (#[trigger] after.kids(t)).len()
        == 0 by {
        assert(!before.live(t));
        assert(before.kids(t).len() == 0);
    }
    assert forall|t: Slot, u: Slot|
        #![trigger after.live(t), after.live(u)]
        after.live(t) && after.live(u) && t != u implies after.node(t).capability_id != after.node(
        u,
    ).capability_id by {
        if t != s {
            assert(before.live(t));
            assert(core_of(after.node(t)) == core_of(before.node(t)));
        }
        if u != s {
            assert(before.live(u));
            assert(core_of(after.node(u)) == core_of(before.node(u)));
        }
    }
    assert forall|t: Slot| is_slot(t) implies (#[trigger] after.entry(t)).handle_generation
        != 0 by {
        assert(before.entry(t).handle_generation != 0);
    }
}

/// The slot that a link names.
pub open spec fn link_at(p: u8, h: u8) -> Slot {
    Slot { p: p as int, h: h as int }
}

/// The node `n` below another parent.
pub open spec fn reparented(
    n: CapabilityNode,
    parent_p: u8,
    parent_h: u8,
    gen: u16,
    depth: Option<u8>,
) -> CapabilityNode {
    CapabilityNode {
        parent_pslot: parent_p,
        parent_hslot: parent_h,
        parent_gen: gen,
        derivation_depth: match depth {
            Some(d) => d,
            None => n.derivation_depth,
        },
        ..n
    }
}

impl CapabilitySpace {
    /// Gives all nodes of a chain another parent. The result is the last of them.
    fn reparent_chain(
        &mut self,
        s_p: usize,
        s_h: usize,
        parent_p: u8,
        parent_h: u8,
        gen: u16,
        depth: Option<u8>,
    ) -> (r: (u8, u8))
        requires
            is_slot(slot_at(s_p, s_h)),
            old(self).chain(slot_at(s_p, s_h), old(self).kids(slot_at(s_p, s_h))),
            !old(self).kids(slot_at(s_p, s_h)).contains(slot_at(s_p, s_h)),
        ensures
            final(self).tables == old(self).tables,
            final(self).next_capability_id == old(self).next_capability_id,
            final(self).children == old(self).children,
            forall|t: Slot| (#[trigger] final(self).entry(t)) == old(self).entry(t),
            ({
                let ks = old(self).kids(slot_at(s_p, s_h));
                &&& forall|t: Slot|
                    is_slot(t) ==> (#[trigger] final(self).node(t)) == (if ks.contains(t) {
                        reparented(old(self).node(t), parent_p, parent_h, gen, depth)
                    } else {
                        old(self).node(t)
                    })
                &&& link_at(r.0, r.1) == (if ks.len() > 0 {
                    ks.last()
                } else {
                    no_slot()
                })
            }),
    {
        let ghost s = slot_at(s_p, s_h);
        let ghost ks = self.kids(s);
        let ghost before = *self;
        let mut last_p: u8 = NO_SLOT;
        let mut last_h: u8 = NO_SLOT;
        let mut curr_p: u8 = self.nodes[s_p][s_h].first_child_pslot;
        let mut curr_h: u8 = self.nodes[s_p][s_h].first_child_hslot;
        let ghost mut i: int = 0;
        assert(first_of(self.node(s)) == link_at(curr_p, curr_h));
        while (curr_p as usize) < MAX_PROCESSES && (curr_h as usize) < MAX_HANDLES_PER_PROCESS
            invariant
                before.chain(s, ks),
                0 <= i <= ks.len(),
                self.tables == before.tables,
                self.next_capability_id == before.next_capability_id,
                self.children == before.children,
                link_at(curr_p, curr_h) == (if i < ks.len() {
                    ks[i]
                } else {
                    no_slot()
                }),
                link_at(last_p, last_h) == (if i > 0 {
                    ks[i - 1]
                } else {
                    no_slot()
                }),
                forall|t: Slot|
                    is_slot(t) ==> (#[trigger] self.node(t)) == (if ks.take(i).contains(t) {
                        reparented(before.node(t), parent_p, parent_h, gen, depth)
                    } else {
                        before.node(t)
                    }),
            decreases ks.len() - i,
        {
            let ghost at = *self;
            let p: usize = curr_p as usize;
            let h: usize = curr_h as usize;
            let ghost k = slot_at(p, h);
            assert(i < ks.len() && k == ks[i]);
            assert(!ks.take(i).contains(k)) by {
                if ks.take(i).contains(k) {
                    let j = ks.take(i).index_of(k);
                    assert(ks[j] == ks[i]);
                }
            }
            assert(at.node(k) == before.node(k));
            let mut n = self.nodes[p][h];
            assert(n == self.node(k));
            n.parent_pslot = parent_p;
            n.parent_hslot = parent_h;
            n.parent_gen = gen;
            match depth {
                Some(d) => {
                    n.derivation_depth = d;
                },
                None => {},
            }
            self.nodes[p][h] = n;
            last_p = curr_p;
            last_h = curr_h;
            assert(next_of(before.node(ks[i])) == (if i + 1 < ks.len() {
                ks[i + 1]
            } else {
                no_slot()
            }));
            curr_p = n.next_sibling_pslot;
            curr_h = n.next_sibling_hslot;
            proof {
                assert forall|t: Slot| is_slot(t) implies (#[trigger] self.node(t)) == (if ks.take(
                    i + 1,
                ).contains(t) {
                    reparented(before.node(t), parent_p, parent_h, gen, depth)
                } else {
                    before.node(t)
                }) by {
                    assert(ks.take(i + 1) =~= ks.take(i).push(k));
                    assert(self.node(t) == (if t == k {
                        n
                    } else {
                        at.node(t)
                    }));
                    if ks.take(i).contains(t) {
                        let j = ks.take(i).index_of(t);
                        assert(ks.take(i + 1)[j] == t);
                    }
                    if t == k {
                        assert(ks.take(i + 1)[i] == k);
                    } else if ks.take(i + 1).contains(t) {
                        let j = ks.take(i + 1).index_of(t);
                        assert(j < i);
                        assert(ks.take(i)[j] == t);
                    }
                }
                i = i + 1;
            }
        }
        assert(ks.take(i) =~= ks);
        (last_p, last_h)
    }
}

/// What a child says after it was given another parent.
pub open spec fn reparented_core(n: NodeCore, parent: Slot, gen: u16, depth: u8) -> NodeCore {
    NodeCore { parent, parent_gen: gen, derivation_depth: depth, ..n }
}

/// The depth of a child of `s` once `s` is gone: one below the parent of `s`, or that of a root.
pub open spec fn adopted_depth(c: &CapabilitySpace, s: Slot) -> u8 {
    let par = parent_of(c.node(s));
    if par == no_slot() {
        0
    } else {
        (c.node(par).derivation_depth + 1) as u8
    }
}

/// The children of all slots once `s` is gone: the children of `s` stand before those that its
/// parent keeps.
pub open spec fn adopted_children(c: &CapabilitySpace, s: Slot) -> Map<Slot, Seq<Slot>> {
    let par = parent_of(c.node(s));
    if par == no_slot() {
        c.children@.insert(s, Seq::empty())
    } else {
        c.children@.insert(
            par,
            c.kids(s) + c.kids(par).remove(position(c.kids(par), s)),
        ).insert(s, Seq::empty())
    }
}

/// The capability at `s` is gone: its children belong to its parent, or are roots if it was one.
pub open spec fn closed(old_space: &CapabilitySpace, new: &CapabilitySpace, s: Slot) -> bool {
    let par = parent_of(old_space.node(s));
    &&& new.next_capability_id == old_space.next_capability_id
    &&& new.entry(s) == freed_entry(old_space.entry(s))
    &&& forall|t: Slot| is_slot(t) && t != s ==> (#[trigger] new.entry(t)) == old_space.entry(t)
    &&& new.node(s).is_blank()
    &&& forall|t: Slot|
        is_slot(t) && t != s ==> core_of(#[trigger] new.node(t)) == (if old_space.kids(s).contains(
            t,
        ) {
            reparented_core(
                core_of(old_space.node(t)),
                par,
                if par == no_slot() {
                    0
                } else {
                    old_space.node(s).parent_gen
                },
                adopted_depth(old_space, s),
            )
        } else {
            core_of(old_space.node(t))
        })
    &&& new.children@ == adopted_children(old_space, s)
}

/// A chain followed by another one is a chain.
proof fn lemma_chain_concat(c: &CapabilitySpace, s: Slot, a: Seq<Slot>, b: Seq<Slot>)
    requires
        forall|i: int| 0 <= i < a.len() ==> is_slot(#[trigger] a[i]),
        forall|i: int| 0 <= i < b.len() ==> is_slot(#[trigger] b[i]),
        a.no_duplicates(),
        b.no_duplicates(),
        forall|i: int, j: int|
            0 <= i < a.len() && 0 <= j < b.len() ==> #[trigger] a[i] != #[trigger] b[j],
        first_of(c.node(s)) == (if a.len() > 0 {
            a[0]
        } else if b.len() > 0 {
            b[0]
        } else {
            no_slot()
        }),
        forall|i: int|
            0 <= i < a.len() ==> next_of(#[trigger] c.node(a[i])) == (if i + 1 < a.len() {
                a[i + 1]
            } else if b.len() > 0 {
                b[0]
            } else {
                no_slot()
            }),
        forall|i: int|
            0 <= i < b.len() ==> next_of(#[trigger] c.node(b[i])) == (if i + 1 < b.len() {
                b[i + 1]
            } else {
                no_slot()
            }),
    ensures
        c.chain(s, a + b),
{
    let ks = a + b;
    assert forall|i: int| 0 <= i < ks.len() implies is_slot(#[trigger] ks[i]) && next_of(
        c.node(ks[i]),
    ) == (if i + 1 < ks.len() {
        ks[i + 1]
    } else {
        no_slot()
    }) by {
        if i < a.len() {
            assert(ks[i] == a[i]);
        } else {
            assert(ks[i] == b[i - a.len()]);
        }
    }
    assert(ks.no_duplicates()) by {
        assert forall|i: int, j: int| 0 <= i < ks.len() && 0 <= j < ks.len() && i != j implies ks[i]
            != ks[j] by {
            if i < a.len() && j >= a.len() {
                assert(a[i] != b[j - a.len()]);
            }
            if j < a.len() && i >= a.len() {
                assert(a[j] != b[i - a.len()]);
            }
        }
    }
}

/// No slot is in two chains.
pub proof fn lemma_one_parent(c: &CapabilitySpace, s: Slot, t: Slot, k: Slot)
    requires
        c.wf(),
        is_slot(s),
        is_slot(t),
        c.kids(s).contains(k),
        c.kids(t).contains(k),
    ensures
        s == t,
        c.kid_ok(s, k),
{
    let i = c.kids(s).index_of(k);
    let j = c.kids(t).index_of(k);
    assert(c.kid_ok(s, c.kids(s)[i]));
    assert(c.kid_ok(t, c.kids(t)[j]));
}

/// Nothing is its own child.
pub proof fn lemma_not_own_kid(c: &CapabilitySpace, s: Slot)
    requires
        c.wf(),
        is_slot(s),
    ensures
        !c.kids(s).contains(s),
{
    if c.kids(s).contains(s) {
        lemma_one_parent(c, s, s, s);
    }
}

/// How the links look once `s` is gone.
spec fn closed_links(before: &CapabilitySpace, after: &CapabilitySpace, s: Slot) -> bool {
    let par = parent_of(before.node(s));
    &&& par != no_slot() ==> after.chain(par, adopted_children(before, s)[par])
    &&& first_of(after.node(s)) == no_slot()
    &&& forall|t: Slot|
        is_slot(t) && t != s && t != par ==> first_of(#[trigger] after.node(t)) == first_of(
            before.node(t),
        )
    &&& forall|t: Slot|
        is_slot(t) && t != s && !before.kids(s).contains(t) && !(par != no_slot() && before.kids(
            par,
        ).contains(t)) ==> next_of(#[trigger] after.node(t)) == next_of(before.node(t))
}

/// Facts about the parent of a capability that the lemmas below share.
proof fn lemma_parent_facts(c: &CapabilitySpace, s: Slot)
    requires
        c.wf(),
        c.live(s),
    ensures
        !c.kids(s).contains(s),
        c.parent_ok(s) && c.node_ok(s),
        ({
            let par = parent_of(c.node(s));
            par != no_slot() ==> {
                &&& is_slot(par)
                &&& par != s
                &&& c.live(par)
                &&& c.kids(par).contains(s)
                &&& !c.kids(par).contains(par)
                &&& !c.kids(s).contains(par)
                &&& c.kid_ok(par, s)
                &&& c.node_ok(par)
                &&& 0 <= position(c.kids(par), s) < c.kids(par).len()
                &&& c.kids(par)[position(c.kids(par), s)] == s
            }
        }),
{
    let par = parent_of(c.node(s));
    lemma_not_own_kid(c, s);
    if par != no_slot() {
        lemma_not_own_kid(c, par);
        assert(c.kid_ok(par, c.kids(par)[c.kids(par).index_of(s)]));
        assert(c.live(par));
        if c.kids(s).contains(par) {
            lemma_one_parent(c, s, s, par);
        }
    }
}

#[verifier::spinoff_prover]
#[verifier::rlimit(60)]
proof fn lemma_closed_chains(before: &CapabilitySpace, after: &CapabilitySpace, s: Slot)
    requires
        before.wf(),
        before.live(s),
        closed(before, after, s),
        closed_links(before, after, s),
    ensures
        after.chains_ok(),
{
    let par = parent_of(before.node(s));
    let ks = before.kids(s);
    lemma_parent_facts(before, s);
    assert forall|t: Slot| is_slot(t) implies after.chain(t, #[trigger] after.kids(t)) by {
        if t != s && t != par {
            let ts = before.kids(t);
            assert(after.kids(t) == ts);
            assert(before.chain(t, ts));
            assert forall|i: int| 0 <= i < ts.len() implies next_of(after.node(#[trigger] ts[i]))
                == next_of(before.node(ts[i])) by {
                let k = ts[i];
                assert(ts.contains(k));
                assert(before.kid_ok(t, ts[i]));
                if k == s {
                    assert(t == par);
                }
                if ks.contains(k) {
                    lemma_one_parent(before, t, s, k);
                }
                if par != no_slot() && before.kids(par).contains(k) {
                    lemma_one_parent(before, t, par, k);
                }
            }
        }
    }
}

#[verifier::spinoff_prover]
#[verifier::rlimit(60)]
proof fn lemma_closed_kids(before: &CapabilitySpace, after: &CapabilitySpace, s: Slot)
    requires
        before.wf(),
        before.live(s),
        closed(before, after, s),
        closed_links(before, after, s),
    ensures
        after.kids_ok(),
{
    let par = parent_of(before.node(s));
    let ks = before.kids(s);
    lemma_parent_facts(before, s);
    let rest = if par != no_slot() {
        before.kids(par).remove(position(before.kids(par), s))
    } else {
        Seq::empty()
    };
    assert forall|t: Slot, i: int| is_slot(t) && 0 <= i < after.kids(t).len() implies after.kid_ok(
        t,
        #[trigger] after.kids(t)[i],
    ) by {
        let k = after.kids(t)[i];
        if t == par {
            if i < ks.len() {
                assert(k == ks[i]);
                assert(ks.contains(k));
                assert(before.kid_ok(s, ks[i]));
                assert(!ks.contains(par)) by {
                    if ks.contains(par) {
                        lemma_one_parent(before, s, s, par);
                    }
                }
            } else {
                let m = position(before.kids(par), s);
                let j = if i - ks.len() < m {
                    i - ks.len()
                } else {
                    i - ks.len() + 1
                };
                assert(k == rest[i - ks.len()]);
                assert(k == before.kids(par)[j]);
                assert(before.kid_ok(par, before.kids(par)[j]));
                assert(k != s) by {
                    assert(before.kids(par)[m] == s);
                    assert(before.chain(par, before.kids(par)));
                }
                if ks.contains(k) {
                    lemma_one_parent(before, s, s, k);
                }
                assert(!ks.contains(par)) by {
                    if ks.contains(par) {
                        lemma_one_parent(before, s, s, par);
                    }
                }
            }
        } else if t != s {
            assert(k == before.kids(t)[i]);
            assert(before.kids(t).contains(k));
            assert(before.kid_ok(t, before.kids(t)[i]));
            if k == s {
                assert(t == par);
            }
            if ks.contains(k) {
                lemma_one_parent(before, s, t, k);
            }
            if ks.contains(t) {
                lemma_one_parent(before, s, s, t);
            }
        }
    }
}

#[verifier::spinoff_prover]
#[verifier::rlimit(60)]
proof fn lemma_closed_parents(before: &CapabilitySpace, after: &CapabilitySpace, s: Slot)
    requires
        before.wf(),
        before.live(s),
        closed(before, after, s),
        closed_links(before, after, s),
    ensures
        after.parents_ok(),
{
    let par = parent_of(before.node(s));
    let ks = before.kids(s);
    lemma_parent_facts(before, s);
    let rest = if par != no_slot() {
        before.kids(par).remove(position(before.kids(par), s))
    } else {
        Seq::empty()
    };
    assert forall|t: Slot| #[trigger] after.live(t) implies after.parent_ok(t) && after.node_ok(
        t,
    ) by {
        assert(t != s);
        assert(before.live(t));
        assert(before.parent_ok(t) && before.node_ok(t));
        let q = parent_of(before.node(t));
        if ks.contains(t) {
            if par != no_slot() {
                let j = ks.index_of(t);
                assert(after.kids(par)[j] == t);
            }
        } else if q != no_slot() {
            assert(q != s);
            let j = before.kids(q).index_of(t);
            if q == par {
                let m = position(before.kids(par), s);
                assert(before.kids(par)[m] == s);
                let j2 = if j < m {
                    j
                } else {
                    j - 1
                };
                assert(rest[j2] == t);
                assert(after.kids(par)[ks.len() + j2] == t);
            } else {
                assert(after.kids(q) == before.kids(q));
            }
        }
    }
}

/// Taking a capability away keeps the invariant.
proof fn lemma_closed_keeps_wf(before: &CapabilitySpace, after: &CapabilitySpace, s: Slot)
    requires
        before.wf(),
        before.live(s),
        closed(before, after, s),
        closed_links(before, after, s),
        after.counts_ok(),
    ensures
        after.wf(),
{
    lemma_closed_chains(before, after, s);
    lemma_closed_kids(before, after, s);
    lemma_closed_parents(before, after, s);
    lemma_parent_facts(before, s);
    assert forall|t: Slot| is_slot(t) && !after.live(t) implies (#[trigger] after.kids(t)).len()
        == 0 by {
        if t != s {
            assert(!before.live(t));
            assert(before.kids(t).len() == 0);
        }
    }
    assert forall|t: Slot, u: Slot|
        #![trigger after.live(t), after.live(u)]
        after.live(t) && after.live(u) && t != u implies after.node(t).capability_id != after.node(
        u,
    ).capability_id by {
        assert(before.live(t) && before.live(u));
        assert(core_of(after.node(t)).capability_id == before.node(t).capability_id);
        assert(core_of(after.node(u)).capability_id == before.node(u).capability_id);
    }
    assert forall|t: Slot| is_slot(t) implies (#[trigger] after.entry(t)).handle_generation
        != 0 by {
        assert(before.entry(t).handle_generation != 0);
    }
}

/// The node of the free slot `s` is blank, and nothing else changed.
pub open spec fn idle_blanked(old_space: &CapabilitySpace, new: &CapabilitySpace, s: Slot) -> bool {
    &&& new.next_capability_id == old_space.next_capability_id
    &&& new.children == old_space.children
    &&& new.tables == old_space.tables
    &&& new.node(s).is_blank()
    &&& forall|t: Slot| is_slot(t) && t != s ==> (#[trigger] new.node(t)) == old_space.node(t)
}

/// A node of a free slot is in no chain, so that resetting it keeps the invariant.
proof fn lemma_idle_blanked_keeps_wf(before: &CapabilitySpace, after: &CapabilitySpace, s: Slot)
    requires
        before.wf(),
        is_slot(s),
        !before.live(s),
        idle_blanked(before, after, s),
    ensures
        after.wf(),
{
    assert forall|t: Slot| (#[trigger] after.entry(t)) == before.entry(t) by {}
    assert forall|t: Slot| (#[trigger] after.kids(t)) == before.kids(t) by {}
    assert forall|t: Slot| is_slot(t) implies after.chain(t, #[trigger] after.kids(t)) by {
        let ks = before.kids(t);
        assert(before.chain(t, before.kids(t)));
        assert forall|i: int| 0 <= i < ks.len() implies (#[trigger] after.node(ks[i]))
            == before.node(ks[i]) by {
            assert(before.kid_ok(t, before.kids(t)[i]));
            assert(is_slot(ks[i]) && ks[i] != s);
        }
        if t == s {
            assert(before.kids(s).len() == 0);
        }
    }
    assert forall|t: Slot, i: int| is_slot(t) && 0 <= i < after.kids(t).len() implies after.kid_ok(
        t,
        #[trigger] after.kids(t)[i],
    ) by {
        assert(before.kid_ok(t, before.kids(t)[i]));
        assert(t != s) by {
            if t == s {
                assert(before.kids(s).len() == 0);
            }
        }
    }
    assert forall|t: Slot| #[trigger] after.live(t) implies after.parent_ok(t) && after.node_ok(
        t,
    ) by {
        assert(before.live(t));
        assert(before.parent_ok(t) && before.node_ok(t));
    }
    assert forall|t: Slot| is_slot(t) && !after.live(t) implies (#[trigger] after.kids(t)).len()
        == 0 by {
        assert(!before.live(t));
        assert(before.kids(t).len() == 0);
    }
    assert forall|t: Slot, u: Slot|
        #![trigger after.live(t), after.live(u)]
        after.live(t) && after.live(u) && t != u implies after.node(t).capability_id != after.node(
        u,
    ).capability_id by {
        assert(before.live(t) && before.live(u));
    }
    assert forall|p: int| 0 <= p < MAX_PROCESSES implies (#[trigger] after.tables@[p]).count
        == occupied_count(after.tables@[p].entries@, MAX_HANDLES_PER_PROCESS as int) by {
        assert(before.tables@[p] == after.tables@[p]);
    }
    assert forall|t: Slot| is_slot(t) implies (#[trigger] after.entry(t)).handle_generation
        != 0 by {
        assert(before.entry(t).handle_generation != 0);
    }
}

impl CapabilitySpace {
    /// Resets a node to one that is in no tree.
    fn blank_node(&mut self, p: usize, h: usize)
        requires
            is_slot(slot_at(p, h)),
        ensures
            final(self).same_but_node(old(self), slot_at(p, h)),
            final(self).node(slot_at(p, h)).is_blank(),
    {
        self.nodes[p][h] = CapabilityNode::empty();
    }

    /// Resets the node of a free slot.
    pub(crate) fn blank_idle(&mut self, p: usize, h: usize)
        requires
            old(self).wf(),
            is_slot(slot_at(p, h)),
            !old(self).live(slot_at(p, h)),
        ensures
            final(self).wf(),
            idle_blanked(old(self), final(self), slot_at(p, h)),
    {
        let ghost s = slot_at(p, h);
        let ghost before = *self;
        self.blank_node(p, h);
        proof {
            assert forall|t: Slot| (#[trigger] self.entry(t)) == before.entry(t) by {}
            assert forall|t: Slot| (#[trigger] self.kids(t)) == before.kids(t) by {}
            lemma_idle_blanked_keeps_wf(&before, self, s);
        }
    }

    /// Splices the children of `s`, which already name `par` as their parent, in front of those
    /// that `par` has.
    fn splice_chain(
        &mut self,
        s_p: usize,
        s_h: usize,
        parent_p: usize,
        parent_h: usize,
        last_p: u8,
        last_h: u8,
        Ghost(ks): Ghost<Seq<Slot>>,
        Ghost(rest): Ghost<Seq<Slot>>,
    )
        requires
            is_slot(slot_at(s_p, s_h)),
            is_slot(slot_at(parent_p, parent_h)),
            slot_at(s_p, s_h) != slot_at(parent_p, parent_h),
            old(self).chain(slot_at(s_p, s_h), ks),
            old(self).chain(slot_at(parent_p, parent_h), rest),
            forall|i: int, j: int|
                0 <= i < ks.len() && 0 <= j < rest.len() ==> #[trigger] ks[i] != #[trigger] rest[j],
            !ks.contains(slot_at(parent_p, parent_h)),
            !rest.contains(slot_at(parent_p, parent_h)),
            link_at(last_p, last_h) == (if ks.len() > 0 {
                ks.last()
            } else {
                no_slot()
            }),
        ensures
            final(self).same_but_links(old(self)),
            final(self).children == old(self).children,
            final(self).chain(slot_at(parent_p, parent_h), ks + rest),
            forall|t: Slot|
                is_slot(t) && t != slot_at(parent_p, parent_h) ==> first_of(
                    #[trigger] final(self).node(t),
                ) == first_of(old(self).node(t)),
            forall|t: Slot|
                is_slot(t) && !ks.contains(t) ==> next_of(#[trigger] final(self).node(t))
                    == next_of(old(self).node(t)),
    {
        let ghost s = slot_at(s_p, s_h);
        let ghost par = slot_at(parent_p, parent_h);
        let ghost before = *self;
        let first_p: u8 = self.nodes[s_p][s_h].first_child_pslot;
        let first_h: u8 = self.nodes[s_p][s_h].first_child_hslot;
        assert(link_at(first_p, first_h) == first_of(before.node(s)));
        if last_p != NO_SLOT && last_h != NO_SLOT {
            assert(ks.len() > 0);
            assert(is_slot(ks[ks.len() - 1]));
            let old_p: u8 = self.nodes[parent_p][parent_h].first_child_pslot;
            let old_h: u8 = self.nodes[parent_p][parent_h].first_child_hslot;
            assert(link_at(old_p, old_h) == first_of(before.node(par)));
            self.set_next(last_p as usize, last_h as usize, old_p, old_h);
            self.set_first(parent_p, parent_h, first_p, first_h);
            proof {
                let l = ks.len() - 1;
                assert(slot_at(last_p as usize, last_h as usize) == ks[l]);
                assert(ks.contains(ks[l]));
                assert forall|i: int| 0 <= i < ks.len() implies next_of(
                    #[trigger] self.node(ks[i]),
                ) == (if i + 1 < ks.len() {
                    ks[i + 1]
                } else if rest.len() > 0 {
                    rest[0]
                } else {
                    no_slot()
                }) by {
                    assert(is_slot(ks[i]));
                    assert(ks.contains(ks[i]));
                    assert(next_of(before.node(ks[i])) == (if i + 1 < ks.len() {
                        ks[i + 1]
                    } else {
                        no_slot()
                    }));
                }
                assert forall|j: int| 0 <= j < rest.len() implies next_of(
                    #[trigger] self.node(rest[j]),
                ) == (if j + 1 < rest.len() {
                    rest[j + 1]
                } else {
                    no_slot()
                }) by {
                    assert(is_slot(rest[j]));
                    assert(rest.contains(rest[j]));
                    assert(ks[l] != rest[j]);
                    assert(next_of(before.node(rest[j])) == (if j + 1 < rest.len() {
                        rest[j + 1]
                    } else {
                        no_slot()
                    }));
                }
                lemma_chain_concat(self, par, ks, rest);
            }
        } else {
            proof {
                if ks.len() > 0 {
                    assert(is_slot(ks[ks.len() - 1]));
                }
                assert(ks + rest =~= rest);
            }
        }
    }

    /// Takes the capability at a slot away. Its children go to its parent, or become roots.
    pub(crate) fn detach(&mut self, p: usize, h: usize)
        requires
            old(self).wf(),
            old(self).live(slot_at(p, h)),
        ensures
            final(self).wf(),
            closed(old(self), final(self), slot_at(p, h)),
    {
        let ghost s = slot_at(p, h);
        let ghost before = *self;
        let ghost ks = self.kids(s);
        let ghost par = parent_of(self.node(s));
        proof {
            lemma_parent_facts(self, s);
        }
        let n = self.nodes[p][h];
        assert(n == before.node(s));
        assert(before.chain(s, before.kids(s)));
        self.free_entry(p, h);
        let ghost freed = *self;
        assert(freed.chain(s, ks)) by {
            assert(freed.nodes == before.nodes);
        }
        if n.parent_pslot != NO_SLOT && n.parent_hslot != NO_SLOT {
            let pp: usize = n.parent_pslot as usize;
            let ph: usize = n.parent_hslot as usize;
            let ghost pks = before.kids(par);
            let ghost rest = pks.remove(position(pks, s));
            assert(par == slot_at(pp, ph));
            assert(before.chain(par, before.kids(par)));
            assert(freed.chain(par, freed.kids(par)));
            remove_child_locked(self, pp, ph, p, h);
            let ghost cut = *self;
            proof {
                assert forall|i: int| 0 <= i < ks.len() implies next_of(
                    #[trigger] cut.node(ks[i]),
                ) == next_of(before.node(ks[i])) by {
                    assert(ks.contains(ks[i]));
                    if pks.contains(ks[i]) {
                        lemma_one_parent(&before, s, par, ks[i]);
                    }
                }
                assert(cut.chain(s, ks));
                assert(cut.kids(s) == ks);
            }
            let depth: u8 = self.nodes[pp][ph].derivation_depth.saturating_add(1);
            assert(core_of(cut.node(par)) == core_of(before.node(par)));
            assert(depth == adopted_depth(&before, s));
            let (last_p, last_h) = self.reparent_chain(
                p,
                h,
                n.parent_pslot,
                n.parent_hslot,
                n.parent_gen,
                Some(depth),
            );
            let ghost moved = *self;
            proof {
                assert forall|i: int, j: int| 0 <= i < ks.len() && 0 <= j
                    < rest.len() implies #[trigger] ks[i] != #[trigger] rest[j] by {
                    let m = position(pks, s);
                    assert(rest[j] == pks[if j < m {
                        j
                    } else {
                        j + 1
                    }]);
                    assert(ks.contains(ks[i]));
                    if ks[i] == rest[j] {
                        assert(pks.contains(ks[i]));
                        lemma_one_parent(&before, s, par, ks[i]);
                    }
                }
                assert(!rest.contains(par)) by {
                    if rest.contains(par) {
                        let j = rest.index_of(par);
                        let m = position(pks, s);
                        assert(rest[j] == pks[if j < m {
                            j
                        } else {
                            j + 1
                        }]);
                        assert(pks.contains(par));
                    }
                }
                assert forall|t: Slot| is_slot(t) implies {
                    &&& first_of(#[trigger] moved.node(t)) == first_of(cut.node(t))
                    &&& next_of(moved.node(t)) == next_of(cut.node(t))
                } by {}
                assert(moved.chain(s, ks)) by {
                    assert forall|i: int| 0 <= i < ks.len() implies next_of(
                        #[trigger] moved.node(ks[i]),
                    ) == next_of(cut.node(ks[i])) by {
                        assert(is_slot(ks[i]));
                    }
                }
                assert(moved.chain(par, rest)) by {
                    assert forall|j: int| 0 <= j < rest.len() implies next_of(
                        #[trigger] moved.node(rest[j]),
                    ) == next_of(cut.node(rest[j])) by {
                        assert(is_slot(rest[j]));
                    }
                }
            }
            self.splice_chain(p, h, pp, ph, last_p, last_h, Ghost(ks), Ghost(rest));
            let ghost spliced = *self;
            self.blank_node(p, h);
            let ghost blank = *self;
            proof {
                self.children@ = adopted_children(&before, s);
                assert forall|t: Slot| (#[trigger] self.node(t)) == blank.node(t) by {}
                assert forall|t: Slot| (#[trigger] self.entry(t)) == blank.entry(t) by {}
                assert(self.chain(par, ks + rest)) by {
                    let all = ks + rest;
                    assert(spliced.chain(par, all));
                    assert forall|i: int| 0 <= i < all.len() implies next_of(
                        #[trigger] self.node(all[i]),
                    ) == next_of(spliced.node(all[i])) by {
                        assert(all[i] != s) by {
                            if i < ks.len() {
                                assert(ks.contains(ks[i]));
                            } else {
                                let m = position(pks, s);
                                let j = i - ks.len();
                                assert(rest[j] == pks[if j < m {
                                    j
                                } else {
                                    j + 1
                                }]);
                                assert(pks[m] == s);
                                assert(before.chain(par, pks));
                            }
                        }
                        assert(is_slot(all[i]));
                    }
                }
                assert forall|t: Slot| is_slot(t) && t != s implies core_of(
                    #[trigger] self.node(t),
                ) == (if ks.contains(t) {
                    reparented_core(core_of(before.node(t)), par, n.parent_gen, depth)
                } else {
                    core_of(before.node(t))
                }) by {
                    assert(core_of(spliced.node(t)) == core_of(moved.node(t)));
                    assert(core_of(cut.node(t)) == core_of(freed.node(t)));
                }
                assert forall|t: Slot| is_slot(t) && t != s && t != par implies first_of(
                    #[trigger] self.node(t),
                ) == first_of(before.node(t)) by {
                    assert(first_of(spliced.node(t)) == first_of(moved.node(t)));
                    assert(first_of(cut.node(t)) == first_of(freed.node(t)));
                }
                assert forall|t: Slot|
                    is_slot(t) && t != s && !ks.contains(t) && !pks.contains(t) implies next_of(
                    #[trigger] self.node(t),
                ) == next_of(before.node(t)) by {
                    assert(next_of(spliced.node(t)) == next_of(moved.node(t)));
                    assert(next_of(cut.node(t)) == next_of(freed.node(t)));
                }
                lemma_closed_keeps_wf(&before, self, s);
            }
        } else {
            assert(before.parent_ok(s));
            let (last_p, last_h) = self.reparent_chain(p, h, NO_SLOT, NO_SLOT, 0, Some(0));
            let ghost moved = *self;
            self.blank_node(p, h);
            let ghost blank = *self;
            proof {
                self.children@ = adopted_children(&before, s);
                assert forall|t: Slot| (#[trigger] self.node(t)) == blank.node(t) by {}
                assert forall|t: Slot| (#[trigger] self.entry(t)) == blank.entry(t) by {}
                assert forall|t: Slot| is_slot(t) && t != s implies {
                    &&& core_of(#[trigger] self.node(t)) == (if ks.contains(t) {
                        reparented_core(core_of(before.node(t)), no_slot(), 0, 0)
                    } else {
                        core_of(before.node(t))
                    })
                    &&& first_of(self.node(t)) == first_of(before.node(t))
                    &&& next_of(self.node(t)) == next_of(before.node(t))
                } by {
                    assert(self.node(t) == moved.node(t));
                    assert(freed.node(t) == before.node(t));
                }
                lemma_closed_keeps_wf(&before, self, s);
            }
        }
    }
}

/// The children of all slots after the capability at `src` went to `dst`: `dst` stands where
/// `src` stood, and has its children.
pub open spec fn moved_children(c: &CapabilitySpace, dst: Slot, src: Slot) -> Map<Slot, Seq<Slot>> {
    let par = parent_of(c.node(src));
    let m = if par == no_slot() {
        c.children@
    } else {
        c.children@.insert(par, c.kids(par).update(position(c.kids(par), src), dst))
    };
    m.insert(dst, c.kids(src)).insert(src, Seq::empty())
}

/// The capability at `src` went to `dst`, and no identifier was handed out.
pub open spec fn moved(
    old_space: &CapabilitySpace,
    new: &CapabilitySpace,
    dst: Slot,
    src: Slot,
    id: u64,
) -> bool {
    &&& new.next_capability_id == old_space.next_capability_id
    &&& moved_to(old_space, new, dst, src, id)
}

/// The capability at `src` went to `dst` under a new identifier: with its rights, its place in
/// the tree and its children.
pub open spec fn moved_to(
    old_space: &CapabilitySpace,
    new: &CapabilitySpace,
    dst: Slot,
    src: Slot,
    id: u64,
) -> bool {
    let e = old_space.entry(src);
    let n = old_space.node(src);
    &&& new.entry(dst) == installed_entry(
        old_space.entry(dst),
        e.object_index,
        e.object_generation,
        e.rights,
        e.endpoint,
    )
    &&& new.entry(src) == freed_entry(e)
    &&& forall|t: Slot|
        is_slot(t) && t != src && t != dst ==> (#[trigger] new.entry(t)) == old_space.entry(t)
    &&& new.node_core(dst) == fresh_core(
        old_space.node(dst),
        id,
        parent_of(n),
        n.parent_gen,
        n.derivation_depth,
        n.flags,
    )
    &&& new.node(src).is_blank()
    &&& forall|t: Slot|
        is_slot(t) && t != src && t != dst ==> core_of(#[trigger] new.node(t)) == (
        if old_space.kids(src).contains(t) {
            reparented_core(
                core_of(old_space.node(t)),
                dst,
                old_space.entry(dst).handle_generation,
                old_space.node(t).derivation_depth,
            )
        } else {
            core_of(old_space.node(t))
        })
    &&& new.children@ == moved_children(old_space, dst, src)
}

/// How the links look after the move.
spec fn moved_links(before: &CapabilitySpace, after: &CapabilitySpace, dst: Slot, src: Slot) -> bool {
    let par = parent_of(before.node(src));
    &&& par != no_slot() ==> after.chain(par, moved_children(before, dst, src)[par])
    &&& after.chain(dst, before.kids(src))
    &&& first_of(after.node(src)) == no_slot()
    &&& forall|t: Slot|
        is_slot(t) && t != src && t != dst && t != par ==> first_of(#[trigger] after.node(t))
            == first_of(before.node(t))
    &&& forall|t: Slot|
        is_slot(t) && t != src && t != dst && !(par != no_slot() && before.kids(par).contains(t))
            ==> next_of(#[trigger] after.node(t)) == next_of(before.node(t))
}

#[verifier::spinoff_prover]
#[verifier::rlimit(60)]
proof fn lemma_moved_chains(
    before: &CapabilitySpace,
    after: &CapabilitySpace,
    dst: Slot,
    src: Slot,
    id: u64,
)
    requires
        before.wf(),
        before.live(src),
        is_slot(dst),
        !before.live(dst),
        moved(before, after, dst, src, id),
        moved_links(before, after, dst, src),
    ensures
        after.chains_ok(),
{
    let par = parent_of(before.node(src));
    let ks = before.kids(src);
    lemma_parent_facts(before, src);
    assert forall|t: Slot| is_slot(t) implies after.chain(t, #[trigger] after.kids(t)) by {
        if t != src && t != dst && t != par {
            let ts = before.kids(t);
            assert(after.kids(t) == ts);
            assert(before.chain(t, ts));
            lemma_idle_is_unlinked(before, dst, t);
            assert forall|i: int| 0 <= i < ts.len() implies next_of(#[trigger] after.node(ts[i]))
                == next_of(before.node(ts[i])) by {
                let k = ts[i];
                assert(ts.contains(k));
                assert(before.kid_ok(t, ts[i]));
                if k == src {
                    assert(t == par);
                }
                if par != no_slot() && before.kids(par).contains(k) {
                    lemma_one_parent(before, t, par, k);
                }
            }
        }
    }
}

#[verifier::spinoff_prover]
#[verifier::rlimit(60)]
proof fn lemma_moved_kids(
    before: &CapabilitySpace,
    after: &CapabilitySpace,
    dst: Slot,
    src: Slot,
    id: u64,
)
    requires
        before.wf(),
        before.live(src),
        is_slot(dst),
        !before.live(dst),
        moved(before, after, dst, src, id),
        moved_links(before, after, dst, src),
    ensures
        after.kids_ok(),
{
    let par = parent_of(before.node(src));
    let ks = before.kids(src);
    lemma_parent_facts(before, src);
    lemma_idle_is_unlinked(before, dst, src);
    assert forall|t: Slot, i: int| is_slot(t) && 0 <= i < after.kids(t).len() implies after.kid_ok(
        t,
        #[trigger] after.kids(t)[i],
    ) by {
        let k = after.kids(t)[i];
        if t == dst {
            assert(k == ks[i]);
            assert(ks.contains(k));
            assert(before.kid_ok(src, ks[i]));
        } else if t != src {
            if t == par {
                lemma_idle_is_unlinked(before, dst, par);
                let m = position(before.kids(par), src);
                if i == m {
                    assert(k == dst);
                    assert(before.kid_ok(par, src));
                    assert(core_of(after.node(par)) == core_of(before.node(par)));
                } else {
                    assert(k == before.kids(par)[i]);
                    assert(before.kids(par).contains(k));
                    assert(before.kid_ok(par, before.kids(par)[i]));
                    assert(before.chain(par, before.kids(par)));
                    assert(k != src);
                    if ks.contains(k) {
                        lemma_one_parent(before, src, par, k);
                    }
                    assert(core_of(after.node(k)) == core_of(before.node(k)));
                    assert(core_of(after.node(par)) == core_of(before.node(par)));
                }
            } else {
                assert(k == before.kids(t)[i]);
                assert(before.kids(t).contains(k));
                assert(before.kid_ok(t, before.kids(t)[i]));
                lemma_idle_is_unlinked(before, dst, t);
                if k == src {
                    assert(t == par);
                }
                if ks.contains(k) {
                    lemma_one_parent(before, src, t, k);
                }
                assert(core_of(after.node(k)) == core_of(before.node(k)));
                assert(core_of(after.node(t)).derivation_depth == core_of(
                    before.node(t),
                ).derivation_depth);
            }
        }
    }
}

#[verifier::spinoff_prover]
#[verifier::rlimit(60)]
proof fn lemma_moved_parents(
    before: &CapabilitySpace,
    after: &CapabilitySpace,
    dst: Slot,
    src: Slot,
    id: u64,
)
    requires
        before.wf(),
        before.live(src),
        is_slot(dst),
        !before.live(dst),
        0 < id < before.next_capability_id,
        moved(before, after, dst, src, id),
        moved_links(before, after, dst, src),
    ensures
        after.parents_ok(),
{
    let par = parent_of(before.node(src));
    let ks = before.kids(src);
    lemma_parent_facts(before, src);
    assert forall|t: Slot| #[trigger] after.live(t) implies after.parent_ok(t) && after.node_ok(
        t,
    ) by {
        assert(t != src);
        if t == dst {
            if par != no_slot() {
                let m = position(before.kids(par), src);
                assert(after.kids(par)[m] == dst);
                assert(after.entry(par) == before.entry(par));
            }
        } else {
            assert(before.live(t));
            assert(before.parent_ok(t) && before.node_ok(t));
            assert(after.node_core(t).capability_id == before.node(t).capability_id);
            let q = parent_of(before.node(t));
            if ks.contains(t) {
                assert(after.kids(dst) == ks);
            } else if q != no_slot() {
                assert(q != src);
                assert(q != dst);
                assert(core_of(after.node(t)) == core_of(before.node(t)));
                assert(after.entry(q) == before.entry(q));
                let j = before.kids(q).index_of(t);
                if q == par {
                    let m = position(before.kids(par), src);
                    assert(before.kids(par)[m] == src);
                    assert(after.kids(par)[j] == t);
                } else {
                    assert(after.kids(q) == before.kids(q));
                }
            }
        }
    }
}

/// Moving a capability keeps the invariant.
proof fn lemma_moved_keeps_wf(
    before: &CapabilitySpace,
    after: &CapabilitySpace,
    dst: Slot,
    src: Slot,
    id: u64,
)
    requires
        before.wf(),
        before.live(src),
        is_slot(dst),
        !before.live(dst),
        0 < id < before.next_capability_id,
        forall|t: Slot| #[trigger] before.live(t) ==> before.node(t).capability_id != id,
        moved(before, after, dst, src, id),
        moved_links(before, after, dst, src),
        after.counts_ok(),
    ensures
        after.wf(),
{
    lemma_moved_chains(before, after, dst, src, id);
    lemma_moved_kids(before, after, dst, src, id);
    lemma_moved_parents(before, after, dst, src, id);
    lemma_parent_facts(before, src);
    assert forall|t: Slot| is_slot(t) && !after.live(t) implies (#[trigger] after.kids(t)).len()
        == 0 by {
        if t != src {
            assert(!before.live(t));
            assert(before.kids(t).len() == 0);
        }
    }
    assert forall|t: Slot, u: Slot|
        #![trigger after.live(t), after.live(u)]
        after.live(t) && after.live(u) && t != u implies after.node(t).capability_id != after.node(
        u,
    ).capability_id by {
        if t != dst {
            assert(before.live(t));
            assert(after.node_core(t).capability_id == before.node(t).capability_id);
        }
        if u != dst {
            assert(before.live(u));
            assert(after.node_core(u).capability_id == before.node(u).capability_id);
        }
    }
    assert forall|t: Slot| is_slot(t) implies (#[trigger] after.entry(t)).handle_generation
        != 0 by {
        assert(before.entry(t).handle_generation != 0);
    }
}

impl CapabilitySpace {
    /// Moves the capability at `src` to the free slot `dst`, under the identifier `id`.
    pub(crate) fn relocate(&mut self, p: usize, h: usize, src_p: usize, src_h: usize, id: u64)
        requires
            old(self).wf(),
            old(self).live(slot_at(src_p, src_h)),
            is_slot(slot_at(p, h)),
            !old(self).live(slot_at(p, h)),
            0 < id < old(self).next_capability_id,
            forall|t: Slot| #[trigger] old(self).live(t) ==> old(self).node(t).capability_id != id,
        ensures
            final(self).wf(),
            moved(old(self), final(self), slot_at(p, h), slot_at(src_p, src_h), id),
    {
        let ghost dst = slot_at(p, h);
        let ghost src = slot_at(src_p, src_h);
        let ghost before = *self;
        let ghost ks = self.kids(src);
        let ghost par = parent_of(self.node(src));
        let ghost pks = before.kids(par);
        proof {
            lemma_parent_facts(self, src);
            lemma_idle_is_unlinked(self, dst, src);
            assert(before.chain(src, before.kids(src)));
            assert(before.kids(dst).len() == 0);
        }
        let e = self.tables[src_p].entries[src_h];
        let n = self.nodes[src_p][src_h];
        let gen: u16 = self.tables[p].entries[h].handle_generation;
        assert(e == before.entry(src) && n == before.node(src));
        assert(gen == before.entry(dst).handle_generation);
        self.install_entry(p, h, e.object_index, e.object_generation, e.rights, e.endpoint);
        let ghost put = *self;
        self.set_node(
            p,
            h,
            id,
            n.parent_pslot,
            n.parent_hslot,
            n.parent_gen,
            n.derivation_depth,
            n.flags,
            n.first_child_pslot,
            n.first_child_hslot,
        );
        let ghost made = *self;
        assert(made.chain(src, ks)) by {
            assert forall|i: int| 0 <= i < ks.len() implies (#[trigger] made.node(ks[i]))
                == before.node(ks[i]) by {
                assert(ks.contains(ks[i]));
            }
        }
        if n.parent_pslot != NO_SLOT && n.parent_hslot != NO_SLOT {
            assert(par == slot_at(n.parent_pslot as usize, n.parent_hslot as usize));
            proof {
                lemma_idle_is_unlinked(&before, dst, par);
                assert(before.chain(par, before.kids(par)));
                assert(made.chain(par, made.kids(par))) by {
                    assert forall|i: int| 0 <= i < pks.len() implies (#[trigger] made.node(pks[i]))
                        == before.node(pks[i]) by {
                        assert(pks.contains(pks[i]));
                    }
                }
            }
            replace_child_locked(
                self,
                n.parent_pslot as usize,
                n.parent_hslot as usize,
                src_p,
                src_h,
                p,
                h,
            );
        } else {
            assert(par == no_slot());
        }
        let ghost linked = *self;
        proof {
            assert forall|i: int| 0 <= i < ks.len() implies next_of(#[trigger] linked.node(ks[i]))
                == next_of(made.node(ks[i])) by {
                assert(ks.contains(ks[i]));
                if par != no_slot() && pks.contains(ks[i]) {
                    lemma_one_parent(&before, src, par, ks[i]);
                }
            }
            assert(first_of(linked.node(src)) == first_of(made.node(src)));
            assert(linked.chain(src, ks));
            assert(linked.kids(src) == ks);
        }
        let (last_p, last_h) = self.reparent_chain(src_p, src_h, p as u8, h as u8, gen, None);
        let ghost reparented_all = *self;
        self.free_entry(src_p, src_h);
        let ghost freed = *self;
        self.blank_node(src_p, src_h);
        let ghost blank = *self;
        proof {
            self.children@ = moved_children(&before, dst, src);
            assert forall|t: Slot| (#[trigger] self.node(t)) == blank.node(t) by {}
            assert forall|t: Slot| (#[trigger] self.entry(t)) == blank.entry(t) by {}
            assert forall|t: Slot| is_slot(t) && t != src implies {
                &&& first_of(#[trigger] self.node(t)) == first_of(linked.node(t))
                &&& next_of(self.node(t)) == next_of(linked.node(t))
                &&& t != dst ==> core_of(self.node(t)) == (if ks.contains(t) {
                    reparented_core(core_of(before.node(t)), dst, gen, before.node(t).derivation_depth)
                } else {
                    core_of(before.node(t))
                })
            } by {
                assert(self.node(t) == freed.node(t));
                assert(freed.node(t) == reparented_all.node(t));
                assert(core_of(linked.node(t)) == core_of(made.node(t)));
                if t != dst {
                    assert(made.node(t) == put.node(t));
                    assert(put.node(t) == before.node(t));
                }
            }
            assert forall|t: Slot| is_slot(t) && t != src && t != dst implies (#[trigger] self.entry(t))
                == before.entry(t) by {
                assert(reparented_all.entry(t) == linked.entry(t));
                assert(linked.entry(t) == made.entry(t));
                assert(made.entry(t) == put.entry(t));
            }
            assert(linked.entry(src) == before.entry(src));
            assert(self.entry(dst) == put.entry(dst)) by {
                assert(reparented_all.entry(dst) == linked.entry(dst));
                assert(linked.entry(dst) == made.entry(dst));
            }
            assert(self.node_core(dst) == core_of(made.node(dst))) by {
                assert(self.node(dst) == freed.node(dst));
                assert(freed.node(dst) == reparented_all.node(dst));
            }
            assert(self.chain(dst, ks)) by {
                assert(first_of(made.node(dst)) == first_of(before.node(src)));
                assert(first_of(linked.node(dst)) == first_of(made.node(dst)));
                assert forall|i: int| 0 <= i < ks.len() implies next_of(#[trigger] self.node(ks[i]))
                    == next_of(linked.node(ks[i])) by {
                    assert(ks.contains(ks[i]));
                    assert(is_slot(ks[i]));
                }
            }
            if par != no_slot() {
                let pk2 = pks.update(position(pks, src), dst);
                assert(linked.chain(par, pk2));
                assert(self.chain(par, pk2)) by {
                    assert forall|i: int| 0 <= i < pk2.len() implies next_of(
                        #[trigger] self.node(pk2[i]),
                    ) == next_of(linked.node(pk2[i])) by {
                        assert(is_slot(pk2[i]));
                        assert(pk2[i] != src) by {
                            if i != position(pks, src) {
                                assert(before.chain(par, pks));
                                assert(pks[position(pks, src)] == src);
                            }
                        }
                    }
                }
            }
            assert forall|t: Slot|
                is_slot(t) && t != src && t != dst && t != par implies first_of(
                #[trigger] self.node(t),
            ) == first_of(before.node(t)) by {
                assert(first_of(linked.node(t)) == first_of(made.node(t)));
            }
            assert forall|t: Slot|
                is_slot(t) && t != src && t != dst && !(par != no_slot() && pks.contains(
                    t,
                )) implies next_of(#[trigger] self.node(t)) == next_of(before.node(t)) by {
                assert(next_of(linked.node(t)) == next_of(made.node(t)));
            }
            lemma_moved_keeps_wf(&before, self, dst, src, id);
        }
    }
}

} // verus!
