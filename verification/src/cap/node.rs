//! The derivation tree: every capability that was derived hangs below the one it came from.
//!
//! The nodes of a parent's children form a chain: the parent links to the first, each child to
//! the next. What the chains hold is kept beside the tables as ghost state.
use crate::cap::types::{CapabilityNode, MAX_HANDLES_PER_PROCESS, MAX_PROCESSES, NO_SLOT};
use crate::ipc::handle::{HandleEntry, HandleTable};
use crate::ipc::types::IpcError;
use vstd::prelude::*;

verus! {

/// A handle slot of a process slot.
pub struct Slot {
    pub p: int,
    pub h: int,
}

/// The slot that a link without a target names.
pub open spec fn no_slot() -> Slot {
    Slot { p: NO_SLOT as int, h: NO_SLOT as int }
}

pub open spec fn is_slot(s: Slot) -> bool {
    0 <= s.p < MAX_PROCESSES && 0 <= s.h < MAX_HANDLES_PER_PROCESS
}

/// The slot at two indices.
pub open spec fn slot_at(p: usize, h: usize) -> Slot {
    Slot { p: p as int, h: h as int }
}

/// What a node says of its capability, apart from the links of the chains.
pub struct NodeCore {
    pub capability_id: u64,
    pub parent: Slot,
    pub parent_gen: u16,
    pub derivation_depth: u8,
    pub is_revoked: bool,
    pub flags: u16,
    pub reserved: [u8; 4],
}

pub open spec fn parent_of(n: CapabilityNode) -> Slot {
    Slot { p: n.parent_pslot as int, h: n.parent_hslot as int }
}

pub open spec fn first_of(n: CapabilityNode) -> Slot {
    Slot { p: n.first_child_pslot as int, h: n.first_child_hslot as int }
}

pub open spec fn next_of(n: CapabilityNode) -> Slot {
    Slot { p: n.next_sibling_pslot as int, h: n.next_sibling_hslot as int }
}

pub open spec fn core_of(n: CapabilityNode) -> NodeCore {
    NodeCore {
        capability_id: n.capability_id,
        parent: parent_of(n),
        parent_gen: n.parent_gen,
        derivation_depth: n.derivation_depth,
        is_revoked: n.is_revoked,
        flags: n.flags,
        reserved: n._reserved,
    }
}

/// The handle tables of all processes and the derivation tree over their entries.
pub struct CapabilitySpace {
    pub tables: [HandleTable; MAX_PROCESSES],
    pub nodes: [[CapabilityNode; MAX_HANDLES_PER_PROCESS]; MAX_PROCESSES],
    pub next_capability_id: u64,
    /// The children of each slot, in the order of its chain.
    pub children: Ghost<Map<Slot, Seq<Slot>>>,
}

impl CapabilitySpace {
    pub open spec fn entry(&self, s: Slot) -> HandleEntry {
        self.tables@[s.p].entries@[s.h]
    }

    pub open spec fn node(&self, s: Slot) -> CapabilityNode {
        self.nodes@[s.p]@[s.h]
    }

    pub open spec fn kids(&self, s: Slot) -> Seq<Slot> {
        self.children@[s]
    }

    pub open spec fn live(&self, s: Slot) -> bool {
        is_slot(s) && self.entry(s).occupied
    }

    /// The chain below `s` holds exactly `ks`.
    pub open spec fn chain(&self, s: Slot, ks: Seq<Slot>) -> bool {
        &&& forall|i: int| 0 <= i < ks.len() ==> is_slot(#[trigger] ks[i])
        &&& ks.no_duplicates()
        &&& first_of(self.node(s)) == (if ks.len() > 0 {
            ks[0]
        } else {
            no_slot()
        })
        &&& forall|i: int|
            0 <= i < ks.len() ==> next_of(#[trigger] self.node(ks[i])) == (if i + 1 < ks.len() {
                ks[i + 1]
            } else {
                no_slot()
            })
    }

    /// Only links differ between the two.
    pub open spec fn same_but_links(&self, other: &Self) -> bool {
        &&& self.tables == other.tables
        &&& self.next_capability_id == other.next_capability_id
        &&& forall|s: Slot| (#[trigger] self.entry(s)) == other.entry(s)
        &&& forall|s: Slot|
            is_slot(s) ==> core_of(#[trigger] self.node(s)) == core_of(other.node(s))
    }
}

impl CapabilitySpace {
    /// Both agree on everything but the node at `s`.
    pub open spec fn same_but_node(&self, other: &Self, s: Slot) -> bool {
        &&& self.tables == other.tables
        &&& self.next_capability_id == other.next_capability_id
        &&& self.children == other.children
        &&& forall|t: Slot|
            is_slot(t) && t != s ==> (#[trigger] self.node(t)) == other.node(t)
        &&& forall|t: Slot| (#[trigger] self.entry(t)) == other.entry(t)
    }

    /// Links a node to its first child.
    pub(crate) fn set_first(&mut self, p: usize, h: usize, first_p: u8, first_h: u8)
        requires
            is_slot(slot_at(p, h)),
        ensures
            final(self).same_but_node(old(self), slot_at(p, h)),
            final(self).node(slot_at(p, h)) == (CapabilityNode {
                first_child_pslot: first_p,
                first_child_hslot: first_h,
                ..old(self).node(slot_at(p, h))
            }),
    {
        self.nodes[p][h].first_child_pslot = first_p;
        self.nodes[p][h].first_child_hslot = first_h;
    }

    /// Links a node to its next sibling.
    pub(crate) fn set_next(&mut self, p: usize, h: usize, next_p: u8, next_h: u8)
        requires
            is_slot(slot_at(p, h)),
        ensures
            final(self).same_but_node(old(self), slot_at(p, h)),
            final(self).node(slot_at(p, h)) == (CapabilityNode {
                next_sibling_pslot: next_p,
                next_sibling_hslot: next_h,
                ..old(self).node(slot_at(p, h))
            }),
    {
        self.nodes[p][h].next_sibling_pslot = next_p;
        self.nodes[p][h].next_sibling_hslot = next_h;
    }

    /// Finds the node before another one in the chain of a parent.
    fn find_predecessor(&self, parent_p: usize, parent_h: usize, child_p: usize, child_h: usize) -> (r: Option<
        (usize, usize),
    >)
        requires
            is_slot(slot_at(parent_p, parent_h)),
            is_slot(slot_at(child_p, child_h)),
            self.chain(slot_at(parent_p, parent_h), self.kids(slot_at(parent_p, parent_h))),
            first_of(self.node(slot_at(parent_p, parent_h))) != slot_at(child_p, child_h),
        ensures
            ({
                let ks = self.kids(slot_at(parent_p, parent_h));
                let k = slot_at(child_p, child_h);
                match r {
                    Some((p, h)) => {
                        &&& is_slot(slot_at(p, h))
                        &&& ks.contains(k)
                        &&& position(ks, k) > 0
                        &&& slot_at(p, h) == ks[position(ks, k) - 1]
                    },
                    None => !ks.contains(k),
                }
            }),
    {
        let ghost s = slot_at(parent_p, parent_h);
        let ghost k = slot_at(child_p, child_h);
        let ghost ks = self.kids(s);
        let mut curr_p: usize = self.nodes[parent_p][parent_h].first_child_pslot as usize;
        let mut curr_h: usize = self.nodes[parent_p][parent_h].first_child_hslot as usize;
        let ghost mut i: int = 0;
        assert(first_of(self.node(s)) == slot_at(curr_p, curr_h));
        while curr_p < MAX_PROCESSES && curr_h < MAX_HANDLES_PER_PROCESS
            invariant
                self.chain(s, ks),
                k == slot_at(child_p, child_h),
                is_slot(k),
                0 <= i <= ks.len(),
                i < ks.len() ==> ks[i] == slot_at(curr_p, curr_h),
                i == ks.len() ==> slot_at(curr_p, curr_h) == no_slot(),
                ks == self.kids(slot_at(parent_p, parent_h)),
                forall|j: int| 0 <= j <= i && j < ks.len() ==> (#[trigger] ks[j]) != k,
            decreases ks.len() - i,
        {
            assert(i < ks.len());
            assert(is_slot(ks[i]));
            let n = self.nodes[curr_p][curr_h];
            assert(n == self.node(ks[i]));
            if n.next_sibling_pslot as usize == child_p && n.next_sibling_hslot as usize == child_h {
                assert(next_of(self.node(ks[i])) == k);
                assert(ks[i + 1] == k);
                assert(position(ks, k) == i + 1);
                return Some((curr_p, curr_h));
            }
            curr_p = n.next_sibling_pslot as usize;
            curr_h = n.next_sibling_hslot as usize;
            proof {
                i = i + 1;
            }
        }
        proof {
            if i < ks.len() {
                assert(is_slot(ks[i]));
            }
        }
        None
    }
}

/// Hands out the next identifier. The last number is never handed out, so that the counter never
/// wraps.
pub fn allocate_capability_id(c: &mut CapabilitySpace) -> (r: Result<u64, IpcError>)
    ensures
        final(c).tables == old(c).tables,
        final(c).nodes == old(c).nodes,
        final(c).children == old(c).children,
        if old(c).next_capability_id == u64::MAX {
            r == Err::<u64, IpcError>(IpcError::CapabilityIdExhausted) && final(c).next_capability_id == old(c).next_capability_id
        } else {
            r == Ok::<u64, IpcError>(old(c).next_capability_id) && final(c).next_capability_id
                == old(c).next_capability_id + 1
        },
{
    if c.next_capability_id == u64::MAX {
        return Err(IpcError::CapabilityIdExhausted);
    }
    let id: u64 = c.next_capability_id;
    c.next_capability_id = id + 1;
    Ok(id)
}

/// The slot comes before another in the order of process slots, then handle slots.
pub open spec fn slot_before(s: Slot, t: Slot) -> bool {
    s.p < t.p || (s.p == t.p && s.h < t.h)
}

/// The entry is in use and carries the identifier.
pub open spec fn carries_id(c: &CapabilitySpace, s: Slot, id: u64) -> bool {
    c.live(s) && !c.node(s).is_revoked && c.node(s).capability_id == id
}

/// Finds the capability with an identifier: its process slot, its handle slot and its node.
pub fn lookup_capability_by_id_locked(c: &CapabilitySpace, target_id: u64) -> (r: Result<
    (usize, usize, CapabilityNode),
    IpcError,
>)
    ensures
        match r {
            Ok((p, h, node)) => {
                &&& target_id != 0
                &&& node == c.node(slot_at(p, h))
                &&& carries_id(c, slot_at(p, h), target_id)
                &&& forall|s: Slot|
                    slot_before(s, slot_at(p, h)) ==> !(#[trigger] carries_id(c, s, target_id))
            },
            Err(e) => {
                &&& e == IpcError::InvalidCapability
                &&& target_id == 0 || forall|s: Slot| !(#[trigger] carries_id(c, s, target_id))
            },
        },
{
    if target_id == 0 {
        return Err(IpcError::InvalidCapability);
    }
    let mut p: usize = 0;
    while p < MAX_PROCESSES
        invariant
            p <= MAX_PROCESSES,
            target_id != 0,
            forall|s: Slot| s.p < p ==> !(#[trigger] carries_id(c, s, target_id)),
        decreases MAX_PROCESSES - p,
    {
        let mut h: usize = 0;
        while h < MAX_HANDLES_PER_PROCESS
            invariant
                p < MAX_PROCESSES,
                h <= MAX_HANDLES_PER_PROCESS,
                target_id != 0,
                forall|s: Slot|
                    slot_before(s, slot_at(p, h)) ==> !(#[trigger] carries_id(c, s, target_id)),
            decreases MAX_HANDLES_PER_PROCESS - h,
        {
            if c.tables[p].entries[h].occupied {
                if !c.nodes[p][h].is_revoked && c.nodes[p][h].capability_id == target_id {
                    return Ok((p, h, c.nodes[p][h]));
                }
            }
            h = h + 1;
        }
        p = p + 1;
    }
    Err(IpcError::InvalidCapability)
}

/// Puts a node at the front of its parent's chain.
pub fn add_child_locked(
    c: &mut CapabilitySpace,
    parent_p: usize,
    parent_h: usize,
    child_p: usize,
    child_h: usize,
)
    requires
        is_slot(slot_at(parent_p, parent_h)),
        is_slot(slot_at(child_p, child_h)),
        slot_at(parent_p, parent_h) != slot_at(child_p, child_h),
        old(c).chain(slot_at(parent_p, parent_h), old(c).kids(slot_at(parent_p, parent_h))),
        !old(c).kids(slot_at(parent_p, parent_h)).contains(slot_at(child_p, child_h)),
    ensures
        ({
            let s = slot_at(parent_p, parent_h);
            let k = slot_at(child_p, child_h);
            let ks = seq![k] + old(c).kids(s);
            &&& final(c).same_but_links(old(c))
            &&& final(c).children@ == old(c).children@.insert(s, ks)
            &&& final(c).chain(s, ks)
            &&& forall|t: Slot|
                is_slot(t) && t != s ==> first_of(#[trigger] final(c).node(t)) == first_of(
                    old(c).node(t),
                )
            &&& forall|t: Slot|
                is_slot(t) && t != k ==> next_of(#[trigger] final(c).node(t)) == next_of(
                    old(c).node(t),
                )
        }),
{
    let ghost s = slot_at(parent_p, parent_h);
    let ghost k = slot_at(child_p, child_h);
    let ghost ks0 = c.kids(s);
    let old_first_p: u8 = c.nodes[parent_p][parent_h].first_child_pslot;
    let old_first_h: u8 = c.nodes[parent_p][parent_h].first_child_hslot;
    c.nodes[child_p][child_h].next_sibling_pslot = old_first_p;
    c.nodes[child_p][child_h].next_sibling_hslot = old_first_h;
    c.nodes[parent_p][parent_h].first_child_pslot = child_p as u8;
    c.nodes[parent_p][parent_h].first_child_hslot = child_h as u8;
    proof {
        let ks = seq![k] + ks0;
        c.children@ = c.children@.insert(s, ks);
        assert forall|i: int| 0 <= i < ks.len() implies is_slot(#[trigger] ks[i]) && next_of(
            c.node(ks[i]),
        ) == (if i + 1 < ks.len() {
            ks[i + 1]
        } else {
            no_slot()
        }) by {
            if i > 0 {
                assert(ks[i] == ks0[i - 1]);
                assert(ks0.contains(ks0[i - 1]));
                assert(next_of(c.node(ks[i])) == next_of(old(c).node(ks0[i - 1])));
            }
        }
        assert(ks.no_duplicates()) by {
            assert forall|i: int, j: int| 0 <= i < ks.len() && 0 <= j < ks.len() && i != j implies ks[i]
                != ks[j] by {
                if i > 0 {
                    assert(ks0.contains(ks0[i - 1]));
                }
                if j > 0 {
                    assert(ks0.contains(ks0[j - 1]));
                }
            }
        }
    }
}

/// The position of a slot in a chain that holds it.
pub open spec fn position(ks: Seq<Slot>, k: Slot) -> int {
    ks.index_of(k)
}

/// Takes a node out of its parent's chain. One that is not in it only loses its link to a sibling.
pub fn remove_child_locked(
    c: &mut CapabilitySpace,
    parent_p: usize,
    parent_h: usize,
    child_p: usize,
    child_h: usize,
)
    requires
        is_slot(slot_at(parent_p, parent_h)),
        is_slot(slot_at(child_p, child_h)),
        old(c).chain(slot_at(parent_p, parent_h), old(c).kids(slot_at(parent_p, parent_h))),
        !old(c).kids(slot_at(parent_p, parent_h)).contains(slot_at(parent_p, parent_h)),
    ensures
        !old(c).kids(slot_at(parent_p, parent_h)).contains(slot_at(child_p, child_h)) ==> {
            let k = slot_at(child_p, child_h);
            &&& final(c).same_but_node(old(c), k)
            &&& final(c).node(k) == (CapabilityNode {
                next_sibling_pslot: NO_SLOT,
                next_sibling_hslot: NO_SLOT,
                ..old(c).node(k)
            })
        },
        old(c).kids(slot_at(parent_p, parent_h)).contains(slot_at(child_p, child_h)) ==> {
            let s = slot_at(parent_p, parent_h);
            let k = slot_at(child_p, child_h);
            let ks0 = old(c).kids(s);
            let ks = ks0.remove(position(ks0, k));
            &&& final(c).same_but_links(old(c))
            &&& final(c).children@ == old(c).children@.insert(s, ks)
            &&& final(c).chain(s, ks)
            &&& next_of(final(c).node(k)) == no_slot()
            &&& forall|t: Slot|
                is_slot(t) && t != s ==> first_of(#[trigger] final(c).node(t)) == first_of(
                    old(c).node(t),
                )
            &&& forall|t: Slot|
                is_slot(t) && !ks0.contains(t) ==> next_of(#[trigger] final(c).node(t))
                    == next_of(old(c).node(t))
        },
{
    let ghost s = slot_at(parent_p, parent_h);
    let ghost k = slot_at(child_p, child_h);
    let ghost ks0 = c.kids(s);
    let ghost m = position(ks0, k);
    let ghost before = *c;
    let parent = c.nodes[parent_p][parent_h];
    let child = c.nodes[child_p][child_h];
    assert(parent == c.node(s) && child == c.node(k));
    if parent.first_child_pslot == child_p as u8 && parent.first_child_hslot == child_h as u8 {
        assert(first_of(parent) == ks0[0]);
        assert(ks0.contains(ks0[0]));
        assert(m == 0);
        c.set_first(parent_p, parent_h, child.next_sibling_pslot, child.next_sibling_hslot);
    } else {
        match c.find_predecessor(parent_p, parent_h, child_p, child_h) {
            None => {
                c.set_next(child_p, child_h, NO_SLOT, NO_SLOT);
                return;
            },
            Some((prev_p, prev_h)) => {
                c.set_next(prev_p, prev_h, child.next_sibling_pslot, child.next_sibling_hslot);
            },
        }
    }
    c.set_next(child_p, child_h, NO_SLOT, NO_SLOT);
    assert(ks0[m] == k);
    assert(next_of(before.node(ks0[m])) == next_of(child));
    proof {
        let ks = ks0.remove(m);
        assert forall|i: int| 0 <= i < ks0.len() && i != m && i != m - 1 implies next_of(
            c.node(#[trigger] ks0[i]),
        ) == next_of(before.node(ks0[i])) by {
            assert(ks0[i] != k);
            assert(ks0.contains(ks0[i]));
        }
        if m > 0 {
            assert(ks0[m - 1] != k);
        }
        lemma_chain_after_removal(&before, c, s, ks0, m);
        let after = *c;
        assert forall|t: Slot| is_slot(t) implies {
            &&& core_of(#[trigger] after.node(t)) == core_of(before.node(t))
            &&& t != s ==> first_of(after.node(t)) == first_of(before.node(t))
            &&& !ks0.contains(t) ==> next_of(after.node(t)) == next_of(before.node(t))
        } by {
            if m > 0 {
                assert(ks0.contains(ks0[m - 1]));
            }
        }
        c.children@ = c.children@.insert(s, ks);
        assert(forall|t: Slot| (#[trigger] c.node(t)) == after.node(t));
    }
}

/// A chain from which one node was cut out holds the rest.
#[verifier::spinoff_prover]
#[verifier::rlimit(60)]
proof fn lemma_chain_after_removal(
    before: &CapabilitySpace,
    after: &CapabilitySpace,
    s: Slot,
    ks0: Seq<Slot>,
    m: int,
)
    requires
        before.chain(s, ks0),
        0 <= m < ks0.len(),
        m == 0 ==> first_of(after.node(s)) == next_of(before.node(ks0[m])),
        m > 0 ==> first_of(after.node(s)) == first_of(before.node(s)) && next_of(
            after.node(ks0[m - 1]),
        ) == next_of(before.node(ks0[m])),
        forall|i: int|
            0 <= i < ks0.len() && i != m && i != m - 1 ==> next_of(after.node(#[trigger] ks0[i]))
                == next_of(before.node(ks0[i])),
    ensures
        after.chain(s, ks0.remove(m)),
{
    let ks = ks0.remove(m);
    assert(next_of(before.node(ks0[m])) == (if m + 1 < ks0.len() {
        ks0[m + 1]
    } else {
        no_slot()
    }));
    assert forall|j: int| 0 <= j < ks.len() implies is_slot(#[trigger] ks[j]) && next_of(
        after.node(ks[j]),
    ) == (if j + 1 < ks.len() {
        ks[j + 1]
    } else {
        no_slot()
    }) by {
        let j0 = if j < m {
            j
        } else {
            j + 1
        };
        assert(ks[j] == ks0[j0]);
        assert(next_of(before.node(ks0[j0])) == (if j0 + 1 < ks0.len() {
            ks0[j0 + 1]
        } else {
            no_slot()
        }));
        if j + 1 < ks.len() {
            assert(ks[j + 1] == (if j + 1 < m {
                ks0[j + 1]
            } else {
                ks0[j + 2]
            }));
        }
    }
    assert forall|i: int, j: int| 0 <= i < ks.len() && 0 <= j < ks.len() && i != j implies ks[i]
        != ks[j] by {
        let i0 = if i < m {
            i
        } else {
            i + 1
        };
        let j0 = if j < m {
            j
        } else {
            j + 1
        };
        assert(ks[i] == ks0[i0] && ks[j] == ks0[j0]);
    }
}

/// Puts a node in the place of another in their parent's chain. Where that one is not in it,
/// nothing changes.
pub fn replace_child_locked(
    c: &mut CapabilitySpace,
    parent_p: usize,
    parent_h: usize,
    old_p: usize,
    old_h: usize,
    new_p: usize,
    new_h: usize,
)
    requires
        is_slot(slot_at(parent_p, parent_h)),
        is_slot(slot_at(old_p, old_h)),
        is_slot(slot_at(new_p, new_h)),
        slot_at(new_p, new_h) != slot_at(parent_p, parent_h),
        old(c).chain(slot_at(parent_p, parent_h), old(c).kids(slot_at(parent_p, parent_h))),
        !old(c).kids(slot_at(parent_p, parent_h)).contains(slot_at(new_p, new_h)),
        !old(c).kids(slot_at(parent_p, parent_h)).contains(slot_at(parent_p, parent_h)),
    ensures
        !old(c).kids(slot_at(parent_p, parent_h)).contains(slot_at(old_p, old_h)) ==> *final(c)
            == *old(c),
        old(c).kids(slot_at(parent_p, parent_h)).contains(slot_at(old_p, old_h)) ==> {
            let s = slot_at(parent_p, parent_h);
            let o = slot_at(old_p, old_h);
            let n = slot_at(new_p, new_h);
            let ks0 = old(c).kids(s);
            let ks = ks0.update(position(ks0, o), n);
            &&& final(c).same_but_links(old(c))
            &&& final(c).children@ == old(c).children@.insert(s, ks)
            &&& final(c).chain(s, ks)
            &&& forall|t: Slot|
                is_slot(t) && t != s ==> first_of(#[trigger] final(c).node(t)) == first_of(
                    old(c).node(t),
                )
            &&& forall|t: Slot|
                is_slot(t) && !ks0.contains(t) && t != n ==> next_of(#[trigger] final(c).node(t))
                    == next_of(old(c).node(t))
        },
{
    let ghost s = slot_at(parent_p, parent_h);
    let ghost o = slot_at(old_p, old_h);
    let ghost n = slot_at(new_p, new_h);
    let ghost ks0 = c.kids(s);
    let ghost m = position(ks0, o);
    let ghost before = *c;
    let parent = c.nodes[parent_p][parent_h];
    let old_node = c.nodes[old_p][old_h];
    assert(parent == c.node(s) && old_node == c.node(o));
    if parent.first_child_pslot == old_p as u8 && parent.first_child_hslot == old_h as u8 {
        assert(first_of(parent) == ks0[0]);
        assert(ks0.contains(ks0[0]));
        assert(m == 0);
        c.set_first(parent_p, parent_h, new_p as u8, new_h as u8);
    } else {
        match c.find_predecessor(parent_p, parent_h, old_p, old_h) {
            None => {
                return;
            },
            Some((prev_p, prev_h)) => {
                c.set_next(prev_p, prev_h, new_p as u8, new_h as u8);
            },
        }
    }
    c.set_next(new_p, new_h, old_node.next_sibling_pslot, old_node.next_sibling_hslot);
    assert(ks0[m] == o);
    assert(next_of(before.node(ks0[m])) == next_of(old_node));
    proof {
        let ks = ks0.update(m, n);
        assert forall|i: int| 0 <= i < ks0.len() && i != m && i != m - 1 implies next_of(
            c.node(#[trigger] ks0[i]),
        ) == next_of(before.node(ks0[i])) by {
            assert(ks0[i] != o);
            assert(ks0.contains(ks0[i]));
        }
        if m > 0 {
            assert(ks0.contains(ks0[m - 1]));
        }
        lemma_chain_after_replacement(&before, c, s, ks0, m, n);
        let after = *c;
        assert forall|t: Slot| is_slot(t) implies {
            &&& core_of(#[trigger] after.node(t)) == core_of(before.node(t))
            &&& t != s ==> first_of(after.node(t)) == first_of(before.node(t))
            &&& !ks0.contains(t) && t != n ==> next_of(after.node(t)) == next_of(before.node(t))
        } by {
            if m > 0 {
                assert(ks0.contains(ks0[m - 1]));
            }
        }
        c.children@ = c.children@.insert(s, ks);
        assert(forall|t: Slot| (#[trigger] c.node(t)) == after.node(t));
    }
}

/// A chain in which one node took the place of another holds it in that place.
proof fn lemma_chain_after_replacement(
    before: &CapabilitySpace,
    after: &CapabilitySpace,
    s: Slot,
    ks0: Seq<Slot>,
    m: int,
    n: Slot,
)
    requires
        before.chain(s, ks0),
        is_slot(n),
        !ks0.contains(n),
        0 <= m < ks0.len(),
        m == 0 ==> first_of(after.node(s)) == n,
        m > 0 ==> first_of(after.node(s)) == first_of(before.node(s)) && next_of(
            after.node(ks0[m - 1]),
        ) == n,
        next_of(after.node(n)) == next_of(before.node(ks0[m])),
        forall|i: int|
            0 <= i < ks0.len() && i != m && i != m - 1 ==> next_of(after.node(#[trigger] ks0[i]))
                == next_of(before.node(ks0[i])),
    ensures
        after.chain(s, ks0.update(m, n)),
{
    let ks = ks0.update(m, n);
    assert(next_of(before.node(ks0[m])) == (if m + 1 < ks0.len() {
        ks0[m + 1]
    } else {
        no_slot()
    }));
    assert forall|j: int| 0 <= j < ks.len() implies is_slot(#[trigger] ks[j]) && next_of(
        after.node(ks[j]),
    ) == (if j + 1 < ks.len() {
        ks[j + 1]
    } else {
        no_slot()
    }) by {
        if j != m {
            assert(ks[j] == ks0[j]);
            assert(next_of(before.node(ks0[j])) == (if j + 1 < ks0.len() {
                ks0[j + 1]
            } else {
                no_slot()
            }));
        }
    }
    assert(ks.no_duplicates()) by {
        assert forall|i: int, j: int| 0 <= i < ks.len() && 0 <= j < ks.len() && i != j implies ks[i]
            != ks[j] by {
            if i != m {
                assert(ks0.contains(ks0[i]));
            }
            if j != m {
                assert(ks0.contains(ks0[j]));
            }
        }
    }
}

} // verus!
