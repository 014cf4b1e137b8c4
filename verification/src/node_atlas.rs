//! The node atlas: the slot table in memory, with the operations that the
//! streaming driver performs on it. What each operation does is stated over the
//! atlas as a mathematical value, see [`crate::atlas`].

use crate::atlas::{
    lemma_complete_wf, lemma_fail_wf, lemma_first_free, lemma_release_wf, lemma_request_wf,
    lemma_slot_of, lemma_victim, AtlasView, AttachmentData, Eviction, LoadRequest, Progress,
    Request, Resident, SlotState,
};
use crate::error::TerrainError;
use crate::node::NodeId;
use vstd::prelude::*;

verus! {

/// One storage unit of the atlas.
struct AtlasSlot {
    state: SlotState,
    node: NodeId,
    refs: u32,
    last_used: u64,
    loaded: Vec<bool>,
}

impl AtlasSlot {
    spec fn view(&self) -> Option<Resident> {
        if self.state == SlotState::Free {
            None
        } else {
            Some(
                Resident {
                    node: self.node,
                    state: self.state,
                    refs: self.refs,
                    last_used: self.last_used,
                    loaded: self.loaded@,
                },
            )
        }
    }
}

/// A table of a fixed number of slots that holds the resident terrain nodes.
pub struct NodeAtlas {
    slots: Vec<AtlasSlot>,
    attachment_count: usize,
    load_queue: Vec<LoadRequest>,
    unload_queue: Vec<Eviction>,
}

impl View for NodeAtlas {
    type V = AtlasView;

    closed spec fn view(&self) -> AtlasView {
        AtlasView {
            slots: Seq::new(self.slots.len() as nat, |i: int| self.slots[i].view()),
            attachment_count: self.attachment_count as nat,
            load_queue: self.load_queue@,
            unload_queue: self.unload_queue@,
        }
    }
}

/// A vector of `n` cleared flags.
fn cleared(n: usize) -> (v: Vec<bool>)
    ensures
        v@ == Seq::new(n as nat, |j: int| false),
{
    let mut v: Vec<bool> = Vec::new();
    let mut i: usize = 0;
    while i < n
        invariant
            i <= n,
            v@ == Seq::new(i as nat, |j: int| false),
        decreases n - i,
    {
        v.push(false);
        i += 1;
    }
    v
}

/// Whether every flag is set.
fn all_set(flags: &Vec<bool>) -> (b: bool)
    ensures
        b == (forall|j: int| 0 <= j < flags.len() ==> flags[j]),
{
    let mut i: usize = 0;
    while i < flags.len()
        invariant
            i <= flags.len(),
            forall|j: int| 0 <= j < i ==> flags[j],
        decreases flags.len() - i,
    {
        if !flags[i] {
            return false;
        }
        i += 1;
    }
    true
}

impl NodeAtlas {
    /// The invariant of the atlas: every node occupies at most one slot, and a slot
    /// is active exactly when all attachments of its node are loaded.
    pub open spec fn wf(&self) -> bool {
        &&& self@.wf()
        &&& self@.slots.len() <= usize::MAX
        &&& self@.attachment_count <= usize::MAX
    }

    /// An atlas of `capacity` free slots for nodes of `attachment_count` attachments.
    /// Both numbers must be positive.
    pub fn new(capacity: usize, attachment_count: usize) -> (r: Result<NodeAtlas, TerrainError>)
        ensures
            capacity == 0 || attachment_count == 0 ==> r == Err::<NodeAtlas, TerrainError>(
                TerrainError::InvalidConfiguration,
            ),
            capacity > 0 && attachment_count > 0 ==> r is Ok && r->Ok_0.wf() && r->Ok_0@
                == AtlasView::empty(capacity as nat, attachment_count as nat),
    {
        if capacity == 0 || attachment_count == 0 {
            return Err(TerrainError::InvalidConfiguration);
        }
        Ok(NodeAtlas::with_slots(capacity, attachment_count))
    }

    /// An atlas of `capacity` free slots.
    fn with_slots(capacity: usize, attachment_count: usize) -> (atlas: NodeAtlas)
        requires
            capacity > 0,
            attachment_count > 0,
        ensures
            atlas.wf(),
            atlas@ == AtlasView::empty(capacity as nat, attachment_count as nat),
    {
        let mut slots: Vec<AtlasSlot> = Vec::new();
        let mut i: usize = 0;
        while i < capacity
            invariant
                i <= capacity,
                slots.len() == i,
                forall|j: int| 0 <= j < i ==> (#[trigger] slots[j]).state == SlotState::Free,
            decreases capacity - i,
        {
            slots.push(
                AtlasSlot {
                    state: SlotState::Free,
                    node: NodeId { lod: 0, x: 0, y: 0 },
                    refs: 0,
                    last_used: 0,
                    loaded: Vec::new(),
                },
            );
            i += 1;
        }
        let atlas = NodeAtlas {
            slots,
            attachment_count,
            load_queue: Vec::new(),
            unload_queue: Vec::new(),
        };
        proof {
            let e = AtlasView::empty(capacity as nat, attachment_count as nat);
            assert(atlas@.slots =~= e.slots);
            assert(atlas@ == e);
        }
        atlas
    }

    /// The empty atlas of the terrain that `config` describes.
    pub fn from_config(config: &crate::config::TerrainConfig) -> (atlas: NodeAtlas)
        ensures
            config.wf(),
            atlas.wf(),
            atlas@ == AtlasView::empty(config@.node_atlas_size as nat, config@.attachments.len()),
    {
        proof {
            use_type_invariant(config);
        }
        NodeAtlas::with_slots(config.node_atlas_size(), config.attachment_count())
    }

    /// The number of slots.
    pub fn capacity(&self) -> (n: usize)
        requires
            self.wf(),
        ensures
            n == self@.capacity(),
    {
        self.slots.len()
    }

    /// The number of attachments of every node.
    pub fn attachment_count(&self) -> (n: usize)
        requires
            self.wf(),
        ensures
            n == self@.attachment_count,
    {
        self.attachment_count
    }

    /// The slot that holds `node`, if it is resident.
    pub fn slot_of(&self, node: NodeId) -> (r: Option<usize>)
        requires
            self.wf(),
        ensures
            self@.is_resident(node) ==> r == Some(self@.slot_of(node) as usize) && self@.holds(
                self@.slot_of(node),
                node,
            ),
            !self@.is_resident(node) ==> r is None,
    {
        let mut i: usize = 0;
        while i < self.slots.len()
            invariant
                self.wf(),
                i <= self.slots.len(),
                forall|j: int| 0 <= j < i ==> !self@.holds(j, node),
            decreases self.slots.len() - i,
        {
            if self.slots[i].state != SlotState::Free && self.slots[i].node == node {
                proof {
                    assert(self@.holds(i as int, node));
                    lemma_slot_of(self@, i as int, node);
                }
                return Some(i);
            }
            i += 1;
        }
        proof {
            assert forall|j: int| !self@.holds(j, node) by {}
        }
        None
    }

    /// Whether `node` occupies a slot, loading or active.
    pub fn is_resident(&self, node: NodeId) -> (b: bool)
        requires
            self.wf(),
        ensures
            b == self@.is_resident(node),
    {
        self.slot_of(node).is_some()
    }

    /// The state of the slot of `node`; `Free` if the node is not resident.
    pub fn state_of(&self, node: NodeId) -> (s: SlotState)
        requires
            self.wf(),
        ensures
            s == self@.state_of(node),
    {
        match self.slot_of(node) {
            Some(i) => self.slots[i].state,
            None => SlotState::Free,
        }
    }

    /// Whether the data of `node` is resident and complete.
    pub fn is_active(&self, node: NodeId) -> (b: bool)
        requires
            self.wf(),
        ensures
            b == self@.is_active(node),
    {
        self.state_of(node) == SlotState::Active
    }

    /// The number of outstanding references to `node`; 0 if it is not resident.
    pub fn refs_of(&self, node: NodeId) -> (n: u32)
        requires
            self.wf(),
        ensures
            n == self@.refs_of(node),
    {
        match self.slot_of(node) {
            Some(i) => self.slots[i].refs,
            None => 0,
        }
    }

    /// The data of `node`, handed out only while the node is active.
    pub fn get(&self, node: NodeId) -> (r: Option<AttachmentData>)
        requires
            self.wf(),
        ensures
            self@.is_active(node) ==> r == Some(
                AttachmentData {
                    slot: self@.slot_of(node) as usize,
                    attachments: self@.attachment_count as usize,
                },
            ),
            !self@.is_active(node) ==> r is None,
    {
        match self.slot_of(node) {
            Some(i) => {
                if self.slots[i].state == SlotState::Active {
                    Some(AttachmentData { slot: i, attachments: self.attachment_count })
                } else {
                    None
                }
            },
            None => None,
        }
    }

    /// The number of resident nodes.
    pub fn resident_count(&self) -> (n: usize)
        requires
            self.wf(),
        ensures
            n == self@.resident().dom().len(),
            n <= self@.capacity(),
    {
        let mut n: usize = 0;
        let mut i: usize = 0;
        proof {
            crate::atlas::lemma_occupied_all(self@);
        }
        while i < self.slots.len()
            invariant
                self.wf(),
                i <= self.slots.len(),
                n <= i,
                crate::atlas::occupied_below(self@, i as int).finite(),
                n == crate::atlas::occupied_below(self@, i as int).len(),
            decreases self.slots.len() - i,
        {
            proof {
                crate::atlas::lemma_occupied_step(self@, i as int);
            }
            if self.slots[i].state != SlotState::Free {
                n += 1;
            }
            i += 1;
        }
        proof {
            crate::atlas::lemma_occupied_all(self@);
        }
        n
    }

    /// The free slot with the lowest index, if there is one.
    fn find_free(&self) -> (r: Option<usize>)
        requires
            self.wf(),
        ensures
            self@.has_free() ==> r == Some(self@.first_free() as usize) && self@.is_first_free(
                self@.first_free(),
            ),
            !self@.has_free() ==> r is None,
    {
        let mut i: usize = 0;
        while i < self.slots.len()
            invariant
                i <= self.slots.len(),
                forall|j: int| 0 <= j < i ==> (#[trigger] self@.slots[j]) is Some,
            decreases self.slots.len() - i,
        {
            if self.slots[i].state == SlotState::Free {
                proof {
                    assert(self@.slots[i as int] is None);
                    lemma_first_free(self@, i as int);
                }
                return Some(i);
            }
            assert(self@.slots[i as int] is Some);
            i += 1;
        }
        None
    }

    /// The slot to evict, if any slot can be evicted.
    fn find_victim(&self) -> (r: Option<usize>)
        requires
            self.wf(),
        ensures
            self@.has_evictable() ==> r == Some(self@.victim() as usize) && self@.is_victim(
                self@.victim(),
            ),
            !self@.has_evictable() ==> r is None,
    {
        let mut best: Option<usize> = None;
        let mut i: usize = 0;
        while i < self.slots.len()
            invariant
                i <= self.slots.len(),
                best is None ==> forall|j: int| 0 <= j < i ==> !self@.evictable(j),
                best matches Some(b) ==> b < i && self@.evictable(b as int) && forall|j: int|
                    j < i && #[trigger] self@.evictable(j) ==> self@.goes_before(b as int, j),
            decreases self.slots.len() - i,
        {
            let slot = &self.slots[i];
            if slot.state == SlotState::Active && slot.refs == 0 {
                assert(self@.evictable(i as int));
                let better = match best {
                    None => true,
                    Some(b) => {
                        let cur = &self.slots[b];
                        !(cur.last_used < slot.last_used || (cur.last_used == slot.last_used
                            && cur.node.lod <= slot.node.lod))
                    },
                };
                if better {
                    best = Some(i);
                }
            } else {
                assert(!self@.evictable(i as int));
            }
            i += 1;
        }
        proof {
            match best {
                Some(b) => {
                    assert(self@.is_victim(b as int));
                    lemma_victim(self@, b as int);
                },
                None => {
                    assert forall|j: int| !self@.evictable(j) by {}
                },
            }
        }
        best
    }

    /// Puts `node` into slot `i` with one reference and issues its load.
    fn reserve(&mut self, i: usize, node: NodeId, now: u64)
        requires
            i < old(self)@.slots.len(),
        ensures
            final(self)@ == old(self)@.reserve(i as int, node, now),
    {
        let loaded = cleared(self.attachment_count);
        self.slots[i] =
            AtlasSlot { state: SlotState::Loading, node, refs: 1, last_used: now, loaded };
        self.load_queue.push(LoadRequest { node, slot: i });
        proof {
            let e = old(self)@.reserve(i as int, node, now);
            assert(self@.slots =~= e.slots);
        }
    }

    /// Marks the intent to use `node` at time `now`.
    ///
    /// A resident node gains a reference and no load is issued. Any other node is
    /// given the first free slot, or else the slot of the node that was used least
    /// recently among the active, unreferenced ones (the coarsest of them if several
    /// are equally old); the node then starts loading and one load is queued. Fails
    /// with `AtlasExhausted`, changing nothing, when no slot can be had, or when the
    /// node's reference count is at its limit.
    pub fn request(&mut self, node: NodeId, now: u64) -> (r: Result<Request, TerrainError>)
        requires
            old(self).wf(),
        ensures
            final(self).wf(),
            final(self)@ == old(self)@.request(node, now),
            r == old(self)@.request_result(node),
            r is Ok <==> old(self)@.can_accept(node),
    {
        proof {
            lemma_request_wf(self@, node, now);
        }
        match self.slot_of(node) {
            Some(i) => {
                if self.slots[i].refs == u32::MAX {
                    return Err(TerrainError::AtlasExhausted);
                }
                self.slots[i].refs = self.slots[i].refs + 1;
                self.slots[i].last_used = now;
                proof {
                    assert(self@.slots =~= old(self)@.request(node, now).slots);
                }
                Ok(Request::Coalesced { slot: i })
            },
            None => {
                match self.find_free() {
                    Some(i) => {
                        self.reserve(i, node, now);
                        Ok(Request::Reserved { slot: i })
                    },
                    None => {
                        match self.find_victim() {
                            Some(v) => {
                                let evicted = self.slots[v].node;
                                self.unload_queue.push(Eviction { node: evicted, slot: v });
                                assert(self@ == old(self)@.evict(v as int)) by {
                                    assert(self@.slots =~= old(self)@.slots);
                                }
                                self.reserve(v, node, now);
                                Ok(Request::Replaced { slot: v, evicted })
                            },
                            None => Err(TerrainError::AtlasExhausted),
                        }
                    },
                }
            },
        }
    }

    /// Drops one reference to `node` at time `now` and says whether there was one to
    /// drop. A node whose last reference is gone stays resident until its slot is
    /// needed for another node.
    pub fn release(&mut self, node: NodeId, now: u64) -> (dropped: bool)
        requires
            old(self).wf(),
        ensures
            final(self).wf(),
            final(self)@ == old(self)@.release(node, now),
            dropped == old(self)@.can_release(node),
    {
        proof {
            lemma_release_wf(self@, node, now);
        }
        match self.slot_of(node) {
            Some(i) => {
                if self.slots[i].refs == 0 {
                    return false;
                }
                self.slots[i].refs = self.slots[i].refs - 1;
                self.slots[i].last_used = now;
                proof {
                    assert(self@.slots =~= old(self)@.release(node, now).slots);
                }
                true
            },
            None => false,
        }
    }

    /// Records that the load of one attachment of `node` has completed. The node
    /// becomes active with the completion of its last missing attachment.
    pub fn complete(&mut self, node: NodeId, attachment: usize) -> (r: Progress)
        requires
            old(self).wf(),
        ensures
            final(self).wf(),
            final(self)@ == old(self)@.complete(node, attachment as int),
            r == old(self)@.complete_result(node, attachment as int),
    {
        proof {
            lemma_complete_wf(self@, node, attachment as int);
        }
        match self.slot_of(node) {
            Some(i) => {
                if self.slots[i].state != SlotState::Loading || attachment
                    >= self.attachment_count {
                    return Progress::Ignored;
                }
                self.slots[i].loaded[attachment] = true;
                let done = all_set(&self.slots[i].loaded);
                if done {
                    self.slots[i].state = SlotState::Active;
                }
                proof {
                    let e = old(self)@.complete(node, attachment as int);
                    assert(self@.slots =~= e.slots);
                    assert(e.holds(i as int, node));
                    lemma_slot_of(e, i as int, node);
                }
                if done {
                    Progress::Activated
                } else {
                    Progress::Loading
                }
            },
            None => Progress::Ignored,
        }
    }

    /// Records that the load of `node` has failed and says whether a load was in
    /// flight. The slot of the node is free again and the node is not resident.
    pub fn fail(&mut self, node: NodeId) -> (failed: bool)
        requires
            old(self).wf(),
        ensures
            final(self).wf(),
            final(self)@ == old(self)@.fail(node),
            failed == old(self)@.can_fail(node),
    {
        proof {
            lemma_fail_wf(self@, node);
        }
        match self.slot_of(node) {
            Some(i) => {
                if self.slots[i].state != SlotState::Loading {
                    return false;
                }
                self.slots[i].state = SlotState::Free;
                proof {
                    assert(self@.slots =~= old(self)@.fail(node).slots);
                }
                true
            },
            None => false,
        }
    }

    /// Hands out the loads that were issued since the last call.
    pub fn take_load_queue(&mut self) -> (queue: Vec<LoadRequest>)
        requires
            old(self).wf(),
        ensures
            final(self).wf(),
            queue@ == old(self)@.load_queue,
            final(self)@ == (AtlasView { load_queue: Seq::empty(), ..old(self)@ }),
    {
        let mut queue: Vec<LoadRequest> = Vec::new();
        std::mem::swap(&mut queue, &mut self.load_queue);
        proof {
            assert(self@.slots =~= old(self)@.slots);
            assert(self@.load_queue =~= Seq::empty());
            assert forall|k: int, n: NodeId| self@.holds(k, n) == old(self)@.holds(k, n) by {}
        }
        queue
    }

    /// Hands out the evictions that were made since the last call.
    pub fn take_unload_queue(&mut self) -> (queue: Vec<Eviction>)
        requires
            old(self).wf(),
        ensures
            final(self).wf(),
            queue@ == old(self)@.unload_queue,
            final(self)@ == (AtlasView { unload_queue: Seq::empty(), ..old(self)@ }),
    {
        let mut queue: Vec<Eviction> = Vec::new();
        std::mem::swap(&mut queue, &mut self.unload_queue);
        proof {
            assert(self@.slots =~= old(self)@.slots);
            assert(self@.unload_queue =~= Seq::empty());
            assert forall|k: int, n: NodeId| self@.holds(k, n) == old(self)@.holds(k, n) by {}
        }
        queue
    }
}

} // verus!
