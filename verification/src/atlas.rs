//! The node atlas as a mathematical value: a table of a fixed number of slots,
//! each of which can hold the attachment data of one terrain node.
//!
//! The atlas decides which nodes are resident. A node enters the atlas when it is
//! first requested, stays while anyone holds a reference to it, and may be evicted
//! once it is fully loaded and unreferenced and its slot is needed for another node.

use crate::error::TerrainError;
use crate::node::NodeId;
use vstd::prelude::*;

verus! {

/// The life cycle of a slot: `Free`, then `Loading` once reserved, then `Active`
/// once all attachments have arrived, then `Free` again when evicted.
#[derive(Clone, Copy, Debug, PartialEq, Eq, Structural)]
pub enum SlotState {
    Free,
    Loading,
    Active,
}

/// A load the atlas wants started: the attachments of `node`, destined for `slot`.
#[derive(Clone, Copy, Debug, PartialEq, Eq, Structural)]
pub struct LoadRequest {
    pub node: NodeId,
    pub slot: usize,
}

/// A node that lost its slot, so that whatever backs `slot` can be reused.
#[derive(Clone, Copy, Debug, PartialEq, Eq, Structural)]
pub struct Eviction {
    pub node: NodeId,
    pub slot: usize,
}

/// How a successful request was served.
#[derive(Clone, Copy, Debug, PartialEq, Eq, Structural)]
pub enum Request {
    /// The node was resident already; no load was issued.
    Coalesced { slot: usize },
    /// A free slot was reserved and a load was issued.
    Reserved { slot: usize },
    /// The slot of `evicted` was taken over and a load was issued.
    Replaced { slot: usize, evicted: NodeId },
}

/// What the loader says of the load of one attachment.
#[derive(Debug, PartialEq, Eq)]
pub enum LoadStatus {
    /// The load is still under way.
    Pending,
    /// The data has arrived.
    Ready,
    /// The load has failed, for the given reason.
    Failed(String),
}

/// News from the loader about one attachment of one node.
#[derive(Debug, PartialEq, Eq)]
pub struct LoadEvent {
    pub node: NodeId,
    pub attachment: usize,
    pub status: LoadStatus,
}

/// What the completion of one attachment did to its node.
#[derive(Clone, Copy, Debug, PartialEq, Eq, Structural)]
pub enum Progress {
    /// The loader has not finished; nothing changed.
    Pending,
    /// The node is not being loaded, or has no such attachment; nothing changed.
    Ignored,
    /// The attachment is in; others are still missing.
    Loading,
    /// The last missing attachment is in; the node is active now.
    Activated,
}

/// Where the data of an active node lives.
#[derive(Clone, Copy, Debug, PartialEq, Eq, Structural)]
pub struct AttachmentData {
    /// The slot that holds the node.
    pub slot: usize,
    /// How many attachment buffers the slot holds.
    pub attachments: usize,
}

/// The contents of an occupied slot.
pub struct Resident {
    pub node: NodeId,
    pub state: SlotState,
    /// Outstanding references to the node.
    pub refs: u32,
    /// Time of the latest request or release.
    pub last_used: u64,
    /// For each attachment, whether its load has completed.
    pub loaded: Seq<bool>,
}

impl Resident {
    /// Whether no attachment is missing.
    pub open spec fn complete(self) -> bool {
        forall|j: int| 0 <= j < self.loaded.len() ==> self.loaded[j]
    }

    /// An occupied slot is active exactly when none of its attachments is missing.
    pub open spec fn wf(self, attachment_count: nat) -> bool {
        &&& self.state != SlotState::Free
        &&& self.loaded.len() == attachment_count
        &&& (self.state == SlotState::Active <==> self.complete())
    }

    /// The entry of a node that was just given a slot: it is being loaded, has one
    /// reference, and none of its attachments has arrived.
    pub open spec fn fresh(node: NodeId, now: u64, attachment_count: nat) -> Resident {
        Resident {
            node,
            state: SlotState::Loading,
            refs: 1,
            last_used: now,
            loaded: Seq::new(attachment_count, |j: int| false),
        }
    }
}

/// The atlas as a mathematical value.
pub struct AtlasView {
    /// One entry per slot; `None` for a free slot.
    pub slots: Seq<Option<Resident>>,
    pub attachment_count: nat,
    /// Loads issued and not yet handed out.
    pub load_queue: Seq<LoadRequest>,
    /// Evictions made and not yet handed out.
    pub unload_queue: Seq<Eviction>,
}

impl AtlasView {
    /// The number of slots.
    pub open spec fn capacity(self) -> nat {
        self.slots.len()
    }

    /// Slot `i` is occupied by `node`.
    pub open spec fn holds(self, i: int, node: NodeId) -> bool {
        &&& 0 <= i < self.slots.len()
        &&& self.slots[i] is Some
        &&& self.slots[i]->0.node == node
    }

    /// Whether `node` occupies a slot, loading or active.
    pub open spec fn is_resident(self, node: NodeId) -> bool {
        exists|i: int| self.holds(i, node)
    }

    /// The slot of a resident node.
    pub open spec fn slot_of(self, node: NodeId) -> int {
        choose|i: int| self.holds(i, node)
    }

    /// The entry of a resident node.
    pub open spec fn entry(self, node: NodeId) -> Resident {
        self.slots[self.slot_of(node)]->0
    }

    /// The state of the slot of `node`; `Free` if the node is not resident.
    pub open spec fn state_of(self, node: NodeId) -> SlotState {
        if self.is_resident(node) {
            self.entry(node).state
        } else {
            SlotState::Free
        }
    }

    /// Whether the data of `node` is resident and complete.
    pub open spec fn is_active(self, node: NodeId) -> bool {
        self.state_of(node) == SlotState::Active
    }

    /// The number of outstanding references to `node`; 0 if it is not resident.
    pub open spec fn refs_of(self, node: NodeId) -> nat {
        if self.is_resident(node) {
            self.entry(node).refs as nat
        } else {
            0
        }
    }

    /// The nodes whose data is resident and complete.
    pub open spec fn active_set(self) -> Set<NodeId> {
        Set::new(|n: NodeId| self.is_active(n))
    }

    /// The resident map: every resident node with the index of its slot.
    pub open spec fn resident(self) -> Map<NodeId, int> {
        Map::new(|n: NodeId| self.is_resident(n), |n: NodeId| self.slot_of(n))
    }

    /// The entry of slot `i` fits the atlas.
    pub open spec fn entry_wf(self, i: int) -> bool {
        self.slots[i]->0.wf(self.attachment_count)
    }

    /// The invariant of the atlas: it has slots and attachments, every entry
    /// fits it, and no node occupies two slots.
    pub open spec fn wf(self) -> bool {
        &&& self.slots.len() > 0
        &&& self.attachment_count > 0
        &&& forall|i: int|
            0 <= i < self.slots.len() && (#[trigger] self.slots[i]) is Some ==> self.entry_wf(i)
        &&& forall|i: int, j: int, n: NodeId|
            #![trigger self.holds(i, n), self.holds(j, n)]
            self.holds(i, n) && self.holds(j, n) ==> i == j
    }

    /// Slot `i` is the free slot with the lowest index.
    pub open spec fn is_first_free(self, i: int) -> bool {
        &&& 0 <= i < self.slots.len()
        &&& self.slots[i] is None
        &&& forall|j: int| 0 <= j < i ==> (#[trigger] self.slots[j]) is Some
    }

    /// Whether some slot is free.
    pub open spec fn has_free(self) -> bool {
        exists|i: int| 0 <= i < self.slots.len() && (#[trigger] self.slots[i]) is None
    }

    /// The free slot with the lowest index.
    pub open spec fn first_free(self) -> int {
        choose|i: int| self.is_first_free(i)
    }

    /// Slot `i` may be evicted: its node is fully loaded and nobody refers to it.
    pub open spec fn evictable(self, i: int) -> bool {
        &&& 0 <= i < self.slots.len()
        &&& self.slots[i] is Some
        &&& self.slots[i]->0.state == SlotState::Active
        &&& self.slots[i]->0.refs == 0
    }

    /// Eviction order between two occupied slots: the one used less recently goes
    /// first, among equally recent ones the coarser node, then the lower index.
    pub open spec fn goes_before(self, i: int, j: int) -> bool {
        let a = self.slots[i]->0;
        let b = self.slots[j]->0;
        ||| a.last_used < b.last_used
        ||| a.last_used == b.last_used && a.node.lod < b.node.lod
        ||| a.last_used == b.last_used && a.node.lod == b.node.lod && i <= j
    }

    /// Slot `i` is evictable and goes before every other evictable slot.
    pub open spec fn is_victim(self, i: int) -> bool {
        &&& self.evictable(i)
        &&& forall|j: int| #[trigger] self.evictable(j) ==> self.goes_before(i, j)
    }

    /// Whether some slot may be evicted.
    pub open spec fn has_evictable(self) -> bool {
        exists|i: int| self.evictable(i)
    }

    /// The slot that is evicted next.
    pub open spec fn victim(self) -> int {
        choose|i: int| self.is_victim(i)
    }

    /// Whether a request for `node` can be served.
    pub open spec fn can_accept(self, node: NodeId) -> bool {
        if self.is_resident(node) {
            self.entry(node).refs < u32::MAX
        } else {
            self.has_free() || self.has_evictable()
        }
    }

    /// The atlas of the given size with every slot free.
    pub open spec fn empty(capacity: nat, attachment_count: nat) -> AtlasView {
        AtlasView {
            slots: Seq::new(capacity, |i: int| None),
            attachment_count,
            load_queue: Seq::empty(),
            unload_queue: Seq::empty(),
        }
    }

    /// Slot `i` is given to `node`, which starts loading with one reference.
    pub open spec fn reserve(self, i: int, node: NodeId, now: u64) -> AtlasView {
        AtlasView {
            slots: self.slots.update(i, Some(Resident::fresh(node, now, self.attachment_count))),
            load_queue: self.load_queue.push(LoadRequest { node, slot: i as usize }),
            ..self
        }
    }

    /// The node in slot `i` is recorded as evicted; the slot itself is left as it is.
    pub open spec fn evict(self, i: int) -> AtlasView {
        AtlasView {
            unload_queue: self.unload_queue.push(
                Eviction { node: self.slots[i]->0.node, slot: i as usize },
            ),
            ..self
        }
    }

    /// The atlas after `node` was requested at time `now`.
    ///
    /// A resident node gains a reference. Any other node takes the first free slot,
    /// or, if there is none, the slot of the eviction victim. If there is no victim
    /// either, nothing changes.
    pub open spec fn request(self, node: NodeId, now: u64) -> AtlasView {
        if !self.can_accept(node) {
            self
        } else if self.is_resident(node) {
            let i = self.slot_of(node);
            let r = self.slots[i]->0;
            AtlasView {
                slots: self.slots.update(
                    i,
                    Some(Resident { refs: (r.refs + 1) as u32, last_used: now, ..r }),
                ),
                ..self
            }
        } else if self.has_free() {
            self.reserve(self.first_free(), node, now)
        } else {
            self.evict(self.victim()).reserve(self.victim(), node, now)
        }
    }

    /// What a request for `node` reports.
    pub open spec fn request_result(self, node: NodeId) -> Result<Request, TerrainError> {
        if !self.can_accept(node) {
            Err(TerrainError::AtlasExhausted)
        } else if self.is_resident(node) {
            Ok(Request::Coalesced { slot: self.slot_of(node) as usize })
        } else if self.has_free() {
            Ok(Request::Reserved { slot: self.first_free() as usize })
        } else {
            Ok(
                Request::Replaced {
                    slot: self.victim() as usize,
                    evicted: self.slots[self.victim()]->0.node,
                },
            )
        }
    }

    /// Whether `node` holds a reference that a release can drop.
    pub open spec fn can_release(self, node: NodeId) -> bool {
        self.is_resident(node) && self.entry(node).refs > 0
    }

    /// The atlas after one reference to `node` was dropped at time `now`.
    pub open spec fn release(self, node: NodeId, now: u64) -> AtlasView {
        if self.can_release(node) {
            let i = self.slot_of(node);
            let r = self.slots[i]->0;
            AtlasView {
                slots: self.slots.update(
                    i,
                    Some(Resident { refs: (r.refs - 1) as u32, last_used: now, ..r }),
                ),
                ..self
            }
        } else {
            self
        }
    }

    /// The atlas after one reference to each node in `nodes` that has one was
    /// dropped at time `now`.
    pub open spec fn release_all(self, nodes: Set<NodeId>, now: u64) -> AtlasView {
        AtlasView {
            slots: Seq::new(
                self.slots.len(),
                |i: int|
                    match self.slots[i] {
                        Some(r) => if nodes.contains(r.node) && r.refs > 0 {
                            Some(Resident { refs: (r.refs - 1) as u32, last_used: now, ..r })
                        } else {
                            Some(r)
                        },
                        None => None,
                    },
            ),
            ..self
        }
    }

    /// Whether the completion of `attachment` for `node` is expected.
    pub open spec fn can_complete(self, node: NodeId, attachment: int) -> bool {
        &&& self.is_resident(node)
        &&& self.entry(node).state == SlotState::Loading
        &&& 0 <= attachment < self.attachment_count
    }

    /// The atlas after the load of `attachment` for `node` has completed.
    pub open spec fn complete(self, node: NodeId, attachment: int) -> AtlasView {
        if self.can_complete(node, attachment) {
            let i = self.slot_of(node);
            let r = self.slots[i]->0;
            let loaded = r.loaded.update(attachment, true);
            let done = Resident { loaded, ..r };
            AtlasView {
                slots: self.slots.update(
                    i,
                    Some(
                        Resident {
                            state: if done.complete() {
                                SlotState::Active
                            } else {
                                SlotState::Loading
                            },
                            ..done
                        },
                    ),
                ),
                ..self
            }
        } else {
            self
        }
    }

    /// What the completion of `attachment` for `node` reports.
    pub open spec fn complete_result(self, node: NodeId, attachment: int) -> Progress {
        if !self.can_complete(node, attachment) {
            Progress::Ignored
        } else if self.complete(node, attachment).is_active(node) {
            Progress::Activated
        } else {
            Progress::Loading
        }
    }

    /// Whether a load of `node` is in flight and can fail.
    pub open spec fn can_fail(self, node: NodeId) -> bool {
        self.is_resident(node) && self.entry(node).state == SlotState::Loading
    }

    /// The atlas with both queues empty.
    pub open spec fn drained(self) -> AtlasView {
        AtlasView { load_queue: Seq::empty(), unload_queue: Seq::empty(), ..self }
    }

    /// The atlas after the load of `node` has failed: its slot is free again.
    pub open spec fn fail(self, node: NodeId) -> AtlasView {
        if self.can_fail(node) {
            AtlasView { slots: self.slots.update(self.slot_of(node), None), ..self }
        } else {
            self
        }
    }
}


/// A node occupies at most one slot, so the slot that holds it is the slot of the node.
pub proof fn lemma_slot_of(v: AtlasView, i: int, node: NodeId)
    requires
        v.wf(),
        v.holds(i, node),
    ensures
        v.is_resident(node),
        v.slot_of(node) == i,
        v.entry(node) == v.slots[i]->0,
{
    assert(v.holds(v.slot_of(node), node));
}

/// There is at most one first free slot.
pub proof fn lemma_first_free(v: AtlasView, i: int)
    requires
        v.is_first_free(i),
    ensures
        v.has_free(),
        v.first_free() == i,
{
    let k = v.first_free();
    assert(v.is_first_free(k));
    if k < i {
        assert(v.slots[k] is Some);
    }
    if i < k {
        assert(v.slots[i] is Some);
    }
}

/// There is at most one eviction victim.
pub proof fn lemma_victim(v: AtlasView, i: int)
    requires
        v.is_victim(i),
    ensures
        v.has_evictable(),
        v.victim() == i,
{
    let k = v.victim();
    assert(v.is_victim(k));
    assert(v.evictable(i));
    assert(v.evictable(k));
    assert(v.goes_before(i, k));
    assert(v.goes_before(k, i));
}

/// Wherever a free slot exists, a first free slot exists.
pub proof fn lemma_has_first_free(v: AtlasView) -> (i: int)
    requires
        v.has_free(),
    ensures
        v.is_first_free(i),
        v.first_free() == i,
{
    let k = choose|k: int| 0 <= k < v.slots.len() && (#[trigger] v.slots[k]) is None;
    let i = lemma_first_free_below(v, k);
    lemma_first_free(v, i);
    i
}

proof fn lemma_first_free_below(v: AtlasView, k: int) -> (i: int)
    requires
        0 <= k < v.slots.len(),
        v.slots[k] is None,
    ensures
        v.is_first_free(i),
    decreases k,
{
    if exists|j: int| 0 <= j < k && (#[trigger] v.slots[j]) is None {
        let j = choose|j: int| 0 <= j < k && (#[trigger] v.slots[j]) is None;
        lemma_first_free_below(v, j)
    } else {
        k
    }
}

/// Wherever a slot can be evicted, a victim exists.
pub proof fn lemma_has_victim(v: AtlasView) -> (i: int)
    requires
        v.has_evictable(),
    ensures
        v.is_victim(i),
        v.victim() == i,
{
    let k = choose|k: int| v.evictable(k);
    let i = lemma_victim_among(v, v.slots.len() as int, k);
    lemma_victim(v, i);
    i
}

/// The slot that goes before every evictable slot below `n`.
proof fn lemma_victim_among(v: AtlasView, n: int, k: int) -> (i: int)
    requires
        0 <= n <= v.slots.len(),
        v.evictable(k),
    ensures
        v.evictable(i),
        forall|j: int| j < n && #[trigger] v.evictable(j) ==> v.goes_before(i, j),
        n == v.slots.len() ==> v.is_victim(i),
    decreases n,
{
    if n == 0 {
        k
    } else {
        let b = lemma_victim_among(v, n - 1, k);
        let i = if v.evictable(n - 1) && !v.goes_before(b, n - 1) {
            n - 1
        } else {
            b
        };
        assert forall|j: int| j < n && #[trigger] v.evictable(j) implies v.goes_before(i, j) by {
            if j < n - 1 {
                assert(v.goes_before(b, j));
            }
        }
        i
    }
}

/// Requests keep the atlas well formed.
pub proof fn lemma_request_wf(v: AtlasView, node: NodeId, now: u64)
    requires
        v.wf(),
    ensures
        v.request(node, now).wf(),
        v.request(node, now).slots.len() == v.slots.len(),
        v.request(node, now).attachment_count == v.attachment_count,
{
    let w = v.request(node, now);
    if !v.can_accept(node) {
    } else if v.is_resident(node) {
        let i = v.slot_of(node);
        assert(v.holds(i, node));
        assert forall|a: int, b: int, n: NodeId|
            #![trigger w.holds(a, n), w.holds(b, n)]
            w.holds(a, n) && w.holds(b, n) implies a == b by {
            assert(v.holds(a, n));
            assert(v.holds(b, n));
        }
        assert forall|a: int|
            0 <= a < w.slots.len() && (#[trigger] w.slots[a]) is Some implies w.entry_wf(
            a,
        ) by {
            assert(v.slots[a] is Some);
            assert(v.slots[a]->0.wf(v.attachment_count));
        }
    } else {
        let i = if v.has_free() {
            lemma_has_first_free(v)
        } else {
            lemma_has_victim(v)
        };
        let u = if v.has_free() {
            v
        } else {
            v.evict(i)
        };
        assert(w == u.reserve(i, node, now));
        assert(u.wf() && !u.is_resident(node)) by {
            assert(u.slots == v.slots);
            assert forall|k: int, n: NodeId| u.holds(k, n) == v.holds(k, n) by {}
        }
        lemma_reserve_wf(u, i, node, now);
    }
}

/// Giving a slot to a node that is not resident keeps the atlas well formed.
pub proof fn lemma_reserve_wf(v: AtlasView, i: int, node: NodeId, now: u64)
    requires
        v.wf(),
        0 <= i < v.slots.len(),
        !v.is_resident(node),
    ensures
        v.reserve(i, node, now).wf(),
        v.reserve(i, node, now).holds(i, node),
{
    let w = v.reserve(i, node, now);
    let f = Resident::fresh(node, now, v.attachment_count);
    assert(!f.loaded[0]);
    assert forall|a: int, b: int, n: NodeId|
        #![trigger w.holds(a, n), w.holds(b, n)]
        w.holds(a, n) && w.holds(b, n) implies a == b by {
        if a != i {
            assert(v.holds(a, n));
        }
        if b != i {
            assert(v.holds(b, n));
        }
    }
    assert forall|a: int|
        0 <= a < w.slots.len() && (#[trigger] w.slots[a]) is Some implies w.entry_wf(a) by {
        if a != i {
            assert(v.slots[a] is Some);
        }
    }
}

/// Releases keep the atlas well formed.
pub proof fn lemma_release_wf(v: AtlasView, node: NodeId, now: u64)
    requires
        v.wf(),
    ensures
        v.release(node, now).wf(),
        v.release(node, now).slots.len() == v.slots.len(),
        v.release(node, now).attachment_count == v.attachment_count,
{
    let w = v.release(node, now);
    if v.can_release(node) {
        let i = v.slot_of(node);
        assert(v.holds(i, node));
        assert forall|a: int, b: int, n: NodeId|
            #![trigger w.holds(a, n), w.holds(b, n)]
            w.holds(a, n) && w.holds(b, n) implies a == b by {
            assert(v.holds(a, n));
            assert(v.holds(b, n));
        }
        assert forall|a: int|
            0 <= a < w.slots.len() && (#[trigger] w.slots[a]) is Some implies w.entry_wf(
            a,
        ) by {
            assert(v.slots[a] is Some);
            assert(v.slots[a]->0.wf(v.attachment_count));
        }
    }
}

/// Completions keep the atlas well formed.
pub proof fn lemma_complete_wf(v: AtlasView, node: NodeId, attachment: int)
    requires
        v.wf(),
    ensures
        v.complete(node, attachment).wf(),
        v.complete(node, attachment).slots.len() == v.slots.len(),
        v.complete(node, attachment).attachment_count == v.attachment_count,
{
    let w = v.complete(node, attachment);
    if v.can_complete(node, attachment) {
        let i = v.slot_of(node);
        assert(v.holds(i, node));
        assert forall|a: int, b: int, n: NodeId|
            #![trigger w.holds(a, n), w.holds(b, n)]
            w.holds(a, n) && w.holds(b, n) implies a == b by {
            assert(v.holds(a, n));
            assert(v.holds(b, n));
        }
        assert forall|a: int|
            0 <= a < w.slots.len() && (#[trigger] w.slots[a]) is Some implies w.entry_wf(
            a,
        ) by {
            assert(v.slots[a] is Some);
            assert(v.slots[a]->0.wf(v.attachment_count));
        }
    }
}

/// Failed loads keep the atlas well formed.
pub proof fn lemma_fail_wf(v: AtlasView, node: NodeId)
    requires
        v.wf(),
    ensures
        v.fail(node).wf(),
        v.fail(node).slots.len() == v.slots.len(),
        v.fail(node).attachment_count == v.attachment_count,
{
    let w = v.fail(node);
    if v.can_fail(node) {
        let i = v.slot_of(node);
        assert(v.holds(i, node));
        assert forall|a: int, b: int, n: NodeId|
            #![trigger w.holds(a, n), w.holds(b, n)]
            w.holds(a, n) && w.holds(b, n) implies a == b by {
            assert(v.holds(a, n));
            assert(v.holds(b, n));
        }
        assert forall|a: int|
            0 <= a < w.slots.len() && (#[trigger] w.slots[a]) is Some implies w.entry_wf(
            a,
        ) by {
            assert(v.slots[a] is Some);
            assert(v.slots[a]->0.wf(v.attachment_count));
        }
    }
}


/// The nodes held by the slots below `n`.
pub open spec fn occupied_below(v: AtlasView, n: int) -> Set<NodeId> {
    Set::new(|node: NodeId| exists|i: int| i < n && v.holds(i, node))
}

/// One more slot adds its node, if it has one, to the nodes held so far.
pub proof fn lemma_occupied_step(v: AtlasView, n: int)
    requires
        v.wf(),
        0 <= n < v.slots.len(),
        occupied_below(v, n).finite(),
    ensures
        occupied_below(v, n + 1).finite(),
        v.slots[n] is None ==> occupied_below(v, n + 1).len() == occupied_below(v, n).len(),
        v.slots[n] is Some ==> occupied_below(v, n + 1).len() == occupied_below(v, n).len() + 1,
{
    let before = occupied_below(v, n);
    let after = occupied_below(v, n + 1);
    if v.slots[n] is None {
        assert forall|node: NodeId| after.contains(node) implies before.contains(node) by {
            let i = choose|i: int| i < n + 1 && v.holds(i, node);
            assert(i < n);
        }
        assert(after =~= before);
    } else {
        let held = v.slots[n]->0.node;
        assert(v.holds(n, held));
        assert forall|node: NodeId| after.contains(node) implies before.insert(held).contains(
            node,
        ) by {
            let i = choose|i: int| i < n + 1 && v.holds(i, node);
            if i < n {
                assert(before.contains(node));
            }
        }
        assert(after =~= before.insert(held));
        if before.contains(held) {
            let i = choose|i: int| i < n && v.holds(i, held);
            assert(v.holds(i, held) && v.holds(n, held));
        }
    }
}

/// The nodes held by all slots are the domain of the resident map.
pub proof fn lemma_occupied_all(v: AtlasView)
    ensures
        occupied_below(v, v.slots.len() as int) == v.resident().dom(),
        occupied_below(v, 0) == Set::<NodeId>::empty(),
{
    assert(occupied_below(v, v.slots.len() as int) =~= v.resident().dom());
    assert(occupied_below(v, 0) =~= Set::<NodeId>::empty());
}

/// The entry of a node is the same in two atlases that agree on the slot that holds it.
proof fn lemma_same_slot(v: AtlasView, w: AtlasView, i: int, m: NodeId)
    requires
        v.wf(),
        w.wf(),
        v.holds(i, m),
        w.holds(i, m),
    ensures
        v.entry(m) == v.slots[i]->0,
        w.entry(m) == w.slots[i]->0,
        v.is_resident(m),
        w.is_resident(m),
{
    lemma_slot_of(v, i, m);
    lemma_slot_of(w, i, m);
}

/// What a request does to a node: the requested node gains a reference if the
/// request is served, and is as usable as before. Any other node keeps its
/// references and stays as usable as it was, but for a node that is evicted:
/// that node was active and unreferenced, and is not resident afterwards.
pub proof fn lemma_request_effect(v: AtlasView, node: NodeId, now: u64, m: NodeId)
    requires
        v.wf(),
    ensures
        v.request(node, now).wf(),
        !v.can_accept(node) ==> v.request(node, now) == v,
        v.can_accept(node) ==> v.request(node, now).refs_of(node) == v.refs_of(node) + 1,
        v.can_accept(node) ==> v.request(node, now).is_resident(node),
        v.request(node, now).is_active(node) == v.is_active(node),
        m != node ==> v.request(node, now).refs_of(m) == v.refs_of(m),
        v.request(node, now).is_active(m) ==> v.is_active(m),
        v.is_active(m) && !v.request(node, now).is_active(m) ==> (v.request_result(
            node,
        ) matches Ok(Request::Replaced { evicted, .. }) && evicted == m && v.refs_of(m) == 0
            && !v.request(node, now).is_resident(m)),
{
    let w = v.request(node, now);
    lemma_request_wf(v, node, now);
    if !v.can_accept(node) {
    } else if v.is_resident(node) {
        let i = v.slot_of(node);
        assert(v.holds(i, node));
        assert(w.holds(i, node));
        lemma_same_slot(v, w, i, node);
        if v.is_resident(m) {
            let j = v.slot_of(m);
            assert(v.holds(j, m));
            assert(w.holds(j, m));
            lemma_same_slot(v, w, j, m);
        } else if w.is_resident(m) {
            let j = w.slot_of(m);
            assert(w.holds(j, m));
            assert(v.holds(j, m));
        }
    } else {
        let i = if v.has_free() {
            lemma_has_first_free(v)
        } else {
            lemma_has_victim(v)
        };
        assert(w.slots == v.slots.update(i, Some(Resident::fresh(node, now, v.attachment_count))));
        assert(w.holds(i, node));
        lemma_slot_of(w, i, node);
        if m != node {
            if w.is_resident(m) {
                let j = w.slot_of(m);
                assert(w.holds(j, m));
                assert(j != i);
                assert(v.holds(j, m));
                lemma_same_slot(v, w, j, m);
            } else if v.is_resident(m) {
                let j = v.slot_of(m);
                assert(v.holds(j, m));
                if j != i {
                    assert(w.holds(j, m));
                }
                assert(j == i);
                lemma_slot_of(v, i, m);
                assert(v.slots[i] is Some);
                assert(!v.has_free());
                assert(v.evictable(i));
            }
        }
    }
}

/// What a release does to a node: the released node loses a reference if it
/// has one; nothing else changes.
pub proof fn lemma_release_effect(v: AtlasView, node: NodeId, now: u64, m: NodeId)
    requires
        v.wf(),
    ensures
        v.release(node, now).wf(),
        v.can_release(node) ==> v.release(node, now).refs_of(node) == v.refs_of(node) - 1,
        !v.can_release(node) ==> v.release(node, now) == v,
        m != node ==> v.release(node, now).refs_of(m) == v.refs_of(m),
        v.release(node, now).is_active(m) == v.is_active(m),
        v.release(node, now).is_resident(m) == v.is_resident(m),
{
    let w = v.release(node, now);
    lemma_release_wf(v, node, now);
    if v.can_release(node) {
        let i = v.slot_of(node);
        assert(v.holds(i, node));
        assert(w.holds(i, node));
        lemma_same_slot(v, w, i, node);
        if v.is_resident(m) {
            let j = v.slot_of(m);
            assert(v.holds(j, m));
            assert(w.holds(j, m));
            lemma_same_slot(v, w, j, m);
        } else if w.is_resident(m) {
            let j = w.slot_of(m);
            assert(w.holds(j, m));
            assert(v.holds(j, m));
        }
    }
}

/// What a completion does to a node: references stay as they are and no node
/// becomes unusable; the only node that can become usable is the one whose
/// attachment has arrived.
pub proof fn lemma_complete_effect(v: AtlasView, node: NodeId, attachment: int, m: NodeId)
    requires
        v.wf(),
    ensures
        v.complete(node, attachment).wf(),
        v.complete(node, attachment).refs_of(m) == v.refs_of(m),
        m != node ==> v.complete(node, attachment).is_active(m) == v.is_active(m),
        v.is_active(m) ==> v.complete(node, attachment).is_active(m),
        v.complete(node, attachment).is_resident(m) == v.is_resident(m),
{
    let w = v.complete(node, attachment);
    lemma_complete_wf(v, node, attachment);
    if v.can_complete(node, attachment) {
        let i = v.slot_of(node);
        assert(v.holds(i, node));
        assert(w.holds(i, node));
        lemma_same_slot(v, w, i, node);
        if v.is_resident(m) {
            let j = v.slot_of(m);
            assert(v.holds(j, m));
            assert(w.holds(j, m));
            lemma_same_slot(v, w, j, m);
        } else if w.is_resident(m) {
            let j = w.slot_of(m);
            assert(w.holds(j, m));
            assert(v.holds(j, m));
        }
    }
}

/// What a failed load does to a node: the node whose load failed is not
/// resident any more; nothing else changes.
pub proof fn lemma_fail_effect(v: AtlasView, node: NodeId, m: NodeId)
    requires
        v.wf(),
    ensures
        v.fail(node).wf(),
        v.can_fail(node) ==> !v.fail(node).is_resident(node) && v.fail(node).refs_of(node) == 0,
        !v.can_fail(node) ==> v.fail(node) == v,
        m != node ==> v.fail(node).refs_of(m) == v.refs_of(m),
        v.fail(node).is_active(m) == v.is_active(m),
{
    let w = v.fail(node);
    lemma_fail_wf(v, node);
    if v.can_fail(node) {
        let i = v.slot_of(node);
        assert(v.holds(i, node));
        lemma_slot_of(v, i, node);
        if w.is_resident(node) {
            let j = w.slot_of(node);
            assert(w.holds(j, node));
            assert(v.holds(j, node));
        }
        if m != node {
            if v.is_resident(m) {
                let j = v.slot_of(m);
                assert(v.holds(j, m));
                assert(w.holds(j, m));
                lemma_same_slot(v, w, j, m);
            } else if w.is_resident(m) {
                let j = w.slot_of(m);
                assert(w.holds(j, m));
                assert(v.holds(j, m));
            }
        }
    }
}


/// What a release of several nodes does to a node: each of the nodes that has
/// a reference loses one; nothing else changes.
pub proof fn lemma_release_all_effect(v: AtlasView, nodes: Set<NodeId>, now: u64, m: NodeId)
    requires
        v.wf(),
    ensures
        v.release_all(nodes, now).wf(),
        nodes.contains(m) && v.refs_of(m) > 0 ==> v.release_all(nodes, now).refs_of(m)
            == v.refs_of(m) - 1,
        !(nodes.contains(m) && v.refs_of(m) > 0) ==> v.release_all(nodes, now).refs_of(m)
            == v.refs_of(m),
        v.release_all(nodes, now).is_active(m) == v.is_active(m),
        v.release_all(nodes, now).is_resident(m) == v.is_resident(m),
{
    let w = v.release_all(nodes, now);
    lemma_release_all_wf(v, nodes, now);
    if v.is_resident(m) {
        let j = v.slot_of(m);
        assert(v.holds(j, m));
        assert(w.holds(j, m));
        lemma_same_slot(v, w, j, m);
    } else if w.is_resident(m) {
        let j = w.slot_of(m);
        assert(w.holds(j, m));
        assert(v.holds(j, m));
    }
}

/// A release of several nodes keeps the atlas well formed.
pub proof fn lemma_release_all_wf(v: AtlasView, nodes: Set<NodeId>, now: u64)
    requires
        v.wf(),
    ensures
        v.release_all(nodes, now).wf(),
{
    let w = v.release_all(nodes, now);
    assert forall|a: int, b: int, n: NodeId|
        #![trigger w.holds(a, n), w.holds(b, n)]
        w.holds(a, n) && w.holds(b, n) implies a == b by {
        assert(v.holds(a, n));
        assert(v.holds(b, n));
    }
    assert forall|a: int|
        0 <= a < w.slots.len() && (#[trigger] w.slots[a]) is Some implies w.entry_wf(a) by {
        assert(v.slots[a] is Some);
        assert(v.slots[a]->0.wf(v.attachment_count));
    }
}

/// Releasing no node changes nothing.
pub proof fn lemma_release_all_none(v: AtlasView, now: u64)
    ensures
        v.release_all(Set::empty(), now) == v,
{
    assert(v.release_all(Set::empty(), now).slots =~= v.slots);
}

/// Releasing several nodes and then one more is releasing them all at once.
pub proof fn lemma_release_all_step(v: AtlasView, nodes: Set<NodeId>, node: NodeId, now: u64)
    requires
        v.wf(),
        !nodes.contains(node),
    ensures
        v.release_all(nodes, now).release(node, now) == v.release_all(nodes.insert(node), now),
{
    let u = v.release_all(nodes, now);
    let w = v.release_all(nodes.insert(node), now);
    lemma_release_all_effect(v, nodes, now, node);
    let r = u.release(node, now);
    if v.is_resident(node) {
        let i = v.slot_of(node);
        assert(v.holds(i, node));
        assert(u.holds(i, node));
        lemma_same_slot(v, u, i, node);
        assert(u.slots[i] == v.slots[i]);
        assert forall|j: int| 0 <= j < v.slots.len() implies r.slots[j] == w.slots[j] by {
            if j != i {
                if v.holds(j, node) {
                    assert(v.holds(i, node) && v.holds(j, node));
                }
                assert(r.slots[j] == u.slots[j]);
            }
        }
        assert(r.slots =~= w.slots);
    } else {
        assert(!u.is_resident(node));
        assert forall|j: int| 0 <= j < v.slots.len() implies u.slots[j] == w.slots[j] by {
            assert(!v.holds(j, node));
        }
        assert(u.slots =~= w.slots);
    }
}


/// What is queued in an atlas has no bearing on the standing of its nodes.
pub proof fn lemma_drained_effect(v: AtlasView, m: NodeId)
    requires
        v.wf(),
    ensures
        v.drained().wf(),
        v.drained().refs_of(m) == v.refs_of(m),
        v.drained().is_active(m) == v.is_active(m),
        v.drained().is_resident(m) == v.is_resident(m),
{
    let w = v.drained();
    assert forall|a: int, b: int, n: NodeId|
        #![trigger w.holds(a, n), w.holds(b, n)]
        w.holds(a, n) && w.holds(b, n) implies a == b by {
        assert(v.holds(a, n));
        assert(v.holds(b, n));
    }
    if v.is_resident(m) {
        let j = v.slot_of(m);
        assert(v.holds(j, m));
        assert(w.holds(j, m));
        lemma_same_slot(v, w, j, m);
    } else if w.is_resident(m) {
        let j = w.slot_of(m);
        assert(w.holds(j, m));
        assert(v.holds(j, m));
    }
}

} // verus!
