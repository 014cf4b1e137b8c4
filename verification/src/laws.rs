//! What holds of the atlas, the quadtrees and the streaming in every state that
//! the operations of this library can reach.

use crate::atlas::{
    lemma_has_first_free, lemma_has_victim, lemma_occupied_all, lemma_occupied_step,
    lemma_request_effect, lemma_request_wf, lemma_slot_of, occupied_below, AtlasView,
    LoadRequest, Request, SlotState,
};
use crate::node::NodeId;
use crate::quadtree::{
    lemma_best_unique, lemma_covers_ancestor, lemma_node_at_parent, lemma_node_at_valid,
    lemma_sizes, QuadtreeModel, WorldPos,
};
use crate::streaming::{lemma_holders_none, lemma_holders_positive, StreamingModel};
use vstd::arithmetic::div_mod::*;
use vstd::prelude::*;

verus! {

/// The atlas never holds more nodes than it has slots.
pub proof fn lemma_resident_bounded(v: AtlasView)
    requires
        v.wf(),
    ensures
        v.resident().dom().finite(),
        v.resident().dom().len() <= v.capacity(),
{
    lemma_occupied_count(v, v.slots.len() as int);
    lemma_occupied_all(v);
}

proof fn lemma_occupied_count(v: AtlasView, n: int)
    requires
        v.wf(),
        0 <= n <= v.slots.len(),
    ensures
        occupied_below(v, n).finite(),
        occupied_below(v, n).len() <= n,
    decreases n,
{
    if n == 0 {
        lemma_occupied_all(v);
    } else {
        lemma_occupied_count(v, n - 1);
        lemma_occupied_step(v, n - 1);
    }
}


/// A node that is active has all of its attachments: none of them is missing or
/// still being loaded.
pub proof fn lemma_active_is_complete(v: AtlasView, node: NodeId)
    requires
        v.wf(),
        v.is_active(node),
    ensures
        v.is_resident(node),
        v.entry(node).loaded.len() == v.attachment_count,
        forall|j: int| 0 <= j < v.attachment_count ==> v.entry(node).loaded[j],
{
    let i = v.slot_of(node);
    assert(v.holds(i, node));
    assert(v.slots[i]->0.wf(v.attachment_count));
}

/// A request for a node that is resident issues no load, whether the node is
/// active or still being loaded.
pub proof fn lemma_request_resident_issues_no_load(v: AtlasView, node: NodeId, now: u64)
    requires
        v.wf(),
        v.is_resident(node),
    ensures
        v.request(node, now).load_queue == v.load_queue,
        v.request(node, now).unload_queue == v.unload_queue,
        v.request(node, now).state_of(node) == v.state_of(node),
{
    let w = v.request(node, now);
    lemma_request_wf(v, node, now);
    if v.can_accept(node) {
        let i = v.slot_of(node);
        assert(v.holds(i, node));
        assert(w.holds(i, node));
        lemma_slot_of(v, i, node);
        lemma_slot_of(w, i, node);
    }
}

/// Two requests for a node that was not resident, with no completion between
/// them, issue exactly one load: the first reserves a slot and queues the load,
/// the second only counts a second reference.
pub proof fn lemma_request_twice_issues_one_load(
    v: AtlasView,
    node: NodeId,
    first: u64,
    second: u64,
)
    requires
        v.wf(),
        !v.is_resident(node),
        v.can_accept(node),
    ensures
        ({
            let a = v.request(node, first);
            let b = a.request(node, second);
            &&& a.load_queue == v.load_queue.push(
                LoadRequest { node, slot: a.slot_of(node) as usize },
            )
            &&& a.state_of(node) == SlotState::Loading
            &&& a.refs_of(node) == 1
            &&& a.request_result(node) == Ok::<Request, crate::error::TerrainError>(
                Request::Coalesced { slot: a.slot_of(node) as usize },
            )
            &&& b.load_queue == a.load_queue
            &&& b.state_of(node) == SlotState::Loading
            &&& b.refs_of(node) == 2
        }),
{
    let a = v.request(node, first);
    lemma_request_wf(v, node, first);
    lemma_request_effect(v, node, first, node);
    let i = if v.has_free() {
        lemma_has_first_free(v)
    } else {
        lemma_has_victim(v)
    };
    assert(a.holds(i, node));
    lemma_slot_of(a, i, node);
    lemma_request_resident_issues_no_load(a, node, second);
    lemma_request_effect(a, node, second, node);
}

/// Requests free no slot. While the atlas has no slot for a node that is not
/// resident, no request changes that: the nodes that were asked for earlier,
/// the coarser ones, keep their slots, and the node is refused until a
/// reference is released or a load completes.
pub proof fn lemma_exhaustion_persists(v: AtlasView, other: NodeId, now: u64, node: NodeId)
    requires
        v.wf(),
        !v.is_resident(node),
        !v.can_accept(node),
    ensures
        !v.request(other, now).is_resident(node),
        !v.request(other, now).can_accept(node),
{
    let w = v.request(other, now);
    lemma_request_wf(v, other, now);
    if v.can_accept(other) {
        assert(v.is_resident(other));
        let i = v.slot_of(other);
        assert(v.holds(i, other));
        if w.is_resident(node) {
            let j = w.slot_of(node);
            assert(w.holds(j, node));
            assert(v.holds(j, node));
        }
        if w.has_free() {
            let j = choose|j: int| 0 <= j < w.slots.len() && (#[trigger] w.slots[j]) is None;
            assert(v.slots[j] is None);
        }
        if w.has_evictable() {
            let j = choose|j: int| w.evictable(j);
            assert(v.evictable(j));
        }
    }
}

/// Whatever is evicted was active and had no references.
pub proof fn lemma_evicted_was_unreferenced(v: AtlasView, node: NodeId, now: u64)
    requires
        v.wf(),
        v.request_result(node) matches Ok(Request::Replaced { .. }),
    ensures
        v.request_result(node) matches Ok(Request::Replaced { slot, evicted }) && v.is_active(
            evicted,
        ) && v.refs_of(evicted) == 0 && !v.request(node, now).is_resident(evicted) && slot
            == v.slot_of(evicted) as usize && v.request(node, now).unload_queue
            == v.unload_queue.push(crate::atlas::Eviction { node: evicted, slot }),
{
    let i = lemma_has_victim(v);
    let evicted = v.slots[i]->0.node;
    assert(v.holds(i, evicted));
    lemma_slot_of(v, i, evicted);
    let w = v.request(node, now);
    assert(!v.is_resident(node));
    let fresh = crate::atlas::Resident::fresh(node, now, v.attachment_count);
    assert(w.slots == v.slots.update(i, Some(fresh)));
    if w.is_resident(evicted) {
        let j = w.slot_of(evicted);
        assert(w.holds(j, evicted));
        assert(j != i);
        assert(v.holds(j, evicted));
    }
}

/// The root covers every position.
pub proof fn lemma_root_covers(m: QuadtreeModel, p: WorldPos)
    requires
        m.wf(),
    ensures
        m.covers(NodeId { lod: 0, x: 0, y: 0 }, p),
{
    lemma_sizes(m, 0);
    lemma_node_at_valid(m, p, 0);
    lemma_small_div_converse(m.clamp(p.x), m.node_size(0));
    lemma_small_div_converse(m.clamp(p.y), m.node_size(0));
    lemma_basic_div(m.clamp(p.x), m.node_size(0));
    lemma_basic_div(m.clamp(p.y), m.node_size(0));
}

/// What a viewer wants covers every position without a gap: the root is always
/// wanted; a wanted node that covers a position has a wanted parent that covers
/// it too; and on each level at most one node covers the position.
pub proof fn lemma_demand_is_gap_free(m: QuadtreeModel, p: WorldPos, n: NodeId, other: NodeId)
    requires
        m.wf(),
    ensures
        m.demanded(NodeId { lod: 0, x: 0, y: 0 }),
        m.covers(NodeId { lod: 0, x: 0, y: 0 }, p),
        m.demanded(n) && m.covers(n, p) ==> m.demanded(n.spec_parent()) && m.covers(
            n.spec_parent(),
            p,
        ),
        m.covers(n, p) && m.covers(other, p) && n.lod == other.lod ==> n == other,
{
    vstd::arithmetic::power2::lemma2_to64();
    lemma_root_covers(m, p);
    if m.demanded(n) && m.covers(n, p) && n.lod > 0 {
        lemma_node_at_parent(m, p, n.lod);
    }
}

/// As long as the root is active, a query finds a node for every position.
pub proof fn lemma_query_finds_a_node(m: QuadtreeModel, p: WorldPos)
    requires
        m.wf(),
        m.active.contains(NodeId { lod: 0, x: 0, y: 0 }),
    ensures
        m.query(p) is Some,
        m.active.contains(m.query(p)->0),
        m.covers(m.query(p)->0, p),
{
    lemma_root_covers(m, p);
    lemma_query_is_best(m, p);
}

/// Where an active node covers a position, the answer of a query is the deepest
/// such node.
pub proof fn lemma_query_is_best(m: QuadtreeModel, p: WorldPos)
    requires
        m.wf(),
        m.has_cover(p),
    ensures
        m.query(p) is Some,
        m.is_best(m.query(p)->0, p),
{
    let n = lemma_best_below(m, p, m.max_lod);
    lemma_best_unique(m, n, p);
}

/// The deepest active node that covers `p` among the levels up to `lod`.
proof fn lemma_best_below(m: QuadtreeModel, p: WorldPos, lod: u8) -> (n: NodeId)
    requires
        m.wf(),
        lod <= m.max_lod,
        exists|c: NodeId| m.active.contains(c) && m.covers(c, p) && c.lod <= lod,
    ensures
        m.active.contains(n),
        m.covers(n, p),
        n.lod <= lod,
        forall|c: NodeId| m.active.contains(c) && m.covers(c, p) && c.lod <= lod ==> c.lod <= n.lod,
    decreases lod,
{
    let here = m.node_at(p, lod);
    lemma_node_at_valid(m, p, lod);
    if m.active.contains(here) {
        here
    } else {
        let c = choose|c: NodeId| m.active.contains(c) && m.covers(c, p) && c.lod <= lod;
        assert(c.lod < lod);
        lemma_best_below(m, p, (lod - 1) as u8)
    }
}

/// The node found at a level is an ancestor of the node found at any deeper level.
pub proof fn lemma_node_at_ancestor(m: QuadtreeModel, p: WorldPos, lod: u8, deeper: u8)
    requires
        m.wf(),
        lod <= deeper <= m.max_lod,
    ensures
        m.node_at(p, lod).is_ancestor_of(m.node_at(p, deeper)),
    decreases deeper - lod,
{
    lemma_node_at_valid(m, p, deeper);
    if lod < deeper {
        lemma_node_at_parent(m, p, deeper);
        lemma_node_at_ancestor(m, p, lod, (deeper - 1) as u8);
    }
}

/// Where a node of the tree is not active, a query for a position that it
/// covers falls back to its nearest active ancestor: the answer is never
/// nothing while an ancestor is active, and no active ancestor lies deeper than
/// the answer.
pub proof fn lemma_query_falls_back(m: QuadtreeModel, n: NodeId, a: NodeId, p: WorldPos)
    requires
        m.wf(),
        m.covers(n, p),
        a.is_ancestor_of(n),
        m.active.contains(a),
    ensures
        m.query(p) is Some,
        m.active.contains(m.query(p)->0),
        m.query(p)->0.lod >= a.lod,
        m.query(p)->0.lod <= n.lod ==> m.query(p)->0.is_ancestor_of(n),
        !m.active.contains(n) && m.query(p)->0.lod <= n.lod ==> m.query(p)->0.lod < n.lod,
{
    lemma_covers_ancestor(m, a, n, p);
    lemma_query_is_best(m, p);
    let r = m.query(p)->0;
    if r.lod <= n.lod {
        lemma_node_at_ancestor(m, p, r.lod, n.lod);
    }
}

/// The answer of a query is a node whose data is active in the atlas.
pub proof fn lemma_query_is_usable(s: StreamingModel, v: int, p: WorldPos)
    requires
        s.wf(),
        s.has_view(v),
        s.views[v].query(p) is Some,
    ensures
        s.atlas.is_active(s.views[v].query(p)->0),
        s.views[v].requested.contains(s.views[v].query(p)->0),
{
    let m = s.views[v];
    assert(s.fits(m));
    assert(m.has_cover(p));
    lemma_query_is_best(m, p);
    assert(m.active.contains(m.query(p)->0));
}

/// After every tick, whatever a query answers with is active in the atlas and
/// requested by the viewer: a node that was evicted in the tick, or whose load
/// failed in it, is not among the answers.
pub proof fn lemma_queries_after_tick(
    s: StreamingModel,
    events: Seq<crate::atlas::LoadEvent>,
    now: u64,
    v: int,
    p: WorldPos,
)
    requires
        s.wf(),
        s.has_view(v),
        s.tick(events, now).query(v, p) is Some,
    ensures
        s.tick(events, now).wf(),
        s.tick(events, now).atlas.is_active(s.tick(events, now).query(v, p)->0),
        s.tick(events, now).views[v].requested.contains(s.tick(events, now).query(v, p)->0),
{
    crate::streaming::lemma_tick_wf(s, events, now);
    lemma_query_is_usable(s.tick(events, now), v, p);
}

/// A node that is evicted is referenced by no viewer: no viewer has requested
/// it, none takes it for usable, and so no query answers with it until it is
/// requested, loaded and promoted again.
pub proof fn lemma_evicted_is_not_referenced(
    s: StreamingModel,
    v: int,
    node: NodeId,
    now: u64,
    w: int,
    p: WorldPos,
)
    requires
        s.wf(),
        s.has_view(v),
        s.has_view(w),
        s.views[v].in_tree(node),
        !s.views[v].requested.contains(node),
        s.atlas.request_result(node) matches Ok(Request::Replaced { .. }),
    ensures
        s.atlas.request_result(node) matches Ok(Request::Replaced { evicted, .. }) && ({
            let t = s.request(v, node, now);
            &&& t.wf()
            &&& !t.atlas.is_resident(evicted)
            &&& !t.views[w].requested.contains(evicted)
            &&& !t.views[w].active.contains(evicted)
            &&& t.views[w].query(p) != Some(evicted)
        }),
{
    let t = s.request(v, node, now);
    lemma_evicted_was_unreferenced(s.atlas, node, now);
    crate::streaming::lemma_request_wf(s, v, node, now);
    let evicted = s.atlas.request_result(node)->Ok_0->Replaced_evicted;
    assert(s.atlas.refs_of(evicted) == crate::streaming::holders(s.views, evicted));
    lemma_holders_none(s.views, evicted);
    lemma_request_effect(s.atlas, node, now, evicted);
    assert(!t.atlas.is_active(evicted));
    assert(t.fits(t.views[w]));
    if t.views[w].requested.contains(evicted) {
        lemma_holders_positive(t.views, w, evicted);
        assert(t.atlas.refs_of(evicted) == crate::streaming::holders(t.views, evicted));
    }
    if t.views[w].query(p) == Some(evicted) {
        lemma_query_is_usable(t, w, p);
    }
}

/// A node that two viewers hold stays resident, and cannot be evicted, when one
/// of them gives it up.
pub proof fn lemma_shared_node_survives_release(
    s: StreamingModel,
    v: int,
    w: int,
    node: NodeId,
    now: u64,
)
    requires
        s.wf(),
        s.has_view(v),
        s.has_view(w),
        v != w,
        s.views[v].requested.contains(node),
        s.views[w].requested.contains(node),
    ensures
        ({
            let t = s.release(v, node, now);
            &&& t.wf()
            &&& t.atlas.is_resident(node)
            &&& t.atlas.refs_of(node) >= 1
            &&& t.atlas.state_of(node) == s.atlas.state_of(node)
            &&& t.views[w].requested.contains(node)
            &&& !t.atlas.evictable(t.atlas.slot_of(node))
        }),
{
    let t = s.release(v, node, now);
    crate::streaming::lemma_release_wf(s, v, node, now);
    crate::atlas::lemma_release_effect(s.atlas, node, now, node);
    lemma_holders_positive(t.views, w, node);
    assert(t.atlas.refs_of(node) == crate::streaming::holders(t.views, node));
    assert(t.atlas.holds(t.atlas.slot_of(node), node));
    assert(s.atlas.holds(s.atlas.slot_of(node), node));
}

/// After the viewers were brought in line with the atlas, a node is active for
/// a viewer exactly if the viewer has requested it and it is active in the atlas.
pub proof fn lemma_adjusted_views(s: StreamingModel, v: int, n: NodeId)
    requires
        s.wf(),
        s.has_view(v),
    ensures
        s.adjust().views[v].active.contains(n) <==> s.views[v].requested.contains(n)
            && s.atlas.is_active(n),
        s.adjust().views[v].requested == s.views[v].requested,
        s.adjust().atlas == s.atlas,
{
}

} // verus!
