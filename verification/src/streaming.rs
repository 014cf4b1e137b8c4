//! The streaming of one terrain as a mathematical value: the node atlas together
//! with the quadtrees of all viewers, and the steps that keep the two in line.
//!
//! Every viewer holds one reference in the atlas for each node that it has
//! requested. A node is therefore resident as long as any viewer wants it, and the
//! nodes that the atlas evicts are nodes that no viewer refers to.

use crate::atlas::{
    lemma_complete_effect, lemma_drained_effect, lemma_fail_effect, lemma_release_effect,
    lemma_request_effect, AtlasView, LoadEvent, LoadStatus, Progress,
};
use crate::error::TerrainError;
use crate::node::NodeId;
use crate::node_list::sorted;
use crate::quadtree::{QuadtreeModel, WorldPos};
use vstd::prelude::*;

verus! {

/// The atlas of a terrain and the quadtrees of its viewers.
pub struct StreamingModel {
    /// The side of the terrain in world units.
    pub terrain_size: u32,
    /// The deepest level of the quadtrees.
    pub max_lod: u8,
    pub atlas: AtlasView,
    pub views: Seq<QuadtreeModel>,
}

/// The number of viewers that hold a reference to `n`.
pub open spec fn holders(views: Seq<QuadtreeModel>, n: NodeId) -> nat
    decreases views.len(),
{
    if views.len() == 0 {
        0
    } else {
        holders(views.drop_last(), n) + if views.last().requested.contains(n) {
            1nat
        } else {
            0nat
        }
    }
}

/// The listing of a set of nodes in order.
pub open spec fn listing_of(nodes: Set<NodeId>) -> Seq<NodeId> {
    choose|s: Seq<NodeId>| sorted(s) && s.to_set() == nodes
}

impl StreamingModel {
    /// Whether `v` is the number of a viewer.
    pub open spec fn has_view(self, v: int) -> bool {
        0 <= v < self.views.len()
    }

    /// Whether `view` is a well-formed quadtree over the terrain.
    pub open spec fn fits(self, view: QuadtreeModel) -> bool {
        &&& view.wf()
        &&& view.terrain_size == self.terrain_size
        &&& view.max_lod == self.max_lod
    }

    /// The invariant of streaming: the atlas counts one reference for each viewer
    /// that has requested a node, and no viewer takes a node for usable that is not
    /// active in the atlas.
    pub open spec fn wf(self) -> bool {
        &&& self.atlas.wf()
        &&& forall|v: int| 0 <= v < self.views.len() ==> self.fits(#[trigger] self.views[v])
        &&& forall|n: NodeId| #[trigger] self.atlas.refs_of(n) == holders(self.views, n)
        &&& forall|v: int, n: NodeId|
            0 <= v < self.views.len() && #[trigger] self.views[v].active.contains(n)
                ==> self.atlas.is_active(n)
    }

    /// The state after viewer `v` has moved to `p`.
    pub open spec fn update(self, v: int, p: WorldPos) -> StreamingModel {
        if self.has_view(v) {
            StreamingModel { views: self.views.update(v, self.views[v].update(p)), ..self }
        } else {
            self
        }
    }

    /// The best node available to viewer `v` for the position `p`; nothing if
    /// there is no such viewer.
    pub open spec fn query(self, v: int, p: WorldPos) -> Option<NodeId> {
        if self.has_view(v) {
            self.views[v].query(p)
        } else {
            None
        }
    }

    /// The state after viewer `v` has asked for `n`: if the atlas can serve the
    /// request, the viewer holds a reference to `n`; if not, nothing changes.
    pub open spec fn request(self, v: int, n: NodeId, now: u64) -> StreamingModel {
        if self.has_view(v) && self.atlas.can_accept(n) {
            StreamingModel {
                atlas: self.atlas.request(n, now),
                views: self.views.update(v, self.views[v].hold(n)),
                ..self
            }
        } else {
            self
        }
    }

    /// The state after viewer `v` has given up its reference to `n`.
    pub open spec fn release(self, v: int, n: NodeId, now: u64) -> StreamingModel {
        if self.has_view(v) {
            StreamingModel {
                atlas: self.atlas.release(n, now),
                views: self.views.update(v, self.views[v].forget(n)),
                ..self
            }
        } else {
            self
        }
    }

    /// The nodes to which viewer `v` holds a reference and which it does not want.
    pub open spec fn unwanted(self, v: int) -> Set<NodeId> {
        self.views[v].requested.difference(self.views[v].demand())
    }

    /// The state after viewer `v` has given up its references to the nodes that
    /// it does not want.
    pub open spec fn release_unwanted(self, v: int, now: u64) -> StreamingModel {
        if self.has_view(v) {
            StreamingModel {
                atlas: self.atlas.release_all(self.unwanted(v), now),
                views: self.views.update(v, self.views[v].keep(self.views[v].demand())),
                ..self
            }
        } else {
            self
        }
    }

    /// The nodes that viewer `v` wants, in the order in which it asks for them:
    /// coarser levels first.
    pub open spec fn wanted(self, v: int) -> Seq<NodeId> {
        listing_of(self.views[v].demand())
    }

    /// The state after the demand of viewer `v` was streamed at time `now`: the
    /// viewer gives up what it does not want, then asks for what it wants and
    /// does not hold.
    pub open spec fn stream(self, v: int, now: u64) -> StreamingModel {
        self.release_unwanted(v, now).request_pass(v, None, now)
    }

    /// The nodes that viewer `v` asks for in vain when its demand is streamed.
    pub open spec fn stream_refused(self, v: int, now: u64) -> Seq<NodeId> {
        self.release_unwanted(v, now).refused_pass(v, None, now)
    }

    /// Whether a request pass over the levels `level` deals with `n`: with all
    /// nodes if no level is given, else with the nodes of the level.
    pub open spec fn in_pass(level: Option<u8>, n: NodeId) -> bool {
        level matches Some(lod) ==> n.lod == lod
    }

    /// What a request pass of viewer `v` leaves behind, if there is such a viewer.
    pub open spec fn served_view(
        self,
        after: StreamingModel,
        v: int,
        refused: Seq<NodeId>,
        level: Option<u8>,
    ) -> bool {
        self.has_view(v) ==> after.has_view(v) && Self::served(
            self.views[v],
            after.views[v],
            refused,
            level,
        )
    }

    /// What a request pass of a viewer leaves behind: the viewer holds every node
    /// that it wants and that the pass dealt with, but for the nodes that were
    /// refused; and it holds none of those.
    pub open spec fn served(
        before: QuadtreeModel,
        after: QuadtreeModel,
        refused: Seq<NodeId>,
        level: Option<u8>,
    ) -> bool {
        &&& forall|n: NodeId|
            before.demanded(n) && Self::in_pass(level, n) ==> #[trigger] after.requested.contains(
                n,
            ) || refused.contains(n)
        &&& forall|n: NodeId| #[trigger]
            refused.contains(n) ==> before.demanded(n) && !after.requested.contains(n)
    }

    /// Whether every viewer is in line with the atlas: a node is active for a
    /// viewer exactly if the viewer has requested it and it is active in the atlas.
    pub open spec fn in_line(self) -> bool {
        forall|v: int, n: NodeId|
            0 <= v < self.views.len() ==> (#[trigger] self.views[v].active.contains(n)
                <==> self.views[v].requested.contains(n) && self.atlas.is_active(n))
    }

    /// The state after viewer `v` has asked, one after the other, for those of the
    /// first `count` nodes of `wanted` that the pass deals with and to which it
    /// holds no reference.
    pub open spec fn request_wanted(
        self,
        v: int,
        wanted: Seq<NodeId>,
        count: int,
        level: Option<u8>,
        now: u64,
    ) -> StreamingModel
        decreases count,
    {
        if count <= 0 {
            self
        } else {
            let s = self.request_wanted(v, wanted, count - 1, level, now);
            let n = wanted[count - 1];
            if !s.has_view(v) || !Self::in_pass(level, n) || s.views[v].requested.contains(n) {
                s
            } else {
                s.request(v, n, now)
            }
        }
    }

    /// Those of the first `count` nodes of `wanted` that viewer `v` asked for in vain.
    pub open spec fn refused(
        self,
        v: int,
        wanted: Seq<NodeId>,
        count: int,
        level: Option<u8>,
        now: u64,
    ) -> Seq<NodeId>
        decreases count,
    {
        if count <= 0 {
            Seq::empty()
        } else {
            let s = self.request_wanted(v, wanted, count - 1, level, now);
            let before = self.refused(v, wanted, count - 1, level, now);
            let n = wanted[count - 1];
            if s.has_view(v) && Self::in_pass(level, n) && !s.views[v].requested.contains(n)
                && !s.atlas.can_accept(n) {
                before.push(n)
            } else {
                before
            }
        }
    }

    /// The state after viewer `v` has asked for the nodes that it wants and does
    /// not hold: for all of them if no level is given, else for those of the level.
    pub open spec fn request_pass(self, v: int, level: Option<u8>, now: u64) -> StreamingModel {
        self.request_wanted(v, self.wanted(v), self.wanted(v).len() as int, level, now)
    }

    /// The nodes that viewer `v` asks for in vain in such a pass.
    pub open spec fn refused_pass(self, v: int, level: Option<u8>, now: u64) -> Seq<NodeId> {
        self.refused(v, self.wanted(v), self.wanted(v).len() as int, level, now)
    }

    /// The state after the load of `attachment` for `n` has completed: once the
    /// node is active, every viewer that has requested it takes it for usable.
    pub open spec fn complete(self, n: NodeId, attachment: int) -> StreamingModel {
        let atlas = self.atlas.complete(n, attachment);
        StreamingModel {
            atlas,
            views: if atlas.is_active(n) {
                Seq::new(self.views.len(), |i: int| self.views[i].promote(n))
            } else {
                self.views
            },
            ..self
        }
    }

    /// The state after the load of `n` has failed: the node is not resident, and
    /// every viewer that had requested it has to request it again.
    pub open spec fn fail(self, n: NodeId) -> StreamingModel {
        if self.atlas.can_fail(n) {
            StreamingModel {
                atlas: self.atlas.fail(n),
                views: Seq::new(self.views.len(), |i: int| self.views[i].forget(n)),
                ..self
            }
        } else {
            self
        }
    }

    /// The state after every viewer has brought its active nodes in line with the atlas.
    pub open spec fn adjust(self) -> StreamingModel {
        StreamingModel {
            views: Seq::new(
                self.views.len(),
                |i: int| self.views[i].adjust(self.atlas.active_set()),
            ),
            ..self
        }
    }

    /// The state after news from the loader was taken in.
    pub open spec fn apply(self, event: LoadEvent) -> StreamingModel {
        match event.status {
            LoadStatus::Pending => self,
            LoadStatus::Ready => self.complete(event.node, event.attachment as int),
            LoadStatus::Failed(_) => self.fail(event.node),
        }
    }

    /// What taking in news from the loader reports: the progress of the node, or
    /// the failure of a load that was in flight.
    pub open spec fn apply_result(self, event: LoadEvent) -> Result<Progress, TerrainError> {
        match event.status {
            LoadStatus::Pending => Ok(Progress::Pending),
            LoadStatus::Ready => Ok(
                self.atlas.complete_result(event.node, event.attachment as int),
            ),
            LoadStatus::Failed(reason) => if self.atlas.can_fail(event.node) {
                Err(TerrainError::LoadFailed(reason))
            } else {
                Ok(Progress::Ignored)
            },
        }
    }

    /// The state after the first `count` of `events` were taken in, one after the other.
    pub open spec fn apply_all(self, events: Seq<LoadEvent>, count: int) -> StreamingModel
        decreases count,
    {
        if count <= 0 {
            self
        } else {
            self.apply_all(events, count - 1).apply(events[count - 1])
        }
    }

    /// The nodes whose load failed among the first `count` of `events`.
    pub open spec fn failed_among(self, events: Seq<LoadEvent>, count: int) -> Seq<NodeId>
        decreases count,
    {
        if count <= 0 {
            Seq::empty()
        } else {
            let before = self.failed_among(events, count - 1);
            if self.apply_all(events, count - 1).apply_result(events[count - 1]) is Err {
                before.push(events[count - 1].node)
            } else {
                before
            }
        }
    }

    /// The state after the first `count` viewers have given up what they do not want.
    pub open spec fn release_views(self, count: int, now: u64) -> StreamingModel
        decreases count,
    {
        if count <= 0 {
            self
        } else {
            self.release_views(count - 1, now).release_unwanted(count - 1, now)
        }
    }

    /// The state after the first `count` viewers, one after the other, have asked
    /// for the nodes of level `lod` that they want and do not hold.
    pub open spec fn request_views(self, count: int, lod: u8, now: u64) -> StreamingModel
        decreases count,
    {
        if count <= 0 {
            self
        } else {
            self.request_views(count - 1, lod, now).request_pass(count - 1, Some(lod), now)
        }
    }

    /// The nodes of level `lod` that the first `count` viewers asked for in vain.
    pub open spec fn refused_views(self, count: int, lod: u8, now: u64) -> Seq<NodeId>
        decreases count,
    {
        if count <= 0 {
            Seq::empty()
        } else {
            self.refused_views(count - 1, lod, now) + self.request_views(
                count - 1,
                lod,
                now,
            ).refused_pass(count - 1, Some(lod), now)
        }
    }

    /// The state after all viewers have asked for what they want on the first
    /// `levels` levels, level by level from the root down.
    pub open spec fn request_levels(self, levels: int, now: u64) -> StreamingModel
        decreases levels,
    {
        if levels <= 0 {
            self
        } else {
            self.request_levels(levels - 1, now).request_views(
                self.views.len() as int,
                (levels - 1) as u8,
                now,
            )
        }
    }

    /// The nodes of the first `levels` levels that the viewers asked for in vain.
    pub open spec fn refused_levels(self, levels: int, now: u64) -> Seq<NodeId>
        decreases levels,
    {
        if levels <= 0 {
            Seq::empty()
        } else {
            self.refused_levels(levels - 1, now) + self.request_levels(
                levels - 1,
                now,
            ).refused_views(self.views.len() as int, (levels - 1) as u8, now)
        }
    }

    /// The state after the news from the loader was taken in and every viewer
    /// has given up what it does not want.
    pub open spec fn tick_release(self, events: Seq<LoadEvent>, now: u64) -> StreamingModel {
        self.apply_all(events, events.len() as int).release_views(self.views.len() as int, now)
    }

    /// The state after the queues of the atlas were handed out.
    pub open spec fn drained(self) -> StreamingModel {
        StreamingModel { atlas: self.atlas.drained(), ..self }
    }

    /// The state before the queues of the atlas are handed out at the end of a
    /// tick. The news from the loader is taken in; every viewer gives up what it
    /// does not want; the viewers ask for what they want, level by level from the
    /// root down, so that coarser nodes get their slots first; and every viewer
    /// is brought in line with the atlas.
    pub open spec fn tick_work(self, events: Seq<LoadEvent>, now: u64) -> StreamingModel {
        self.tick_release(events, now).request_levels(self.max_lod + 1, now).adjust()
    }

    /// The nodes that the viewers ask for in vain in such a tick.
    pub open spec fn tick_refused(self, events: Seq<LoadEvent>, now: u64) -> Seq<NodeId> {
        self.tick_release(events, now).refused_levels(self.max_lod + 1, now)
    }

    /// The state after one tick at time `now` with the given news from the loader.
    pub open spec fn tick(self, events: Seq<LoadEvent>, now: u64) -> StreamingModel {
        self.tick_work(events, now).drained()
    }

    /// The state after a viewer was added.
    pub open spec fn add_view(self, view: QuadtreeModel) -> StreamingModel {
        StreamingModel { views: self.views.push(view), ..self }
    }
}

/// Replacing one viewer changes the holders of a node by what that viewer holds.
pub proof fn lemma_holders_update(views: Seq<QuadtreeModel>, v: int, w: QuadtreeModel, n: NodeId)
    requires
        0 <= v < views.len(),
    ensures
        holders(views.update(v, w), n) + (if views[v].requested.contains(n) {
            1nat
        } else {
            0nat
        }) == holders(views, n) + (if w.requested.contains(n) {
            1nat
        } else {
            0nat
        }),
    decreases views.len(),
{
    let after = views.update(v, w);
    if v == views.len() - 1 {
        assert(after.drop_last() =~= views.drop_last());
    } else {
        assert(after.drop_last() =~= views.drop_last().update(v, w));
        lemma_holders_update(views.drop_last(), v, w, n);
    }
}

/// A viewer that holds a node counts among its holders.
pub proof fn lemma_holders_positive(views: Seq<QuadtreeModel>, v: int, n: NodeId)
    requires
        0 <= v < views.len(),
        views[v].requested.contains(n),
    ensures
        holders(views, n) >= 1,
    decreases views.len(),
{
    if v < views.len() - 1 {
        lemma_holders_positive(views.drop_last(), v, n);
    }
}

/// A node without holders is requested by no viewer.
pub proof fn lemma_holders_none(views: Seq<QuadtreeModel>, n: NodeId)
    requires
        holders(views, n) == 0,
    ensures
        forall|v: int| 0 <= v < views.len() ==> !(#[trigger] views[v]).requested.contains(n),
{
    assert forall|v: int| 0 <= v < views.len() implies !(#[trigger] views[v]).requested.contains(
        n,
    ) by {
        if views[v].requested.contains(n) {
            lemma_holders_positive(views, v, n);
        }
    }
}

/// Viewers that have requested the same nodes make the same holders.
pub proof fn lemma_holders_same(a: Seq<QuadtreeModel>, b: Seq<QuadtreeModel>, n: NodeId)
    requires
        a.len() == b.len(),
        forall|i: int|
            0 <= i < a.len() ==> (#[trigger] a[i]).requested.contains(n)
                == b[i].requested.contains(n),
    ensures
        holders(a, n) == holders(b, n),
    decreases a.len(),
{
    if a.len() > 0 {
        assert(a.last().requested.contains(n) == b.last().requested.contains(n));
        lemma_holders_same(a.drop_last(), b.drop_last(), n);
    }
}

/// A node that no viewer has requested has no holders.
pub proof fn lemma_holders_zero(views: Seq<QuadtreeModel>, n: NodeId)
    requires
        forall|i: int| 0 <= i < views.len() ==> !(#[trigger] views[i]).requested.contains(n),
    ensures
        holders(views, n) == 0,
    decreases views.len(),
{
    if views.len() > 0 {
        assert(!views.last().requested.contains(n));
        lemma_holders_zero(views.drop_last(), n);
    }
}

/// Moving a viewer keeps the streaming invariant.
pub proof fn lemma_update_wf(s: StreamingModel, v: int, p: WorldPos)
    requires
        s.wf(),
        s.has_view(v),
    ensures
        s.update(v, p).wf(),
{
    let t = s.update(v, p);
    assert forall|n: NodeId| #[trigger] t.atlas.refs_of(n) == holders(t.views, n) by {
        lemma_holders_same(s.views, t.views, n);
    }
    assert forall|w: int, n: NodeId|
        0 <= w < t.views.len() && #[trigger] t.views[w].active.contains(
            n,
        ) implies t.atlas.is_active(n) by {
        assert(s.views[w].active.contains(n));
    }
}

/// A request by a viewer for a node of its tree that it does not hold keeps
/// the streaming invariant.
pub proof fn lemma_request_wf(s: StreamingModel, v: int, node: NodeId, now: u64)
    requires
        s.wf(),
        s.has_view(v),
        s.views[v].in_tree(node),
        !s.views[v].requested.contains(node),
    ensures
        s.request(v, node, now).wf(),
        s.request(v, node, now).views.len() == s.views.len(),
{
    let t = s.request(v, node, now);
    lemma_request_effect(s.atlas, node, now, node);
    if s.atlas.can_accept(node) {
        assert forall|n: NodeId| #[trigger] t.atlas.refs_of(n) == holders(t.views, n) by {
            lemma_request_effect(s.atlas, node, now, n);
            lemma_holders_update(s.views, v, s.views[v].hold(node), n);
            assert(s.atlas.refs_of(n) == holders(s.views, n));
        }
        assert forall|w: int, n: NodeId|
            0 <= w < t.views.len() && #[trigger] t.views[w].active.contains(
                n,
            ) implies t.atlas.is_active(n) by {
            lemma_request_effect(s.atlas, node, now, n);
            assert(s.views[w].active.contains(n));
            assert(s.atlas.is_active(n));
            assert(s.views[w].requested.contains(n));
            lemma_holders_positive(s.views, w, n);
            assert(s.atlas.refs_of(n) == holders(s.views, n));
        }
    }
}

/// A release by a viewer keeps the streaming invariant.
pub proof fn lemma_release_wf(s: StreamingModel, v: int, node: NodeId, now: u64)
    requires
        s.wf(),
        s.has_view(v),
        s.views[v].requested.contains(node),
    ensures
        s.release(v, node, now).wf(),
        s.release(v, node, now).views.len() == s.views.len(),
        s.atlas.can_release(node),
{
    let t = s.release(v, node, now);
    lemma_holders_positive(s.views, v, node);
    assert(s.atlas.refs_of(node) == holders(s.views, node));
    assert forall|n: NodeId| #[trigger] t.atlas.refs_of(n) == holders(t.views, n) by {
        lemma_release_effect(s.atlas, node, now, n);
        lemma_holders_update(s.views, v, s.views[v].forget(node), n);
        assert(s.atlas.refs_of(n) == holders(s.views, n));
    }
    assert forall|w: int, n: NodeId|
        0 <= w < t.views.len() && #[trigger] t.views[w].active.contains(
            n,
        ) implies t.atlas.is_active(n) by {
        lemma_release_effect(s.atlas, node, now, n);
        assert(s.views[w].active.contains(n));
    }
    lemma_release_effect(s.atlas, node, now, node);
}

/// Giving up what a viewer does not want keeps the streaming invariant.
pub proof fn lemma_release_unwanted_wf(s: StreamingModel, v: int, now: u64)
    requires
        s.wf(),
        s.has_view(v),
    ensures
        s.release_unwanted(v, now).wf(),
        s.release_unwanted(v, now).views.len() == s.views.len(),
{
    let t = s.release_unwanted(v, now);
    let gone = s.unwanted(v);
    let kept = s.views[v].keep(s.views[v].demand());
    assert(s.fits(s.views[v]));
    vstd::set_lib::lemma_len_intersect(s.views[v].requested, s.views[v].demand());
    assert(kept.wf());
    assert forall|n: NodeId| #[trigger] t.atlas.refs_of(n) == holders(t.views, n) by {
        crate::atlas::lemma_release_all_effect(s.atlas, gone, now, n);
        lemma_holders_update(s.views, v, kept, n);
        assert(s.atlas.refs_of(n) == holders(s.views, n));
        if gone.contains(n) {
            lemma_holders_positive(s.views, v, n);
        }
    }
    assert forall|w: int, n: NodeId|
        0 <= w < t.views.len() && #[trigger] t.views[w].active.contains(
            n,
        ) implies t.atlas.is_active(n) by {
        crate::atlas::lemma_release_all_effect(s.atlas, gone, now, n);
        assert(s.views[w].active.contains(n));
    }
    crate::atlas::lemma_release_all_wf(s.atlas, gone, now);
    assert forall|w: int| 0 <= w < t.views.len() implies t.fits(#[trigger] t.views[w]) by {
        if w != v {
            assert(s.fits(s.views[w]));
        }
    }
}

/// Asking for the wanted nodes keeps the streaming invariant and changes no
/// viewer but the one that asks.
pub proof fn lemma_request_wanted_wf(
    s: StreamingModel,
    v: int,
    wanted: Seq<NodeId>,
    count: int,
    level: Option<u8>,
    now: u64,
)
    requires
        s.wf(),
        s.has_view(v),
        0 <= count <= wanted.len(),
        forall|i: int| 0 <= i < count ==> s.views[v].in_tree(#[trigger] wanted[i]),
    ensures
        s.request_wanted(v, wanted, count, level, now).wf(),
        s.request_wanted(v, wanted, count, level, now).views.len() == s.views.len(),
        s.request_wanted(v, wanted, count, level, now).max_lod == s.max_lod,
        s.request_wanted(v, wanted, count, level, now).terrain_size == s.terrain_size,
        forall|w: int|
            0 <= w < s.views.len() && w != v ==> #[trigger] s.request_wanted(
                v,
                wanted,
                count,
                level,
                now,
            ).views[w] == s.views[w],
    decreases count,
{
    if count > 0 {
        lemma_request_wanted_wf(s, v, wanted, count - 1, level, now);
        let t = s.request_wanted(v, wanted, count - 1, level, now);
        let n = wanted[count - 1];
        assert(s.views[v].in_tree(n));
        assert(s.fits(s.views[v]));
        assert(t.fits(t.views[v]));
        if StreamingModel::in_pass(level, n) && !t.views[v].requested.contains(n) {
            lemma_request_wf(t, v, n, now);
        }
    }
}

/// The listing of what a viewer wants holds the wanted nodes, each once and in
/// order, and all of them are nodes of the tree of the viewer.
pub proof fn lemma_wanted(s: StreamingModel, v: int)
    requires
        s.has_view(v),
    ensures
        sorted(s.wanted(v)),
        s.wanted(v).to_set() == s.views[v].demand(),
        forall|i: int|
            0 <= i < s.wanted(v).len() ==> s.views[v].in_tree(#[trigger] s.wanted(v)[i]),
{
    let demand = s.views[v].demand();
    crate::node::lemma_nodes_finite(demand);
    let witness = crate::node_list::lemma_listing_exists(demand);
    assert(sorted(witness) && witness.to_set() == demand);
    let list = s.wanted(v);
    assert forall|i: int| 0 <= i < list.len() implies s.views[v].in_tree(#[trigger] list[i]) by {
        assert(list.to_set().contains(list[i]));
        crate::quadtree::lemma_demanded_parent(s.views[v], list[i]);
    }
}

/// A request pass of a viewer keeps the streaming invariant.
pub proof fn lemma_request_pass_wf(s: StreamingModel, v: int, level: Option<u8>, now: u64)
    requires
        s.wf(),
    ensures
        s.request_pass(v, level, now).wf(),
        s.request_pass(v, level, now).views.len() == s.views.len(),
        s.request_pass(v, level, now).max_lod == s.max_lod,
        s.request_pass(v, level, now).terrain_size == s.terrain_size,
{
    let list = s.wanted(v);
    if s.has_view(v) {
        lemma_wanted(s, v);
        lemma_request_wanted_wf(s, v, list, list.len() as int, level, now);
    } else {
        lemma_request_wanted_nobody(s, v, list, list.len() as int, level, now);
    }
}

/// Streaming the demand of a viewer keeps the streaming invariant.
pub proof fn lemma_stream_wf(s: StreamingModel, v: int, now: u64)
    requires
        s.wf(),
    ensures
        s.stream(v, now).wf(),
        s.stream(v, now).views.len() == s.views.len(),
{
    if s.has_view(v) {
        lemma_release_unwanted_wf(s, v, now);
    }
    lemma_request_pass_wf(s.release_unwanted(v, now), v, None, now);
}

/// Taking in news from the loader keeps the streaming invariant.
pub proof fn lemma_apply_all_wf(s: StreamingModel, events: Seq<LoadEvent>, count: int)
    requires
        s.wf(),
    ensures
        s.apply_all(events, count).wf(),
        s.apply_all(events, count).views.len() == s.views.len(),
        s.apply_all(events, count).max_lod == s.max_lod,
    decreases count,
{
    if count > 0 {
        lemma_apply_all_wf(s, events, count - 1);
        let t = s.apply_all(events, count - 1);
        let event = events[count - 1];
        match event.status {
            LoadStatus::Pending => {},
            LoadStatus::Ready => {
                lemma_complete_wf(t, event.node, event.attachment as int);
            },
            LoadStatus::Failed(_) => {
                lemma_fail_wf(t, event.node);
            },
        }
    }
}

/// Giving up what the viewers do not want keeps the streaming invariant.
pub proof fn lemma_release_views_wf(s: StreamingModel, count: int, now: u64)
    requires
        s.wf(),
    ensures
        s.release_views(count, now).wf(),
        s.release_views(count, now).views.len() == s.views.len(),
        s.release_views(count, now).max_lod == s.max_lod,
    decreases count,
{
    if count > 0 {
        lemma_release_views_wf(s, count - 1, now);
        let t = s.release_views(count - 1, now);
        if t.has_view(count - 1) {
            lemma_release_unwanted_wf(t, count - 1, now);
        }
    }
}

/// A request pass of all viewers over one level keeps the streaming invariant.
pub proof fn lemma_request_views_wf(s: StreamingModel, count: int, lod: u8, now: u64)
    requires
        s.wf(),
    ensures
        s.request_views(count, lod, now).wf(),
        s.request_views(count, lod, now).views.len() == s.views.len(),
        s.request_views(count, lod, now).max_lod == s.max_lod,
    decreases count,
{
    if count > 0 {
        lemma_request_views_wf(s, count - 1, lod, now);
        lemma_request_pass_wf(s.request_views(count - 1, lod, now), count - 1, Some(lod), now);
    }
}

/// The request passes over all levels keep the streaming invariant.
pub proof fn lemma_request_levels_wf(s: StreamingModel, levels: int, now: u64)
    requires
        s.wf(),
    ensures
        s.request_levels(levels, now).wf(),
        s.request_levels(levels, now).views.len() == s.views.len(),
        s.request_levels(levels, now).max_lod == s.max_lod,
    decreases levels,
{
    if levels > 0 {
        lemma_request_levels_wf(s, levels - 1, now);
        lemma_request_views_wf(
            s.request_levels(levels - 1, now),
            s.views.len() as int,
            (levels - 1) as u8,
            now,
        );
    }
}

/// Every tick keeps the streaming invariant and leaves every viewer in line
/// with the atlas: after a tick, the nodes that are active for a viewer are the
/// nodes that it has requested and that are active in the atlas.
pub proof fn lemma_tick_wf(s: StreamingModel, events: Seq<LoadEvent>, now: u64)
    requires
        s.wf(),
    ensures
        s.tick(events, now).wf(),
        s.tick(events, now).in_line(),
        s.tick(events, now).views.len() == s.views.len(),
        s.tick(events, now).atlas.load_queue.len() == 0,
        s.tick(events, now).atlas.unload_queue.len() == 0,
{
    lemma_apply_all_wf(s, events, events.len() as int);
    let a = s.apply_all(events, events.len() as int);
    lemma_release_views_wf(a, s.views.len() as int, now);
    let b = a.release_views(s.views.len() as int, now);
    lemma_request_levels_wf(b, s.max_lod + 1, now);
    let c = b.request_levels(s.max_lod + 1, now);
    lemma_adjust_wf(c);
    let d = c.adjust();
    lemma_drained_wf(d);
    let e = d.drained();
    assert forall|v: int, n: NodeId| 0 <= v < e.views.len() implies (
    #[trigger] e.views[v].active.contains(n) <==> e.views[v].requested.contains(n)
        && e.atlas.is_active(n)) by {
        lemma_drained_effect(c.atlas, n);
    }
}

/// Where there is no such viewer, a request pass does nothing.
pub proof fn lemma_request_wanted_nobody(
    s: StreamingModel,
    v: int,
    wanted: Seq<NodeId>,
    count: int,
    level: Option<u8>,
    now: u64,
)
    requires
        !s.has_view(v),
    ensures
        s.request_wanted(v, wanted, count, level, now) == s,
        s.refused(v, wanted, count, level, now) == Seq::<NodeId>::empty(),
    decreases count,
{
    if count > 0 {
        lemma_request_wanted_nobody(s, v, wanted, count - 1, level, now);
    }
}

/// A completed load keeps the streaming invariant.
pub proof fn lemma_complete_wf(s: StreamingModel, node: NodeId, attachment: int)
    requires
        s.wf(),
    ensures
        s.complete(node, attachment).wf(),
        s.complete(node, attachment).views.len() == s.views.len(),
{
    let t = s.complete(node, attachment);
    lemma_complete_effect(s.atlas, node, attachment, node);
    assert forall|n: NodeId| #[trigger] t.atlas.refs_of(n) == holders(t.views, n) by {
        lemma_complete_effect(s.atlas, node, attachment, n);
        lemma_holders_same(s.views, t.views, n);
        assert(s.atlas.refs_of(n) == holders(s.views, n));
    }
    assert forall|w: int, n: NodeId|
        0 <= w < t.views.len() && #[trigger] t.views[w].active.contains(
            n,
        ) implies t.atlas.is_active(n) by {
        lemma_complete_effect(s.atlas, node, attachment, n);
        if s.views[w].active.contains(n) {
            assert(s.atlas.is_active(n));
        }
    }
    assert forall|w: int| 0 <= w < t.views.len() implies t.fits(#[trigger] t.views[w]) by {
        assert(s.fits(s.views[w]));
    }
}

/// A failed load keeps the streaming invariant.
pub proof fn lemma_fail_wf(s: StreamingModel, node: NodeId)
    requires
        s.wf(),
    ensures
        s.fail(node).wf(),
        s.fail(node).views.len() == s.views.len(),
{
    let t = s.fail(node);
    lemma_fail_effect(s.atlas, node, node);
    if s.atlas.can_fail(node) {
        assert forall|n: NodeId| #[trigger] t.atlas.refs_of(n) == holders(t.views, n) by {
            lemma_fail_effect(s.atlas, node, n);
            assert(s.atlas.refs_of(n) == holders(s.views, n));
            if n == node {
                lemma_holders_zero(t.views, n);
            } else {
                lemma_holders_same(s.views, t.views, n);
            }
        }
        assert forall|w: int, n: NodeId|
            0 <= w < t.views.len() && #[trigger] t.views[w].active.contains(
                n,
            ) implies t.atlas.is_active(n) by {
            lemma_fail_effect(s.atlas, node, n);
            assert(s.views[w].active.contains(n));
        }
        assert forall|w: int| 0 <= w < t.views.len() implies t.fits(#[trigger] t.views[w]) by {
            assert(s.fits(s.views[w]));
        }
    }
}

/// Bringing the viewers in line with the atlas keeps the streaming invariant.
pub proof fn lemma_adjust_wf(s: StreamingModel)
    requires
        s.wf(),
    ensures
        s.adjust().wf(),
        s.adjust().views.len() == s.views.len(),
{
    let t = s.adjust();
    assert forall|n: NodeId| #[trigger] t.atlas.refs_of(n) == holders(t.views, n) by {
        lemma_holders_same(s.views, t.views, n);
        assert(s.atlas.refs_of(n) == holders(s.views, n));
    }
    assert forall|w: int| 0 <= w < t.views.len() implies t.fits(#[trigger] t.views[w]) by {
        assert(s.fits(s.views[w]));
    }
}

/// Handing out the queues of the atlas keeps the streaming invariant.
pub proof fn lemma_drained_wf(s: StreamingModel)
    requires
        s.wf(),
    ensures
        s.drained().wf(),
{
    let t = s.drained();
    lemma_drained_effect(s.atlas, NodeId { lod: 0, x: 0, y: 0 });
    assert forall|n: NodeId| #[trigger] t.atlas.refs_of(n) == holders(t.views, n) by {
        lemma_drained_effect(s.atlas, n);
        assert(s.atlas.refs_of(n) == holders(s.views, n));
    }
    assert forall|w: int, n: NodeId|
        0 <= w < t.views.len() && #[trigger] t.views[w].active.contains(
            n,
        ) implies t.atlas.is_active(n) by {
        lemma_drained_effect(s.atlas, n);
        assert(s.views[w].active.contains(n));
    }
    assert forall|w: int| 0 <= w < t.views.len() implies t.fits(#[trigger] t.views[w]) by {
        assert(s.fits(s.views[w]));
    }
}

/// A viewer that has requested nothing can join without breaking the streaming invariant.
pub proof fn lemma_add_view_wf(s: StreamingModel, view: QuadtreeModel)
    requires
        s.wf(),
        s.fits(view),
        view.requested == Set::<NodeId>::empty(),
    ensures
        s.add_view(view).wf(),
{
    let t = s.add_view(view);
    assert(t.views.drop_last() =~= s.views);
    assert forall|n: NodeId| #[trigger] t.atlas.refs_of(n) == holders(t.views, n) by {
        assert(s.atlas.refs_of(n) == holders(s.views, n));
    }
    assert forall|w: int| 0 <= w < t.views.len() implies t.fits(#[trigger] t.views[w]) by {
        if w < s.views.len() {
            assert(s.fits(s.views[w]));
        }
    }
    assert forall|w: int, n: NodeId|
        0 <= w < t.views.len() && #[trigger] t.views[w].active.contains(
            n,
        ) implies t.atlas.is_active(n) by {
        if w < s.views.len() {
            assert(s.views[w].active.contains(n));
        }
    }
}

} // verus!
