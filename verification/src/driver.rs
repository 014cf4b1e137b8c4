//! The streaming driver: the one place that requests and releases nodes. It owns
//! the node atlas of a terrain and the quadtrees of all its viewers.

use crate::atlas::{
    lemma_release_all_none, lemma_release_all_step, AttachmentData, Eviction, LoadEvent,
    LoadRequest, LoadStatus, Progress,
};
use crate::error::TerrainError;
use crate::node::{NodeId, MAX_LOD};
use crate::node_atlas::NodeAtlas;
use crate::node_list;
use crate::quadtree::{lemma_demanded_parent, QuadtreeModel, WorldPos};
use crate::quadtree_view::QuadtreeView;
use crate::streaming::{
    lemma_add_view_wf, lemma_adjust_wf, lemma_complete_wf, lemma_drained_wf, lemma_fail_wf,
    lemma_release_unwanted_wf, lemma_request_wanted_nobody, lemma_request_wanted_wf,
    lemma_request_wf, lemma_update_wf, listing_of, StreamingModel,
};
use vstd::prelude::*;

verus! {

/// The atlas of one terrain with the quadtrees of its viewers.
pub struct StreamingDriver {
    atlas: NodeAtlas,
    views: Vec<QuadtreeView>,
    terrain_size: u32,
    max_lod: u8,
}

impl View for StreamingDriver {
    type V = StreamingModel;

    closed spec fn view(&self) -> StreamingModel {
        StreamingModel {
            terrain_size: self.terrain_size,
            max_lod: self.max_lod,
            atlas: self.atlas@,
            views: Seq::new(self.views.len() as nat, |i: int| self.views[i]@),
        }
    }
}

/// What one tick asks of the outside, and what went wrong in it.
pub struct TickReport {
    /// The loads to start, in the order in which they were issued.
    pub loads: Vec<LoadRequest>,
    /// The nodes that lost their slot, in the order in which they lost it.
    pub evictions: Vec<Eviction>,
    /// The nodes for which the atlas had no slot, level by level and, within
    /// a level, viewer by viewer.
    pub refused: Vec<NodeId>,
    /// The nodes whose load failed.
    pub failed: Vec<NodeId>,
}

/// The nodes among the first `count` of `held` that the viewer does not want.
pub open spec fn unwanted_among(view: QuadtreeModel, held: Seq<NodeId>, count: int) -> Set<
    NodeId,
> {
    Set::new(|n: NodeId| held.subrange(0, count).contains(n) && !view.demanded(n))
}

impl StreamingDriver {
    /// What holds of the parts of the driver, whatever state the streaming is in.
    pub closed spec fn parts_wf(&self) -> bool {
        &&& self.atlas.wf()
        &&& self.terrain_size > 0
        &&& self.max_lod <= MAX_LOD
        &&& forall|i: int| 0 <= i < self.views.len() ==> (#[trigger] self.views[i]).wf()
    }

    /// The invariant of the driver: the atlas counts one reference for each viewer
    /// that has requested a node, and no viewer takes a node for usable that is not
    /// active in the atlas.
    pub closed spec fn wf(&self) -> bool {
        &&& self.parts_wf()
        &&& self@.wf()
    }

    /// What the invariant says of the driver as a mathematical value.
    pub proof fn lemma_wf(&self)
        requires
            self.wf(),
        ensures
            self@.wf(),
    {
    }

    /// A driver without viewers for a terrain of side `terrain_size` with levels 0
    /// to `max_lod`, over an atlas of `capacity` slots for nodes of
    /// `attachment_count` attachments.
    pub fn new(terrain_size: u32, max_lod: u8, capacity: usize, attachment_count: usize) -> (r:
        Result<StreamingDriver, TerrainError>)
        ensures
            terrain_size > 0 && max_lod <= MAX_LOD && capacity > 0 && attachment_count > 0 ==> r
                is Ok && r->Ok_0.wf() && r->Ok_0@ == (StreamingModel {
                terrain_size,
                max_lod,
                atlas: crate::atlas::AtlasView::empty(capacity as nat, attachment_count as nat),
                views: Seq::empty(),
            }),
            !(terrain_size > 0 && max_lod <= MAX_LOD && capacity > 0 && attachment_count > 0)
                ==> r == Err::<StreamingDriver, TerrainError>(TerrainError::InvalidConfiguration),
    {
        if terrain_size == 0 || max_lod > MAX_LOD {
            return Err(TerrainError::InvalidConfiguration);
        }
        match NodeAtlas::new(capacity, attachment_count) {
            Ok(atlas) => {
                let driver = StreamingDriver { atlas, views: Vec::new(), terrain_size, max_lod };
                proof {
                    assert(driver@.views =~= Seq::empty());
                    assert forall|n: NodeId| #[trigger]
                        driver@.atlas.refs_of(n) == crate::streaming::holders(
                            driver@.views,
                            n,
                        ) by {
                        assert(!driver@.atlas.is_resident(n));
                    }
                }
                Ok(driver)
            },
            Err(_) => Err(TerrainError::InvalidConfiguration),
        }
    }

    /// A driver without viewers for the terrain of `bundle`, over the atlas of
    /// the bundle. Returns the description of the terrain with it.
    pub fn from_bundle(bundle: crate::TerrainBundle) -> (r: (
        StreamingDriver,
        crate::config::TerrainConfig,
    ))
        ensures
            r.0.wf(),
            r.1 == bundle.spec_config(),
            r.0@ == (StreamingModel {
                terrain_size: r.1@.terrain_size,
                max_lod: r.1@.max_lod,
                atlas: crate::atlas::AtlasView::empty(
                    r.1@.node_atlas_size as nat,
                    r.1@.attachments.len(),
                ),
                views: Seq::empty(),
            }),
    {
        let (_, atlas, config) = bundle.into_parts();
        let driver = StreamingDriver {
            atlas,
            views: Vec::new(),
            terrain_size: config.terrain_size(),
            max_lod: config.max_lod(),
        };
        proof {
            assert(driver@.views =~= Seq::empty());
            assert forall|n: NodeId| #[trigger]
                driver@.atlas.refs_of(n) == crate::streaming::holders(driver@.views, n) by {
                assert(!driver@.atlas.is_resident(n));
            }
        }
        (driver, config)
    }

    /// The atlas of the terrain.
    pub fn atlas(&self) -> (a: &NodeAtlas)
        requires
            self.wf(),
        ensures
            a@ == self@.atlas,
            a.wf(),
    {
        &self.atlas
    }

    /// The number of viewers.
    pub fn view_count(&self) -> (n: usize)
        ensures
            n == self@.views.len(),
    {
        self.views.len()
    }

    /// The quadtree of viewer `v`, if there is such a viewer.
    pub fn quadtree(&self, v: usize) -> (r: Option<&QuadtreeView>)
        requires
            self.wf(),
        ensures
            r is Some <==> self@.has_view(v as int),
            r matches Some(q) ==> q@ == self@.views[v as int] && q.wf(),
    {
        if v < self.views.len() {
            Some(&self.views[v])
        } else {
            None
        }
    }

    /// Adds a viewer at the origin with the given radius for each level and
    /// returns its number. The table must hold one radius for each level.
    pub fn add_view(&mut self, radius: Vec<u32>) -> (r: Result<usize, TerrainError>)
        requires
            old(self).wf(),
        ensures
            final(self).wf(),
            radius@.len() == old(self)@.max_lod + 1 ==> r == Ok::<usize, TerrainError>(
                old(self)@.views.len() as usize,
            ) && final(self)@ == old(self)@.add_view(
                QuadtreeModel::initial(old(self)@.terrain_size, old(self)@.max_lod, radius@),
            ),
            radius@.len() != old(self)@.max_lod + 1 ==> r == Err::<usize, TerrainError>(
                TerrainError::InvalidConfiguration,
            ) && final(self)@ == old(self)@,
    {
        match QuadtreeView::new(self.terrain_size, self.max_lod, radius) {
            Ok(view) => {
                let v = self.views.len();
                proof {
                    lemma_add_view_wf(self@, view@);
                }
                self.views.push(view);
                proof {
                    assert(self@.views =~= old(self)@.views.push(view@));
                }
                Ok(v)
            },
            Err(_) => Err(TerrainError::InvalidConfiguration),
        }
    }

    /// Moves viewer `v` to `p` and says whether there is such a viewer.
    pub fn update_view(&mut self, v: usize, p: WorldPos) -> (found: bool)
        requires
            old(self).wf(),
        ensures
            final(self).wf(),
            final(self)@ == old(self)@.update(v as int, p),
            found == old(self)@.has_view(v as int),
    {
        if v >= self.views.len() {
            return false;
        }
        proof {
            lemma_update_wf(self@, v as int, p);
        }
        self.views[v].update(p);
        proof {
            assert(self@.views =~= old(self)@.update(v as int, p).views);
        }
        true
    }

    /// The best node available to viewer `v` for the position `p`: the deepest
    /// node that covers the position and is active for the viewer. Nothing if no
    /// such node is active, or if there is no such viewer.
    pub fn query(&self, v: usize, p: WorldPos) -> (r: Option<NodeId>)
        requires
            self.wf(),
        ensures
            r == self@.query(v as int, p),
            r matches Some(n) ==> self@.atlas.is_active(n),
    {
        if v >= self.views.len() {
            return None;
        }
        let r = self.views[v].query(p);
        proof {
            if let Some(n) = r {
                assert(self@.views[v as int].active.contains(n));
            }
        }
        r
    }

    /// The best data available to viewer `v` for the position `p`: the node that
    /// a query answers with, and the place of its data in the atlas.
    pub fn best_available(&self, v: usize, p: WorldPos) -> (r: Option<(NodeId, AttachmentData)>)
        requires
            self.wf(),
        ensures
            r is Some <==> self@.query(v as int, p) is Some,
            r matches Some((n, data)) ==> self@.query(v as int, p) == Some(n) && data == (
            AttachmentData {
                slot: self@.atlas.slot_of(n) as usize,
                attachments: self@.atlas.attachment_count as usize,
            }),
    {
        match self.query(v, p) {
            Some(n) => match self.atlas.get(n) {
                Some(data) => Some((n, data)),
                None => None,
            },
            None => None,
        }
    }

    /// Viewer `v` gives up its references to the nodes that it does not want any
    /// more. Nothing happens if there is no such viewer.
    pub fn release_unwanted(&mut self, v: usize, now: u64)
        requires
            old(self).wf(),
        ensures
            final(self).wf(),
            final(self)@ == old(self)@.release_unwanted(v as int, now),
            final(self)@.views.len() == old(self)@.views.len(),
    {
        if v < self.views.len() {
            self.release_pass(v, now);
        }
    }

    /// Viewer `v` gives up its references to the nodes that it does not want any more.
    fn release_pass(&mut self, v: usize, now: u64)
        requires
            old(self).wf(),
            v < old(self)@.views.len(),
        ensures
            final(self).wf(),
            final(self)@ == old(self)@.release_unwanted(v as int, now),
            final(self)@.views.len() == old(self)@.views.len(),
    {
        let ghost s0 = self@;
        let ghost view0 = s0.views[v as int];
        let demand = self.views[v].compute_demand();
        let held = self.views[v].requested();
        proof {
            lemma_release_all_none(s0.atlas, now);
            assert(unwanted_among(view0, held@, 0) =~= Set::empty());
            assert(view0.without(Set::empty()).requested =~= view0.requested);
            assert(view0.without(Set::empty()).active =~= view0.active);
        }
        let mut i: usize = 0;
        while i < held.len()
            invariant
                self.parts_wf(),
                self.terrain_size == s0.terrain_size,
                self.max_lod == s0.max_lod,
                s0.wf(),
                s0.atlas.wf(),
                v < self.views.len(),
                self.views.len() == s0.views.len(),
                i <= held.len(),
                held@.no_duplicates(),
                held@.to_set() == view0.requested,
                view0 == s0.views[v as int],
                demand@.to_set() == view0.demand(),
                forall|j: int|
                    0 <= j < self.views.len() && j != v ==> self.views[j]@ == s0.views[j],
                self.atlas@ == s0.atlas.release_all(unwanted_among(view0, held@, i as int), now),
                self.views[v as int]@ == view0.without(unwanted_among(view0, held@, i as int)),
            decreases held.len() - i,
        {
            let n = held[i];
            let ghost gone = unwanted_among(view0, held@, i as int);
            let ghost next = unwanted_among(view0, held@, i + 1);
            proof {
                assert(held@.subrange(0, i + 1) =~= held@.subrange(0, i as int).push(n));
                assert(demand@.contains(n) == demand@.to_set().contains(n));
            }
            if !node_list::contains(&demand, n) {
                self.atlas.release(n, now);
                self.views[v].forget(n);
                proof {
                    assert(!gone.contains(n)) by {
                        if held@.subrange(0, i as int).contains(n) {
                            let j = choose|j: int|
                                0 <= j < i && held@.subrange(0, i as int)[j] == n;
                            assert(held@[j] == held@[i as int]);
                        }
                    }
                    assert(next =~= gone.insert(n)) by {
                        assert forall|x: NodeId| next.contains(x) <==> gone.insert(n).contains(
                            x,
                        ) by {
                            node_list::lemma_subrange_push(held@, i as int, x);
                        }
                    }
                    lemma_release_all_step(s0.atlas, gone, n, now);
                    let w = view0.without(next);
                    assert(self.views[v as int]@.requested =~= w.requested);
                    assert(self.views[v as int]@.active =~= w.active);
                }
            } else {
                proof {
                    assert(next =~= gone) by {
                        assert forall|x: NodeId| next.contains(x) <==> gone.contains(x) by {
                            node_list::lemma_subrange_push(held@, i as int, x);
                        }
                    }
                }
            }
            i += 1;
        }
        proof {
            let gone = unwanted_among(view0, held@, held@.len() as int);
            assert(held@.subrange(0, held@.len() as int) =~= held@);
            assert(gone =~= s0.unwanted(v as int));
            let kept = view0.keep(view0.demand());
            assert(view0.without(gone).requested =~= kept.requested);
            assert(view0.without(gone).active =~= kept.active);
            assert(self@.views =~= s0.release_unwanted(v as int, now).views);
            assert(self@ == s0.release_unwanted(v as int, now));
            lemma_release_unwanted_wf(s0, v as int, now);
        }
    }

    /// Viewer `v` asks for the nodes that it wants and does not hold, coarser
    /// levels first: for all of them if no level is given, else for those of the
    /// level. Returns the nodes for which the atlas had no slot.
    fn request_pass(&mut self, v: usize, level: Option<u8>, now: u64) -> (refused: Vec<NodeId>)
        requires
            old(self).wf(),
            v < old(self)@.views.len(),
        ensures
            final(self).wf(),
            final(self)@ == old(self)@.request_pass(v as int, level, now),
            final(self)@.views.len() == old(self)@.views.len(),
            final(self)@.max_lod == old(self)@.max_lod,
            refused@ == old(self)@.refused_pass(v as int, level, now),
            old(self)@.views[v as int].requested.subset_of(old(self)@.views[v as int].demand())
                ==> final(self)@.views[v as int].requested.subset_of(
                old(self)@.views[v as int].demand(),
            ),
            StreamingModel::served(
                old(self)@.views[v as int],
                final(self)@.views[v as int],
                refused@,
                level,
            ),
    {
        let ghost s1 = self@;
        let ghost view0 = s1.views[v as int];
        let demand = self.views[v].compute_demand();
        let mut refused: Vec<NodeId> = Vec::new();
        let mut k: usize = 0;
        proof {
            let chosen = listing_of(view0.demand());
            assert(node_list::sorted(demand@) && demand@.to_set() == view0.demand());
            node_list::lemma_sorted_unique(demand@, chosen);
            assert(demand@ == s1.wanted(v as int));
            node_list::lemma_sorted_no_duplicates(demand@);
            assert(s1.fits(view0));
            assert forall|j: int| 0 <= j < demand@.len() implies s1.views[v as int].in_tree(
                #[trigger] demand@[j],
            ) by {
                assert(demand@.to_set().contains(demand@[j]));
                lemma_demanded_parent(view0, demand@[j]);
            }
        }
        while k < demand.len()
            invariant
                self.parts_wf(),
                s1.wf(),
                v < self.views.len(),
                self.views.len() == s1.views.len(),
                k <= demand.len(),
                forall|j: int|
                    0 <= j < demand@.len() ==> s1.views[v as int].in_tree(#[trigger] demand@[j]),
                self@ == s1.request_wanted(v as int, demand@, k as int, level, now),
                refused@ == s1.refused(v as int, demand@, k as int, level, now),
                demand@.no_duplicates(),
                demand@.to_set() == view0.demand(),
                view0 == s1.views[v as int],
                view0.requested.subset_of(view0.demand())
                    ==> self@.views[v as int].requested.subset_of(view0.demand()),
                forall|j: int|
                    0 <= j < k && StreamingModel::in_pass(level, #[trigger] demand@[j])
                        ==> self@.views[v as int].requested.contains(demand@[j])
                        || refused@.contains(demand@[j]),
                forall|j: int|
                    0 <= j < refused@.len() ==> !self@.views[v as int].requested.contains(
                        #[trigger] refused@[j],
                    ) && demand@.subrange(0, k as int).contains(refused@[j]),
            decreases demand.len() - k,
        {
            let n = demand[k];
            let ghost t = self@;
            let ghost refused_before = refused@;
            proof {
                assert(demand@.to_set().contains(n));
                assert(!demand@.subrange(0, k as int).contains(n)) by {
                    if demand@.subrange(0, k as int).contains(n) {
                        let j = choose|j: int|
                            0 <= j < k && demand@.subrange(0, k as int)[j] == n;
                        assert(demand@[j] == demand@[k as int]);
                    }
                }
                assert forall|x: NodeId|
                    demand@.subrange(0, k as int).contains(x) implies demand@.subrange(
                    0,
                    k + 1,
                ).contains(x) by {
                    node_list::lemma_subrange_push(demand@, k as int, x);
                }
                node_list::lemma_subrange_push(demand@, k as int, n);
            }
            proof {
                lemma_request_wanted_wf(s1, v as int, demand@, k as int, level, now);
                assert(s1.fits(s1.views[v as int]));
                assert(t.fits(t.views[v as int]));
                assert(t.views[v as int].in_tree(n));
            }
            let in_pass = match level {
                Some(lod) => n.lod == lod,
                None => true,
            };
            if in_pass && !self.views[v].is_requested(n) {
                proof {
                    lemma_request_wf(t, v as int, n, now);
                }
                match self.atlas.request(n, now) {
                    Ok(_) => {
                        self.views[v].hold(n);
                        proof {
                            assert(self@.views =~= t.request(v as int, n, now).views);
                            let held = t.views[v as int].requested;
                            assert(self@.views[v as int].requested == held.insert(n));
                        }
                    },
                    Err(_) => {
                        refused.push(n);
                        proof {
                            assert(self@.views =~= t.views);
                            assert(refused@[refused_before.len() as int] == n);
                            assert forall|j: int|
                                0 <= j < k + 1 && StreamingModel::in_pass(
                                    level,
                                    #[trigger] demand@[j],
                                ) implies self@.views[v as int].requested.contains(demand@[j])
                                || refused@.contains(demand@[j]) by {
                                if j < k && refused_before.contains(demand@[j]) {
                                    let m = choose|m: int|
                                        0 <= m < refused_before.len() && refused_before[m]
                                            == demand@[j];
                                    assert(refused@[m] == demand@[j]);
                                }
                            }
                        }
                    },
                }
            }
            k += 1;
        }
        proof {
            lemma_request_wanted_wf(s1, v as int, demand@, demand@.len() as int, level, now);
            assert(demand@.subrange(0, demand@.len() as int) =~= demand@);
            assert forall|n: NodeId|
                view0.demanded(n) && StreamingModel::in_pass(
                    level,
                    n,
                ) implies #[trigger] self@.views[v as int].requested.contains(n)
                || refused@.contains(n) by {
                assert(demand@.to_set().contains(n));
                let j = choose|j: int| 0 <= j < demand@.len() && demand@[j] == n;
                assert(self@.views[v as int].requested.contains(demand@[j]) || refused@.contains(
                    demand@[j],
                ));
            }
            assert forall|n: NodeId| #[trigger] refused@.contains(n) implies view0.demanded(n)
                && !self@.views[v as int].requested.contains(n) by {
                let j = choose|j: int| 0 <= j < refused@.len() && refused@[j] == n;
                assert(demand@.contains(refused@[j]));
                assert(demand@.to_set().contains(n));
            }
        }
        refused
    }

    /// Viewer `v` asks for the nodes that it wants and does not hold, coarser
    /// levels first. Returns the nodes for which the atlas had no slot.
    pub fn request_wanted(&mut self, v: usize, now: u64) -> (refused: Vec<NodeId>)
        requires
            old(self).wf(),
        ensures
            final(self).wf(),
            final(self)@ == old(self)@.request_pass(v as int, None, now),
            final(self)@.views.len() == old(self)@.views.len(),
            refused@ == old(self)@.refused_pass(v as int, None, now),
            old(self)@.served_view(final(self)@, v as int, refused@, None),
    {
        if v >= self.views.len() {
            proof {
                let wanted = self@.wanted(v as int);
                lemma_request_wanted_nobody(self@, v as int, wanted, wanted.len() as int, None, now);
            }
            return Vec::new();
        }
        self.request_pass(v, None, now)
    }

    /// Viewer `v` asks for the nodes of level `lod` that it wants and does not
    /// hold. Returns the nodes for which the atlas had no slot.
    pub fn request_level(&mut self, v: usize, lod: u8, now: u64) -> (refused: Vec<NodeId>)
        requires
            old(self).wf(),
        ensures
            final(self).wf(),
            final(self)@ == old(self)@.request_pass(v as int, Some(lod), now),
            final(self)@.views.len() == old(self)@.views.len(),
            final(self)@.max_lod == old(self)@.max_lod,
            refused@ == old(self)@.refused_pass(v as int, Some(lod), now),
            old(self)@.served_view(final(self)@, v as int, refused@, Some(lod)),
    {
        if v >= self.views.len() {
            proof {
                let wanted = self@.wanted(v as int);
                lemma_request_wanted_nobody(
                    self@,
                    v as int,
                    wanted,
                    wanted.len() as int,
                    Some(lod),
                    now,
                );
            }
            return Vec::new();
        }
        self.request_pass(v, Some(lod), now)
    }

    /// Streams the demand of viewer `v` at time `now`: the viewer gives up its
    /// references to the nodes that it does not want any more, then asks for the
    /// nodes that it wants and does not hold, coarser levels first. Returns the
    /// nodes for which the atlas had no slot. Afterwards the viewer holds
    /// references to all the nodes that it wants but for those that are returned,
    /// and to no others.
    pub fn stream(&mut self, v: usize, now: u64) -> (refused: Vec<NodeId>)
        requires
            old(self).wf(),
        ensures
            final(self).wf(),
            final(self)@ == old(self)@.stream(v as int, now),
            final(self)@.views.len() == old(self)@.views.len(),
            refused@ == old(self)@.stream_refused(v as int, now),
            old(self)@.has_view(v as int) ==> final(self)@.views[v as int].requested.subset_of(
                old(self)@.views[v as int].demand(),
            ),
            old(self)@.served_view(final(self)@, v as int, refused@, None),
    {
        if v >= self.views.len() {
            proof {
                let wanted = self@.wanted(v as int);
                lemma_request_wanted_nobody(self@, v as int, wanted, wanted.len() as int, None, now);
            }
            return Vec::new();
        }
        let ghost s0 = self@;
        self.release_pass(v, now);
        proof {
            let m0 = s0.views[v as int];
            let m1 = self@.views[v as int];
            assert(m1 == m0.keep(m0.demand()));
            assert forall|n: NodeId| m1.demanded(n) == m0.demanded(n) by {
                crate::quadtree::lemma_demand_same(m0, m1, n);
            }
            assert(m1.demand() =~= m0.demand());
        }
        self.request_pass(v, None, now)
    }

    /// Records that the load of one attachment of `node` has completed. Once the
    /// node is active, every viewer that has requested it takes it for usable.
    pub fn complete(&mut self, node: NodeId, attachment: usize) -> (r: Progress)
        requires
            old(self).wf(),
        ensures
            final(self).wf(),
            final(self)@ == old(self)@.complete(node, attachment as int),
            final(self)@.views.len() == old(self)@.views.len(),
            r == old(self)@.atlas.complete_result(node, attachment as int),
    {
        let ghost s0 = self@;
        proof {
            lemma_complete_wf(s0, node, attachment as int);
        }
        let r = self.atlas.complete(node, attachment);
        if self.atlas.is_active(node) {
            let mut i: usize = 0;
            while i < self.views.len()
                invariant
                    self.parts_wf(),
                    self.terrain_size == s0.terrain_size,
                    self.max_lod == s0.max_lod,
                    i <= self.views.len(),
                    self.views.len() == s0.views.len(),
                    self.atlas@ == s0.atlas.complete(node, attachment as int),
                    forall|j: int| 0 <= j < i ==> self.views[j]@ == s0.views[j].promote(node),
                    forall|j: int| i <= j < self.views.len() ==> self.views[j]@ == s0.views[j],
                decreases self.views.len() - i,
            {
                self.views[i].promote(node);
                i += 1;
            }
        }
        proof {
            assert(self@.views =~= s0.complete(node, attachment as int).views);
        }
        r
    }

    /// Records that the load of `node` has failed and says whether a load was in
    /// flight. The node is not resident afterwards, and the viewers that had
    /// requested it will ask for it again.
    pub fn fail(&mut self, node: NodeId) -> (failed: bool)
        requires
            old(self).wf(),
        ensures
            final(self).wf(),
            final(self)@ == old(self)@.fail(node),
            final(self)@.views.len() == old(self)@.views.len(),
            failed == old(self)@.atlas.can_fail(node),
    {
        let ghost s0 = self@;
        proof {
            lemma_fail_wf(s0, node);
        }
        let failed = self.atlas.fail(node);
        if failed {
            let mut i: usize = 0;
            while i < self.views.len()
                invariant
                    self.parts_wf(),
                    self.terrain_size == s0.terrain_size,
                    self.max_lod == s0.max_lod,
                    i <= self.views.len(),
                    self.views.len() == s0.views.len(),
                    self.atlas@ == s0.atlas.fail(node),
                    forall|j: int| 0 <= j < i ==> self.views[j]@ == s0.views[j].forget(node),
                    forall|j: int| i <= j < self.views.len() ==> self.views[j]@ == s0.views[j],
                decreases self.views.len() - i,
            {
                self.views[i].forget(node);
                i += 1;
            }
        }
        proof {
            assert(self@.views =~= s0.fail(node).views);
        }
        failed
    }

    /// Takes in news from the loader about one attachment of one node. Nothing
    /// changes while the load is pending; data that has arrived is recorded as
    /// by [`StreamingDriver::complete`]; a failure is recorded as by
    /// [`StreamingDriver::fail`] and reported as `LoadFailed` with the loader's
    /// reason, unless no load of the node was in flight.
    pub fn apply(&mut self, event: LoadEvent) -> (r: Result<Progress, TerrainError>)
        requires
            old(self).wf(),
        ensures
            final(self).wf(),
            final(self)@ == old(self)@.apply(event),
            final(self)@.views.len() == old(self)@.views.len(),
            r == old(self)@.apply_result(event),
    {
        let LoadEvent { node, attachment, status } = event;
        match status {
            LoadStatus::Pending => Ok(Progress::Pending),
            LoadStatus::Ready => Ok(self.complete(node, attachment)),
            LoadStatus::Failed(reason) => {
                if self.fail(node) {
                    Err(TerrainError::LoadFailed(reason))
                } else {
                    Ok(Progress::Ignored)
                }
            },
        }
    }

    /// One tick at time `now`. The news from the loader is taken in first. Then
    /// every viewer gives up what it does not want any more, and the viewers ask
    /// for what they want, level by level from the root down, so that coarser
    /// nodes get their slots first. At last every viewer is brought in line with
    /// the atlas. The report holds the loads to start and the evictions made
    /// since the last tick.
    pub fn tick(&mut self, events: Vec<LoadEvent>, now: u64) -> (report: TickReport)
        requires
            old(self).wf(),
        ensures
            final(self).wf(),
            final(self)@ == old(self)@.tick(events@, now),
            report.loads@ == old(self)@.tick_work(events@, now).atlas.load_queue,
            report.evictions@ == old(self)@.tick_work(events@, now).atlas.unload_queue,
            report.failed@ == old(self)@.failed_among(events@, events@.len() as int),
            report.refused@ == old(self)@.tick_refused(events@, now),
            final(self)@.atlas.load_queue.len() == 0,
            final(self)@.atlas.unload_queue.len() == 0,
            final(self)@.in_line(),
    {
        let ghost s0 = self@;
        let ghost all = events@;
        let mut events = events;
        assert(all.len() == events.len());
        let mut failed: Vec<NodeId> = Vec::new();
        let mut stack: Vec<LoadEvent> = Vec::new();
        while events.len() > 0
            invariant
                all.len() <= usize::MAX,
                events@.len() + stack@.len() == all.len(),
                forall|j: int| 0 <= j < events@.len() ==> events@[j] == all[j],
                forall|j: int|
                    0 <= j < stack@.len() ==> stack@[j] == all[all.len() - 1 - j],
            decreases events.len(),
        {
            let e = events.pop().unwrap();
            stack.push(e);
        }
        let mut i: usize = 0;
        while stack.len() > 0
            invariant
                self.wf(),
                all.len() <= usize::MAX,
                self@.views.len() == s0.views.len(),
                self@.max_lod == s0.max_lod,
                i + stack@.len() == all.len(),
                forall|j: int|
                    0 <= j < stack@.len() ==> stack@[j] == all[all.len() - 1 - j],
                self@ == s0.apply_all(all, i as int),
                failed@ == s0.failed_among(all, i as int),
            decreases stack.len(),
        {
            let event = stack.pop().unwrap();
            let node = event.node;
            assert(event == all[i as int]);
            match self.apply(event) {
                Ok(_) => {},
                Err(_) => {
                    failed.push(node);
                },
            }
            i += 1;
        }
        let ghost s1 = self@;
        let mut v: usize = 0;
        while v < self.views.len()
            invariant
                self.wf(),
                v <= self.views.len(),
                self@.views.len() == s1.views.len(),
                self@.max_lod == s1.max_lod,
                self@ == s1.release_views(v as int, now),
            decreases self.views.len() - v,
        {
            self.release_pass(v, now);
            v += 1;
        }
        let ghost s2 = self@;
        proof {
            assert(s1 == s0.apply_all(all, all.len() as int));
            assert(s2 == s0.tick_release(all, now));
            assert(s2.max_lod == s0.max_lod);
        }
        let mut refused: Vec<NodeId> = Vec::new();
        let mut lod: u8 = 0;
        loop
            invariant_except_break
                self@ == s2.request_levels(lod as int, now),
                refused@ == s2.refused_levels(lod as int, now),
            invariant
                self.wf(),
                lod <= self.max_lod,
                self.max_lod == s2.max_lod,
                self@.views.len() == s2.views.len(),
            ensures
                self.wf(),
                self@.views.len() == s2.views.len(),
                self@ == s2.request_levels(s2.max_lod + 1, now),
                refused@ == s2.refused_levels(s2.max_lod + 1, now),
            decreases self.max_lod - lod,
        {
            let ghost s3 = self@;
            let mut w: usize = 0;
            while w < self.views.len()
                invariant
                    self.wf(),
                    lod <= self.max_lod,
                    self.max_lod == s2.max_lod,
                    w <= self.views.len(),
                    self@.views.len() == s2.views.len(),
                    s3.views.len() == s2.views.len(),
                    s3 == s2.request_levels(lod as int, now),
                    self@ == s3.request_views(w as int, lod, now),
                    refused@ == s2.refused_levels(lod as int, now) + s3.refused_views(
                        w as int,
                        lod,
                        now,
                    ),
                decreases self.views.len() - w,
            {
                let ghost before = refused@;
                let mut more = self.request_level(w, lod, now);
                refused.append(&mut more);
                proof {
                    assert(refused@ =~= s2.refused_levels(lod as int, now) + s3.refused_views(
                        w + 1,
                        lod,
                        now,
                    ));
                }
                w += 1;
            }
            if lod == self.max_lod {
                break ;
            }
            lod = lod + 1;
        }
        self.adjust();
        let ghost s4 = self@;
        proof {
            assert(s4 == s0.tick_work(all, now));
            lemma_drained_wf(s4);
        }
        let loads = self.atlas.take_load_queue();
        let evictions = self.atlas.take_unload_queue();
        proof {
            assert(self@.atlas == s4.atlas.drained());
            assert(self@.views =~= s4.views);
            assert(self@ == s4.drained());
            assert forall|v: int, n: NodeId| 0 <= v < self@.views.len() implies (
            #[trigger] self@.views[v].active.contains(n) <==> self@.views[v].requested.contains(n)
                && self@.atlas.is_active(n)) by {
                crate::atlas::lemma_drained_effect(s4.atlas, n);
            }
            assert(self@.in_line());
        }
        TickReport { loads, evictions, refused, failed }
    }

    /// Brings every viewer in line with the atlas: afterwards a node is active
    /// for a viewer exactly if the viewer has requested it and it is active in the
    /// atlas.
    pub fn adjust(&mut self)
        requires
            old(self).wf(),
        ensures
            final(self).wf(),
            final(self)@ == old(self)@.adjust(),
            final(self)@.views.len() == old(self)@.views.len(),
    {
        let ghost s0 = self@;
        proof {
            lemma_adjust_wf(s0);
        }
        let mut i: usize = 0;
        while i < self.views.len()
            invariant
                self.parts_wf(),
                self.terrain_size == s0.terrain_size,
                self.max_lod == s0.max_lod,
                i <= self.views.len(),
                self.views.len() == s0.views.len(),
                self.atlas@ == s0.atlas,
                forall|j: int|
                    0 <= j < i ==> self.views[j]@ == s0.views[j].adjust(s0.atlas.active_set()),
                forall|j: int| i <= j < self.views.len() ==> self.views[j]@ == s0.views[j],
            decreases self.views.len() - i,
        {
            self.views[i].adjust(&self.atlas);
            i += 1;
        }
        proof {
            assert(self@.views =~= s0.adjust().views);
        }
    }
}

} // verus!
