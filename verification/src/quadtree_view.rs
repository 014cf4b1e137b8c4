//! The quadtree of one viewer: where the viewer is, what it wants, what it has,
//! and the query for the best node at a position. What each operation does is
//! stated over the quadtree as a mathematical value, see [`crate::quadtree`].

use crate::error::TerrainError;
use crate::node::{
    grid_side, lemma_child_of_parent, lemma_child_valid, lemma_grid_bound, NodeId, MAX_LOD,
};
use crate::node_atlas::NodeAtlas;
use crate::node_list;
use crate::quadtree::{
    axis_distance, lemma_best_unique, lemma_listing_begin, lemma_listing_done,
    lemma_listing_next, lemma_listing_root, lemma_listing_step, lemma_node_at_valid, lemma_sizes,
    limit_at, QuadtreeModel, WorldPos,
};
use vstd::arithmetic::power2::*;
use vstd::prelude::*;

verus! {

/// The quadtree of one viewer: where the viewer is, which nodes it has requested
/// and which of them it knows to be usable.
pub struct QuadtreeView {
    terrain_size: u32,
    max_lod: u8,
    leaf_size: u64,
    radius: Vec<u32>,
    viewer: WorldPos,
    requested: Vec<NodeId>,
    active: Vec<NodeId>,
}

impl View for QuadtreeView {
    type V = QuadtreeModel;

    closed spec fn view(&self) -> QuadtreeModel {
        QuadtreeModel {
            terrain_size: self.terrain_size,
            max_lod: self.max_lod,
            radius: self.radius@,
            viewer: self.viewer,
            requested: self.requested@.to_set(),
            active: self.active@.to_set(),
        }
    }
}

/// The distance along one axis from `p` to the interval from `lo` to `hi`.
fn axis_gap(p: i64, lo: u128, hi: u128) -> (d: u128)
    requires
        lo <= hi <= 0x1_0000_0000_0000_0000_0000,
    ensures
        d == axis_distance(p as int, lo as int, hi as int),
{
    if p < 0 {
        let below: u128 = (-(p as i128)) as u128;
        lo + below
    } else {
        let at: u128 = p as u128;
        if at < lo {
            lo - at
        } else if at > hi {
            at - hi
        } else {
            0
        }
    }
}

impl QuadtreeView {
    /// The invariant of the quadtree: its parameters are usable, every requested
    /// node is a node of the tree, and every active node is requested.
    pub closed spec fn wf(&self) -> bool {
        &&& self@.wf()
        &&& self.leaf_size == self@.leaf_size()
        &&& self.requested@.no_duplicates()
        &&& self.active@.no_duplicates()
    }

    /// What the invariant says of the quadtree as a mathematical value.
    pub proof fn lemma_wf(&self)
        requires
            self.wf(),
        ensures
            self@.wf(),
    {
    }

    /// The quadtree of a viewer at the origin over a terrain of side
    /// `terrain_size` with levels 0 to `max_lod`, where `radius` holds one entry
    /// for each level. The terrain must have a positive side, the deepest level
    /// must be addressable and the radius table must have the right length.
    pub fn new(terrain_size: u32, max_lod: u8, radius: Vec<u32>) -> (r: Result<
        QuadtreeView,
        TerrainError,
    >)
        ensures
            QuadtreeModel::valid_parameters(terrain_size, max_lod, radius@) ==> r is Ok
                && r->Ok_0.wf() && r->Ok_0@ == QuadtreeModel::initial(
                terrain_size,
                max_lod,
                radius@,
            ),
            !QuadtreeModel::valid_parameters(terrain_size, max_lod, radius@) ==> r == Err::<
                QuadtreeView,
                TerrainError,
            >(TerrainError::InvalidConfiguration),
    {
        if terrain_size == 0 || max_lod > MAX_LOD || radius.len() != max_lod as usize + 1 {
            return Err(TerrainError::InvalidConfiguration);
        }
        proof {
            lemma_grid_bound(max_lod as nat);
        }
        let grid: u64 = grid_side(max_lod);
        let leaf_size: u64 = (terrain_size as u64 + grid - 1) / grid;
        let view = QuadtreeView {
            terrain_size,
            max_lod,
            leaf_size,
            radius,
            viewer: WorldPos { x: 0, y: 0 },
            requested: Vec::new(),
            active: Vec::new(),
        };
        proof {
            let m = QuadtreeModel::initial(terrain_size, max_lod, radius@);
            assert(view@.requested =~= m.requested);
            assert(view@.active =~= m.active);
            assert(view@ == m);
        }
        Ok(view)
    }

    /// The deepest level of the tree.
    pub fn max_lod(&self) -> (l: u8)
        ensures
            l == self@.max_lod,
    {
        self.max_lod
    }

    /// The side of the terrain in world units.
    pub fn terrain_size(&self) -> (s: u32)
        ensures
            s == self@.terrain_size,
    {
        self.terrain_size
    }

    /// Where the viewer is.
    pub fn viewer(&self) -> (p: WorldPos)
        ensures
            p == self@.viewer,
    {
        self.viewer
    }

    /// The nodes for which the viewer holds a reference, each once.
    pub fn requested(&self) -> (r: Vec<NodeId>)
        requires
            self.wf(),
        ensures
            r@.to_set() == self@.requested,
            r@.no_duplicates(),
    {
        node_list::copy(&self.requested)
    }

    /// The nodes that the viewer knows to be usable, each once.
    pub fn active(&self) -> (r: Vec<NodeId>)
        requires
            self.wf(),
        ensures
            r@.to_set() == self@.active,
            r@.no_duplicates(),
    {
        node_list::copy(&self.active)
    }

    /// Whether the viewer holds a reference to `node`.
    pub fn is_requested(&self, node: NodeId) -> (b: bool)
        ensures
            b == self@.requested.contains(node),
    {
        node_list::contains(&self.requested, node)
    }

    /// Whether the viewer knows `node` to be usable.
    pub fn is_active(&self, node: NodeId) -> (b: bool)
        ensures
            b == self@.active.contains(node),
    {
        node_list::contains(&self.active, node)
    }

    /// Moves the viewer. What the viewer wants follows from where it is.
    pub fn update(&mut self, viewer: WorldPos)
        requires
            old(self).wf(),
        ensures
            final(self).wf(),
            final(self)@ == old(self)@.update(viewer),
    {
        self.viewer = viewer;
    }

    /// The side of a node of level `lod`, or nothing if the tree has no such level.
    pub fn node_size(&self, lod: u8) -> (s: Option<u64>)
        requires
            self.wf(),
        ensures
            lod <= self@.max_lod ==> s == Some(self@.node_size(lod) as u64) && 1
                <= self@.node_size(lod) < 0x2_0000_0000,
            lod > self@.max_lod ==> s is None,
    {
        if lod <= self.max_lod {
            Some(self.size_at(lod))
        } else {
            None
        }
    }

    /// The side of a node of level `lod` of the tree.
    fn size_at(&self, lod: u8) -> (s: u64)
        requires
            self.wf(),
            lod <= self@.max_lod,
        ensures
            s == self@.node_size(lod),
            1 <= s < 0x2_0000_0000,
    {
        proof {
            lemma_sizes(self@, lod);
            vstd::bits::lemma_u64_shl_is_mul(self.leaf_size, (self.max_lod - lod) as u64);
        }
        self.leaf_size << ((self.max_lod - lod) as u64)
    }

    /// Whether `n` is a node of this tree.
    pub fn in_tree(&self, n: &NodeId) -> (b: bool)
        ensures
            b == self@.in_tree(*n),
    {
        n.lod <= self.max_lod && n.is_valid()
    }

    /// Whether the viewer is within the radius of the level of `n` from `n`.
    pub fn in_range(&self, n: &NodeId) -> (b: bool)
        requires
            self.wf(),
        ensures
            b == self@.in_range(*n),
    {
        if n.lod > self.max_lod {
            return false;
        }
        let size: u128 = self.size_at(n.lod) as u128;
        let r: u128 = self.radius[n.lod as usize] as u128;
        proof {
            assert(n.x * size <= 0xFFFF_FFFF * 0x2_0000_0000 && (n.x + 1) * size <= 0x1_0000_0000
                * 0x2_0000_0000 && n.y * size <= 0xFFFF_FFFF * 0x2_0000_0000 && (n.y + 1) * size
                <= 0x1_0000_0000 * 0x2_0000_0000 && n.x * size <= (n.x + 1) * size && n.y * size
                <= (n.y + 1) * size) by (nonlinear_arith)
                requires
                    0 <= n.x <= 0xFFFF_FFFF,
                    0 <= n.y <= 0xFFFF_FFFF,
                    0 <= size <= 0x2_0000_0000,
            ;
        }
        let dx: u128 = axis_gap(self.viewer.x, n.x as u128 * size, (n.x as u128 + 1) * size);
        let dy: u128 = axis_gap(self.viewer.y, n.y as u128 * size, (n.y as u128 + 1) * size);
        proof {
            assert(dx > r ==> dx * dx + dy * dy > r * r) by (nonlinear_arith)
                requires
                    dx >= 0,
                    dy >= 0,
                    r >= 0,
            ;
            assert(dy > r ==> dx * dx + dy * dy > r * r) by (nonlinear_arith)
                requires
                    dx >= 0,
                    dy >= 0,
                    r >= 0,
            ;
            assert(dx <= r && dy <= r ==> dx * dx <= 0xFFFF_FFFF * 0xFFFF_FFFF && dy * dy
                <= 0xFFFF_FFFF * 0xFFFF_FFFF && r * r <= 0xFFFF_FFFF * 0xFFFF_FFFF)
                by (nonlinear_arith)
                requires
                    dx >= 0,
                    dy >= 0,
                    0 <= r <= 0xFFFF_FFFF,
            ;
        }
        if dx > r || dy > r {
            false
        } else {
            dx * dx + dy * dy <= r * r
        }
    }

    /// The coordinate on the terrain that is nearest to `c`.
    fn clamp(&self, c: i64) -> (r: u64)
        requires
            self.wf(),
        ensures
            r == self@.clamp(c),
            r < self@.terrain_size,
    {
        if c < 0 {
            0
        } else if c >= self.terrain_size as i64 {
            (self.terrain_size - 1) as u64
        } else {
            c as u64
        }
    }

    /// The node of level `lod` that contains the point of the terrain nearest to
    /// `p`, or nothing if the tree has no such level.
    pub fn node_at(&self, p: WorldPos, lod: u8) -> (n: Option<NodeId>)
        requires
            self.wf(),
        ensures
            lod <= self@.max_lod ==> n == Some(self@.node_at(p, lod)) && self@.node_at(
                p,
                lod,
            ).valid() && self@.covers(self@.node_at(p, lod), p),
            lod > self@.max_lod ==> n is None,
    {
        if lod <= self.max_lod {
            Some(self.locate(p, lod))
        } else {
            None
        }
    }

    /// The node of level `lod` of the tree that contains the point of the
    /// terrain nearest to `p`.
    fn locate(&self, p: WorldPos, lod: u8) -> (n: NodeId)
        requires
            self.wf(),
            lod <= self@.max_lod,
        ensures
            n == self@.node_at(p, lod),
            n.valid(),
            self@.covers(n, p),
    {
        proof {
            lemma_node_at_valid(self@, p, lod);
            lemma_grid_bound(lod as nat);
        }
        let size: u64 = self.size_at(lod);
        let x: u64 = self.clamp(p.x) / size;
        let y: u64 = self.clamp(p.y) / size;
        NodeId { lod, x: x as u32, y: y as u32 }
    }

    /// The best data available for a position: the deepest active node that covers
    /// the point of the terrain nearest to `p`, or nothing if no active node does.
    pub fn query(&self, p: WorldPos) -> (r: Option<NodeId>)
        requires
            self.wf(),
        ensures
            r == self@.query(p),
            r is Some <==> self@.has_cover(p),
            r matches Some(n) ==> self@.is_best(n, p),
    {
        let mut lod: u8 = self.max_lod;
        loop
            invariant
                self.wf(),
                lod <= self@.max_lod,
                forall|m: NodeId|
                    self@.active.contains(m) && self@.covers(m, p) ==> m.lod <= lod,
            decreases lod,
        {
            let n = self.locate(p, lod);
            if node_list::contains(&self.active, n) {
                proof {
                    lemma_best_unique(self@, n, p);
                }
                return Some(n);
            }
            if lod == 0 {
                return None;
            }
            lod = lod - 1;
        }
    }

    /// Records that a reference to `node` was taken, if `node` is a node of this tree.
    pub fn hold(&mut self, node: NodeId)
        requires
            old(self).wf(),
        ensures
            final(self).wf(),
            final(self)@ == old(self)@.hold(node),
    {
        if self.in_tree(&node) {
            node_list::insert(&mut self.requested, node);
        }
    }

    /// Records that the reference to `node` was given up. The node is not active
    /// for this viewer any more.
    pub fn forget(&mut self, node: NodeId)
        requires
            old(self).wf(),
        ensures
            final(self).wf(),
            final(self)@ == old(self)@.forget(node),
    {
        node_list::remove(&mut self.requested, node);
        node_list::remove(&mut self.active, node);
    }

    /// Records that `node` has become usable. Nodes that the viewer has not
    /// requested are ignored.
    pub fn promote(&mut self, node: NodeId)
        requires
            old(self).wf(),
        ensures
            final(self).wf(),
            final(self)@ == old(self)@.promote(node),
    {
        if node_list::contains(&self.requested, node) {
            node_list::insert(&mut self.active, node);
        }
    }

    /// Records that `node` is not usable any more.
    pub fn demote(&mut self, node: NodeId)
        requires
            old(self).wf(),
        ensures
            final(self).wf(),
            final(self)@ == old(self)@.demote(node),
    {
        node_list::remove(&mut self.active, node);
    }

    /// Brings the active nodes in line with the atlas: afterwards a node is active
    /// for this viewer exactly if the viewer has requested it and its data is
    /// resident and complete.
    pub fn adjust(&mut self, atlas: &NodeAtlas)
        requires
            old(self).wf(),
            atlas.wf(),
        ensures
            final(self).wf(),
            final(self)@ == old(self)@.adjust(atlas@.active_set()),
    {
        let mut active: Vec<NodeId> = Vec::new();
        let mut i: usize = 0;
        while i < self.requested.len()
            invariant
                atlas.wf(),
                i <= self.requested.len(),
                self.requested@.no_duplicates(),
                forall|k: int|
                    0 <= k < active.len() ==> exists|j: int|
                        0 <= j < i && self.requested[j] == #[trigger] active[k],
                forall|j: int|
                    0 <= j < i && atlas@.is_active(#[trigger] self.requested[j])
                        ==> active@.contains(self.requested[j]),
                forall|k: int| 0 <= k < active.len() ==> atlas@.is_active(#[trigger] active[k]),
                active@.no_duplicates(),
            decreases self.requested.len() - i,
        {
            let n = self.requested[i];
            if atlas.is_active(n) {
                proof {
                    assert forall|k: int| 0 <= k < active.len() implies active[k] != n by {
                        let j = choose|j: int| 0 <= j < i && self.requested[j] == active[k];
                        assert(self.requested[j] != self.requested[i as int]);
                    }
                }
                let ghost before = active@;
                active.push(n);
                proof {
                    assert(active[before.len() as int] == n);
                    assert forall|j: int|
                        0 <= j < i + 1 && atlas@.is_active(
                            #[trigger] self.requested[j],
                        ) implies active@.contains(self.requested[j]) by {
                        if j < i {
                            assert(before.contains(self.requested[j]));
                            let k = choose|k: int|
                                0 <= k < before.len() && before[k] == self.requested[j];
                            assert(active[k] == self.requested[j]);
                        }
                    }
                }
            }
            i += 1;
        }
        proof {
            let target = self@.requested.intersect(atlas@.active_set());
            assert forall|x: NodeId| active@.to_set().contains(x) <==> target.contains(x) by {
                if active@.contains(x) {
                    let k = choose|k: int| 0 <= k < active.len() && active[k] == x;
                    let j = choose|j: int| 0 <= j < i && self.requested[j] == active[k];
                    assert(self.requested@.contains(x));
                }
                if target.contains(x) {
                    let j = choose|j: int|
                        0 <= j < self.requested.len() && self.requested[j] == x;
                    assert(atlas@.is_active(self.requested[j]));
                }
            }
            assert(active@.to_set() =~= target);
        }
        self.active = active;
    }

    /// Appends to `out`, in quadrant order, the children of `parent` that the
    /// viewer is in range of.
    fn push_children(&self, parent: NodeId, out: &mut Vec<NodeId>)
        requires
            self.wf(),
            parent.valid(),
            parent.lod < self@.max_lod,
        ensures
            self@.extends_by_children(old(out)@, final(out)@, parent),
    {
        let ghost first = out@.len() as int;
        let mut q: u8 = 0;
        while q < 4
            invariant
                self.wf(),
                parent.valid(),
                parent.lod < self@.max_lod,
                q <= 4,
                first == old(out)@.len(),
                out@.len() >= first,
                forall|k: int| 0 <= k < first ==> #[trigger] out@[k] == old(out)@[k],
                forall|k: int|
                    first <= k < out@.len() ==> self@.wanted_child(parent, #[trigger] out@[k])
                        && out@[k].spec_quadrant() < q,
                forall|c: NodeId| #[trigger]
                    self@.wanted_child(parent, c) && c.spec_quadrant() < q ==> out@.subrange(
                        first,
                        out@.len() as int,
                    ).contains(c),
                forall|a: int, b: int|
                    first <= a < b < out@.len() ==> (#[trigger] out@[a]).spec_quadrant() < (
                    #[trigger] out@[b]).spec_quadrant(),
            decreases 4 - q,
        {
            proof {
                lemma_child_valid(parent, q);
            }
            let child = NodeId {
                lod: parent.lod + 1,
                x: 2 * parent.x + (q % 2) as u32,
                y: 2 * parent.y + (q / 2) as u32,
            };
            assert(child == parent.spec_child(q));
            let wanted = self.in_range(&child);
            let ghost before = out@;
            if wanted {
                out.push(child);
            }
            proof {
                let tail_before = before.subrange(first, before.len() as int);
                let tail = out@.subrange(first, out@.len() as int);
                assert forall|c: NodeId| #[trigger]
                    self@.wanted_child(parent, c) && c.spec_quadrant() < q + 1
                    implies tail.contains(c) by {
                    if c.spec_quadrant() < q {
                        assert(tail_before.contains(c));
                        let t = choose|t: int| 0 <= t < tail_before.len() && tail_before[t] == c;
                        assert(tail[t] == c);
                    } else {
                        lemma_child_of_parent(c);
                        assert(c == child);
                        assert(tail[before.len() - first] == c);
                    }
                }
            }
            q = q + 1;
        }
    }

    /// The nodes that the viewer wants, each once, coarser levels first and each
    /// level along its Z-order curve. The root comes first.
    pub fn compute_demand(&self) -> (out: Vec<NodeId>)
        requires
            self.wf(),
        ensures
            out@.to_set() == self@.demand(),
            node_list::sorted(out@),
            out@.len() > 0,
            out@[0] == (NodeId { lod: 0, x: 0, y: 0 }),
    {
        let mut out: Vec<NodeId> = Vec::new();
        out.push(NodeId::root());
        let mut start: usize = 0;
        let mut lod: u8 = 0;
        proof {
            assert(out@ =~= seq![NodeId { lod: 0, x: 0, y: 0 }]);
            lemma_listing_root(self@, out@);
        }
        while lod < self.max_lod
            invariant
                self.wf(),
                lod <= self@.max_lod,
                out@.len() > 0,
                out@[0] == (NodeId { lod: 0, x: 0, y: 0 }),
                self@.listing(out@, start as int, out@.len() as int, lod, 0),
            decreases self.max_lod - lod,
        {
            let end: usize = out.len();
            let mut k: usize = start;
            proof {
                lemma_listing_begin(self@, out@, start as int, lod);
            }
            while k < end
                invariant
                    self.wf(),
                    lod < self@.max_lod,
                    start <= k <= end <= out.len(),
                    out@[0] == (NodeId { lod: 0, x: 0, y: 0 }),
                    self@.listing(
                        out@,
                        start as int,
                        end as int,
                        lod,
                        limit_at(out@, k as int, end as int),
                    ),
                decreases end - k,
            {
                let parent = out[k];
                let ghost before = out@;
                proof {
                    assert(self@.demanded(before[k as int]));
                    assert(before[k as int].lod == lod);
                }
                self.push_children(parent, &mut out);
                proof {
                    lemma_listing_step(
                        self@,
                        before,
                        out@,
                        start as int,
                        end as int,
                        lod,
                        k as int,
                    );
                    assert(out@[0] == before[0]);
                }
                k += 1;
            }
            proof {
                lemma_listing_next(self@, out@, start as int, end as int, lod);
            }
            start = end;
            lod = lod + 1;
        }
        proof {
            lemma_listing_done(self@, out@, start as int);
        }
        out
    }
}

} // verus!
