//! The quadtree of one viewer as a mathematical value: which nodes the viewer
//! wants, which of them it has, and which node answers a query for a position.

use crate::node::{
    lemma_child_of_parent, lemma_grid_bound, lemma_morton_bound, lemma_morton_parent,
    lemma_parent_valid, NodeId, MAX_LOD,
};
use crate::node_list::sorted;
use vstd::arithmetic::div_mod::*;
use vstd::arithmetic::power2::*;
use vstd::prelude::*;

verus! {

/// A position in the plane of the terrain, in world units. The terrain covers the
/// square from the origin to `terrain_size` in both directions.
#[derive(Clone, Copy, Debug, PartialEq, Eq, Structural)]
pub struct WorldPos {
    pub x: i64,
    pub y: i64,
}

/// The distance along one axis from `p` to the interval from `lo` to `hi`.
pub open spec fn axis_distance(p: int, lo: int, hi: int) -> int {
    if p < lo {
        lo - p
    } else if p > hi {
        p - hi
    } else {
        0
    }
}

/// The state of one viewer's quadtree.
pub struct QuadtreeModel {
    /// The side of the terrain in world units.
    pub terrain_size: u32,
    /// The deepest level of the tree.
    pub max_lod: u8,
    /// For each level, how far from the viewer its nodes are wanted.
    pub radius: Seq<u32>,
    pub viewer: WorldPos,
    /// The nodes for which this viewer holds a reference in the atlas.
    pub requested: Set<NodeId>,
    /// The requested nodes whose data is known to be usable.
    pub active: Set<NodeId>,
}

impl QuadtreeModel {
    /// Whether a quadtree can be built from these parameters.
    pub open spec fn valid_parameters(terrain_size: u32, max_lod: u8, radius: Seq<u32>) -> bool {
        &&& terrain_size > 0
        &&& max_lod <= MAX_LOD
        &&& radius.len() == max_lod + 1
    }

    /// The quadtree of a viewer at the origin that has requested nothing yet.
    pub open spec fn initial(terrain_size: u32, max_lod: u8, radius: Seq<u32>) -> QuadtreeModel {
        QuadtreeModel {
            terrain_size,
            max_lod,
            radius,
            viewer: WorldPos { x: 0, y: 0 },
            requested: Set::empty(),
            active: Set::empty(),
        }
    }

    /// The invariant of the quadtree: its parameters are usable, every requested
    /// node is a node of the tree, and every active node is requested.
    pub open spec fn wf(self) -> bool {
        &&& Self::valid_parameters(self.terrain_size, self.max_lod, self.radius)
        &&& self.requested.finite()
        &&& self.active.subset_of(self.requested)
        &&& forall|n: NodeId| #[trigger]
            self.requested.contains(n) ==> n.valid() && n.lod <= self.max_lod
    }

    /// The side of a node of the deepest level: the terrain side divided by the
    /// number of such nodes along it, rounded up.
    pub open spec fn leaf_size(self) -> int {
        (self.terrain_size + pow2(self.max_lod as nat) - 1) / (pow2(self.max_lod as nat) as int)
    }

    /// The side of a node of level `lod`; it doubles with every level towards the root.
    pub open spec fn node_size(self, lod: u8) -> int {
        self.leaf_size() * pow2((self.max_lod - lod) as nat)
    }

    /// The squared distance from `p` to the square that `n` covers.
    pub open spec fn distance_squared(self, n: NodeId, p: WorldPos) -> int {
        let size = self.node_size(n.lod);
        let dx = axis_distance(p.x as int, n.x * size, (n.x + 1) * size);
        let dy = axis_distance(p.y as int, n.y * size, (n.y + 1) * size);
        dx * dx + dy * dy
    }

    /// Whether the viewer is within the radius of the level of `n` from `n`.
    pub open spec fn in_range(self, n: NodeId) -> bool {
        &&& n.lod < self.radius.len()
        &&& self.distance_squared(n, self.viewer) <= self.radius[n.lod as int]
            * self.radius[n.lod as int]
    }

    /// Whether the viewer wants `n`: the root always, any other node of the tree if
    /// the viewer wants its parent and is within the radius of its level.
    pub open spec fn demanded(self, n: NodeId) -> bool
        decreases n.lod,
    {
        &&& n.valid()
        &&& n.lod <= self.max_lod
        &&& (n.lod == 0 || (self.in_range(n) && self.demanded(n.spec_parent())))
    }

    /// The nodes that the viewer wants.
    pub open spec fn demand(self) -> Set<NodeId> {
        Set::new(|n: NodeId| self.demanded(n))
    }

    /// Whether `c` is a child of `parent` that the viewer is in range of.
    pub open spec fn wanted_child(self, parent: NodeId, c: NodeId) -> bool {
        &&& c.valid()
        &&& c.lod == parent.lod + 1
        &&& c.spec_parent() == parent
        &&& self.in_range(c)
    }

    /// Whether `after` is `before` followed by the children of `parent` that the
    /// viewer is in range of, each once and in quadrant order.
    pub open spec fn extends_by_children(
        self,
        before: Seq<NodeId>,
        after: Seq<NodeId>,
        parent: NodeId,
    ) -> bool {
        &&& before.len() <= after.len()
        &&& forall|j: int| 0 <= j < before.len() ==> #[trigger] after[j] == before[j]
        &&& forall|j: int|
            before.len() <= j < after.len() ==> self.wanted_child(parent, #[trigger] after[j])
        &&& forall|c: NodeId| #[trigger]
            self.wanted_child(parent, c) ==> after.subrange(
                before.len() as int,
                after.len() as int,
            ).contains(c)
        &&& forall|a: int, b: int|
            before.len() <= a < b < after.len() ==> (#[trigger] after[a]).spec_quadrant() < (
            #[trigger] after[b]).spec_quadrant()
    }

    /// What a listing of the demand holds while it is being built. The first `end`
    /// entries are the wanted nodes of the levels up to `lod`, those of level `lod`
    /// from `start` on. The entries after them are the wanted nodes of the next
    /// level whose parents lie before `limit` on the Z-order curve.
    pub open spec fn listing(
        self,
        list: Seq<NodeId>,
        start: int,
        end: int,
        lod: u8,
        limit: int,
    ) -> bool {
        &&& 0 <= start <= end <= list.len()
        &&& sorted(list)
        &&& forall|j: int| 0 <= j < start ==> (#[trigger] list[j]).lod < lod
        &&& forall|j: int| start <= j < end ==> (#[trigger] list[j]).lod == lod
        &&& forall|j: int| 0 <= j < end ==> self.demanded(#[trigger] list[j])
        &&& forall|n: NodeId| #[trigger]
            self.demanded(n) && n.lod <= lod ==> list.subrange(0, end).contains(n)
        &&& forall|j: int|
            end <= j < list.len() ==> self.demanded(#[trigger] list[j]) && list[j].lod == lod + 1
                && list[j].spec_parent().spec_morton() < limit
        &&& forall|n: NodeId| #[trigger]
            self.demanded(n) && n.lod == lod + 1 && n.spec_parent().spec_morton() < limit
                ==> list.contains(n)
    }

    /// The coordinate on the terrain that is nearest to `c`.
    pub open spec fn clamp(self, c: i64) -> int {
        if c < 0 {
            0
        } else if c >= self.terrain_size {
            self.terrain_size - 1
        } else {
            c as int
        }
    }

    /// The node of level `lod` that contains the point of the terrain nearest to `p`.
    pub open spec fn node_at(self, p: WorldPos, lod: u8) -> NodeId {
        NodeId {
            lod,
            x: (self.clamp(p.x) / self.node_size(lod)) as u32,
            y: (self.clamp(p.y) / self.node_size(lod)) as u32,
        }
    }

    /// Whether `n` is a node of the tree that contains the point nearest to `p`.
    pub open spec fn covers(self, n: NodeId, p: WorldPos) -> bool {
        n.lod <= self.max_lod && self.node_at(p, n.lod) == n
    }

    /// Whether some active node covers `p`.
    pub open spec fn has_cover(self, p: WorldPos) -> bool {
        exists|n: NodeId| self.active.contains(n) && self.covers(n, p)
    }

    /// Whether `n` is the deepest active node that covers `p`.
    pub open spec fn is_best(self, n: NodeId, p: WorldPos) -> bool {
        &&& self.active.contains(n)
        &&& self.covers(n, p)
        &&& forall|m: NodeId| self.active.contains(m) && self.covers(m, p) ==> m.lod <= n.lod
    }

    /// The deepest active node that covers `p`, if any active node does.
    pub open spec fn query(self, p: WorldPos) -> Option<NodeId> {
        if self.has_cover(p) {
            Some(choose|n: NodeId| self.is_best(n, p))
        } else {
            None
        }
    }

    /// The quadtree after the viewer has moved to `viewer`.
    pub open spec fn update(self, viewer: WorldPos) -> QuadtreeModel {
        QuadtreeModel { viewer, ..self }
    }

    /// Whether `n` is a node of this tree.
    pub open spec fn in_tree(self, n: NodeId) -> bool {
        n.valid() && n.lod <= self.max_lod
    }

    /// The quadtree after a reference to `node` was taken. Only nodes of the tree
    /// are recorded.
    pub open spec fn hold(self, node: NodeId) -> QuadtreeModel {
        if self.in_tree(node) {
            QuadtreeModel { requested: self.requested.insert(node), ..self }
        } else {
            self
        }
    }

    /// The quadtree after the reference to `node` was given up.
    pub open spec fn forget(self, node: NodeId) -> QuadtreeModel {
        QuadtreeModel {
            requested: self.requested.remove(node),
            active: self.active.remove(node),
            ..self
        }
    }

    /// The quadtree after the references to all nodes outside `wanted` were given up.
    pub open spec fn keep(self, wanted: Set<NodeId>) -> QuadtreeModel {
        QuadtreeModel {
            requested: self.requested.intersect(wanted),
            active: self.active.intersect(wanted),
            ..self
        }
    }

    /// The quadtree after the references to the nodes in `dropped` were given up.
    pub open spec fn without(self, dropped: Set<NodeId>) -> QuadtreeModel {
        QuadtreeModel {
            requested: self.requested.difference(dropped),
            active: self.active.difference(dropped),
            ..self
        }
    }

    /// The quadtree after it learned that `node` is usable.
    pub open spec fn promote(self, node: NodeId) -> QuadtreeModel {
        if self.requested.contains(node) {
            QuadtreeModel { active: self.active.insert(node), ..self }
        } else {
            self
        }
    }

    /// The quadtree after it learned that `node` is not usable.
    pub open spec fn demote(self, node: NodeId) -> QuadtreeModel {
        QuadtreeModel { active: self.active.remove(node), ..self }
    }

    /// The quadtree after its active nodes were set to the requested nodes in `usable`.
    pub open spec fn adjust(self, usable: Set<NodeId>) -> QuadtreeModel {
        QuadtreeModel { active: self.requested.intersect(usable), ..self }
    }
}

/// The node sizes of a quadtree are positive, and the root covers the terrain.
pub proof fn lemma_sizes(m: QuadtreeModel, lod: u8)
    requires
        m.terrain_size > 0,
        m.max_lod <= MAX_LOD,
        lod <= m.max_lod,
    ensures
        1 <= m.leaf_size() <= m.terrain_size,
        1 <= m.node_size(lod) <= m.node_size(0),
        m.node_size(0) == m.leaf_size() * pow2(m.max_lod as nat),
        m.node_size(lod) * pow2(lod as nat) == m.node_size(0),
        m.terrain_size <= m.node_size(0) < 0x2_0000_0000,
        lod < m.max_lod ==> m.node_size(lod) == 2 * m.node_size((lod + 1) as u8),
{
    let s = m.terrain_size as int;
    let p = pow2(m.max_lod as nat) as int;
    let leaf = m.leaf_size();
    lemma_grid_bound(m.max_lod as nat);
    lemma_fundamental_div_mod(s + p - 1, p);
    lemma_mod_bound(s + p - 1, p);
    assert(p * leaf >= s);
    assert(leaf * p == p * leaf) by (nonlinear_arith);
    assert(m.node_size(0) == leaf * p);
    assert(leaf >= 1) by (nonlinear_arith)
        requires
            p * leaf >= s,
            s >= 1,
            p >= 1,
    ;
    assert(leaf <= s) by (nonlinear_arith)
        requires
            p * leaf <= s + p - 1,
            p >= 1,
            s >= 1,
    ;
    let a = pow2((m.max_lod - lod) as nat) as int;
    let b = pow2(lod as nat) as int;
    lemma_pow2_adds((m.max_lod - lod) as nat, lod as nat);
    lemma_pow2_pos((m.max_lod - lod) as nat);
    lemma_pow2_pos(lod as nat);
    assert(a * b == p);
    assert((leaf * a) * b == leaf * p) by (nonlinear_arith)
        requires
            a * b == p,
    ;
    assert(leaf * a >= 1 && leaf * a <= leaf * p) by (nonlinear_arith)
        requires
            leaf >= 1,
            a >= 1,
            b >= 1,
            a * b == p,
    ;
    if lod < m.max_lod {
        lemma_pow2_unfold((m.max_lod - lod) as nat);
        let c = pow2((m.max_lod - lod - 1) as nat) as int;
        assert(leaf * (2 * c) == 2 * (leaf * c)) by (nonlinear_arith);
    }
}

/// The node found at a position is a valid node of the tree.
pub proof fn lemma_node_at_valid(m: QuadtreeModel, p: WorldPos, lod: u8)
    requires
        m.terrain_size > 0,
        m.max_lod <= MAX_LOD,
        lod <= m.max_lod,
    ensures
        m.node_at(p, lod).valid(),
        m.node_at(p, lod).x == m.clamp(p.x) / m.node_size(lod),
        m.node_at(p, lod).y == m.clamp(p.y) / m.node_size(lod),
        m.covers(m.node_at(p, lod), p),
{
    lemma_sizes(m, lod);
    lemma_grid_bound(lod as nat);
    let size = m.node_size(lod);
    let g = pow2(lod as nat) as int;
    assert(size * g == m.node_size(0));
    lemma_multiply_divide_lt(m.clamp(p.x), size, g);
    lemma_multiply_divide_lt(m.clamp(p.y), size, g);
    lemma_div_pos_is_pos(m.clamp(p.x), size);
    lemma_div_pos_is_pos(m.clamp(p.y), size);
}

/// The node found one level up is the parent of the node found at a level.
pub proof fn lemma_node_at_parent(m: QuadtreeModel, p: WorldPos, lod: u8)
    requires
        m.terrain_size > 0,
        m.max_lod <= MAX_LOD,
        0 < lod <= m.max_lod,
    ensures
        m.node_at(p, (lod - 1) as u8) == m.node_at(p, lod).spec_parent(),
{
    let up = (lod - 1) as u8;
    lemma_sizes(m, up);
    lemma_sizes(m, lod);
    lemma_node_at_valid(m, p, lod);
    lemma_node_at_valid(m, p, up);
    let size = m.node_size(lod);
    lemma_div_denominator(m.clamp(p.x), size, 2);
    lemma_div_denominator(m.clamp(p.y), size, 2);
    assert(size * 2 == m.node_size(up));
}

/// A node covers every position that one of its descendants covers.
pub proof fn lemma_covers_ancestor(m: QuadtreeModel, a: NodeId, n: NodeId, p: WorldPos)
    requires
        m.terrain_size > 0,
        m.max_lod <= MAX_LOD,
        m.covers(n, p),
        a.is_ancestor_of(n),
    ensures
        m.covers(a, p),
    decreases n.lod,
{
    if n.lod > a.lod {
        lemma_node_at_parent(m, p, n.lod);
        lemma_covers_ancestor(m, a, n.spec_parent(), p);
    }
}

/// At most one node is the deepest active node that covers a position.
pub proof fn lemma_best_unique(m: QuadtreeModel, n: NodeId, p: WorldPos)
    requires
        m.is_best(n, p),
    ensures
        m.has_cover(p),
        m.query(p) == Some(n),
{
    let k = choose|k: NodeId| m.is_best(k, p);
    assert(m.is_best(k, p));
    assert(k.lod == n.lod);
}

/// What a viewer wants follows from where it is and from the radius of each
/// level, not from what it has requested.
pub proof fn lemma_demand_same(a: QuadtreeModel, b: QuadtreeModel, n: NodeId)
    requires
        a.terrain_size == b.terrain_size,
        a.max_lod == b.max_lod,
        a.radius == b.radius,
        a.viewer == b.viewer,
    ensures
        a.demanded(n) == b.demanded(n),
    decreases n.lod,
{
    if n.lod > 0 {
        lemma_demand_same(a, b, n.spec_parent());
    }
}

/// Every node that the viewer wants is a valid node of the tree, and so are its ancestors.
pub proof fn lemma_demanded_parent(m: QuadtreeModel, n: NodeId)
    requires
        m.demanded(n),
    ensures
        n.valid(),
        n.lod <= m.max_lod,
        m.demanded(n.spec_parent()),
{
    if n.lod > 0 {
        lemma_parent_valid(n);
    }
}


/// The place on the Z-order curve up to which the parents in a listing have been
/// dealt with once the entries before `k` have been.
pub open spec fn limit_at(list: Seq<NodeId>, k: int, end: int) -> int {
    if k < end {
        list[k].spec_morton() as int
    } else {
        0x1_0000_0000_0000_0000
    }
}

/// A listing that starts with the root alone holds the wanted nodes of level 0.
pub proof fn lemma_listing_root(m: QuadtreeModel, list: Seq<NodeId>)
    requires
        list == seq![NodeId { lod: 0, x: 0, y: 0 }],
    ensures
        m.listing(list, 0, 1, 0, 0),
{
    lemma2_to64();
    let root = NodeId { lod: 0, x: 0, y: 0 };
    assert(m.demanded(root));
    assert forall|n: NodeId| #[trigger] m.demanded(n) && n.lod <= 0 implies list.subrange(
        0,
        1,
    ).contains(n) by {
        assert(n == root);
        assert(list.subrange(0, 1)[0] == root);
    }
}

/// A wanted node of level `lod` has its place among the entries from `start` to `end`.
proof fn lemma_listing_index(
    m: QuadtreeModel,
    list: Seq<NodeId>,
    start: int,
    end: int,
    lod: u8,
    limit: int,
    p: NodeId,
) -> (i: int)
    requires
        m.listing(list, start, end, lod, limit),
        m.demanded(p),
        p.lod == lod,
    ensures
        start <= i < end,
        list[i] == p,
{
    let front = list.subrange(0, end);
    assert(front.contains(p));
    let i = choose|i: int| 0 <= i < front.len() && front[i] == p;
    assert(list[i] == p);
    if i < start {
        assert(list[i].lod < lod);
    }
    i
}

/// Before the first entry of a level is dealt with, no entry of the next level is missing.
pub proof fn lemma_listing_begin(m: QuadtreeModel, list: Seq<NodeId>, start: int, lod: u8)
    requires
        m.listing(list, start, list.len() as int, lod, 0),
    ensures
        m.listing(list, start, list.len() as int, lod, limit_at(list, start, list.len() as int)),
{
    let end = list.len() as int;
    let limit = limit_at(list, start, end);
    assert forall|n: NodeId| #[trigger]
        m.demanded(n) && n.lod == lod + 1 && n.spec_parent().spec_morton()
            < limit implies list.contains(n) by {
        let p = n.spec_parent();
        lemma_demanded_parent(m, n);
        let i = lemma_listing_index(m, list, start, end, lod, 0, p);
        if i > start {
            assert(list[start].spec_precedes(list[i]));
        }
    }
}

/// Dealing with one entry of a level adds its wanted children to the listing.
pub proof fn lemma_listing_step(
    m: QuadtreeModel,
    before: Seq<NodeId>,
    after: Seq<NodeId>,
    start: int,
    end: int,
    lod: u8,
    k: int,
)
    requires
        lod < m.max_lod,
        start <= k < end,
        m.listing(before, start, end, lod, limit_at(before, k, end)),
        m.extends_by_children(before, after, before[k]),
    ensures
        m.listing(after, start, end, lod, limit_at(after, k + 1, end)),
{
    let parent = before[k];
    let limit = limit_at(before, k, end);
    let next = limit_at(after, k + 1, end);
    assert(after[k] == before[k]);
    assert(m.demanded(parent) && parent.lod == lod);
    lemma_morton_bound(parent);
    if k + 1 < end {
        assert(after[k + 1] == before[k + 1]);
        assert(before[k].spec_precedes(before[k + 1]));
    }
    assert(parent.spec_morton() < next);
    assert forall|j: int| 0 <= j < start implies (#[trigger] after[j]).lod < lod by {
        assert(after[j] == before[j]);
    }
    assert forall|j: int| start <= j < end implies (#[trigger] after[j]).lod == lod by {
        assert(after[j] == before[j]);
    }
    assert forall|j: int| 0 <= j < end implies m.demanded(#[trigger] after[j]) by {
        assert(after[j] == before[j]);
    }
    assert forall|n: NodeId| #[trigger] m.demanded(n) && n.lod <= lod implies after.subrange(
        0,
        end,
    ).contains(n) by {
        let front = before.subrange(0, end);
        assert(front.contains(n));
        let i = choose|i: int| 0 <= i < front.len() && front[i] == n;
        assert(after[i] == before[i]);
        assert(after.subrange(0, end)[i] == n);
    }
    assert forall|j: int| end <= j < after.len() implies m.demanded(#[trigger] after[j])
        && after[j].lod == lod + 1 && after[j].spec_parent().spec_morton() < next by {
        if j < before.len() {
            assert(after[j] == before[j]);
        } else {
            assert(m.wanted_child(parent, after[j]));
        }
    }
    assert forall|n: NodeId| #[trigger]
        m.demanded(n) && n.lod == lod + 1 && n.spec_parent().spec_morton()
            < next implies after.contains(n) by {
        let p = n.spec_parent();
        if p.spec_morton() < limit {
            assert(before.contains(n));
            let i = choose|i: int| 0 <= i < before.len() && before[i] == n;
            assert(after[i] == n);
        } else {
            lemma_demanded_parent(m, n);
            let i = lemma_listing_index(m, before, start, end, lod, limit, p);
            if i < k {
                assert(before[i].spec_precedes(before[k]));
            }
            if i > k {
                assert(before[k + 1] == after[k + 1]);
                if i > k + 1 {
                    assert(before[k + 1].spec_precedes(before[i]));
                }
            }
            assert(i == k);
            assert(m.wanted_child(parent, n));
            let tail = after.subrange(before.len() as int, after.len() as int);
            assert(tail.contains(n));
            let t = choose|t: int| 0 <= t < tail.len() && tail[t] == n;
            assert(after[before.len() + t] == n);
        }
    }
    assert forall|a: int, b: int| 0 <= a < b < after.len() implies (
    #[trigger] after[a]).spec_precedes(#[trigger] after[b]) by {
        if b < before.len() {
            assert(after[a] == before[a] && after[b] == before[b]);
            assert(before[a].spec_precedes(before[b]));
        } else {
            assert(m.wanted_child(parent, after[b]));
            lemma_morton_parent(after[b]);
            if a < end {
                assert(after[a] == before[a]);
                assert(m.demanded(after[a]));
                if a < start {
                    assert(after[a].lod < lod);
                } else {
                    assert(after[a].lod == lod);
                }
            } else if a < before.len() {
                assert(after[a] == before[a]);
                lemma_morton_parent(before[a]);
            } else {
                assert(m.wanted_child(parent, after[a]));
                lemma_morton_parent(after[a]);
            }
        }
    }
}

/// Once every entry of a level is dealt with, the listing holds the next level too.
pub proof fn lemma_listing_next(m: QuadtreeModel, list: Seq<NodeId>, start: int, end: int, lod: u8)
    requires
        lod < m.max_lod,
        m.listing(list, start, end, lod, 0x1_0000_0000_0000_0000),
    ensures
        m.listing(list, end, list.len() as int, (lod + 1) as u8, 0),
{
    let len = list.len() as int;
    assert(list.subrange(0, len) =~= list);
    assert forall|n: NodeId| #[trigger]
        m.demanded(n) && n.lod <= lod + 1 implies list.subrange(0, len).contains(n) by {
        if n.lod <= lod {
            let front = list.subrange(0, end);
            assert(front.contains(n));
            let i = choose|i: int| 0 <= i < front.len() && front[i] == n;
            assert(list[i] == n);
        } else {
            lemma_morton_bound(n.spec_parent());
        }
    }
}

/// A listing that has dealt with every level holds the demand.
pub proof fn lemma_listing_done(m: QuadtreeModel, list: Seq<NodeId>, start: int)
    requires
        m.listing(list, start, list.len() as int, m.max_lod, 0),
    ensures
        list.to_set() == m.demand(),
        sorted(list),
{
    let len = list.len() as int;
    assert(list.subrange(0, len) =~= list);
    assert forall|n: NodeId| list.to_set().contains(n) <==> m.demand().contains(n) by {
        if list.contains(n) {
            let i = choose|i: int| 0 <= i < list.len() && list[i] == n;
            assert(m.demanded(list[i]));
        }
        if m.demanded(n) {
            assert(list.subrange(0, len).contains(n));
        }
    }
    assert(list.to_set() =~= m.demand());
}

} // verus!
