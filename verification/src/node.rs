//! Node identity and addressing.
//!
//! A terrain is subdivided into a quadtree. Every node of that tree is named by
//! its level of detail and its position in the grid of that level; parents,
//! children and neighbours are derived arithmetically from the name alone.

use vstd::arithmetic::power2::*;
use vstd::prelude::*;

verus! {

/// The deepest level of detail whose coordinates still fit in 32 bits.
pub const MAX_LOD: u8 = 32;

/// A quadtree node: level of detail and position within that level's grid.
///
/// Level 0 is the root; each further level splits every node into a 2x2 grid.
#[derive(Clone, Copy, Debug, PartialEq, Eq, Structural, Hash)]
pub struct NodeId {
    pub lod: u8,
    pub x: u32,
    pub y: u32,
}

/// The number of nodes along one side of the grid of level `lod`, or nothing if
/// the level is deeper than the deepest level.
pub fn grid_size(lod: u8) -> (n: Option<u64>)
    ensures
        lod <= MAX_LOD ==> n == Some(pow2(lod as nat) as u64) && pow2(lod as nat) <= u64::MAX,
        lod > MAX_LOD ==> n is None,
{
    if lod <= MAX_LOD {
        proof {
            lemma_grid_bound(lod as nat);
        }
        Some(grid_side(lod))
    } else {
        None
    }
}

/// The number of nodes along one side of the grid of level `lod`.
pub(crate) fn grid_side(lod: u8) -> (n: u64)
    requires
        lod <= MAX_LOD,
    ensures
        n == pow2(lod as nat),
{
    proof {
        lemma_grid_bound(lod as nat);
        vstd::bits::lemma_u64_shl_is_mul(1, lod as u64);
    }
    1u64 << (lod as u64)
}

impl NodeId {
    /// A node is valid when its coordinates lie inside the grid of its level.
    pub open spec fn valid(self) -> bool {
        &&& self.lod <= MAX_LOD
        &&& (self.x as nat) < pow2(self.lod as nat)
        &&& (self.y as nat) < pow2(self.lod as nat)
    }

    /// Builds a node, or nothing if the coordinates lie outside the level's grid.
    pub fn new(lod: u8, x: u32, y: u32) -> (r: Option<NodeId>)
        ensures
            (NodeId { lod, x, y }).valid() ==> r == Some(NodeId { lod, x, y }),
            !(NodeId { lod, x, y }).valid() ==> r is None,
    {
        let node = NodeId { lod, x, y };
        if node.is_valid() {
            Some(node)
        } else {
            None
        }
    }

    /// Executable form of [`NodeId::valid`].
    pub fn is_valid(&self) -> (b: bool)
        ensures
            b == self.valid(),
    {
        if self.lod > MAX_LOD {
            return false;
        }
        let n = grid_side(self.lod);
        (self.x as u64) < n && (self.y as u64) < n
    }

    /// The root node, which covers the whole terrain.
    pub fn root() -> (r: NodeId)
        ensures
            r == (NodeId { lod: 0, x: 0, y: 0 }),
            r.valid(),
    {
        proof {
            lemma2_to64();
        }
        NodeId { lod: 0, x: 0, y: 0 }
    }

    /// The node one level coarser that contains this one; the root is its own parent.
    pub open spec fn spec_parent(self) -> NodeId {
        if self.lod == 0 {
            self
        } else {
            NodeId { lod: (self.lod - 1) as u8, x: self.x / 2, y: self.y / 2 }
        }
    }

    /// The parent of this node, or nothing for a root-level node.
    pub fn parent(&self) -> (r: Option<NodeId>)
        ensures
            self.lod == 0 ==> r is None,
            self.lod > 0 ==> r == Some(self.spec_parent()),
            self.lod > 0 && self.valid() ==> self.spec_parent().valid(),
    {
        if self.lod == 0 {
            None
        } else {
            proof {
                if self.valid() {
                    lemma_parent_valid(*self);
                }
            }
            Some(NodeId { lod: self.lod - 1, x: self.x / 2, y: self.y / 2 })
        }
    }

    /// The child in the given quadrant. Quadrants are numbered 0 to 3 in Z order:
    /// bit 0 selects the upper half in x, bit 1 the upper half in y.
    pub open spec fn spec_child(self, quadrant: u8) -> NodeId {
        NodeId {
            lod: (self.lod + 1) as u8,
            x: (2 * self.x + quadrant % 2) as u32,
            y: (2 * self.y + quadrant / 2) as u32,
        }
    }

    /// The child in the given quadrant, for a valid node above the deepest level
    /// and a quadrant below 4; nothing otherwise.
    pub fn child(&self, quadrant: u8) -> (r: Option<NodeId>)
        ensures
            self.valid() && self.lod < MAX_LOD && quadrant < 4 ==> r == Some(
                self.spec_child(quadrant),
            ) && self.spec_child(quadrant).valid() && self.spec_child(quadrant).spec_parent()
                == *self,
            !(self.valid() && self.lod < MAX_LOD && quadrant < 4) ==> r is None,
    {
        if quadrant >= 4 || self.lod >= MAX_LOD || !self.is_valid() {
            return None;
        }
        proof {
            lemma_child_valid(*self, quadrant);
        }
        let dx: u32 = (quadrant % 2) as u32;
        let dy: u32 = (quadrant / 2) as u32;
        Some(NodeId { lod: self.lod + 1, x: 2 * self.x + dx, y: 2 * self.y + dy })
    }

    /// The quadrant of its parent in which this node lies.
    pub open spec fn spec_quadrant(self) -> u8 {
        (self.x % 2 + 2 * (self.y % 2)) as u8
    }

    /// The quadrant of its parent in which this node lies.
    pub fn quadrant(&self) -> (q: u8)
        ensures
            q == self.spec_quadrant(),
            q < 4,
    {
        (self.x % 2) as u8 + 2 * ((self.y % 2) as u8)
    }

    /// The ancestor of this node at level `lod`; the node itself if `lod` is not coarser.
    pub open spec fn spec_ancestor(self, lod: u8) -> NodeId
        decreases self.lod,
    {
        if self.lod <= lod {
            self
        } else {
            self.spec_parent().spec_ancestor(lod)
        }
    }

    /// The ancestor of this node at level `lod`, or nothing if `lod` is finer than the node.
    pub fn ancestor(&self, lod: u8) -> (r: Option<NodeId>)
        ensures
            lod <= self.lod ==> r == Some(self.spec_ancestor(lod)),
            lod > self.lod ==> r is None,
    {
        if lod > self.lod {
            return None;
        }
        let mut cur = *self;
        while cur.lod > lod
            invariant
                lod <= cur.lod <= self.lod,
                cur.spec_ancestor(lod) == self.spec_ancestor(lod),
            decreases cur.lod,
        {
            cur = NodeId { lod: cur.lod - 1, x: cur.x / 2, y: cur.y / 2 };
        }
        Some(cur)
    }

    /// Whether `self` is `other` or lies on the path from the root to `other`.
    pub open spec fn is_ancestor_of(self, other: NodeId) -> bool {
        self.lod <= other.lod && other.spec_ancestor(self.lod) == self
    }

    /// Executable form of [`NodeId::is_ancestor_of`].
    pub fn covers_node(&self, other: &NodeId) -> (b: bool)
        ensures
            b == self.is_ancestor_of(*other),
    {
        match other.ancestor(self.lod) {
            Some(a) => a == *self,
            None => false,
        }
    }

    /// The node `dx` columns and `dy` rows away on the same level.
    pub open spec fn spec_neighbor(self, dx: i32, dy: i32) -> NodeId {
        NodeId { lod: self.lod, x: (self.x + dx) as u32, y: (self.y + dy) as u32 }
    }

    /// Whether the node `dx` columns and `dy` rows away lies inside the level's grid.
    pub open spec fn has_neighbor(self, dx: i32, dy: i32) -> bool {
        &&& self.valid()
        &&& 0 <= self.x + dx < pow2(self.lod as nat)
        &&& 0 <= self.y + dy < pow2(self.lod as nat)
    }

    /// The neighbour at the given offset on the same level, or nothing if that
    /// position lies outside the grid.
    pub fn neighbor(&self, dx: i32, dy: i32) -> (r: Option<NodeId>)
        ensures
            self.has_neighbor(dx, dy) ==> r == Some(self.spec_neighbor(dx, dy))
                && self.spec_neighbor(dx, dy).valid(),
            !self.has_neighbor(dx, dy) ==> r is None,
    {
        if !self.is_valid() {
            return None;
        }
        proof {
            lemma_grid_bound(self.lod as nat);
        }
        let n: i64 = grid_side(self.lod) as i64;
        let nx: i64 = self.x as i64 + dx as i64;
        let ny: i64 = self.y as i64 + dy as i64;
        if 0 <= nx && nx < n && 0 <= ny && ny < n {
            Some(NodeId { lod: self.lod, x: nx as u32, y: ny as u32 })
        } else {
            None
        }
    }

    /// The position of this node on the Z-order curve of its level.
    pub open spec fn spec_morton(self) -> nat {
        interleave(self.x as nat, self.y as nat)
    }

    /// The position of this node on the Z-order curve of its level: the bits of
    /// `x` and `y` interleaved, those of `x` in the even places.
    pub fn morton(&self) -> (code: u64)
        ensures
            code == self.spec_morton(),
    {
        let mut code: u128 = 0;
        let mut weight: u128 = 1;
        let mut xr: u32 = self.x;
        let mut yr: u32 = self.y;
        let mut i: u32 = 0;
        proof {
            lemma2_to64();
        }
        while xr != 0 || yr != 0
            invariant
                i <= 32,
                weight == pow2((2 * i) as nat),
                (xr as nat) < pow2((32 - i) as nat),
                (yr as nat) < pow2((32 - i) as nat),
                code < weight,
                code + weight * interleave(xr as nat, yr as nat) == self.spec_morton(),
            decreases xr + yr,
        {
            proof {
                if i == 32 {
                    lemma2_to64();
                }
                lemma_pow2_unfold((32 - i) as nat);
                lemma_pow2_unfold((2 * i + 2) as nat);
                lemma_pow2_unfold((2 * i + 1) as nat);
                lemma_pow2_le_64((2 * i + 2) as nat);
                let rest = interleave((xr / 2) as nat, (yr / 2) as nat);
                let bits = (xr % 2) + 2 * (yr % 2);
                assert(interleave(xr as nat, yr as nat) == bits + 4 * rest);
                assert(weight * (bits + 4 * rest) == weight * bits + (weight * 4) * rest)
                    by (nonlinear_arith);
                assert(weight * bits <= weight * 3) by (nonlinear_arith)
                    requires
                        bits <= 3,
                        weight >= 0,
                ;
            }
            let bits: u128 = (xr % 2) as u128 + 2 * ((yr % 2) as u128);
            code = code + weight * bits;
            weight = weight * 4;
            xr = xr / 2;
            yr = yr / 2;
            i = i + 1;
        }
        proof {
            lemma_pow2_le_64((2 * i) as nat);
            assert(interleave(0, 0) == 0);
            assert(weight * interleave(xr as nat, yr as nat) == 0) by (nonlinear_arith)
                requires
                    interleave(xr as nat, yr as nat) == 0,
            ;
        }
        code as u64
    }

    /// The order in which nodes are listed: coarser levels first, and each level
    /// along its Z-order curve.
    pub open spec fn spec_precedes(self, other: NodeId) -> bool {
        ||| self.lod < other.lod
        ||| self.lod == other.lod && self.spec_morton() < other.spec_morton()
    }

    /// Executable form of [`NodeId::spec_precedes`].
    pub fn precedes(&self, other: &NodeId) -> (b: bool)
        ensures
            b == self.spec_precedes(*other),
    {
        self.lod < other.lod || (self.lod == other.lod && self.morton() < other.morton())
    }
}

/// A grid of at most the deepest level has between 1 and 2^32 nodes along each side.
pub proof fn lemma_grid_bound(lod: nat)
    requires
        lod <= MAX_LOD,
    ensures
        0 < pow2(lod) <= 0x1_0000_0000,
{
    lemma_pow2_pos(lod);
    lemma2_to64();
    if lod < 32 {
        lemma_pow2_strictly_increases(lod, 32);
    }
}

/// The parent of a valid node below the root is valid.
pub proof fn lemma_parent_valid(n: NodeId)
    requires
        n.valid(),
        n.lod > 0,
    ensures
        n.spec_parent().valid(),
        n.spec_parent().lod == n.lod - 1,
{
    lemma_pow2_unfold(n.lod as nat);
}

/// Every child of a valid node is valid, and the node is its parent.
pub proof fn lemma_child_valid(n: NodeId, quadrant: u8)
    requires
        n.valid(),
        n.lod < MAX_LOD,
        quadrant < 4,
    ensures
        n.spec_child(quadrant).valid(),
        n.spec_child(quadrant).lod == n.lod + 1,
        n.spec_child(quadrant).x == 2 * n.x + quadrant % 2,
        n.spec_child(quadrant).y == 2 * n.y + quadrant / 2,
        n.spec_child(quadrant).spec_parent() == n,
        n.spec_child(quadrant).spec_quadrant() == quadrant,
{
    lemma_pow2_unfold((n.lod + 1) as nat);
    lemma_grid_bound((n.lod + 1) as nat);
}

/// A node below the root is the child of its parent in exactly one quadrant.
pub proof fn lemma_child_of_parent(n: NodeId)
    requires
        n.valid(),
        n.lod > 0,
    ensures
        n.spec_quadrant() < 4,
        n.spec_parent().spec_child(n.spec_quadrant()) == n,
{
    lemma_grid_bound(n.lod as nat);
}

/// Children in different quadrants, or of different parents, are different nodes.
pub proof fn lemma_children_distinct(a: NodeId, qa: u8, b: NodeId, qb: u8)
    requires
        a.valid(),
        b.valid(),
        a.lod < MAX_LOD,
        b.lod < MAX_LOD,
        qa < 4,
        qb < 4,
        a != b || qa != qb,
    ensures
        a.spec_child(qa) != b.spec_child(qb),
{
    lemma_child_valid(a, qa);
    lemma_child_valid(b, qb);
}

/// Ancestors of a valid node are valid.
pub proof fn lemma_ancestor_valid(n: NodeId, lod: u8)
    requires
        n.valid(),
    ensures
        n.spec_ancestor(lod).valid(),
        lod <= n.lod ==> n.spec_ancestor(lod).lod == lod,
    decreases n.lod,
{
    if n.lod > lod {
        lemma_parent_valid(n);
        lemma_ancestor_valid(n.spec_parent(), lod);
    }
}

/// Being an ancestor is transitive.
pub proof fn lemma_ancestor_transitive(a: NodeId, b: NodeId, c: NodeId)
    requires
        a.is_ancestor_of(b),
        b.is_ancestor_of(c),
    ensures
        a.is_ancestor_of(c),
    decreases c.lod,
{
    if c.lod > b.lod {
        lemma_ancestor_transitive(a, b, c.spec_parent());
    }
}


/// The bits of `x` and `y` interleaved, those of `x` in the even places.
pub open spec fn interleave(x: nat, y: nat) -> nat
    decreases x + y,
{
    if x == 0 && y == 0 {
        0
    } else {
        (x % 2) + 2 * (y % 2) + 4 * interleave(x / 2, y / 2)
    }
}

proof fn lemma_pow2_le_64(e: nat)
    requires
        e <= 64,
    ensures
        0 < pow2(e) <= 0x1_0000_0000_0000_0000,
{
    lemma_pow2_pos(e);
    lemma2_to64();
    if e < 64 {
        lemma_pow2_strictly_increases(e, 64);
    }
}

/// Appending one bit to each coordinate appends two bits to the interleaving.
pub proof fn lemma_interleave_step(x: nat, y: nat, dx: nat, dy: nat)
    requires
        dx < 2,
        dy < 2,
    ensures
        interleave(2 * x + dx, 2 * y + dy) == 4 * interleave(x, y) + dx + 2 * dy,
{
    assert((2 * x + dx) / 2 == x && (2 * x + dx) % 2 == dx);
    assert((2 * y + dy) / 2 == y && (2 * y + dy) % 2 == dy);
}

/// Different coordinates have different interleavings.
pub proof fn lemma_interleave_injective(x1: nat, y1: nat, x2: nat, y2: nat)
    requires
        interleave(x1, y1) == interleave(x2, y2),
    ensures
        x1 == x2,
        y1 == y2,
    decreases x1 + y1 + x2 + y2,
{
    if (x1 == 0 && y1 == 0) && (x2 == 0 && y2 == 0) {
    } else {
        assert(interleave(0, 0) == 0);
        let r1 = interleave(x1 / 2, y1 / 2);
        let r2 = interleave(x2 / 2, y2 / 2);
        let b1 = (x1 % 2) + 2 * (y1 % 2);
        let b2 = (x2 % 2) + 2 * (y2 % 2);
        assert(b1 + 4 * r1 == b2 + 4 * r2);
        assert(b1 == b2 && r1 == r2);
        lemma_interleave_injective(x1 / 2, y1 / 2, x2 / 2, y2 / 2);
    }
}

/// Coordinates of `k` bits interleave to a code of `2k` bits.
pub proof fn lemma_interleave_bound(x: nat, y: nat, k: nat)
    requires
        x < pow2(k),
        y < pow2(k),
    ensures
        interleave(x, y) < pow2(2 * k),
    decreases k,
{
    if k == 0 {
        lemma2_to64();
    } else {
        lemma_pow2_unfold(k);
        lemma_pow2_unfold(2 * k);
        lemma_pow2_unfold((2 * k - 1) as nat);
        lemma_interleave_bound(x / 2, y / 2, (k - 1) as nat);
    }
}

/// The four children of a node follow each other on the Z-order curve, right
/// after the children of the nodes before it.
pub proof fn lemma_morton_child(n: NodeId, quadrant: u8)
    requires
        n.valid(),
        n.lod < MAX_LOD,
        quadrant < 4,
    ensures
        n.spec_child(quadrant).spec_morton() == 4 * n.spec_morton() + quadrant,
{
    lemma_child_valid(n, quadrant);
    lemma_interleave_step(n.x as nat, n.y as nat, (quadrant % 2) as nat, (quadrant / 2) as nat);
}

/// A node below the root lies among the four places on the Z-order curve that
/// belong to the children of its parent.
pub proof fn lemma_morton_parent(n: NodeId)
    requires
        n.lod > 0,
    ensures
        n.spec_morton() == 4 * n.spec_parent().spec_morton() + n.spec_quadrant(),
        n.spec_quadrant() < 4,
{
    assert(interleave(0, 0) == 0);
}

/// The place of a node in a numbering of all nodes.
pub open spec fn node_code(n: NodeId) -> int {
    n.lod * 0x1_0000_0000_0000_0000 + n.x * 0x1_0000_0000 + n.y
}

/// The node with the given place in the numbering of all nodes.
pub open spec fn node_of_code(code: int) -> NodeId {
    NodeId {
        lod: (code / 0x1_0000_0000_0000_0000) as u8,
        x: ((code / 0x1_0000_0000) % 0x1_0000_0000) as u32,
        y: (code % 0x1_0000_0000) as u32,
    }
}

/// There are finitely many nodes, so every set of nodes is finite.
pub proof fn lemma_nodes_finite(nodes: Set<NodeId>)
    ensures
        nodes.finite(),
{
    let bound: int = 256int * 0x1_0000_0000_0000_0000int;
    let codes = vstd::set_lib::set_int_range(0, bound);
    vstd::set_lib::lemma_int_range(0, bound);
    codes.lemma_map_finite(|code: int| node_of_code(code));
    let all = codes.map(|code: int| node_of_code(code));
    assert forall|n: NodeId| nodes.contains(n) implies all.contains(n) by {
        let code = node_code(n);
        assert(codes.contains(code));
        assert(node_of_code(code) == n);
    }
    vstd::set_lib::lemma_set_subset_finite(all, nodes);
}

/// The position of a node on the Z-order curve fits in 64 bits.
pub proof fn lemma_morton_bound(n: NodeId)
    ensures
        n.spec_morton() < 0x1_0000_0000_0000_0000,
{
    lemma2_to64();
    lemma_interleave_bound(n.x as nat, n.y as nat, 32);
}

/// Of two different nodes exactly one precedes the other.
pub proof fn lemma_precedes_total(a: NodeId, b: NodeId)
    ensures
        a == b ==> !a.spec_precedes(b),
        a != b ==> (a.spec_precedes(b) <==> !b.spec_precedes(a)),
{
    if a.lod == b.lod && a.spec_morton() == b.spec_morton() {
        lemma_interleave_injective(a.x as nat, a.y as nat, b.x as nat, b.y as nat);
    }
}

/// The listing order is transitive.
pub proof fn lemma_precedes_transitive(a: NodeId, b: NodeId, c: NodeId)
    requires
        a.spec_precedes(b),
        b.spec_precedes(c),
    ensures
        a.spec_precedes(c),
{
}

} // verus!
