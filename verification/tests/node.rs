use bevy_terrain::node::{grid_size, NodeId, MAX_LOD};

fn node(lod: u8, x: u32, y: u32) -> NodeId {
    NodeId { lod, x, y }
}

#[test]
fn grid_doubles_with_every_level() {
    assert_eq!(grid_size(0), Some(1));
    assert_eq!(grid_size(1), Some(2));
    assert_eq!(grid_size(5), Some(32));
    assert_eq!(grid_size(MAX_LOD), Some(1u64 << 32));
    assert_eq!(grid_size(MAX_LOD + 1), None);
}

#[test]
fn new_accepts_coordinates_inside_the_grid_only() {
    assert_eq!(NodeId::new(0, 0, 0), Some(node(0, 0, 0)));
    assert_eq!(NodeId::new(0, 1, 0), None);
    assert_eq!(NodeId::new(3, 7, 7), Some(node(3, 7, 7)));
    assert_eq!(NodeId::new(3, 8, 0), None);
    assert_eq!(NodeId::new(3, 0, 8), None);
    assert_eq!(NodeId::new(32, u32::MAX, u32::MAX), Some(node(32, u32::MAX, u32::MAX)));
    assert_eq!(NodeId::new(33, 0, 0), None);
}

#[test]
fn validity_follows_the_level() {
    assert!(node(2, 3, 3).is_valid());
    assert!(!node(2, 4, 0).is_valid());
    assert!(!node(200, 0, 0).is_valid());
    assert!(NodeId::root().is_valid());
    assert_eq!(NodeId::root(), node(0, 0, 0));
}

#[test]
fn parent_halves_the_coordinates() {
    assert_eq!(node(0, 0, 0).parent(), None);
    assert_eq!(node(1, 1, 0).parent(), Some(node(0, 0, 0)));
    assert_eq!(node(3, 5, 6).parent(), Some(node(2, 2, 3)));
    assert_eq!(node(3, 4, 7).parent(), Some(node(2, 2, 3)));
}

#[test]
fn children_are_numbered_in_z_order() {
    let n = node(2, 1, 3);
    assert_eq!(n.child(0), Some(node(3, 2, 6)));
    assert_eq!(n.child(1), Some(node(3, 3, 6)));
    assert_eq!(n.child(2), Some(node(3, 2, 7)));
    assert_eq!(n.child(3), Some(node(3, 3, 7)));
    assert_eq!(n.child(4), None);
    for q in 0..4u8 {
        let c = n.child(q).unwrap();
        assert_eq!(c.parent(), Some(n));
        assert_eq!(c.quadrant(), q);
    }
}

#[test]
fn no_children_below_the_deepest_level_or_of_invalid_nodes() {
    assert_eq!(node(MAX_LOD, 0, 0).child(0), None);
    assert_eq!(
        node(31, (1 << 31) - 1, 0).child(1),
        Some(node(32, u32::MAX, 0))
    );
    assert_eq!(node(1, 2, 0).child(0), None);
}

#[test]
fn ancestor_walks_up_to_the_level() {
    let n = node(4, 13, 6);
    assert_eq!(n.ancestor(4), Some(n));
    assert_eq!(n.ancestor(3), Some(node(3, 6, 3)));
    assert_eq!(n.ancestor(1), Some(node(1, 1, 0)));
    assert_eq!(n.ancestor(0), Some(node(0, 0, 0)));
    assert_eq!(n.ancestor(5), None);
}

#[test]
fn covers_node_means_ancestor_or_self() {
    let n = node(4, 13, 6);
    assert!(n.covers_node(&n));
    assert!(node(3, 6, 3).covers_node(&n));
    assert!(node(0, 0, 0).covers_node(&n));
    assert!(!node(3, 6, 2).covers_node(&n));
    assert!(!n.covers_node(&node(3, 6, 3)));
}

#[test]
fn neighbours_stay_inside_the_grid() {
    let n = node(2, 0, 3);
    assert_eq!(n.neighbor(1, 0), Some(node(2, 1, 3)));
    assert_eq!(n.neighbor(3, -3), Some(node(2, 3, 0)));
    assert_eq!(n.neighbor(-1, 0), None);
    assert_eq!(n.neighbor(0, 1), None);
    assert_eq!(n.neighbor(0, 0), Some(n));
    assert_eq!(node(2, 4, 0).neighbor(-1, 0), None);
    assert_eq!(node(32, u32::MAX, 0).neighbor(1, 0), None);
    assert_eq!(node(32, u32::MAX, 0).neighbor(i32::MIN, 1), Some(node(32, (1 << 31) - 1, 1)));
}

#[test]
fn morton_interleaves_the_bits() {
    assert_eq!(node(0, 0, 0).morton(), 0);
    assert_eq!(node(1, 1, 0).morton(), 1);
    assert_eq!(node(1, 0, 1).morton(), 2);
    assert_eq!(node(1, 1, 1).morton(), 3);
    assert_eq!(node(3, 3, 5).morton(), 0b100111);
    assert_eq!(node(32, u32::MAX, 0).morton(), 0x5555_5555_5555_5555);
    assert_eq!(node(32, 0, u32::MAX).morton(), 0xAAAA_AAAA_AAAA_AAAA);
    assert_eq!(node(32, u32::MAX, u32::MAX).morton(), u64::MAX);
}

#[test]
fn children_follow_each_other_on_the_curve() {
    let n = node(5, 19, 7);
    for q in 0..4u8 {
        assert_eq!(n.child(q).unwrap().morton(), 4 * n.morton() + q as u64);
    }
}

#[test]
fn precedes_orders_by_level_then_curve() {
    let a = node(1, 1, 1);
    let b = node(2, 0, 0);
    let c = node(2, 1, 0);
    let d = node(2, 0, 1);
    assert!(a.precedes(&b));
    assert!(!b.precedes(&a));
    assert!(b.precedes(&c));
    assert!(c.precedes(&d));
    assert!(b.precedes(&d));
    assert!(!d.precedes(&c));
    assert!(!c.precedes(&c));
}
