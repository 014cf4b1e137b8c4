use bevy_terrain::error::TerrainError;
use bevy_terrain::node::NodeId;
use bevy_terrain::node_atlas::NodeAtlas;
use bevy_terrain::quadtree::WorldPos;
use bevy_terrain::quadtree_view::QuadtreeView;

fn node(lod: u8, x: u32, y: u32) -> NodeId {
    NodeId { lod, x, y }
}

fn at(x: i64, y: i64) -> WorldPos {
    WorldPos { x, y }
}

fn view(radius: Vec<u32>) -> QuadtreeView {
    QuadtreeView::new(1024, 2, radius).unwrap()
}

#[test]
fn a_quadtree_needs_a_terrain_and_one_radius_for_each_level() {
    assert_eq!(
        QuadtreeView::new(0, 2, vec![1, 1, 1]).err(),
        Some(TerrainError::InvalidConfiguration)
    );
    assert_eq!(
        QuadtreeView::new(1024, 2, vec![1, 1]).err(),
        Some(TerrainError::InvalidConfiguration)
    );
    assert_eq!(
        QuadtreeView::new(1024, 2, vec![1, 1, 1, 1]).err(),
        Some(TerrainError::InvalidConfiguration)
    );
    assert_eq!(
        QuadtreeView::new(1024, 33, vec![0; 34]).err(),
        Some(TerrainError::InvalidConfiguration)
    );
    let q = QuadtreeView::new(u32::MAX, 32, vec![0; 33]).unwrap();
    assert_eq!(q.max_lod(), 32);
    assert_eq!(q.terrain_size(), u32::MAX);
    assert_eq!(q.viewer(), at(0, 0));
    assert_eq!(q.requested(), vec![]);
    assert_eq!(q.active(), vec![]);
    assert_eq!(q.node_size(32), Some(1));
    assert_eq!(q.node_size(0), Some(1u64 << 32));
}

#[test]
fn node_sizes_double_towards_the_root() {
    let q = view(vec![0, 0, 0]);
    assert_eq!(q.node_size(2), Some(256));
    assert_eq!(q.node_size(1), Some(512));
    assert_eq!(q.node_size(0), Some(1024));
    let q = QuadtreeView::new(1000, 2, vec![0, 0, 0]).unwrap();
    assert_eq!(q.node_size(2), Some(250));
    assert_eq!(q.node_size(0), Some(1000));
    let q = QuadtreeView::new(1001, 2, vec![0, 0, 0]).unwrap();
    assert_eq!(q.node_size(2), Some(251));
    assert_eq!(q.node_size(1), Some(502));
    assert_eq!(q.node_size(0), Some(1004));
    let q = QuadtreeView::new(1, 3, vec![0, 0, 0, 0]).unwrap();
    assert_eq!(q.node_size(3), Some(1));
    assert_eq!(q.node_size(0), Some(8));
}

#[test]
fn in_range_compares_the_distance_to_the_square_with_the_radius() {
    let mut q = view(vec![0, 0, 156]);
    q.update(at(100, 100));
    assert!(q.in_range(&node(2, 0, 0)));
    assert!(q.in_range(&node(2, 1, 0)));
    assert!(q.in_range(&node(2, 0, 1)));
    assert!(!q.in_range(&node(2, 1, 1)));
    assert!(!q.in_range(&node(1, 1, 0)));
    assert!(q.in_range(&node(1, 0, 0)));
    q.update(at(101, 100));
    assert!(q.in_range(&node(2, 1, 0)));
    q.update(at(99, 100));
    assert!(!q.in_range(&node(2, 1, 0)));

    let mut q = view(vec![0, 0, 5]);
    q.update(at(-3, -4));
    assert!(q.in_range(&node(2, 0, 0)));
    q.update(at(-3, -5));
    assert!(!q.in_range(&node(2, 0, 0)));
    q.update(at(1027, 1028));
    assert!(q.in_range(&node(2, 3, 3)));
    q.update(at(1028, 1028));
    assert!(!q.in_range(&node(2, 3, 3)));
    q.update(at(i64::MIN, i64::MAX));
    assert!(!q.in_range(&node(2, 0, 3)));
}

#[test]
fn in_tree_means_valid_and_not_too_deep() {
    let q = view(vec![0, 0, 0]);
    assert!(q.in_tree(&node(0, 0, 0)));
    assert!(q.in_tree(&node(2, 3, 3)));
    assert!(!q.in_tree(&node(2, 4, 3)));
    assert!(!q.in_tree(&node(3, 0, 0)));
}

#[test]
fn the_demand_lists_levels_in_order() {
    let mut q = view(vec![0, 600, 200]);
    q.update(at(100, 100));
    assert_eq!(
        q.compute_demand(),
        vec![
            node(0, 0, 0),
            node(1, 0, 0),
            node(1, 1, 0),
            node(1, 0, 1),
            node(1, 1, 1),
            node(2, 0, 0),
            node(2, 1, 0),
            node(2, 0, 1),
        ]
    );
}

#[test]
fn a_far_viewer_wants_the_root_alone() {
    let mut q = view(vec![0, 300, 100]);
    q.update(at(1_000_000, -1_000_000));
    assert_eq!(q.compute_demand(), vec![node(0, 0, 0)]);
}

#[test]
fn a_child_is_wanted_only_with_its_parent() {
    let mut q = view(vec![0, 10, 1000]);
    q.update(at(600, 100));
    assert_eq!(
        q.compute_demand(),
        vec![
            node(0, 0, 0),
            node(1, 1, 0),
            node(2, 2, 0),
            node(2, 3, 0),
            node(2, 2, 1),
            node(2, 3, 1),
        ]
    );
}

#[test]
fn every_wanted_node_has_a_wanted_parent_and_the_list_is_in_order() {
    let mut q = QuadtreeView::new(4096, 4, vec![0, 3000, 1500, 700, 300]).unwrap();
    for p in [at(0, 0), at(2048, 2048), at(4000, 100), at(-500, 5000), at(1234, 3210)] {
        q.update(p);
        let demand = q.compute_demand();
        assert_eq!(demand[0], node(0, 0, 0));
        for (i, n) in demand.iter().enumerate() {
            assert!(q.in_tree(n));
            if let Some(parent) = n.parent() {
                assert!(demand.contains(&parent));
                assert!(q.in_range(n));
            }
            if i > 0 {
                assert!(demand[i - 1].precedes(n));
            }
        }
    }
}

#[test]
fn node_at_finds_the_node_nearest_to_a_position() {
    let q = view(vec![0, 0, 0]);
    assert_eq!(q.node_at(at(0, 0), 2), Some(node(2, 0, 0)));
    assert_eq!(q.node_at(at(255, 256), 2), Some(node(2, 0, 1)));
    assert_eq!(q.node_at(at(1023, 511), 1), Some(node(1, 1, 0)));
    assert_eq!(q.node_at(at(5000, -7), 2), Some(node(2, 3, 0)));
    assert_eq!(q.node_at(at(i64::MIN, i64::MAX), 2), Some(node(2, 0, 3)));
    assert_eq!(q.node_at(at(700, 700), 0), Some(node(0, 0, 0)));
    assert_eq!(q.node_at(at(700, 700), 3), None);
    assert_eq!(q.node_size(3), None);
    assert!(!q.in_range(&node(3, 0, 0)));
    let q = QuadtreeView::new(1001, 2, vec![0, 0, 0]).unwrap();
    assert_eq!(q.node_at(at(1000, 250), 2), Some(node(2, 3, 0)));
    assert_eq!(q.node_at(at(2000, 251), 2), Some(node(2, 3, 1)));
}

#[test]
fn hold_records_nodes_of_the_tree_only() {
    let mut q = view(vec![0, 0, 0]);
    q.hold(node(1, 1, 1));
    q.hold(node(1, 1, 1));
    q.hold(node(3, 0, 0));
    q.hold(node(1, 2, 0));
    assert_eq!(q.requested(), vec![node(1, 1, 1)]);
    assert!(q.is_requested(node(1, 1, 1)));
    assert!(!q.is_requested(node(3, 0, 0)));
}

#[test]
fn promote_needs_a_request_and_forget_demotes() {
    let mut q = view(vec![0, 0, 0]);
    q.promote(node(0, 0, 0));
    assert!(!q.is_active(node(0, 0, 0)));
    q.hold(node(0, 0, 0));
    q.hold(node(1, 0, 0));
    q.promote(node(0, 0, 0));
    q.promote(node(1, 0, 0));
    q.promote(node(1, 0, 0));
    assert_eq!(q.active(), vec![node(0, 0, 0), node(1, 0, 0)]);
    q.demote(node(0, 0, 0));
    assert_eq!(q.active(), vec![node(1, 0, 0)]);
    assert!(q.is_requested(node(0, 0, 0)));
    q.forget(node(1, 0, 0));
    assert_eq!(q.active(), vec![]);
    assert_eq!(q.requested(), vec![node(0, 0, 0)]);
    q.forget(node(2, 0, 0));
    assert_eq!(q.requested(), vec![node(0, 0, 0)]);
}

#[test]
fn query_returns_the_deepest_active_node() {
    let mut q = view(vec![0, 0, 0]);
    let p = at(300, 40);
    assert_eq!(q.query(p), None);
    q.hold(node(0, 0, 0));
    q.hold(node(1, 0, 0));
    q.hold(node(2, 1, 0));
    assert_eq!(q.query(p), None);
    q.promote(node(0, 0, 0));
    assert_eq!(q.query(p), Some(node(0, 0, 0)));
    q.promote(node(2, 1, 0));
    assert_eq!(q.query(p), Some(node(2, 1, 0)));
    assert_eq!(q.query(at(200, 40)), Some(node(0, 0, 0)));
    q.demote(node(2, 1, 0));
    q.promote(node(1, 0, 0));
    assert_eq!(q.query(p), Some(node(1, 0, 0)));
    assert_eq!(q.query(at(600, 40)), Some(node(0, 0, 0)));
    q.demote(node(0, 0, 0));
    assert_eq!(q.query(p), Some(node(1, 0, 0)));
    assert_eq!(q.query(at(600, 40)), None);
}

#[test]
fn query_finds_a_node_everywhere_while_the_root_is_active() {
    let mut q = view(vec![0, 0, 0]);
    q.hold(node(0, 0, 0));
    q.promote(node(0, 0, 0));
    for p in [at(0, 0), at(1023, 1023), at(-1, 2000), at(i64::MAX, i64::MIN), at(512, 512)] {
        assert_eq!(q.query(p), Some(node(0, 0, 0)));
    }
}

#[test]
fn query_falls_back_to_the_nearest_active_ancestor() {
    let mut q = QuadtreeView::new(1024, 3, vec![0, 0, 0, 0]).unwrap();
    for n in [node(0, 0, 0), node(1, 1, 1), node(2, 3, 2), node(3, 7, 5)] {
        q.hold(n);
    }
    let p = at(1000, 700);
    assert_eq!(q.node_at(p, 3), Some(node(3, 7, 5)));
    q.promote(node(0, 0, 0));
    q.promote(node(1, 1, 1));
    assert_eq!(q.query(p), Some(node(1, 1, 1)));
    q.promote(node(2, 3, 2));
    assert_eq!(q.query(p), Some(node(2, 3, 2)));
    q.promote(node(3, 7, 5));
    assert_eq!(q.query(p), Some(node(3, 7, 5)));
    q.demote(node(3, 7, 5));
    q.demote(node(2, 3, 2));
    assert_eq!(q.query(p), Some(node(1, 1, 1)));
}

#[test]
fn adjust_takes_the_active_nodes_from_the_atlas() {
    let mut atlas = NodeAtlas::new(4, 1).unwrap();
    let mut q = view(vec![0, 0, 0]);
    for n in [node(0, 0, 0), node(1, 0, 0), node(2, 0, 0)] {
        atlas.request(n, 1).unwrap();
        q.hold(n);
    }
    atlas.request(node(1, 1, 1), 1).unwrap();
    atlas.complete(node(1, 1, 1), 0);
    atlas.complete(node(0, 0, 0), 0);
    atlas.complete(node(2, 0, 0), 0);
    q.promote(node(1, 0, 0));
    q.adjust(&atlas);
    assert_eq!(q.active(), vec![node(0, 0, 0), node(2, 0, 0)]);
    assert_eq!(q.requested(), vec![node(0, 0, 0), node(1, 0, 0), node(2, 0, 0)]);
    assert_eq!(q.query(at(10, 10)), Some(node(2, 0, 0)));
}
