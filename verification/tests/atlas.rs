use bevy_terrain::atlas::{
    AttachmentData, Eviction, LoadRequest, Progress, Request, SlotState,
};
use bevy_terrain::error::TerrainError;
use bevy_terrain::node::NodeId;
use bevy_terrain::node_atlas::NodeAtlas;

fn node(lod: u8, x: u32, y: u32) -> NodeId {
    NodeId { lod, x, y }
}

fn loaded(atlas: &mut NodeAtlas, n: NodeId, now: u64) {
    assert!(atlas.request(n, now).is_ok());
    for a in 0..atlas.attachment_count() {
        atlas.complete(n, a);
    }
    assert!(atlas.is_active(n));
}

#[test]
fn an_atlas_needs_slots_and_attachments() {
    assert_eq!(NodeAtlas::new(0, 1).err(), Some(TerrainError::InvalidConfiguration));
    assert_eq!(NodeAtlas::new(1, 0).err(), Some(TerrainError::InvalidConfiguration));
    assert_eq!(NodeAtlas::new(0, 0).err(), Some(TerrainError::InvalidConfiguration));
    let atlas = NodeAtlas::new(3, 2).unwrap();
    assert_eq!(atlas.capacity(), 3);
    assert_eq!(atlas.attachment_count(), 2);
    assert_eq!(atlas.resident_count(), 0);
}

#[test]
fn a_request_reserves_the_first_free_slot() {
    let mut atlas = NodeAtlas::new(3, 1).unwrap();
    assert_eq!(atlas.request(node(1, 0, 0), 1), Ok(Request::Reserved { slot: 0 }));
    assert_eq!(atlas.request(node(1, 1, 0), 1), Ok(Request::Reserved { slot: 1 }));
    assert_eq!(atlas.state_of(node(1, 0, 0)), SlotState::Loading);
    assert_eq!(atlas.slot_of(node(1, 1, 0)), Some(1));
    assert_eq!(atlas.slot_of(node(1, 1, 1)), None);
    assert_eq!(atlas.state_of(node(1, 1, 1)), SlotState::Free);
    assert_eq!(atlas.refs_of(node(1, 0, 0)), 1);
    assert_eq!(atlas.refs_of(node(1, 1, 1)), 0);
    assert_eq!(atlas.resident_count(), 2);
    assert!(atlas.fail(node(1, 0, 0)));
    assert_eq!(atlas.request(node(1, 0, 1), 2), Ok(Request::Reserved { slot: 0 }));
}

#[test]
fn two_requests_before_completion_issue_one_load() {
    let mut atlas = NodeAtlas::new(2, 1).unwrap();
    let n = node(2, 1, 2);
    assert_eq!(atlas.request(n, 1), Ok(Request::Reserved { slot: 0 }));
    assert_eq!(atlas.request(n, 2), Ok(Request::Coalesced { slot: 0 }));
    assert_eq!(atlas.state_of(n), SlotState::Loading);
    assert_eq!(atlas.refs_of(n), 2);
    assert_eq!(atlas.take_load_queue(), vec![LoadRequest { node: n, slot: 0 }]);
    assert_eq!(atlas.request(n, 3), Ok(Request::Coalesced { slot: 0 }));
    assert_eq!(atlas.take_load_queue(), vec![]);
}

#[test]
fn the_atlas_never_holds_more_nodes_than_slots() {
    let mut atlas = NodeAtlas::new(3, 1).unwrap();
    for i in 0..8u32 {
        let n = node(3, i, 0);
        let _ = atlas.request(n, i as u64);
        atlas.complete(n, 0);
        atlas.release(n, i as u64);
        assert!(atlas.resident_count() <= atlas.capacity());
    }
    assert_eq!(atlas.resident_count(), 3);
}

#[test]
fn a_node_is_active_only_with_all_attachments() {
    let mut atlas = NodeAtlas::new(2, 3).unwrap();
    let n = node(1, 0, 1);
    atlas.request(n, 1).unwrap();
    assert_eq!(atlas.get(n), None);
    assert_eq!(atlas.complete(n, 2), Progress::Loading);
    assert_eq!(atlas.complete(n, 0), Progress::Loading);
    assert_eq!(atlas.complete(n, 0), Progress::Loading);
    assert!(!atlas.is_active(n));
    assert_eq!(atlas.get(n), None);
    assert_eq!(atlas.complete(n, 3), Progress::Ignored);
    assert_eq!(atlas.complete(n, 1), Progress::Activated);
    assert!(atlas.is_active(n));
    assert_eq!(atlas.state_of(n), SlotState::Active);
    assert_eq!(atlas.get(n), Some(AttachmentData { slot: 0, attachments: 3 }));
    assert_eq!(atlas.complete(n, 1), Progress::Ignored);
    assert_eq!(atlas.complete(node(1, 1, 1), 0), Progress::Ignored);
}

#[test]
fn a_full_atlas_with_every_node_held_is_exhausted() {
    let mut atlas = NodeAtlas::new(2, 1).unwrap();
    loaded(&mut atlas, node(1, 0, 0), 1);
    loaded(&mut atlas, node(1, 1, 0), 2);
    assert_eq!(atlas.request(node(1, 0, 1), 3), Err(TerrainError::AtlasExhausted));
    assert_eq!(atlas.resident_count(), 2);
    assert!(!atlas.is_resident(node(1, 0, 1)));
    assert_eq!(atlas.take_load_queue().len(), 2);
    assert_eq!(atlas.take_unload_queue(), vec![]);
}

#[test]
fn a_node_is_never_evicted_while_it_is_loading() {
    let mut atlas = NodeAtlas::new(1, 1).unwrap();
    let n = node(1, 0, 0);
    atlas.request(n, 1).unwrap();
    assert!(atlas.release(n, 2));
    assert_eq!(atlas.refs_of(n), 0);
    assert_eq!(atlas.request(node(1, 1, 1), 3), Err(TerrainError::AtlasExhausted));
    assert_eq!(atlas.complete(n, 0), Progress::Activated);
    assert_eq!(
        atlas.request(node(1, 1, 1), 4),
        Ok(Request::Replaced { slot: 0, evicted: n })
    );
    assert_eq!(atlas.take_unload_queue(), vec![Eviction { node: n, slot: 0 }]);
}

#[test]
fn the_least_recently_used_node_is_evicted_first() {
    let mut atlas = NodeAtlas::new(3, 1).unwrap();
    let a = node(2, 0, 0);
    let b = node(2, 1, 0);
    let c = node(2, 2, 0);
    loaded(&mut atlas, a, 1);
    loaded(&mut atlas, b, 2);
    loaded(&mut atlas, c, 3);
    assert!(atlas.release(b, 10));
    assert!(atlas.release(c, 11));
    assert!(atlas.release(a, 12));
    assert_eq!(atlas.request(node(2, 3, 3), 20), Ok(Request::Replaced { slot: 1, evicted: b }));
    assert_eq!(atlas.request(node(2, 3, 2), 21), Ok(Request::Replaced { slot: 2, evicted: c }));
    assert_eq!(atlas.request(node(2, 3, 1), 22), Ok(Request::Replaced { slot: 0, evicted: a }));
    assert_eq!(atlas.request(node(2, 3, 0), 23), Err(TerrainError::AtlasExhausted));
}

#[test]
fn equally_old_nodes_are_evicted_coarsest_first_then_by_slot() {
    let mut atlas = NodeAtlas::new(4, 1).unwrap();
    let fine = node(3, 0, 0);
    let coarse = node(1, 0, 0);
    let middle_a = node(2, 0, 0);
    let middle_b = node(2, 1, 0);
    loaded(&mut atlas, fine, 1);
    loaded(&mut atlas, middle_a, 1);
    loaded(&mut atlas, coarse, 1);
    loaded(&mut atlas, middle_b, 1);
    for n in [fine, middle_a, coarse, middle_b] {
        assert!(atlas.release(n, 5));
    }
    assert_eq!(
        atlas.request(node(3, 7, 7), 6),
        Ok(Request::Replaced { slot: 2, evicted: coarse })
    );
    assert_eq!(
        atlas.request(node(3, 7, 6), 6),
        Ok(Request::Replaced { slot: 1, evicted: middle_a })
    );
    assert_eq!(
        atlas.request(node(3, 7, 5), 6),
        Ok(Request::Replaced { slot: 3, evicted: middle_b })
    );
    assert_eq!(
        atlas.request(node(3, 7, 4), 6),
        Ok(Request::Replaced { slot: 0, evicted: fine })
    );
}

#[test]
fn release_by_one_holder_keeps_a_node_that_another_holds() {
    let mut atlas = NodeAtlas::new(1, 1).unwrap();
    let n = node(1, 0, 1);
    assert_eq!(atlas.request(n, 1), Ok(Request::Reserved { slot: 0 }));
    assert_eq!(atlas.request(n, 2), Ok(Request::Coalesced { slot: 0 }));
    assert_eq!(atlas.complete(n, 0), Progress::Activated);
    assert!(atlas.release(n, 3));
    assert_eq!(atlas.refs_of(n), 1);
    assert_eq!(atlas.request(node(1, 1, 1), 4), Err(TerrainError::AtlasExhausted));
    assert!(atlas.is_active(n));
    assert!(atlas.release(n, 5));
    assert_eq!(atlas.request(node(1, 1, 1), 6), Ok(Request::Replaced { slot: 0, evicted: n }));
}

#[test]
fn a_request_for_an_unreferenced_resident_node_revives_it() {
    let mut atlas = NodeAtlas::new(1, 1).unwrap();
    let n = node(1, 0, 0);
    loaded(&mut atlas, n, 1);
    assert!(atlas.release(n, 2));
    assert_eq!(atlas.request(n, 3), Ok(Request::Coalesced { slot: 0 }));
    assert!(atlas.is_active(n));
    assert_eq!(atlas.request(node(1, 1, 0), 4), Err(TerrainError::AtlasExhausted));
}

#[test]
fn release_counts_down_and_stops_at_zero() {
    let mut atlas = NodeAtlas::new(2, 1).unwrap();
    let n = node(1, 0, 0);
    assert!(!atlas.release(n, 1));
    atlas.request(n, 1).unwrap();
    atlas.request(n, 1).unwrap();
    assert!(atlas.release(n, 2));
    assert_eq!(atlas.refs_of(n), 1);
    assert!(atlas.release(n, 3));
    assert_eq!(atlas.refs_of(n), 0);
    assert!(!atlas.release(n, 4));
    assert!(atlas.is_resident(n));
}

#[test]
fn a_failed_load_frees_the_slot() {
    let mut atlas = NodeAtlas::new(2, 2).unwrap();
    let n = node(1, 0, 0);
    assert!(!atlas.fail(n));
    atlas.request(n, 1).unwrap();
    assert_eq!(atlas.complete(n, 0), Progress::Loading);
    assert!(atlas.fail(n));
    assert!(!atlas.is_resident(n));
    assert_eq!(atlas.state_of(n), SlotState::Free);
    assert_eq!(atlas.refs_of(n), 0);
    assert_eq!(atlas.complete(n, 1), Progress::Ignored);
    assert_eq!(atlas.request(n, 2), Ok(Request::Reserved { slot: 0 }));
    assert_eq!(atlas.complete(n, 1), Progress::Loading);
    assert_eq!(atlas.complete(n, 0), Progress::Activated);
    assert!(!atlas.fail(n));
    assert!(atlas.is_active(n));
}

#[test]
fn queues_are_handed_out_once() {
    let mut atlas = NodeAtlas::new(1, 1).unwrap();
    let a = node(1, 0, 0);
    let b = node(1, 1, 0);
    loaded(&mut atlas, a, 1);
    atlas.release(a, 2);
    atlas.request(b, 3).unwrap();
    assert_eq!(
        atlas.take_load_queue(),
        vec![LoadRequest { node: a, slot: 0 }, LoadRequest { node: b, slot: 0 }]
    );
    assert_eq!(atlas.take_unload_queue(), vec![Eviction { node: a, slot: 0 }]);
    assert_eq!(atlas.take_load_queue(), vec![]);
    assert_eq!(atlas.take_unload_queue(), vec![]);
    assert_eq!(atlas.state_of(b), SlotState::Loading);
}
