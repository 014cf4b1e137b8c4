use bevy_terrain::atlas::{
    AttachmentData, Eviction, LoadEvent, LoadRequest, LoadStatus, Progress, SlotState,
};
use bevy_terrain::driver::StreamingDriver;
use bevy_terrain::error::TerrainError;
use bevy_terrain::node::NodeId;
use bevy_terrain::quadtree::WorldPos;

fn node(lod: u8, x: u32, y: u32) -> NodeId {
    NodeId { lod, x, y }
}

fn at(x: i64, y: i64) -> WorldPos {
    WorldPos { x, y }
}

fn ready(node: NodeId) -> LoadEvent {
    LoadEvent { node, attachment: 0, status: LoadStatus::Ready }
}

fn failure(node: NodeId, attachment: usize, reason: &str) -> LoadEvent {
    LoadEvent { node, attachment, status: LoadStatus::Failed(reason.to_string()) }
}

fn loaded(requests: &[LoadRequest]) -> Vec<LoadEvent> {
    requests.iter().map(|r| ready(r.node)).collect()
}

#[test]
fn a_driver_needs_a_terrain_and_an_atlas() {
    assert_eq!(StreamingDriver::new(0, 2, 4, 1).err(), Some(TerrainError::InvalidConfiguration));
    assert_eq!(StreamingDriver::new(8, 33, 4, 1).err(), Some(TerrainError::InvalidConfiguration));
    assert_eq!(StreamingDriver::new(8, 2, 0, 1).err(), Some(TerrainError::InvalidConfiguration));
    assert_eq!(StreamingDriver::new(8, 2, 4, 0).err(), Some(TerrainError::InvalidConfiguration));
    let mut driver = StreamingDriver::new(8, 2, 4, 1).unwrap();
    assert_eq!(driver.view_count(), 0);
    assert_eq!(driver.add_view(vec![1, 1]), Err(TerrainError::InvalidConfiguration));
    assert_eq!(driver.add_view(vec![1, 1, 1]), Ok(0));
    assert_eq!(driver.add_view(vec![2, 2, 2]), Ok(1));
    assert_eq!(driver.view_count(), 2);
    assert_eq!(driver.atlas().capacity(), 4);
    assert!(driver.quadtree(1).is_some());
    assert!(driver.quadtree(2).is_none());
    assert!(driver.update_view(1, at(3, 4)));
    assert!(!driver.update_view(2, at(3, 4)));
    assert_eq!(driver.quadtree(1).unwrap().viewer(), at(3, 4));
    assert_eq!(driver.stream(2, 1), vec![]);
    assert_eq!(driver.request_level(2, 0, 1), vec![]);
    driver.release_unwanted(2, 1);
    assert_eq!(driver.query(2, at(0, 0)), None);
    assert_eq!(driver.best_available(2, at(0, 0)), None);
    assert_eq!(driver.atlas().resident_count(), 0);
}

#[test]
fn far_viewer_requests_only_the_root() {
    let mut driver = StreamingDriver::new(1024, 2, 4, 1).unwrap();
    let view = driver.add_view(vec![0, 100, 50]).unwrap();
    driver.update_view(view, at(1_000_000, 1_000_000));

    let report = driver.tick(vec![], 1);
    assert_eq!(report.loads, vec![LoadRequest { node: node(0, 0, 0), slot: 0 }]);
    assert!(report.refused.is_empty());
    assert!(report.evictions.is_empty());
    assert!(report.failed.is_empty());
    assert_eq!(driver.quadtree(view).unwrap().requested(), vec![node(0, 0, 0)]);
    assert_eq!(driver.atlas().state_of(node(0, 0, 0)), SlotState::Loading);
    assert_eq!(driver.query(view, at(10, 10)), None);

    let report = driver.tick(vec![ready(node(0, 0, 0))], 2);
    assert!(report.loads.is_empty());
    assert!(driver.atlas().is_active(node(0, 0, 0)));
    assert_eq!(driver.atlas().resident_count(), 1);
    assert_eq!(driver.quadtree(view).unwrap().active(), vec![node(0, 0, 0)]);
    assert_eq!(driver.query(view, at(10, 10)), Some(node(0, 0, 0)));
    assert_eq!(driver.query(view, at(-5, 5000)), Some(node(0, 0, 0)));
}

#[test]
fn exhaustion_is_resolved_by_eviction_in_the_next_tick() {
    let mut driver = StreamingDriver::new(1024, 2, 4, 1).unwrap();
    let other = driver.add_view(vec![0, 100, 50]).unwrap();
    let viewer = driver.add_view(vec![0, 100, 5]).unwrap();
    driver.update_view(other, at(1000, 1000));
    driver.update_view(viewer, at(-10, 10));

    let report = driver.tick(vec![], 1);
    assert_eq!(
        report.loads.iter().map(|l| l.node).collect::<Vec<_>>(),
        vec![node(0, 0, 0), node(1, 1, 1), node(1, 0, 0), node(2, 3, 3)]
    );
    assert!(report.refused.is_empty());
    let report = driver.tick(loaded(&report.loads), 2);
    assert!(report.loads.is_empty());
    assert_eq!(driver.atlas().resident_count(), 4);
    assert_eq!(driver.atlas().refs_of(node(0, 0, 0)), 2);
    assert_eq!(driver.query(viewer, at(0, 10)), Some(node(1, 0, 0)));

    let leaf = node(2, 0, 0);
    driver.update_view(viewer, at(-3, 10));
    let report = driver.tick(vec![], 3);
    assert_eq!(report.refused, vec![leaf]);
    assert!(report.loads.is_empty());
    assert!(report.evictions.is_empty());
    assert_eq!(driver.atlas().state_of(leaf), SlotState::Free);
    assert_eq!(driver.query(viewer, at(0, 10)), Some(node(1, 0, 0)));

    driver.update_view(other, at(1_000_000, 1_000_000));
    let report = driver.tick(vec![], 4);
    assert!(report.refused.is_empty());
    assert_eq!(report.evictions, vec![Eviction { node: node(1, 1, 1), slot: 1 }]);
    assert_eq!(report.loads, vec![LoadRequest { node: leaf, slot: 1 }]);
    assert_eq!(driver.atlas().state_of(leaf), SlotState::Loading);
    assert!(driver.atlas().is_active(node(2, 3, 3)));
    assert_eq!(driver.atlas().refs_of(node(2, 3, 3)), 0);
    assert_eq!(driver.query(viewer, at(0, 10)), Some(node(1, 0, 0)));

    let report = driver.tick(loaded(&report.loads), 5);
    assert!(report.loads.is_empty());
    assert!(driver.atlas().is_active(leaf));
    assert_eq!(driver.query(viewer, at(0, 10)), Some(leaf));
    assert_eq!(driver.query(other, at(1000, 1000)), Some(node(0, 0, 0)));
}

#[test]
fn a_node_that_two_viewers_hold_survives_the_release_by_one() {
    let mut driver = StreamingDriver::new(1024, 1, 2, 1).unwrap();
    let a = driver.add_view(vec![0, 10]).unwrap();
    let b = driver.add_view(vec![0, 10]).unwrap();
    let shared = node(1, 0, 0);
    driver.update_view(a, at(100, 100));
    driver.update_view(b, at(200, 200));
    let report = driver.tick(vec![], 1);
    assert_eq!(report.loads.len(), 2);
    driver.tick(loaded(&report.loads), 2);
    assert_eq!(driver.atlas().refs_of(shared), 2);

    driver.update_view(a, at(900, 100));
    let report = driver.tick(vec![], 3);
    assert_eq!(report.refused, vec![node(1, 1, 0)]);
    assert!(report.evictions.is_empty());
    assert_eq!(driver.atlas().refs_of(shared), 1);
    assert!(driver.atlas().is_active(shared));
    assert!(!driver.quadtree(a).unwrap().is_requested(shared));
    assert!(driver.quadtree(b).unwrap().is_active(shared));
    assert_eq!(driver.query(b, at(200, 200)), Some(shared));
    assert_eq!(driver.query(a, at(900, 100)), Some(node(0, 0, 0)));

    driver.update_view(b, at(5000, 5000));
    let report = driver.tick(vec![], 4);
    assert!(report.refused.is_empty());
    assert_eq!(report.evictions, vec![Eviction { node: shared, slot: 1 }]);
    assert_eq!(report.loads, vec![LoadRequest { node: node(1, 1, 0), slot: 1 }]);
    assert!(!driver.atlas().is_resident(shared));
    assert_eq!(driver.query(b, at(200, 200)), Some(node(0, 0, 0)));
}

#[test]
fn a_tick_serves_the_coarser_nodes_of_all_viewers_first() {
    let mut driver = StreamingDriver::new(1024, 2, 4, 1).unwrap();
    let a = driver.add_view(vec![0, 100, 50]).unwrap();
    let b = driver.add_view(vec![0, 100, 50]).unwrap();
    driver.update_view(a, at(10, 10));
    driver.update_view(b, at(1000, 1000));
    let report = driver.tick(vec![], 1);
    assert_eq!(
        report.loads.iter().map(|l| l.node).collect::<Vec<_>>(),
        vec![node(0, 0, 0), node(1, 0, 0), node(1, 1, 1), node(2, 0, 0)]
    );
    assert_eq!(report.refused, vec![node(2, 3, 3)]);
    assert_eq!(driver.quadtree(b).unwrap().requested(), vec![node(0, 0, 0), node(1, 1, 1)]);
    assert_eq!(
        driver.quadtree(a).unwrap().requested(),
        vec![node(0, 0, 0), node(1, 0, 0), node(2, 0, 0)]
    );
}

#[test]
fn a_tick_releases_for_all_viewers_before_it_requests() {
    let mut driver = StreamingDriver::new(1024, 1, 2, 1).unwrap();
    let a = driver.add_view(vec![0, 10]).unwrap();
    let b = driver.add_view(vec![0, 10]).unwrap();
    driver.update_view(a, at(5000, 5000));
    driver.update_view(b, at(900, 900));
    let report = driver.tick(vec![], 1);
    driver.tick(loaded(&report.loads), 2);
    assert_eq!(driver.query(b, at(900, 900)), Some(node(1, 1, 1)));

    driver.update_view(a, at(100, 100));
    driver.update_view(b, at(5000, 5000));
    let report = driver.tick(vec![], 3);
    assert!(report.refused.is_empty());
    assert_eq!(report.evictions, vec![Eviction { node: node(1, 1, 1), slot: 1 }]);
    assert_eq!(report.loads, vec![LoadRequest { node: node(1, 0, 0), slot: 1 }]);
}

#[test]
fn coarser_nodes_are_served_first_when_slots_run_out() {
    let mut driver = StreamingDriver::new(1024, 2, 3, 1).unwrap();
    let view = driver.add_view(vec![0, 600, 200]).unwrap();
    driver.update_view(view, at(100, 100));
    let refused = driver.stream(view, 1);
    assert_eq!(
        driver.quadtree(view).unwrap().requested(),
        vec![node(0, 0, 0), node(1, 0, 0), node(1, 1, 0)]
    );
    assert_eq!(
        refused,
        vec![node(1, 0, 1), node(1, 1, 1), node(2, 0, 0), node(2, 1, 0), node(2, 0, 1)]
    );
    assert_eq!(driver.atlas().resident_count(), 3);
}

#[test]
fn stream_gives_up_what_is_not_wanted_any_more() {
    let mut driver = StreamingDriver::new(1024, 2, 8, 1).unwrap();
    let view = driver.add_view(vec![0, 100, 50]).unwrap();
    driver.update_view(view, at(10, 10));
    assert_eq!(driver.stream(view, 1), vec![]);
    assert_eq!(
        driver.quadtree(view).unwrap().requested(),
        vec![node(0, 0, 0), node(1, 0, 0), node(2, 0, 0)]
    );
    driver.update_view(view, at(1000, 10));
    assert_eq!(driver.stream(view, 2), vec![]);
    assert_eq!(
        driver.quadtree(view).unwrap().requested(),
        vec![node(0, 0, 0), node(1, 1, 0), node(2, 3, 0)]
    );
    assert_eq!(driver.atlas().refs_of(node(1, 0, 0)), 0);
    assert_eq!(driver.atlas().refs_of(node(0, 0, 0)), 1);
    assert_eq!(driver.atlas().refs_of(node(2, 3, 0)), 1);
    assert_eq!(driver.atlas().resident_count(), 5);
    assert_eq!(driver.stream(view, 3), vec![]);
    assert_eq!(driver.atlas().refs_of(node(0, 0, 0)), 1);
}

#[test]
fn a_failed_load_is_reported_and_asked_for_again() {
    let mut driver = StreamingDriver::new(1024, 1, 4, 2).unwrap();
    let view = driver.add_view(vec![0, 10]).unwrap();
    driver.update_view(view, at(100, 100));
    let report = driver.tick(vec![], 1);
    assert_eq!(report.loads.len(), 2);
    let child = node(1, 0, 0);
    let events = vec![
        LoadEvent { node: node(0, 0, 0), attachment: 0, status: LoadStatus::Ready },
        LoadEvent { node: node(0, 0, 0), attachment: 1, status: LoadStatus::Pending },
        LoadEvent { node: child, attachment: 0, status: LoadStatus::Ready },
        failure(child, 1, "no such file"),
        failure(node(1, 1, 1), 0, "late"),
    ];
    let report = driver.tick(events, 2);
    assert_eq!(report.failed, vec![child]);
    assert_eq!(report.loads, vec![LoadRequest { node: child, slot: 1 }]);
    assert_eq!(driver.atlas().state_of(child), SlotState::Loading);
    assert_eq!(driver.atlas().state_of(node(0, 0, 0)), SlotState::Loading);
    assert_eq!(driver.query(view, at(100, 100)), None);

    let events = vec![
        LoadEvent { node: node(0, 0, 0), attachment: 1, status: LoadStatus::Ready },
        LoadEvent { node: child, attachment: 1, status: LoadStatus::Ready },
    ];
    driver.tick(events, 3);
    assert_eq!(driver.query(view, at(100, 100)), Some(node(0, 0, 0)));
    assert_eq!(driver.atlas().state_of(child), SlotState::Loading);
    driver.tick(vec![LoadEvent { node: child, attachment: 0, status: LoadStatus::Ready }], 4);
    assert_eq!(driver.query(view, at(100, 100)), Some(child));
}

#[test]
fn the_best_available_data_is_that_of_the_node_of_the_query() {
    let mut driver = StreamingDriver::new(1024, 1, 4, 3).unwrap();
    let view = driver.add_view(vec![0, 10]).unwrap();
    driver.update_view(view, at(900, 100));
    driver.tick(vec![], 1);
    assert_eq!(driver.best_available(view, at(900, 100)), None);
    for attachment in 0..3 {
        driver.complete(node(0, 0, 0), attachment);
    }
    let root = AttachmentData { slot: 0, attachments: 3 };
    assert_eq!(driver.best_available(view, at(900, 100)), Some((node(0, 0, 0), root)));
    for attachment in 0..3 {
        driver.complete(node(1, 1, 0), attachment);
    }
    let child = AttachmentData { slot: 1, attachments: 3 };
    assert_eq!(driver.best_available(view, at(900, 100)), Some((node(1, 1, 0), child)));
    assert_eq!(driver.best_available(view, at(100, 100)), Some((node(0, 0, 0), root)));
}

#[test]
fn apply_reports_progress_and_failure() {
    let mut driver = StreamingDriver::new(1024, 1, 4, 1).unwrap();
    let view = driver.add_view(vec![0, 10]).unwrap();
    driver.update_view(view, at(100, 100));
    driver.stream(view, 1);
    let root = node(0, 0, 0);
    let pending = LoadEvent { node: root, attachment: 0, status: LoadStatus::Pending };
    assert_eq!(driver.apply(pending), Ok(Progress::Pending));
    assert_eq!(driver.apply(ready(root)), Ok(Progress::Activated));
    assert!(driver.quadtree(view).unwrap().is_active(root));
    assert_eq!(driver.apply(ready(root)), Ok(Progress::Ignored));
    assert_eq!(driver.apply(failure(root, 0, "gone")), Ok(Progress::Ignored));
    assert_eq!(
        driver.apply(failure(node(1, 0, 0), 0, "gone")),
        Err(TerrainError::LoadFailed("gone".to_string()))
    );
    assert!(!driver.quadtree(view).unwrap().is_requested(node(1, 0, 0)));
    assert!(!driver.atlas().is_resident(node(1, 0, 0)));
    assert_eq!(driver.atlas().refs_of(root), 1);
}

#[test]
fn complete_promotes_for_every_viewer_that_holds_the_node() {
    let mut driver = StreamingDriver::new(1024, 1, 4, 1).unwrap();
    let a = driver.add_view(vec![0, 10]).unwrap();
    let b = driver.add_view(vec![0, 10]).unwrap();
    driver.update_view(a, at(100, 100));
    driver.update_view(b, at(900, 900));
    driver.stream(a, 1);
    driver.stream(b, 1);
    assert_eq!(driver.complete(node(1, 0, 0), 0), Progress::Activated);
    assert!(driver.quadtree(a).unwrap().is_active(node(1, 0, 0)));
    assert!(!driver.quadtree(b).unwrap().is_active(node(1, 0, 0)));
    assert_eq!(driver.complete(node(0, 0, 0), 0), Progress::Activated);
    assert!(driver.quadtree(a).unwrap().is_active(node(0, 0, 0)));
    assert!(driver.quadtree(b).unwrap().is_active(node(0, 0, 0)));
    assert!(driver.fail(node(1, 1, 1)));
    assert!(!driver.fail(node(1, 1, 1)));
    driver.adjust();
    assert_eq!(driver.quadtree(b).unwrap().active(), vec![node(0, 0, 0)]);
    assert_eq!(driver.quadtree(b).unwrap().requested(), vec![node(0, 0, 0)]);
}

#[test]
fn queries_never_answer_with_a_node_that_is_not_active() {
    let mut driver = StreamingDriver::new(4096, 3, 6, 1).unwrap();
    let a = driver.add_view(vec![0, 2000, 900, 400]).unwrap();
    let b = driver.add_view(vec![0, 2000, 900, 400]).unwrap();
    let path = [at(100, 100), at(3000, 100), at(3000, 3000), at(-100, 4000), at(2048, 2048)];
    let mut pending: Vec<LoadRequest> = vec![];
    for (step, p) in path.iter().enumerate() {
        driver.update_view(a, *p);
        driver.update_view(b, path[path.len() - 1 - step]);
        for round in 0..3u64 {
            let report = driver.tick(loaded(&pending), 3 * step as u64 + round);
            pending = report.loads;
            assert!(driver.atlas().resident_count() <= 6);
            for v in [a, b] {
                for q in path.iter() {
                    if let Some(n) = driver.query(v, *q) {
                        assert!(driver.atlas().is_active(n));
                        assert!(driver.quadtree(v).unwrap().is_requested(n));
                    }
                }
                for n in driver.quadtree(v).unwrap().active() {
                    assert!(driver.atlas().is_active(n));
                }
            }
            for e in report.evictions.iter() {
                for v in [a, b] {
                    assert!(!driver.quadtree(v).unwrap().is_active(e.node));
                }
            }
        }
    }
}
