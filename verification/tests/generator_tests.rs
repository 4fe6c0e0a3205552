use simulation_curator::nes_simulation::{FixedTopology, ISQPEventAction, SimulatedReconnects};
use simulation_curator::synthetic_topology_change_generator::MobileDeviceQuadrants;
use std::time::SystemTime;

#[test]
fn test_json_output() {
    let mut mdq = MobileDeviceQuadrants::populate(4, 3, 1, 100);
    println!("{:?}", mdq);
    let isqp_events = mdq.rotate_devices(2);
    println!("{:?}", isqp_events);
    println!("{:?}", mdq);
}

#[test]
fn test_artifical_data_generation() {
    let mdq = MobileDeviceQuadrants::populate(4, 4, 1, 100);
    let topology = FixedTopology::from_quadrants(&mdq, 1);
    println!("{:?}", topology);
    let source_groups = mdq.compute_source_groups(1);
    println!("{:?}", source_groups);
    let simulated_reconnects = SimulatedReconnects::from_mobile_device_quadrants(
        mdq,
        6_000,
        2_000,
        2,
    );
    println!("{:?}", simulated_reconnects.initial_parents);
    println!("{:?}", simulated_reconnects.topology_updates);
}

#[test]
fn test_list() {
    let mdq = MobileDeviceQuadrants::populate(4, 4, 1, 100);
    println!("{:?}", mdq);
    let isqp_events = mdq.get_update_vector(6_000, 2_000, 2);
    println!("{:?}", isqp_events);
}

#[test]
fn test_time() {
    let now = SystemTime::now();
    let epoch_now = now.duration_since(SystemTime::UNIX_EPOCH).unwrap();
    println!("{:?}", epoch_now);
    println!("{:?}", now);
}

#[test]
fn populate_lays_out_ids() {
    let mdq = MobileDeviceQuadrants::populate(3, 2, 10, 50);
    assert_eq!(mdq.quadrant_map.len(), 3);
    let keys: Vec<u64> = mdq.quadrant_map.iter().map(|q| q.0).collect();
    assert_eq!(keys, vec![10, 11, 12]);
    let devices: Vec<Vec<u64>> = mdq
        .quadrant_map
        .iter()
        .map(|q| q.1.iter().map(|d| d.device_id).collect())
        .collect();
    assert_eq!(devices, vec![vec![50, 51], vec![52, 53], vec![54, 55]]);
}

#[test]
fn rotation_moves_devices_one_quadrant_down() {
    let mut mdq = MobileDeviceQuadrants::populate(4, 3, 1, 100);
    let events = mdq.rotate_devices(2);
    // two devices leave each of the four quadrants; each move is one
    // (remove, add) pair
    assert_eq!(events.len(), 16);
    for pair in events.chunks(2) {
        assert_eq!(pair[0].action, ISQPEventAction::remove);
        assert_eq!(pair[1].action, ISQPEventAction::add);
        assert_eq!(pair[0].child_id, pair[1].child_id);
    }
    // the first placement happens one quadrant below the highest: devices
    // 109 and 110 move from quadrant 4 to quadrant 3
    assert_eq!(events[0].parent_id, 4);
    assert_eq!(events[0].child_id, 109);
    assert_eq!(events[1].parent_id, 3);
    assert_eq!(events[1].child_id, 109);
    // the lowest quadrant's movers wrap to the highest
    assert_eq!(events[12].parent_id, 1);
    assert_eq!(events[12].child_id, 100);
    assert_eq!(events[13].parent_id, 4);
    // the quadrants keep their ids and the devices are all still there
    let keys: Vec<u64> = mdq.quadrant_map.iter().map(|q| q.0).collect();
    assert_eq!(keys, vec![1, 2, 3, 4]);
    let total: usize = mdq.quadrant_map.iter().map(|q| q.1.len()).sum();
    assert_eq!(total, 12);
}

#[test]
fn update_vector_ticks_by_interval() {
    let mdq = MobileDeviceQuadrants::populate(2, 2, 1, 100);
    let updates = mdq.get_update_vector(5_000, 2_000, 1);
    assert_eq!(updates.len(), 3);
    let stamps: Vec<u64> = updates.iter().map(|u| u.timestamp).collect();
    assert_eq!(stamps, vec![0, 2_000, 4_000]);
}

#[test]
fn initial_update_lists_every_device() {
    let mdq = MobileDeviceQuadrants::populate(2, 2, 1, 100);
    assert_eq!(mdq.get_initial_update(), vec![(1, 100), (1, 101), (2, 102), (2, 103)]);
}

#[test]
fn source_groups_shift_quadrant_ids() {
    let mdq = MobileDeviceQuadrants::populate(2, 2, 2, 100);
    let groups = mdq.compute_source_groups(1);
    assert_eq!(
        groups,
        vec![(100, vec![1]), (101, vec![1]), (102, vec![2]), (103, vec![2])]
    );
}

#[test]
fn default_location_topology_counts_from_zero() {
    let t = FixedTopology::create_single_fog_layer_topology_with_default_location(3, 9);
    let ids: Vec<u64> = t.nodes.iter().map(|n| n.0).collect();
    assert_eq!(ids, vec![0, 1, 2]);
    assert!(t.slots.iter().all(|s| s.1 == 9));
    assert!(t.children.iter().all(|c| c.1.is_empty()));
}

#[test]
fn quadrant_topology_shifts_ids() {
    let mdq = MobileDeviceQuadrants::populate(3, 1, 2, 100);
    let t = FixedTopology::from_quadrants(&mdq, 1);
    let ids: Vec<u64> = t.nodes.iter().map(|n| n.0).collect();
    assert_eq!(ids, vec![1, 2, 3]);
    assert!(t.slots.iter().all(|s| s.1 == u16::MAX));
}
