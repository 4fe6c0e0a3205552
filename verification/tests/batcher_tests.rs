use simulation_curator::cell_data::{CellKey, MultiTripAndCellData, RadioCell, RouteTrips, TripAndCellData};
use simulation_curator::gtfs::{Coord, PartialBlock, ShapePoint};
use simulation_curator::nes_simulation::{
    FixedTopology, ISQPEventAction, SimulatedReconnects,
};

fn coord(lat: i64, lon: i64) -> Coord {
    Coord { lat_micro: lat, lon_micro: lon }
}

fn cell(id: u64, mnc: u64) -> RadioCell {
    RadioCell { id, mnc, coord: coord(0, 0), range: 1_000_000 }
}

fn point(shape: &str, seq: u64, time_ms: Option<u64>) -> ShapePoint {
    ShapePoint {
        shape_id: String::from(shape),
        coord: coord(0, 0),
        shape_pt_sequence: seq,
        time: time_ms,
    }
}

fn one_vehicle(times: &[u64], cells: &[(u64, u64)]) -> MultiTripAndCellData {
    let points: Vec<ShapePoint> =
        times.iter().enumerate().map(|(i, t)| point("s1", i as u64, Some(*t))).collect();
    let cell_data: Vec<Option<CellKey>> =
        cells.iter().map(|(id, mnc)| Some(CellKey { id: *id, mnc: *mnc })).collect();
    let trip = TripAndCellData {
        trip: PartialBlock {
            block_id: String::from("b1"),
            route_id: String::from("r1"),
            stops: Vec::new(),
            shape_points: points,
        },
        cell_data,
    };
    MultiTripAndCellData {
        trips: vec![RouteTrips { route_id: String::from("r1"), trips: vec![trip] }],
        radio_cells: vec![cell(1, 1), cell(2, 1)],
    }
}

fn two_cell_world() -> (FixedTopology, Vec<(CellKey, u64)>) {
    let cells = vec![cell(2, 1), cell(1, 1)];
    FixedTopology::create_single_fog_layer(10, 100, &cells)
}

#[test]
fn scenario_unbatched_single_change() {
    // vehicle on cell A at 0s and 5s, cell B at 12s, no batching:
    // one update at 12000 ms holding remove(A, child) then add(B, child)
    let (topology, mapping) = two_cell_world();
    let data = one_vehicle(&[0, 5_000, 12_000], &[(1, 1), (1, 1), (2, 1)]);
    let (sim, trip_to_node, groups) = SimulatedReconnects::from_topology_and_cell_data(
        topology, data, mapping, 0, None, None, None,
    )
    .unwrap();
    assert!(groups.is_none());
    assert_eq!(sim.initial_parents, vec![(10, 12)]);
    assert_eq!(trip_to_node.len(), 1);
    assert_eq!(trip_to_node[0].0, String::from("b1"));
    assert_eq!(trip_to_node[0].1, 12);
    assert_eq!(sim.topology_updates.len(), 1);
    let update = &sim.topology_updates[0];
    assert_eq!(update.timestamp, 12_000);
    assert_eq!(update.events.len(), 2);
    assert_eq!(update.events[0].action, ISQPEventAction::remove);
    assert_eq!(update.events[0].parent_id, 10);
    assert_eq!(update.events[0].child_id, 12);
    assert_eq!(update.events[1].action, ISQPEventAction::add);
    assert_eq!(update.events[1].parent_id, 11);
    assert_eq!(update.events[1].child_id, 12);
}

#[test]
fn scenario_batched_single_change() {
    // same trace, batch window 20 s, gap 5 s: 12 s falls inside window
    // [0, 20s), so the one net change flushes at output timestamp 0
    let (topology, mapping) = two_cell_world();
    let data = one_vehicle(&[0, 5_000, 12_000], &[(1, 1), (1, 1), (2, 1)]);
    let (sim, _, _) = SimulatedReconnects::from_topology_and_cell_data(
        topology,
        data,
        mapping,
        0,
        Some(20_000),
        Some(5_000),
        None,
    )
    .unwrap();
    assert_eq!(sim.initial_parents, vec![(10, 12)]);
    assert_eq!(sim.topology_updates.len(), 1);
    let update = &sim.topology_updates[0];
    assert_eq!(update.timestamp, 0);
    assert_eq!(update.events.len(), 2);
    assert_eq!(update.events[0].action, ISQPEventAction::remove);
    assert_eq!(update.events[0].parent_id, 10);
    assert_eq!(update.events[1].action, ISQPEventAction::add);
    assert_eq!(update.events[1].parent_id, 11);
}

#[test]
fn scenario_batched_net_zero_window() {
    // the vehicle leaves cell A and returns to it within one batch window:
    // the window nets to zero events
    let (topology, mapping) = two_cell_world();
    let data = one_vehicle(&[0, 5_000, 12_000], &[(1, 1), (2, 1), (1, 1)]);
    let (sim, _, _) = SimulatedReconnects::from_topology_and_cell_data(
        topology,
        data,
        mapping,
        0,
        Some(20_000),
        Some(5_000),
        None,
    )
    .unwrap();
    assert_eq!(sim.initial_parents, vec![(10, 12)]);
    assert_eq!(sim.topology_updates.len(), 0);
}

#[test]
fn single_cell_vehicle_yields_no_updates() {
    // a vehicle resolved to one cell for its whole trace: zero updates and
    // exactly one initial-parents entry
    let (topology, mapping) = two_cell_world();
    let data = one_vehicle(&[0, 5_000, 12_000], &[(1, 1), (1, 1), (1, 1)]);
    let (sim, _, _) = SimulatedReconnects::from_topology_and_cell_data(
        topology, data, mapping, 0, None, None, None,
    )
    .unwrap();
    assert_eq!(sim.initial_parents, vec![(10, 12)]);
    assert_eq!(sim.topology_updates.len(), 0);

    // the same holds with batching on
    let (topology2, mapping2) = two_cell_world();
    let data2 = one_vehicle(&[0, 5_000, 42_000], &[(1, 1), (1, 1), (1, 1)]);
    let (sim2, _, _) = SimulatedReconnects::from_topology_and_cell_data(
        topology2, data2, mapping2, 0, Some(20_000), Some(5_000), None,
    )
    .unwrap();
    assert_eq!(sim2.initial_parents, vec![(10, 12)]);
    assert_eq!(sim2.topology_updates.len(), 0);
}

#[test]
fn batched_windows_advance_by_gap() {
    // changes in windows 0 and 2 (width 10 s), gap 500 ms: output
    // timestamps 0 and 1000
    let (topology, mapping) = two_cell_world();
    let data = one_vehicle(
        &[0, 5_000, 25_000, 27_000],
        &[(1, 1), (2, 1), (1, 1), (1, 1)],
    );
    let (sim, _, _) = SimulatedReconnects::from_topology_and_cell_data(
        topology,
        data,
        mapping,
        0,
        Some(10_000),
        Some(500),
        None,
    )
    .unwrap();
    assert_eq!(sim.topology_updates.len(), 2);
    assert_eq!(sim.topology_updates[0].timestamp, 0);
    assert_eq!(sim.topology_updates[0].events[0].action, ISQPEventAction::remove);
    assert_eq!(sim.topology_updates[0].events[0].parent_id, 10);
    assert_eq!(sim.topology_updates[0].events[1].parent_id, 11);
    assert_eq!(sim.topology_updates[1].timestamp, 1_000);
    assert_eq!(sim.topology_updates[1].events[0].parent_id, 11);
    assert_eq!(sim.topology_updates[1].events[1].parent_id, 10);
}

#[test]
fn missing_attachment_is_fatal() {
    let (topology, mapping) = two_cell_world();
    let mut data = one_vehicle(&[0, 5_000], &[(1, 1), (1, 1)]);
    data.trips[0].trips[0].cell_data[1] = None;
    let r = SimulatedReconnects::from_topology_and_cell_data(
        topology, data, mapping, 0, None, None, None,
    );
    assert_eq!(r.unwrap_err(), simulation_curator::SimulationError::MissingAttachment);
}

#[test]
fn empty_vehicle_is_reported() {
    let (topology, mapping) = two_cell_world();
    let data = one_vehicle(&[], &[]);
    let r = SimulatedReconnects::from_topology_and_cell_data(
        topology, data, mapping, 0, None, None, None,
    );
    assert_eq!(r.unwrap_err(), simulation_curator::SimulationError::EmptyWindow);
}

#[test]
fn source_groups_fill_route_by_route() {
    // 7 vehicles on one route, group size 3: groups [0,0,0,1,1,1,2]
    let mut trips = Vec::new();
    for i in 0..7u64 {
        trips.push(TripAndCellData {
            trip: PartialBlock {
                block_id: format!("b{}", i),
                route_id: String::from("r1"),
                stops: Vec::new(),
                shape_points: vec![point("s1", i, Some(i * 1_000))],
            },
            cell_data: vec![Some(CellKey { id: 1, mnc: 1 })],
        });
    }
    let routes = vec![RouteTrips { route_id: String::from("r1"), trips }];
    let placement = SimulatedReconnects::source_placement_from_blocks(&routes, 3);
    let got: Vec<(String, u64)> = placement;
    let expect: Vec<(String, u64)> = (0..7u64).map(|i| (format!("b{}", i), i / 3)).collect();
    assert_eq!(got, expect);
}

#[test]
fn source_groups_never_span_routes() {
    // 4 vehicles on one route and 2 on another, group size 3: the second
    // route starts a fresh group
    let mk = |route: &str, name: &str, seq: u64| TripAndCellData {
        trip: PartialBlock {
            block_id: String::from(name),
            route_id: String::from(route),
            stops: Vec::new(),
            shape_points: vec![point("s1", seq, Some(seq))],
        },
        cell_data: vec![Some(CellKey { id: 1, mnc: 1 })],
    };
    let routes = vec![
        RouteTrips {
            route_id: String::from("r1"),
            trips: vec![mk("r1", "a", 0), mk("r1", "b", 1), mk("r1", "c", 2), mk("r1", "d", 3)],
        },
        RouteTrips { route_id: String::from("r2"), trips: vec![mk("r2", "e", 0), mk("r2", "f", 1)] },
    ];
    let placement = SimulatedReconnects::source_placement_from_blocks(&routes, 3);
    let groups: Vec<u64> = placement.iter().map(|e| e.1).collect();
    assert_eq!(groups, vec![0, 0, 0, 1, 2, 2]);
}

#[test]
fn source_groups_order_vehicles_by_first_point() {
    // vehicles are ordered by the sequence number of their earliest point,
    // not by input order
    let mk = |name: &str, seq: u64| TripAndCellData {
        trip: PartialBlock {
            block_id: String::from(name),
            route_id: String::from("r1"),
            stops: Vec::new(),
            shape_points: vec![point("s1", seq, Some(0))],
        },
        cell_data: vec![Some(CellKey { id: 1, mnc: 1 })],
    };
    let routes = vec![RouteTrips {
        route_id: String::from("r1"),
        trips: vec![mk("late", 9), mk("early", 1), mk("mid", 5)],
    }];
    let placement = SimulatedReconnects::source_placement_from_blocks(&routes, 2);
    let names: Vec<String> = placement.iter().map(|e| e.0.clone()).collect();
    assert_eq!(names, vec![String::from("early"), String::from("mid"), String::from("late")]);
    let groups: Vec<u64> = placement.iter().map(|e| e.1).collect();
    assert_eq!(groups, vec![0, 0, 1]);
}

#[test]
fn node_groups_follow_placement() {
    // with a group size, each child node is mapped to its block's group
    let (topology, mapping) = two_cell_world();
    let data = one_vehicle(&[0, 5_000], &[(1, 1), (1, 1)]);
    let (_, _, groups) = SimulatedReconnects::from_topology_and_cell_data(
        topology,
        data,
        mapping,
        0,
        None,
        None,
        Some(3),
    )
    .unwrap();
    assert_eq!(groups, Some(vec![(12, vec![0])]));
}

fn two_vehicle_world(
    times_cells: &[(&str, Vec<u64>, Vec<(u64, u64)>)],
) -> MultiTripAndCellData {
    let trips = times_cells
        .iter()
        .map(|(name, times, cells)| TripAndCellData {
            trip: PartialBlock {
                block_id: String::from(*name),
                route_id: String::from("r1"),
                stops: Vec::new(),
                shape_points: times
                    .iter()
                    .enumerate()
                    .map(|(i, t)| point("s1", i as u64, Some(*t)))
                    .collect(),
            },
            cell_data: cells.iter().map(|(id, mnc)| Some(CellKey { id: *id, mnc: *mnc })).collect(),
        })
        .collect();
    MultiTripAndCellData {
        trips: vec![RouteTrips { route_id: String::from("r1"), trips }],
        radio_cells: vec![cell(1, 1), cell(2, 1)],
    }
}

#[test]
fn vehicles_changing_at_one_time_share_one_update() {
    let (topology, mapping) = two_cell_world();
    let data = two_vehicle_world(&[
        ("b1", vec![0, 12_000], vec![(1, 1), (2, 1)]),
        ("b2", vec![0, 12_000], vec![(2, 1), (1, 1)]),
    ]);
    let (sim, _, _) = SimulatedReconnects::from_topology_and_cell_data(
        topology, data, mapping, 0, None, None, None,
    )
    .unwrap();
    // children 12 and 13, both moving at 12000: one update with both pairs,
    // vehicles in processing order
    assert_eq!(sim.initial_parents, vec![(10, 12), (11, 13)]);
    assert_eq!(sim.topology_updates.len(), 1);
    let events = &sim.topology_updates[0].events;
    assert_eq!(events.len(), 4);
    assert_eq!((events[0].parent_id, events[0].child_id), (10, 12));
    assert_eq!((events[1].parent_id, events[1].child_id), (11, 12));
    assert_eq!((events[2].parent_id, events[2].child_id), (11, 13));
    assert_eq!((events[3].parent_id, events[3].child_id), (10, 13));
}

#[test]
fn updates_are_ordered_and_balanced() {
    // vehicles changing at different times: updates come out ascending, and
    // for each node, initial attachments plus adds minus removes equals the
    // vehicles ending there
    let (topology, mapping) = two_cell_world();
    let data = two_vehicle_world(&[
        ("b1", vec![0, 30_000], vec![(1, 1), (2, 1)]),
        ("b2", vec![0, 7_000], vec![(2, 1), (1, 1)]),
    ]);
    let (sim, _, _) = SimulatedReconnects::from_topology_and_cell_data(
        topology, data, mapping, 0, None, None, None,
    )
    .unwrap();
    let stamps: Vec<u64> = sim.topology_updates.iter().map(|u| u.timestamp).collect();
    assert_eq!(stamps, vec![7_000, 30_000]);
    for node in [10u64, 11u64] {
        let initial =
            sim.initial_parents.iter().filter(|(p, _)| *p == node).count() as i64;
        let adds = sim
            .topology_updates
            .iter()
            .flat_map(|u| u.events.iter())
            .filter(|e| e.parent_id == node && e.action == ISQPEventAction::add)
            .count() as i64;
        let removes = sim
            .topology_updates
            .iter()
            .flat_map(|u| u.events.iter())
            .filter(|e| e.parent_id == node && e.action == ISQPEventAction::remove)
            .count() as i64;
        // one vehicle ends at each node
        assert_eq!(initial + adds - removes, 1);
    }
}

#[test]
fn attachments_are_sorted_by_time_before_batching() {
    // shape points arrive out of time order (a wrapped block): the batcher
    // walks them by time, so the earliest point decides the initial parent
    let (topology, mapping) = two_cell_world();
    let data = one_vehicle(&[12_000, 0, 5_000], &[(2, 1), (1, 1), (1, 1)]);
    let (sim, _, _) = SimulatedReconnects::from_topology_and_cell_data(
        topology, data, mapping, 0, None, None, None,
    )
    .unwrap();
    assert_eq!(sim.initial_parents, vec![(10, 12)]);
    assert_eq!(sim.topology_updates.len(), 1);
    assert_eq!(sim.topology_updates[0].timestamp, 12_000);
}

#[test]
fn identical_inputs_give_identical_outputs() {
    let run = || {
        let (topology, mapping) = two_cell_world();
        let data = two_vehicle_world(&[
            ("b1", vec![0, 12_000, 31_000], vec![(1, 1), (2, 1), (1, 1)]),
            ("b2", vec![0, 7_000], vec![(2, 1), (1, 1)]),
        ]);
        SimulatedReconnects::from_topology_and_cell_data(
            topology,
            data,
            mapping,
            0,
            Some(10_000),
            Some(500),
            Some(2),
        )
        .unwrap()
    };
    let (sim1, nodes1, groups1) = run();
    let (sim2, nodes2, groups2) = run();
    assert_eq!(sim1.initial_parents, sim2.initial_parents);
    assert_eq!(nodes1, nodes2);
    assert_eq!(groups1, groups2);
    assert_eq!(sim1.topology_updates.len(), sim2.topology_updates.len());
    for (u1, u2) in sim1.topology_updates.iter().zip(sim2.topology_updates.iter()) {
        assert_eq!(u1.timestamp, u2.timestamp);
        assert_eq!(u1.events, u2.events);
    }
}

#[test]
fn topology_factory_orders_cells_by_id() {
    let cells = vec![cell(7, 2), cell(3, 1), cell(7, 1)];
    let (topology, mapping) = FixedTopology::create_single_fog_layer(100, 42, &cells);
    assert_eq!(
        mapping,
        vec![
            (CellKey { id: 3, mnc: 1 }, 100),
            (CellKey { id: 7, mnc: 1 }, 101),
            (CellKey { id: 7, mnc: 2 }, 102),
        ]
    );
    assert_eq!(topology.nodes.len(), 3);
    assert_eq!(topology.nodes[0].0, 100);
    assert_eq!(topology.slots[2], (102, 42));
    assert!(topology.children.iter().all(|c| c.1.is_empty()));
}
