//! Probe injection: id collisions are resolved to fresh distinct ids, and
//! every injected edge shows up on both endpoints.

use drone_harness::testing_initializer::{inject_test_nodes, PDRPolicy, TestNodeInstructions};
use drone_harness::topology::{
    ClientEntry, DroneEntry, DropRate, ServerEntry, TopologyDescription,
};

fn drone(id: u8, neighbors: Vec<u8>) -> DroneEntry {
    DroneEntry { id, pdr: DropRate::zero(), connected_node_ids: neighbors }
}

fn small_description() -> TopologyDescription {
    TopologyDescription {
        drones: vec![drone(1, vec![2]), drone(2, vec![1, 3]), drone(3, vec![2])],
        clients: vec![ClientEntry { id: 10, connected_drone_ids: vec![1] }],
        servers: vec![ServerEntry { id: 20, connected_drone_ids: vec![3] }],
    }
}

#[test]
fn explicit_free_id_is_kept() {
    let spec = TestNodeInstructions::with_node_id(40, vec![1]);
    let (out, resolved) = inject_test_nodes(small_description(), &vec![spec], &PDRPolicy::Zero);
    assert_eq!(resolved, vec![40]);
    assert_eq!(out.drones.len(), 4);
    assert_eq!(out.drones[3].id, 40);
    assert_eq!(out.drones[3].connected_node_ids, vec![1]);
}

#[test]
fn colliding_id_is_resolved_to_fresh_distinct_id() {
    let taken = [1u8, 2, 3, 10, 20];
    let spec_a = TestNodeInstructions::with_node_id(2, vec![1]);
    let spec_b = TestNodeInstructions::with_node_id(2, vec![3]);
    let (_, resolved) =
        inject_test_nodes(small_description(), &vec![spec_a, spec_b], &PDRPolicy::Zero);
    assert_eq!(resolved.len(), 2);
    for id in resolved.iter() {
        assert!(!taken.contains(id));
    }
    assert_ne!(resolved[0], resolved[1]);
}

#[test]
fn random_id_is_fresh() {
    for _ in 0..16 {
        let spec = TestNodeInstructions::with_random_id(vec![1]);
        let (_, resolved) = inject_test_nodes(small_description(), &vec![spec], &PDRPolicy::Zero);
        assert!(![1u8, 2, 3, 10, 20].contains(&resolved[0]));
    }
}

#[test]
fn injected_edges_are_bidirectional() {
    let spec = TestNodeInstructions::with_node_id(40, vec![1, 3, 10, 20]);
    let (out, resolved) = inject_test_nodes(small_description(), &vec![spec], &PDRPolicy::Zero);
    let probe = resolved[0];
    assert_eq!(probe, 40);
    // the probe lists every declared neighbor
    let probe_entry = &out.drones[3];
    for n in [1u8, 3, 10, 20] {
        assert!(probe_entry.connected_node_ids.contains(&n));
    }
    // every declared neighbor lists the probe in return
    assert!(out.drones[0].connected_node_ids.contains(&probe));
    assert!(out.drones[2].connected_node_ids.contains(&probe));
    assert!(out.clients[0].connected_drone_ids.contains(&probe));
    assert!(out.servers[0].connected_drone_ids.contains(&probe));
    // nodes the probe did not declare are left alone
    assert_eq!(out.drones[1].connected_node_ids, vec![1, 3]);
}

#[test]
fn second_probe_can_plug_into_first() {
    let first = TestNodeInstructions::with_node_id(40, vec![1]);
    let second = TestNodeInstructions::with_node_id(50, vec![40]);
    let (out, resolved) =
        inject_test_nodes(small_description(), &vec![first, second], &PDRPolicy::Zero);
    assert_eq!(resolved, vec![40, 50]);
    // the earlier probe's entry was rewired towards the later one
    assert!(out.drones[3].connected_node_ids.contains(&50));
    assert!(out.drones[4].connected_node_ids.contains(&40));
}

#[test]
fn zero_policy_zeroes_every_drone_rate() {
    let mut desc = small_description();
    desc.drones[0].pdr = DropRate::from_ppm(900_000).unwrap();
    let spec = TestNodeInstructions::with_node_id(40, vec![1]);
    let (out, _) = inject_test_nodes(desc, &vec![spec], &PDRPolicy::Zero);
    for d in out.drones.iter() {
        assert_eq!(d.pdr.ppm, 0);
    }
}

#[test]
fn unchanged_policy_keeps_existing_rates() {
    let mut desc = small_description();
    desc.drones[1].pdr = DropRate::from_ppm(250_000).unwrap();
    let spec = TestNodeInstructions::with_node_id(40, vec![1]);
    let (out, _) = inject_test_nodes(desc, &vec![spec], &PDRPolicy::Unchanged);
    assert_eq!(out.drones[1].pdr.ppm, 250_000);
    // a probe's rate starts at the zero baseline and is kept there
    assert_eq!(out.drones[3].pdr.ppm, 0);
}

#[test]
fn constant_policy_rewrites_every_drone_rate() {
    let spec = TestNodeInstructions::with_node_id(40, vec![1]);
    let p = DropRate::from_ppm(42_000).unwrap();
    let (out, _) = inject_test_nodes(small_description(), &vec![spec], &PDRPolicy::Constant(p));
    for d in out.drones.iter() {
        assert_eq!(d.pdr.ppm, 42_000);
    }
}
