//! End-to-end scenarios over a wired topology, driven deterministically:
//! a minimal relay drone is stepped by hand instead of spawned, so flood
//! discovery, fragment ping-pong and the shutdown broadcast can be
//! observed without any timing assumptions.

use std::collections::HashMap;

use crossbeam_channel::{Receiver, Sender};
use drone_harness::protocol::{
    DroneCommand, FloodResponse, Fragment, NodeType, Packet, PacketType, SourceRoutingHeader,
};
use drone_harness::testing_initializer::{
    coordinator_step, inject_test_nodes, shutdown_commands, take_test_probes, CoordinatorAction,
    CoordinatorState, PDRPolicy, TestNodeInstructions,
};
use drone_harness::topology::{DroneEntry, DropRate, TopologyDescription};
use drone_harness::topology_setup::{create_intermediate_topology, IntermediateNode};

/// A minimal relay implementation, as a collaborator would supply one: it
/// forwards fragments along their source route, answers flood requests it
/// cannot spread further, and honors the drone control protocol. It is
/// stepped explicitly: one step drains the pending commands and packets.
struct MiniDrone {
    id: u8,
    command_recv: Receiver<DroneCommand>,
    packet_recv: Receiver<Packet>,
    packet_send: HashMap<u8, Sender<Packet>>,
    crashed: bool,
    crash_commands_seen: usize,
}

impl MiniDrone {
    fn from_node(node: IntermediateNode) -> MiniDrone {
        match node {
            IntermediateNode::Drone { id, controller_recv, packet_recv, packet_send, .. } => {
                MiniDrone {
                    id,
                    command_recv: controller_recv,
                    packet_recv,
                    packet_send,
                    crashed: false,
                    crash_commands_seen: 0,
                }
            }
            _ => panic!("expected a drone bundle"),
        }
    }

    fn step(&mut self) {
        while let Ok(cmd) = self.command_recv.try_recv() {
            match cmd {
                DroneCommand::RemoveSender(id) => {
                    self.packet_send.remove(&id);
                }
                DroneCommand::Crash => {
                    self.crashed = true;
                    self.crash_commands_seen += 1;
                }
            }
        }
        if self.crashed {
            return;
        }
        while let Ok(packet) = self.packet_recv.try_recv() {
            self.handle(packet);
        }
    }

    fn handle(&mut self, mut packet: Packet) {
        match packet.pack_type {
            PacketType::MsgFragment(_) => {
                packet.routing_header.hop_index += 1;
                let next = packet.routing_header.hops[packet.routing_header.hop_index];
                if let Some(s) = self.packet_send.get(&next) {
                    s.send(packet).ok();
                }
            }
            PacketType::FloodRequest(mut req) => {
                let prev = req.path_trace.last().map(|(id, _)| *id);
                req.path_trace.push((self.id, NodeType::Drone));
                let fresh: Vec<u8> = self
                    .packet_send
                    .keys()
                    .copied()
                    .filter(|k| Some(*k) != prev && !req.path_trace.iter().any(|(id, _)| id == k))
                    .collect();
                if fresh.is_empty() {
                    let hops: Vec<u8> =
                        req.path_trace.iter().rev().map(|(id, _)| *id).collect();
                    let next = hops[1];
                    let response = Packet {
                        pack_type: PacketType::FloodResponse(FloodResponse {
                            flood_id: req.flood_id,
                            path_trace: req.path_trace.clone(),
                        }),
                        routing_header: SourceRoutingHeader { hops, hop_index: 1 },
                        session_id: packet.session_id,
                    };
                    if let Some(s) = self.packet_send.get(&next) {
                        s.send(response).ok();
                    }
                } else {
                    for k in fresh {
                        let fwd = Packet {
                            pack_type: PacketType::FloodRequest(req.clone()),
                            routing_header: packet.routing_header.clone(),
                            session_id: packet.session_id,
                        };
                        self.packet_send.get(&k).unwrap().send(fwd).ok();
                    }
                }
            }
            PacketType::FloodResponse(_) => {
                packet.routing_header.hop_index += 1;
                let next = packet.routing_header.hops[packet.routing_header.hop_index];
                if let Some(s) = self.packet_send.get(&next) {
                    s.send(packet).ok();
                }
            }
        }
    }
}

fn drone(id: u8, neighbors: Vec<u8>) -> DroneEntry {
    DroneEntry { id, pdr: DropRate::zero(), connected_node_ids: neighbors }
}

fn fragment(data_byte: u8) -> Fragment {
    Fragment { fragment_index: 0, total_n_fragments: 1, length: 128, data: [data_byte; 128] }
}

#[test]
fn flooding() {
    // one probe plugged into drone 1; the probe floods and must get a
    // response carrying its own discovery id back on its only link
    let desc = TopologyDescription {
        drones: vec![drone(1, vec![])],
        clients: vec![],
        servers: vec![],
    };
    let probe_spec = TestNodeInstructions::with_random_id(vec![1]);
    let (desc, resolved) = inject_test_nodes(desc, &vec![probe_spec], &PDRPolicy::Zero);
    let (mut nodes, command_senders) = create_intermediate_topology(&desc);
    let drone_ids = desc.drone_id_list();
    let mut probes = take_test_probes(&mut nodes, &resolved, &command_senders, &drone_ids);
    let probe = probes.pop().unwrap();
    let mut relay = MiniDrone::from_node(nodes.remove(&1).unwrap());

    probe
        .packet_send
        .get(&1)
        .unwrap()
        .send(Packet {
            pack_type: PacketType::FloodRequest(drone_harness::protocol::FloodRequest {
                flood_id: 100,
                initiator_id: probe.id,
                path_trace: vec![(probe.id, NodeType::Client)],
            }),
            routing_header: SourceRoutingHeader { hops: Vec::new(), hop_index: 0 },
            session_id: 0,
        })
        .unwrap();

    relay.step();

    let mut response_received = false;
    while let Ok(packet) = probe.packet_recv.try_recv() {
        if let PacketType::FloodResponse(response) = packet.pack_type {
            assert_eq!(response.flood_id, 100);
            response_received = true;
        }
    }
    assert!(response_received);

    let _end = probe.end_simulation();
    relay.step();
    assert!(relay.crashed);
    assert_eq!(relay.crash_commands_seen, 1);
}

#[test]
fn client_server_ping() {
    // probe 40 hangs off drone 3, probe 50 off drone 8; a six-hop route
    // carries an all-zero fragment out and an all-one echo back
    let desc = TopologyDescription {
        drones: vec![
            drone(3, vec![4, 5]),
            drone(4, vec![3, 6]),
            drone(5, vec![7, 3]),
            drone(6, vec![4, 8]),
            drone(7, vec![8, 5]),
            drone(8, vec![6, 7]),
        ],
        clients: vec![],
        servers: vec![],
    };
    let probe_a = TestNodeInstructions::with_node_id(40, vec![3]);
    let probe_b = TestNodeInstructions::with_node_id(50, vec![8]);
    let (desc, resolved) = inject_test_nodes(desc, &vec![probe_a, probe_b], &PDRPolicy::Zero);
    assert_eq!(resolved, vec![40, 50]);
    let (mut nodes, command_senders) = create_intermediate_topology(&desc);
    let drone_ids = desc.drone_id_list();
    let mut probes = take_test_probes(&mut nodes, &resolved, &command_senders, &drone_ids);
    let b = probes.pop().unwrap();
    let a = probes.pop().unwrap();
    assert_eq!(a.id, 40);
    assert_eq!(b.id, 50);
    let mut relays: HashMap<u8, MiniDrone> = [3u8, 4, 5, 6, 7, 8]
        .into_iter()
        .map(|id| (id, MiniDrone::from_node(nodes.remove(&id).unwrap())))
        .collect();

    a.packet_send
        .get(&3)
        .unwrap()
        .send(Packet {
            pack_type: PacketType::MsgFragment(fragment(0)),
            routing_header: SourceRoutingHeader { hops: vec![40, 3, 4, 6, 8, 50], hop_index: 1 },
            session_id: 0,
        })
        .unwrap();
    for id in [3u8, 4, 6, 8] {
        relays.get_mut(&id).unwrap().step();
    }

    let mut request_received = false;
    while let Ok(packet) = b.packet_recv.try_recv() {
        if let PacketType::MsgFragment(request) = packet.pack_type {
            assert_eq!(request.fragment_index, 0);
            assert_eq!(request.total_n_fragments, 1);
            assert_eq!(request.data, [0; 128]);
            request_received = true;
            b.packet_send
                .get(&8)
                .unwrap()
                .send(Packet {
                    pack_type: PacketType::MsgFragment(fragment(1)),
                    routing_header: SourceRoutingHeader {
                        hops: vec![50, 8, 7, 5, 3, 40],
                        hop_index: 1,
                    },
                    session_id: 0,
                })
                .unwrap();
        }
    }
    assert!(request_received);
    for id in [8u8, 7, 5, 3] {
        relays.get_mut(&id).unwrap().step();
    }

    let mut response_received = false;
    while let Ok(packet) = a.packet_recv.try_recv() {
        if let PacketType::MsgFragment(response) = packet.pack_type {
            assert_eq!(response.fragment_index, 0);
            assert_eq!(response.total_n_fragments, 1);
            assert_eq!(response.data, [1; 128]);
            response_received = true;
        }
    }
    assert!(response_received);

    let _end = a.end_simulation();
    let _also_end = b.end_simulation();
    for id in [3u8, 4, 5, 6, 7, 8] {
        let relay = relays.get_mut(&id).unwrap();
        relay.step();
        assert!(relay.crashed);
    }
}

#[test]
fn continuous_ping() {
    // a handful of fragments echoed one by one over the same route
    let ping_count: u64 = 5;
    let desc = TopologyDescription {
        drones: vec![
            drone(3, vec![4, 5]),
            drone(4, vec![3, 6]),
            drone(5, vec![7, 3]),
            drone(6, vec![4, 8]),
            drone(7, vec![8, 5]),
            drone(8, vec![6, 7]),
        ],
        clients: vec![],
        servers: vec![],
    };
    let probe_a = TestNodeInstructions::with_node_id(40, vec![3]);
    let probe_b = TestNodeInstructions::with_node_id(50, vec![8]);
    let (desc, resolved) = inject_test_nodes(desc, &vec![probe_a, probe_b], &PDRPolicy::Zero);
    let (mut nodes, command_senders) = create_intermediate_topology(&desc);
    let drone_ids = desc.drone_id_list();
    let mut probes = take_test_probes(&mut nodes, &resolved, &command_senders, &drone_ids);
    let b = probes.pop().unwrap();
    let a = probes.pop().unwrap();
    let mut relays: HashMap<u8, MiniDrone> = [3u8, 4, 5, 6, 7, 8]
        .into_iter()
        .map(|id| (id, MiniDrone::from_node(nodes.remove(&id).unwrap())))
        .collect();

    let mut echoes: u64 = 0;
    for i in 0..ping_count {
        a.packet_send
            .get(&3)
            .unwrap()
            .send(Packet {
                pack_type: PacketType::MsgFragment(Fragment {
                    fragment_index: i,
                    total_n_fragments: ping_count,
                    length: 128,
                    data: [0; 128],
                }),
                routing_header: SourceRoutingHeader::with_first_hop(vec![40, 3, 4, 6, 8, 50]),
                session_id: 0,
            })
            .unwrap();
        for id in [3u8, 4, 6, 8] {
            relays.get_mut(&id).unwrap().step();
        }
        while let Ok(packet) = b.packet_recv.try_recv() {
            if let PacketType::MsgFragment(request) = packet.pack_type {
                assert_eq!(request.fragment_index, i);
                b.packet_send
                    .get(&8)
                    .unwrap()
                    .send(Packet {
                        pack_type: PacketType::MsgFragment(request),
                        routing_header: SourceRoutingHeader::with_first_hop(vec![
                            50, 8, 7, 5, 3, 40,
                        ]),
                        session_id: 0,
                    })
                    .unwrap();
            }
        }
        for id in [8u8, 7, 5, 3] {
            relays.get_mut(&id).unwrap().step();
        }
        while let Ok(packet) = a.packet_recv.try_recv() {
            if let PacketType::MsgFragment(response) = packet.pack_type {
                assert_eq!(response.fragment_index, i);
                echoes += 1;
            }
        }
    }
    assert_eq!(echoes, ping_count);

    let _end = a.end_simulation();
    let _also_end = b.end_simulation();
    for id in [3u8, 4, 5, 6, 7, 8] {
        let relay = relays.get_mut(&id).unwrap();
        relay.step();
        assert!(relay.crashed);
        // both probes invoked termination: the repeat lands harmlessly
        assert_eq!(relay.crash_commands_seen, 2);
    }
}

#[test]
fn shutdown_delivers_exactly_one_terminate() {
    // after the probe ends the simulation, each drone's command channel
    // holds its forget-neighbor commands followed by exactly one terminate
    let desc = TopologyDescription {
        drones: vec![drone(1, vec![2]), drone(2, vec![1])],
        clients: vec![],
        servers: vec![],
    };
    let probe_spec = TestNodeInstructions::with_node_id(40, vec![1]);
    let (desc, resolved) = inject_test_nodes(desc, &vec![probe_spec], &PDRPolicy::Zero);
    let (mut nodes, command_senders) = create_intermediate_topology(&desc);
    let drone_ids = desc.drone_id_list();
    assert_eq!(drone_ids, vec![1, 2, 40]);
    let mut probes = take_test_probes(&mut nodes, &resolved, &command_senders, &drone_ids);
    let probe = probes.pop().unwrap();

    let _end = probe.end_simulation();

    for id in [1u8, 2] {
        let commands: Vec<DroneCommand> = match nodes.remove(&id).unwrap() {
            IntermediateNode::Drone { controller_recv, .. } => controller_recv.try_iter().collect(),
            _ => panic!("expected a drone bundle"),
        };
        let crashes = commands
            .iter()
            .filter(|c| matches!(c, DroneCommand::Crash))
            .count();
        assert_eq!(crashes, 1);
        assert_eq!(*commands.last().unwrap(), DroneCommand::Crash);
        for other in drone_ids.iter().filter(|o| **o != id) {
            assert!(commands.contains(&DroneCommand::RemoveSender(*other)));
        }
    }
}

#[test]
fn coordinator_walks_its_phases_in_order() {
    let resolved = vec![7u8, 9];
    let mut state = CoordinatorState::Running;
    let mut actions: Vec<CoordinatorAction> = Vec::new();
    while state != CoordinatorState::Ended {
        let (next_state, action) = coordinator_step(state, &resolved);
        actions.push(action);
        state = next_state;
    }
    assert_eq!(
        actions,
        vec![
            CoordinatorAction::Proceed,
            CoordinatorAction::JoinTestNode(7),
            CoordinatorAction::JoinTestNode(9),
            CoordinatorAction::Proceed,
            CoordinatorAction::Broadcast,
            CoordinatorAction::JoinRemainder,
        ]
    );
}

#[test]
fn shutdown_command_sequence_shape() {
    let ids = vec![1u8, 2, 3];
    let cmds = shutdown_commands(&ids, 2);
    assert_eq!(
        cmds,
        vec![
            DroneCommand::RemoveSender(1),
            DroneCommand::RemoveSender(3),
            DroneCommand::Crash,
        ]
    );
}
