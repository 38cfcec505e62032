//! Wiring a finalized topology description into per-node channel bundles:
//! every declared node gets one inbound packet channel, every drone one
//! command channel and one event channel, and every node an outbound map
//! holding a clone of each reachable neighbor's inbound sender.

use vstd::prelude::*;
use std::collections::HashMap;
use crossbeam_channel::{Receiver, Sender};
use crate::protocol::{DroneCommand, DroneEvent, Packet};
use crate::topology::{lemma_push_contains, DropRate, NodeId, TopologyDescription};

verus! {

broadcast use vstd::std_specs::hash::group_hash_axioms;

/// Anything exposing a single "run once" entry point; each wired node
/// becomes one value with this capability, spawned on its own thread.
pub trait Node: Send {
    fn run(&mut self);
}

/// A fully wired node, ready to be turned into a runnable actor: its
/// inbound endpoints and its outbound senders, one per reachable neighbor.
pub enum IntermediateNode {
    Drone {
        id: NodeId,
        pdr: DropRate,
        controller_send: Sender<DroneEvent>,
        controller_recv: Receiver<DroneCommand>,
        packet_recv: Receiver<Packet>,
        packet_send: HashMap<NodeId, Sender<Packet>>,
    },
    Client {
        id: NodeId,
        packet_recv: Receiver<Packet>,
        packet_send: HashMap<NodeId, Sender<Packet>>,
    },
    Server {
        id: NodeId,
        packet_recv: Receiver<Packet>,
        packet_send: HashMap<NodeId, Sender<Packet>>,
    },
}

impl IntermediateNode {
    /// The ids this bundle holds an outbound sender for.
    pub open spec fn send_targets(self) -> Set<NodeId> {
        match self {
            IntermediateNode::Drone { packet_send, .. } => packet_send@.dom(),
            IntermediateNode::Client { packet_send, .. } => packet_send@.dom(),
            IntermediateNode::Server { packet_send, .. } => packet_send@.dom(),
        }
    }
}

/// The neighbors a node can actually reach: the declared ones that exist
/// in the description. A declared neighbor with no node behind it is
/// silently skipped, never an error.
pub open spec fn sender_targets(neighbors: Seq<NodeId>, desc: TopologyDescription) -> Set<NodeId> {
    Set::new(|x: NodeId| neighbors.contains(x) && desc.has_id(x))
}

/// What the wiring owes a drone entry: a drone bundle under its id, with
/// its declared drop rate, and one outbound sender per reachable neighbor.
pub open spec fn drone_matches(
    e: crate::topology::DroneEntry,
    node: IntermediateNode,
    desc: TopologyDescription,
) -> bool {
    match node {
        IntermediateNode::Drone { id, pdr, packet_send, .. } => {
            &&& id == e.id
            &&& pdr == e.pdr
            &&& packet_send@.dom() == sender_targets(e.connected_node_ids@, desc)
        },
        _ => false,
    }
}

/// What the wiring owes a client entry.
pub open spec fn client_matches(
    e: crate::topology::ClientEntry,
    node: IntermediateNode,
    desc: TopologyDescription,
) -> bool {
    match node {
        IntermediateNode::Client { id, packet_send, .. } => {
            &&& id == e.id
            &&& packet_send@.dom() == sender_targets(e.connected_drone_ids@, desc)
        },
        _ => false,
    }
}

/// What the wiring owes a server entry.
pub open spec fn server_matches(
    e: crate::topology::ServerEntry,
    node: IntermediateNode,
    desc: TopologyDescription,
) -> bool {
    match node {
        IntermediateNode::Server { id, packet_send, .. } => {
            &&& id == e.id
            &&& packet_send@.dom() == sender_targets(e.connected_drone_ids@, desc)
        },
        _ => false,
    }
}

/// Everything the wiring owes for a whole description: a bundle under
/// every declared id, and each entry's bundle of the right kind, carrying
/// the entry's id, rate and reachable neighbors.
pub open spec fn wired(desc: TopologyDescription, m: Map<NodeId, IntermediateNode>) -> bool {
    &&& m.dom() == desc.id_set()
    &&& forall|k: int|
        0 <= k < desc.drones@.len() ==> {
            let e = #[trigger] desc.drones@[k];
            m.contains_key(e.id) && drone_matches(e, m[e.id], desc)
        }
    &&& forall|k: int|
        0 <= k < desc.clients@.len() ==> {
            let e = #[trigger] desc.clients@[k];
            m.contains_key(e.id) && client_matches(e, m[e.id], desc)
        }
    &&& forall|k: int|
        0 <= k < desc.servers@.len() ==> {
            let e = #[trigger] desc.servers@[k];
            m.contains_key(e.id) && server_matches(e, m[e.id], desc)
        }
}

/// Wiring is deterministic aside from drop-rate randomness: two wirings of
/// one description expose the same node id set and, id for id, outbound
/// maps over the same target ids.
pub proof fn lemma_wiring_deterministic(
    desc: TopologyDescription,
    a: Map<NodeId, IntermediateNode>,
    b: Map<NodeId, IntermediateNode>,
)
    requires
        desc.wf(),
        wired(desc, a),
        wired(desc, b),
    ensures
        a.dom() == b.dom(),
        forall|x: NodeId|
            a.dom().contains(x) ==> #[trigger] a[x].send_targets() == b[x].send_targets(),
{
    assert forall|x: NodeId| a.dom().contains(x) implies #[trigger] a[x].send_targets()
        == b[x].send_targets() by {
        assert(desc.id_set().contains(x));
        assert(desc.has_id(x));
        let dseq = desc.drone_id_seq();
        let cseq = desc.client_id_seq();
        let sseq = desc.server_id_seq();
        if dseq.contains(x) {
            let k = choose|k: int| 0 <= k < dseq.len() && dseq[k] == x;
            assert(desc.drones@[k].id == x);
            assert(drone_matches(desc.drones@[k], a[x], desc));
            assert(drone_matches(desc.drones@[k], b[x], desc));
        } else if cseq.contains(x) {
            let k = choose|k: int| 0 <= k < cseq.len() && cseq[k] == x;
            assert(desc.clients@[k].id == x);
            assert(client_matches(desc.clients@[k], a[x], desc));
            assert(client_matches(desc.clients@[k], b[x], desc));
        } else {
            let k = choose|k: int| 0 <= k < sseq.len() && sseq[k] == x;
            assert(desc.servers@[k].id == x);
            assert(server_matches(desc.servers@[k], a[x], desc));
            assert(server_matches(desc.servers@[k], b[x], desc));
        }
    }
}

/// Outbound senders are wired from the description alone: a drone whose
/// entry declares a declared id as neighbor holds a sender towards that
/// id, whether or not the node behind it is ever turned into a runnable.
/// In particular, declining every client and server leaves the other
/// nodes' outbound maps untouched.
pub proof fn lemma_targets_follow_description(
    desc: TopologyDescription,
    m: Map<NodeId, IntermediateNode>,
    k: int,
    x: NodeId,
)
    requires
        desc.wf(),
        wired(desc, m),
        0 <= k < desc.drones@.len(),
        desc.drones@[k].connected_node_ids@.contains(x),
        desc.has_id(x),
    ensures
        m[desc.drones@[k].id].send_targets().contains(x),
{
    assert(drone_matches(desc.drones@[k], m[desc.drones@[k].id], desc));
}

/// Builds one node's outbound map: for each declared neighbor id that has
/// a retained inbound sender, a clone of that sender keyed by the id; ids
/// with no retained sender are silently skipped.
fn insert_all_packet_send(
    connected_ids: &Vec<NodeId>,
    packet_senders: &HashMap<NodeId, Sender<Packet>>,
) -> (r: HashMap<NodeId, Sender<Packet>>)
    ensures
        r@.dom() == Set::new(
            |x: NodeId| connected_ids@.contains(x) && packet_senders@.dom().contains(x),
        ),
{
    let mut r: HashMap<NodeId, Sender<Packet>> = HashMap::new();
    let mut i: usize = 0;
    while i < connected_ids.len()
        invariant
            i <= connected_ids@.len(),
            r@.dom() == Set::new(
                |x: NodeId| connected_ids@.take(i as int).contains(x)
                    && packet_senders@.dom().contains(x),
            ),
        decreases connected_ids@.len() - i,
    {
        let nid = connected_ids[i];
        match packet_senders.get(&nid) {
            Some(snd) => {
                r.insert(nid, snd.clone());
            },
            None => {},
        }
        proof {
            assert(connected_ids@.take(i + 1) =~= connected_ids@.take(i as int).push(
                connected_ids@[i as int],
            ));
            assert forall|x: NodeId|
                connected_ids@.take(i + 1).contains(x) <==> connected_ids@.take(
                    i as int,
                ).contains(x) || x == connected_ids@[i as int] by {
                lemma_push_contains(connected_ids@.take(i as int), connected_ids@[i as int], x);
            }
            assert(r@.dom() =~= Set::new(
                |x: NodeId| connected_ids@.take(i + 1).contains(x)
                    && packet_senders@.dom().contains(x),
            ));
        }
        i += 1;
    }
    proof {
        assert(connected_ids@.take(connected_ids@.len() as int) == connected_ids@);
    }
    r
}

/// Wires a finalized description: one inbound packet channel per declared
/// node (the sender retained, keyed by id, for distribution), one command
/// channel per drone (its sender retained for the coordinator), one event
/// channel per drone (its receiver discarded: no consumer exists in this
/// core), and per node an outbound map with a sender clone for each
/// reachable declared neighbor. The same description always yields the
/// same node ids and, node for node, the same outbound target ids.
pub fn create_intermediate_topology(desc: &TopologyDescription) -> (r: (
    HashMap<NodeId, IntermediateNode>,
    HashMap<NodeId, Sender<DroneCommand>>,
))
    requires
        desc.wf(),
    ensures
        wired(*desc, r.0@),
        r.1@.dom() == desc.drone_id_set(),
{
    let ghost dseq = desc.drone_id_seq();
    let ghost cseq = desc.client_id_seq();
    let ghost sseq = desc.server_id_seq();
    let mut packet_senders: HashMap<NodeId, Sender<Packet>> = HashMap::new();
    let mut command_senders: HashMap<NodeId, Sender<DroneCommand>> = HashMap::new();
    let mut drone_packet_recvs: Vec<Receiver<Packet>> = Vec::new();
    let mut drone_command_recvs: Vec<Receiver<DroneCommand>> = Vec::new();
    let mut client_packet_recvs: Vec<Receiver<Packet>> = Vec::new();
    let mut server_packet_recvs: Vec<Receiver<Packet>> = Vec::new();

    let mut i: usize = 0;
    while i < desc.drones.len()
        invariant
            i <= desc.drones@.len(),
            dseq == desc.drone_id_seq(),
            packet_senders@.dom() == Set::new(|x: NodeId| dseq.take(i as int).contains(x)),
            command_senders@.dom() == Set::new(|x: NodeId| dseq.take(i as int).contains(x)),
            drone_packet_recvs@.len() == i,
            drone_command_recvs@.len() == i,
        decreases desc.drones@.len() - i,
    {
        let e = &desc.drones[i];
        let (snd, rcv) = crossbeam_channel::unbounded::<Packet>();
        packet_senders.insert(e.id, snd);
        drone_packet_recvs.push(rcv);
        let (csnd, crcv) = crossbeam_channel::unbounded::<DroneCommand>();
        command_senders.insert(e.id, csnd);
        drone_command_recvs.push(crcv);
        proof {
            assert(dseq[i as int] == e.id);
            assert(dseq.take(i + 1) =~= dseq.take(i as int).push(e.id));
            assert forall|x: NodeId|
                dseq.take(i + 1).contains(x) <==> dseq.take(i as int).contains(x) || x
                    == e.id by {
                lemma_push_contains(dseq.take(i as int), e.id, x);
            }
            assert(packet_senders@.dom() =~= Set::new(
                |x: NodeId| dseq.take(i + 1).contains(x),
            ));
            assert(command_senders@.dom() =~= Set::new(
                |x: NodeId| dseq.take(i + 1).contains(x),
            ));
        }
        i += 1;
    }
    proof {
        assert(dseq.take(desc.drones@.len() as int) == dseq);
    }

    let mut j: usize = 0;
    while j < desc.clients.len()
        invariant
            j <= desc.clients@.len(),
            dseq == desc.drone_id_seq(),
            cseq == desc.client_id_seq(),
            packet_senders@.dom() == Set::new(
                |x: NodeId| dseq.contains(x) || cseq.take(j as int).contains(x),
            ),
            command_senders@.dom() == Set::new(|x: NodeId| dseq.contains(x)),
            drone_packet_recvs@.len() == desc.drones@.len(),
            drone_command_recvs@.len() == desc.drones@.len(),
            client_packet_recvs@.len() == j,
        decreases desc.clients@.len() - j,
    {
        let e = &desc.clients[j];
        let (snd, rcv) = crossbeam_channel::unbounded::<Packet>();
        packet_senders.insert(e.id, snd);
        client_packet_recvs.push(rcv);
        proof {
            assert(cseq[j as int] == e.id);
            assert(cseq.take(j + 1) =~= cseq.take(j as int).push(e.id));
            assert forall|x: NodeId|
                cseq.take(j + 1).contains(x) <==> cseq.take(j as int).contains(x) || x
                    == e.id by {
                lemma_push_contains(cseq.take(j as int), e.id, x);
            }
            assert(packet_senders@.dom() =~= Set::new(
                |x: NodeId| dseq.contains(x) || cseq.take(j + 1).contains(x),
            ));
        }
        j += 1;
    }
    proof {
        assert(cseq.take(desc.clients@.len() as int) == cseq);
    }

    let mut m: usize = 0;
    while m < desc.servers.len()
        invariant
            m <= desc.servers@.len(),
            dseq == desc.drone_id_seq(),
            cseq == desc.client_id_seq(),
            sseq == desc.server_id_seq(),
            packet_senders@.dom() == Set::new(
                |x: NodeId| dseq.contains(x) || cseq.contains(x) || sseq.take(
                    m as int,
                ).contains(x),
            ),
            command_senders@.dom() == Set::new(|x: NodeId| dseq.contains(x)),
            drone_packet_recvs@.len() == desc.drones@.len(),
            drone_command_recvs@.len() == desc.drones@.len(),
            client_packet_recvs@.len() == desc.clients@.len(),
            server_packet_recvs@.len() == m,
        decreases desc.servers@.len() - m,
    {
        let e = &desc.servers[m];
        let (snd, rcv) = crossbeam_channel::unbounded::<Packet>();
        packet_senders.insert(e.id, snd);
        server_packet_recvs.push(rcv);
        proof {
            assert(sseq[m as int] == e.id);
            assert(sseq.take(m + 1) =~= sseq.take(m as int).push(e.id));
            assert forall|x: NodeId|
                sseq.take(m + 1).contains(x) <==> sseq.take(m as int).contains(x) || x
                    == e.id by {
                lemma_push_contains(sseq.take(m as int), e.id, x);
            }
            assert(packet_senders@.dom() =~= Set::new(
                |x: NodeId| dseq.contains(x) || cseq.contains(x) || sseq.take(
                    m + 1,
                ).contains(x),
            ));
        }
        m += 1;
    }
    proof {
        assert(sseq.take(desc.servers@.len() as int) == sseq);
        assert(packet_senders@.dom() =~= desc.id_set());
        assert(command_senders@.dom() =~= desc.drone_id_set());
    }

    let mut nodes: HashMap<NodeId, IntermediateNode> = HashMap::new();

    let mut i: usize = 0;
    while i < desc.drones.len()
        invariant
            desc.wf(),
            i <= desc.drones@.len(),
            dseq == desc.drone_id_seq(),
            packet_senders@.dom() == desc.id_set(),
            drone_packet_recvs@.len() == desc.drones@.len() - i,
            drone_command_recvs@.len() == desc.drones@.len() - i,
            client_packet_recvs@.len() == desc.clients@.len(),
            server_packet_recvs@.len() == desc.servers@.len(),
            nodes@.dom() == Set::new(|x: NodeId| dseq.take(i as int).contains(x)),
            forall|k: int|
                0 <= k < i ==> {
                    let e = #[trigger] desc.drones@[k];
                    nodes@.contains_key(e.id) && drone_matches(e, nodes@[e.id], *desc)
                },
        decreases desc.drones@.len() - i,
    {
        let e = &desc.drones[i];
        let packet_send = insert_all_packet_send(&e.connected_node_ids, &packet_senders);
        let (ev_snd, _discarded_ev_rcv) = crossbeam_channel::unbounded::<DroneEvent>();
        let controller_recv = drone_command_recvs.remove(0);
        let packet_recv = drone_packet_recvs.remove(0);
        nodes.insert(
            e.id,
            IntermediateNode::Drone {
                id: e.id,
                pdr: e.pdr,
                controller_send: ev_snd,
                controller_recv,
                packet_recv,
                packet_send,
            },
        );
        proof {
            assert(dseq[i as int] == e.id);
            assert(packet_send@.dom() =~= sender_targets(e.connected_node_ids@, *desc));
            assert(dseq.take(i + 1) =~= dseq.take(i as int).push(e.id));
            assert forall|x: NodeId|
                dseq.take(i + 1).contains(x) <==> dseq.take(i as int).contains(x) || x
                    == e.id by {
                lemma_push_contains(dseq.take(i as int), e.id, x);
            }
            assert(nodes@.dom() =~= Set::new(|x: NodeId| dseq.take(i + 1).contains(x)));
            assert forall|k: int| 0 <= k < i + 1 implies {
                let p = #[trigger] desc.drones@[k];
                nodes@.contains_key(p.id) && drone_matches(p, nodes@[p.id], *desc)
            } by {
                if k < i {
                    assert(dseq[k] == desc.drones@[k].id);
                    assert(dseq[k] != dseq[i as int]);
                }
            }
        }
        i += 1;
    }
    proof {
        assert(dseq.take(desc.drones@.len() as int) == dseq);
    }

    let mut m: usize = 0;
    while m < desc.servers.len()
        invariant
            desc.wf(),
            m <= desc.servers@.len(),
            dseq == desc.drone_id_seq(),
            sseq == desc.server_id_seq(),
            packet_senders@.dom() == desc.id_set(),
            client_packet_recvs@.len() == desc.clients@.len(),
            server_packet_recvs@.len() == desc.servers@.len() - m,
            nodes@.dom() == Set::new(
                |x: NodeId| dseq.contains(x) || sseq.take(m as int).contains(x),
            ),
            forall|k: int|
                0 <= k < desc.drones@.len() ==> {
                    let e = #[trigger] desc.drones@[k];
                    nodes@.contains_key(e.id) && drone_matches(e, nodes@[e.id], *desc)
                },
            forall|k: int|
                0 <= k < m ==> {
                    let e = #[trigger] desc.servers@[k];
                    nodes@.contains_key(e.id) && server_matches(e, nodes@[e.id], *desc)
                },
        decreases desc.servers@.len() - m,
    {
        let e = &desc.servers[m];
        let packet_send = insert_all_packet_send(&e.connected_drone_ids, &packet_senders);
        let packet_recv = server_packet_recvs.remove(0);
        nodes.insert(
            e.id,
            IntermediateNode::Server { id: e.id, packet_recv, packet_send },
        );
        proof {
            assert(sseq[m as int] == e.id);
            assert(packet_send@.dom() =~= sender_targets(e.connected_drone_ids@, *desc));
            assert(sseq.take(m + 1) =~= sseq.take(m as int).push(e.id));
            assert forall|x: NodeId|
                sseq.take(m + 1).contains(x) <==> sseq.take(m as int).contains(x) || x
                    == e.id by {
                lemma_push_contains(sseq.take(m as int), e.id, x);
            }
            assert(nodes@.dom() =~= Set::new(
                |x: NodeId| dseq.contains(x) || sseq.take(m + 1).contains(x),
            ));
            assert(sseq.contains(e.id));
            assert forall|k: int| 0 <= k < desc.drones@.len() implies {
                let p = #[trigger] desc.drones@[k];
                nodes@.contains_key(p.id) && drone_matches(p, nodes@[p.id], *desc)
            } by {
                assert(dseq[k] == desc.drones@[k].id);
                assert(dseq.contains(dseq[k]));
            }
            assert forall|k: int| 0 <= k < m + 1 implies {
                let p = #[trigger] desc.servers@[k];
                nodes@.contains_key(p.id) && server_matches(p, nodes@[p.id], *desc)
            } by {
                if k < m {
                    assert(sseq[k] == desc.servers@[k].id);
                    assert(sseq[k] != sseq[m as int]);
                }
            }
        }
        m += 1;
    }
    proof {
        assert(sseq.take(desc.servers@.len() as int) == sseq);
    }

    let mut j: usize = 0;
    while j < desc.clients.len()
        invariant
            desc.wf(),
            j <= desc.clients@.len(),
            dseq == desc.drone_id_seq(),
            cseq == desc.client_id_seq(),
            sseq == desc.server_id_seq(),
            packet_senders@.dom() == desc.id_set(),
            client_packet_recvs@.len() == desc.clients@.len() - j,
            nodes@.dom() == Set::new(
                |x: NodeId| dseq.contains(x) || sseq.contains(x) || cseq.take(
                    j as int,
                ).contains(x),
            ),
            forall|k: int|
                0 <= k < desc.drones@.len() ==> {
                    let e = #[trigger] desc.drones@[k];
                    nodes@.contains_key(e.id) && drone_matches(e, nodes@[e.id], *desc)
                },
            forall|k: int|
                0 <= k < desc.servers@.len() ==> {
                    let e = #[trigger] desc.servers@[k];
                    nodes@.contains_key(e.id) && server_matches(e, nodes@[e.id], *desc)
                },
            forall|k: int|
                0 <= k < j ==> {
                    let e = #[trigger] desc.clients@[k];
                    nodes@.contains_key(e.id) && client_matches(e, nodes@[e.id], *desc)
                },
        decreases desc.clients@.len() - j,
    {
        let e = &desc.clients[j];
        let packet_send = insert_all_packet_send(&e.connected_drone_ids, &packet_senders);
        let packet_recv = client_packet_recvs.remove(0);
        nodes.insert(
            e.id,
            IntermediateNode::Client { id: e.id, packet_recv, packet_send },
        );
        proof {
            assert(cseq[j as int] == e.id);
            assert(packet_send@.dom() =~= sender_targets(e.connected_drone_ids@, *desc));
            assert(cseq.take(j + 1) =~= cseq.take(j as int).push(e.id));
            assert forall|x: NodeId|
                cseq.take(j + 1).contains(x) <==> cseq.take(j as int).contains(x) || x
                    == e.id by {
                lemma_push_contains(cseq.take(j as int), e.id, x);
            }
            assert(nodes@.dom() =~= Set::new(
                |x: NodeId| dseq.contains(x) || sseq.contains(x) || cseq.take(
                    j + 1,
                ).contains(x),
            ));
            assert(cseq.contains(e.id));
            assert forall|k: int| 0 <= k < desc.drones@.len() implies {
                let p = #[trigger] desc.drones@[k];
                nodes@.contains_key(p.id) && drone_matches(p, nodes@[p.id], *desc)
            } by {
                assert(dseq[k] == desc.drones@[k].id);
                assert(dseq.contains(dseq[k]));
            }
            assert forall|k: int| 0 <= k < desc.servers@.len() implies {
                let p = #[trigger] desc.servers@[k];
                nodes@.contains_key(p.id) && server_matches(p, nodes@[p.id], *desc)
            } by {
                assert(sseq[k] == desc.servers@[k].id);
                assert(sseq.contains(sseq[k]));
            }
            assert forall|k: int| 0 <= k < j + 1 implies {
                let p = #[trigger] desc.clients@[k];
                nodes@.contains_key(p.id) && client_matches(p, nodes@[p.id], *desc)
            } by {
                if k < j {
                    assert(cseq[k] == desc.clients@[k].id);
                    assert(cseq[k] != cseq[j as int]);
                }
            }
        }
        j += 1;
    }
    proof {
        assert(cseq.take(desc.clients@.len() as int) == cseq);
        assert(nodes@.dom() =~= desc.id_set());
    }
    (nodes, command_senders)
}

} // verus!
