//! The shapes that cross the wires: packets with their source-routing
//! header, the flood-discovery pair, fixed-size fragments, and the control
//! protocol the coordinator speaks to drones.

use vstd::prelude::*;
use crate::topology::NodeId;

verus! {

/// Number of payload bytes a fragment carries.
pub const FRAGMENT_DSIZE: usize = 128;

/// What role a node plays, as recorded in a flood's path trace.
#[derive(Clone, Copy, Debug, PartialEq, Eq, Structural)]
pub enum NodeType {
    Client,
    Drone,
    Server,
}

/// Sender-computed ordered hop list plus the cursor of the hop currently
/// holding the packet.
#[derive(Clone, Debug)]
pub struct SourceRoutingHeader {
    pub hops: Vec<NodeId>,
    pub hop_index: usize,
}

impl SourceRoutingHeader {
    /// A header whose cursor already points at the first relay.
    pub fn with_first_hop(hops: Vec<NodeId>) -> (r: SourceRoutingHeader)
        ensures
            r.hops@ == hops@,
            r.hop_index == 1,
    {
        SourceRoutingHeader { hops, hop_index: 1 }
    }
}

/// A fixed-size slice of a message.
#[derive(Clone, Debug)]
pub struct Fragment {
    pub fragment_index: u64,
    pub total_n_fragments: u64,
    pub length: u8,
    pub data: [u8; 128],
}

/// A broadcast topology probe, flooded away from its initiator.
#[derive(Clone, Debug)]
pub struct FloodRequest {
    pub flood_id: u64,
    pub initiator_id: NodeId,
    pub path_trace: Vec<(NodeId, NodeType)>,
}

/// The answer to a flood request, retracing the discovery path.
#[derive(Clone, Debug)]
pub struct FloodResponse {
    pub flood_id: u64,
    pub path_trace: Vec<(NodeId, NodeType)>,
}

/// The payload variants a packet can carry.
#[derive(Clone, Debug)]
pub enum PacketType {
    MsgFragment(Fragment),
    FloodRequest(FloodRequest),
    FloodResponse(FloodResponse),
}

/// One unit of traffic on a link.
#[derive(Clone, Debug)]
pub struct Packet {
    pub pack_type: PacketType,
    pub routing_header: SourceRoutingHeader,
    pub session_id: u64,
}

/// A command the coordinator sends to a drone; drones consume these, the
/// core only produces them.
#[derive(Clone, Copy, Debug, PartialEq, Eq, Structural)]
pub enum DroneCommand {
    /// Drop the outbound sender towards this id.
    RemoveSender(NodeId),
    /// Stop the run loop and return.
    Crash,
}

/// A notice a drone may emit outward; this core wires the channel but never
/// reads it.
#[derive(Clone, Debug)]
pub enum DroneEvent {
    PacketSent(Packet),
    PacketDropped(Packet),
}

} // verus!
