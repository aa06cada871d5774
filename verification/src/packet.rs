//! Routed packets: what the nodes of the network hand to each other.

use vstd::prelude::*;

verus! {

/// Identifier of a node of the network.
pub type NodeId = u8;

/// Number of payload bytes that one fragment can carry, network-wide.
pub const FRAGMENT_SIZE: usize = 128;

/// The role of a node as it is recorded along a discovery path.
#[derive(Debug, Clone, Copy, PartialEq, Eq, Structural)]
pub enum NodeType {
    Client,
    Drone,
    Server,
}

/// Source-routing header: the hops a packet traverses and the cursor that
/// marks the hop the packet is at.
#[derive(Debug, Clone, PartialEq, Eq)]
pub struct SourceRoutingHeader {
    pub hop_index: usize,
    pub hops: Vec<NodeId>,
}

impl SourceRoutingHeader {
    /// The cursor points into the hop list.
    pub open spec fn wf(&self) -> bool {
        self.hop_index < self.hops@.len()
    }
}

/// One chunk of a serialized message.
#[derive(Debug, Clone, Copy, PartialEq, Eq)]
pub struct Fragment {
    pub fragment_index: u64,
    pub total_n_fragments: u64,
    pub length: u8,
    pub data: [u8; 128],
}

impl Fragment {
    /// The position is below the count and the payload fits the buffer.
    pub open spec fn wf(&self) -> bool {
        &&& self.fragment_index < self.total_n_fragments
        &&& self.length as int <= FRAGMENT_SIZE as int
    }

    /// The bytes the fragment carries: the first `length` bytes of its buffer.
    pub open spec fn payload(&self) -> Seq<u8> {
        self.data@.subrange(0, self.length as int)
    }
}

/// Acknowledgement of one fragment.
#[derive(Debug, Clone, Copy, PartialEq, Eq)]
pub struct Ack {
    pub fragment_index: u64,
}

/// Why a fragment was not delivered.
#[derive(Debug, Clone, Copy, PartialEq, Eq)]
pub enum NackType {
    ErrorInRouting(NodeId),
    DestinationIsDrone,
    Dropped,
    UnexpectedRecipient(NodeId),
}

/// Negative acknowledgement of one fragment.
#[derive(Debug, Clone, Copy, PartialEq, Eq)]
pub struct Nack {
    pub fragment_index: u64,
    pub nack_type: NackType,
}

/// Discovery request flooded through the network.
#[derive(Debug, Clone, PartialEq, Eq)]
pub struct FloodRequest {
    pub flood_id: u64,
    pub initiator_id: NodeId,
    pub path_trace: Vec<(NodeId, NodeType)>,
}

/// Answer to a discovery request, carrying the path it took.
#[derive(Debug, Clone, PartialEq, Eq)]
pub struct FloodResponse {
    pub flood_id: u64,
    pub path_trace: Vec<(NodeId, NodeType)>,
}

/// Body of a routed packet: a message fragment or a control payload.
#[derive(Debug, Clone, PartialEq, Eq)]
pub enum PacketType {
    MsgFragment(Fragment),
    Ack(Ack),
    Nack(Nack),
    FloodRequest(FloodRequest),
    FloodResponse(FloodResponse),
}

/// The unit exchanged between nodes.
#[derive(Debug, Clone, PartialEq, Eq)]
pub struct Packet {
    pub pack_type: PacketType,
    pub routing_header: SourceRoutingHeader,
    pub session_id: u64,
}

/// What a drone reports to the controller.
#[derive(Debug, Clone, PartialEq, Eq)]
pub enum DroneEvent {
    PacketSent(Packet),
    PacketDropped(Packet),
    ControllerShortcut(Packet),
}

} // verus!
