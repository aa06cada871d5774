//! The roster the simulation controller keeps: one descriptor per node.

use vstd::prelude::*;
use crate::hosts::{ClientEvent, ClientType, ServerEvent, ServerType};
use crate::packet::{DroneEvent, NodeId};

verus! {

/// An event of any of the three roles.
#[derive(Debug, Clone, PartialEq)]
pub enum Event {
    ClientEvent(ClientEvent),
    ServerEvent(ServerEvent),
    DroneEvent(DroneEvent),
}

/// The role of a node, with what the controller knows of it.
#[derive(Debug, Clone)]
pub enum SimulationControllerNodeType {
    SERVER { server_type: ServerType },
    CLIENT { client_type: ClientType },
    DRONE { drone_type: String },
}

/// One entry of the roster.
#[derive(Clone)]
pub struct SimulationControllerNode {
    pub node_type: SimulationControllerNodeType,
    pub node_id: NodeId,
    pub neighbours: Vec<NodeId>,
    pub details: bool,
    pub event: Vec<Event>,
}

impl SimulationControllerNodeType {
    /// A copy of the role and of what is known of it.
    pub fn duplicate(&self) -> (copy: SimulationControllerNodeType)
        ensures
            copy == *self,
    {
        match self {
            SimulationControllerNodeType::SERVER { server_type } => match server_type {
                ServerType::Content => SimulationControllerNodeType::SERVER {
                    server_type: ServerType::Content,
                },
                ServerType::Communication => SimulationControllerNodeType::SERVER {
                    server_type: ServerType::Communication,
                },
            },
            SimulationControllerNodeType::CLIENT { client_type } => match client_type {
                ClientType::WebBrowsers => SimulationControllerNodeType::CLIENT {
                    client_type: ClientType::WebBrowsers,
                },
                ClientType::ChatClients => SimulationControllerNodeType::CLIENT {
                    client_type: ClientType::ChatClients,
                },
            },
            SimulationControllerNodeType::DRONE { drone_type } => SimulationControllerNodeType::DRONE {
                drone_type: drone_type.clone(),
            },
        }
    }
}

impl SimulationControllerNode {
    /// The entry is fresh: it has this role, id and neighbours, its details
    /// are hidden, and it has seen no event.
    pub open spec fn is_fresh(
        &self,
        node_type: SimulationControllerNodeType,
        node_id: NodeId,
        neighbours: Seq<NodeId>,
    ) -> bool {
        &&& self.node_type == node_type
        &&& self.node_id == node_id
        &&& self.neighbours@ == neighbours
        &&& !self.details
        &&& self.event@.len() == 0
    }

    /// Makes a fresh entry and appends a copy of it to the roster.
    pub fn new(
        node_type: SimulationControllerNodeType,
        node_id: NodeId,
        neighbours: Vec<NodeId>,
        nodi: &mut Vec<SimulationControllerNode>,
    ) -> (node: SimulationControllerNode)
        ensures
            node.is_fresh(node_type, node_id, neighbours@),
            final(nodi)@.len() == old(nodi)@.len() + 1,
            final(nodi)@.drop_last() == old(nodi)@,
            final(nodi)@.last().is_fresh(node_type, node_id, neighbours@),
    {
        let listed = SimulationControllerNode {
            node_type: node_type.duplicate(),
            node_id,
            neighbours: neighbours.clone(),
            details: false,
            event: Vec::new(),
        };
        nodi.push(listed);
        assert(nodi@.drop_last() =~= old(nodi)@);
        SimulationControllerNode { node_type, node_id, neighbours, details: false, event: Vec::new() }
    }
}

} // verus!
