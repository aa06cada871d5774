use dronegowski::fragmenter::fragment_message;
use dronegowski::hosts::{ClientCommand, ClientType, ServerCommand, ServerType};
use dronegowski::network::{SimulationControllerNode, SimulationControllerNodeType};
use dronegowski::validation::{check_node, find_node, validate_network, Topology, ValidationError};

fn drone(id: u8, neighbours: &[u8]) -> SimulationControllerNode {
    SimulationControllerNode {
        node_type: SimulationControllerNodeType::DRONE { drone_type: String::from("relay") },
        node_id: id,
        neighbours: neighbours.to_vec(),
        details: false,
        event: Vec::new(),
    }
}

fn client(id: u8, neighbours: &[u8]) -> SimulationControllerNode {
    SimulationControllerNode {
        node_type: SimulationControllerNodeType::CLIENT { client_type: ClientType::ChatClients },
        node_id: id,
        neighbours: neighbours.to_vec(),
        details: false,
        event: Vec::new(),
    }
}

fn server(id: u8, neighbours: &[u8]) -> SimulationControllerNode {
    SimulationControllerNode {
        node_type: SimulationControllerNodeType::SERVER { server_type: ServerType::Content },
        node_id: id,
        neighbours: neighbours.to_vec(),
        details: false,
        event: Vec::new(),
    }
}

/// Client 10 - drone 1 - drone 2 - server 20, with server 20 also on drone 1.
fn small_valid() -> Vec<SimulationControllerNode> {
    vec![client(10, &[1]), drone(1, &[10, 2, 20]), drone(2, &[1, 20]), server(20, &[1, 2])]
}

#[test]
fn valid_roster_is_accepted() {
    assert_eq!(validate_network(&small_valid()), Ok(()));
}

#[test]
fn empty_roster_is_accepted() {
    assert_eq!(validate_network(&Vec::new()), Ok(()));
}

#[test]
fn lone_drone_is_accepted() {
    assert_eq!(validate_network(&vec![drone(7, &[])]), Ok(()));
}

#[test]
fn server_with_one_neighbour_is_rejected() {
    let roster = vec![drone(1, &[2, 20]), drone(2, &[1]), server(20, &[1])];
    assert_eq!(validate_network(&roster), Err(ValidationError::ServerConnectionError));
}

#[test]
fn server_with_no_neighbour_is_rejected() {
    let roster = vec![drone(1, &[]), server(20, &[])];
    assert_eq!(validate_network(&roster), Err(ValidationError::ServerConnectionError));
}

#[test]
fn server_with_two_drone_neighbours_is_accepted() {
    let roster = vec![drone(1, &[2, 20]), drone(2, &[1, 20]), server(20, &[1, 2])];
    assert_eq!(validate_network(&roster), Ok(()));
}

#[test]
fn server_next_to_client_is_rejected() {
    let roster = vec![
        drone(1, &[2, 20]),
        drone(2, &[1, 20]),
        server(20, &[1, 2, 10]),
        client(10, &[1]),
    ];
    assert_eq!(validate_network(&roster), Err(ValidationError::ServerConnectionError));
}

#[test]
fn server_next_to_server_is_rejected() {
    let roster = vec![
        drone(1, &[2, 20, 21]),
        drone(2, &[1, 20, 21]),
        server(20, &[1, 21]),
        server(21, &[1, 2]),
    ];
    assert_eq!(validate_network(&roster), Err(ValidationError::ServerConnectionError));
}

#[test]
fn client_with_no_neighbour_is_rejected() {
    let roster = vec![drone(1, &[]), client(10, &[])];
    assert_eq!(validate_network(&roster), Err(ValidationError::ClientConnectionError));
}

#[test]
fn client_with_three_neighbours_is_rejected() {
    let roster = vec![
        drone(1, &[2, 3, 10]),
        drone(2, &[1, 3, 10]),
        drone(3, &[1, 2, 10]),
        client(10, &[1, 2, 3]),
    ];
    assert_eq!(validate_network(&roster), Err(ValidationError::ClientConnectionError));
}

#[test]
fn client_with_one_drone_neighbour_is_accepted() {
    let roster = vec![drone(1, &[10]), client(10, &[1])];
    assert_eq!(validate_network(&roster), Ok(()));
}

#[test]
fn client_with_two_drone_neighbours_is_accepted() {
    let roster = vec![drone(1, &[2, 10]), drone(2, &[1, 10]), client(10, &[1, 2])];
    assert_eq!(validate_network(&roster), Ok(()));
}

#[test]
fn client_next_to_server_is_rejected() {
    let roster = vec![
        drone(1, &[2, 20]),
        drone(2, &[1, 20]),
        client(10, &[20]),
        server(20, &[1, 2]),
    ];
    assert_eq!(validate_network(&roster), Err(ValidationError::ClientConnectionError));
}

#[test]
fn first_offender_decides_the_error() {
    let roster = vec![client(10, &[]), server(20, &[])];
    assert_eq!(validate_network(&roster), Err(ValidationError::ClientConnectionError));
    let roster = vec![server(20, &[]), client(10, &[])];
    assert_eq!(validate_network(&roster), Err(ValidationError::ServerConnectionError));
}

#[test]
fn role_errors_come_before_asymmetry() {
    let roster = vec![drone(1, &[2]), drone(2, &[]), server(20, &[1])];
    assert_eq!(validate_network(&roster), Err(ValidationError::ServerConnectionError));
}

#[test]
fn one_way_link_is_rejected() {
    let roster = vec![drone(1, &[2]), drone(2, &[])];
    assert_eq!(validate_network(&roster), Err(ValidationError::NotBidirectional(1, 2)));
}

#[test]
fn one_way_link_from_a_client_is_rejected() {
    let roster = vec![drone(1, &[]), client(10, &[1])];
    assert_eq!(validate_network(&roster), Err(ValidationError::NotBidirectional(10, 1)));
}

#[test]
fn least_one_way_link_is_reported() {
    let roster = vec![drone(5, &[3]), drone(3, &[]), drone(2, &[9]), drone(9, &[])];
    assert_eq!(validate_network(&roster), Err(ValidationError::NotBidirectional(2, 9)));
}

#[test]
fn link_to_an_unknown_node_is_one_way() {
    let roster = vec![drone(1, &[99])];
    assert_eq!(validate_network(&roster), Err(ValidationError::NotBidirectional(1, 99)));
}

#[test]
fn unknown_neighbour_of_a_server_is_skipped() {
    let roster = vec![drone(1, &[2, 20]), drone(2, &[1, 20]), server(20, &[1, 2, 99])];
    assert_eq!(validate_network(&roster), Ok(()));
}

#[test]
fn two_clusters_are_rejected() {
    let roster = vec![
        drone(1, &[2, 10]),
        drone(2, &[1]),
        client(10, &[1]),
        drone(3, &[4, 11]),
        drone(4, &[3]),
        client(11, &[3]),
    ];
    assert_eq!(validate_network(&roster), Err(ValidationError::NotConnected));
}

#[test]
fn bridge_between_clusters_makes_the_roster_valid() {
    let roster = vec![
        drone(1, &[2, 10]),
        drone(2, &[1, 3]),
        client(10, &[1]),
        drone(3, &[4, 11, 2]),
        drone(4, &[3]),
        client(11, &[3]),
    ];
    assert_eq!(validate_network(&roster), Ok(()));
}

#[test]
fn server_with_a_single_edge_makes_the_roster_invalid() {
    // client 10 - drone 1, drone 1 - drone 2, drone 2 - server 20, drone 2 - server 21
    let roster = vec![
        client(10, &[1]),
        drone(1, &[10, 2]),
        drone(2, &[1, 20, 21]),
        server(20, &[2, 1]),
        server(21, &[2]),
    ];
    assert_eq!(validate_network(&roster), Err(ValidationError::ServerConnectionError));
}

#[test]
fn second_entry_with_the_same_id_does_not_decide_the_role() {
    // id 1 is first listed as a drone, so the client may name it
    let roster = vec![drone(1, &[10]), client(10, &[1]), server(1, &[10, 10])];
    assert_eq!(validate_network(&roster), Err(ValidationError::ServerConnectionError));
    assert_eq!(find_node(&roster, 1), Some(0));
    assert_eq!(find_node(&roster, 10), Some(1));
    assert_eq!(find_node(&roster, 3), None);
}

#[test]
fn check_node_reports_the_role() {
    let roster = small_valid();
    for k in 0..roster.len() {
        assert_eq!(check_node(&roster, k), Ok(()));
    }
    let roster = vec![client(10, &[1, 2, 3]), server(20, &[1]), drone(1, &[])];
    assert_eq!(check_node(&roster, 0), Err(ValidationError::ClientConnectionError));
    assert_eq!(check_node(&roster, 1), Err(ValidationError::ServerConnectionError));
    assert_eq!(check_node(&roster, 2), Ok(()));
}

#[test]
fn topology_records_links() {
    let mut g = Topology::new();
    assert!(!g.has_link(3, 4));
    g.add_link(3, 4);
    assert!(g.has_link(3, 4));
    assert!(!g.has_link(4, 3));
    assert!(!g.has_link(3, 5));
    assert!(!g.has_link(2, 4));
    assert_eq!(g.find_asymmetric(), Some((3, 4)));
    g.add_link(4, 3);
    assert_eq!(g.find_asymmetric(), None);
    g.add_link(255, 0);
    assert!(g.has_link(255, 0));
    assert_eq!(g.find_asymmetric(), Some((255, 0)));
}

#[test]
fn topology_of_a_roster() {
    let g = Topology::from_roster(&small_valid());
    // a drone is linked to itself and to what it names
    assert!(g.has_link(1, 1));
    assert!(g.has_link(1, 10));
    assert!(g.has_link(1, 2));
    assert!(g.has_link(1, 20));
    assert!(g.has_link(2, 2));
    // a client and a server are linked to the drones they name, not to themselves
    assert!(g.has_link(10, 1));
    assert!(!g.has_link(10, 10));
    assert!(g.has_link(20, 1));
    assert!(g.has_link(20, 2));
    assert!(!g.has_link(20, 20));
    assert!(!g.has_link(10, 2));
    let nodes = g.nodes();
    assert_eq!(nodes.len(), 256);
    for id in 0..256usize {
        assert_eq!(nodes[id], id == 1 || id == 2 || id == 10 || id == 20);
    }
}

#[test]
fn reach_from_follows_links() {
    let mut g = Topology::new();
    g.add_link(1, 2);
    g.add_link(2, 3);
    g.add_link(4, 1);
    let seen = g.reach_from(1);
    assert_eq!(seen.len(), 256);
    for id in 0..256usize {
        assert_eq!(seen[id], id == 1 || id == 2 || id == 3);
    }
    let seen = g.reach_from(9);
    for id in 0..256usize {
        assert_eq!(seen[id], id == 9);
    }
}

#[test]
fn is_connected_on_symmetric_links() {
    let mut g = Topology::new();
    assert!(g.is_connected());
    g.add_link(1, 2);
    g.add_link(2, 1);
    assert!(g.is_connected());
    g.add_link(3, 4);
    g.add_link(4, 3);
    assert!(!g.is_connected());
    g.add_link(2, 3);
    g.add_link(3, 2);
    assert!(g.is_connected());
}

#[test]
fn new_entry_joins_the_roster() {
    let mut roster = vec![drone(1, &[2])];
    let node = SimulationControllerNode::new(
        SimulationControllerNodeType::DRONE { drone_type: String::from("relay") },
        2,
        vec![1],
        &mut roster,
    );
    assert_eq!(node.node_id, 2);
    assert_eq!(node.neighbours, vec![1]);
    assert!(!node.details);
    assert!(node.event.is_empty());
    assert!(matches!(node.node_type, SimulationControllerNodeType::DRONE { .. }));
    assert_eq!(roster.len(), 2);
    assert_eq!(roster[0].node_id, 1);
    assert_eq!(roster[1].node_id, 2);
    assert_eq!(roster[1].neighbours, vec![1]);
    assert!(matches!(&roster[1].node_type, SimulationControllerNodeType::DRONE { drone_type } if drone_type == "relay"));
    assert_eq!(validate_network(&roster), Ok(()));
}

#[test]
fn role_is_copied_as_it_is() {
    let server = SimulationControllerNodeType::SERVER { server_type: ServerType::Communication };
    assert!(matches!(
        server.duplicate(),
        SimulationControllerNodeType::SERVER { server_type: ServerType::Communication }
    ));
    let client = SimulationControllerNodeType::CLIENT { client_type: ClientType::WebBrowsers };
    assert!(matches!(
        client.duplicate(),
        SimulationControllerNodeType::CLIENT { client_type: ClientType::WebBrowsers }
    ));
}

#[test]
fn commands_are_cloned_as_they_are() {
    let (sender, receiver) = crossbeam_channel::unbounded();
    let command = ClientCommand::AddSender(4, sender);
    match command.clone() {
        ClientCommand::AddSender(id, handle) => {
            assert_eq!(id, 4);
            let packet = fragment_message(&vec![1, 2, 3], vec![4], 8).remove(0);
            handle.send(packet.clone()).unwrap();
            assert_eq!(receiver.recv().unwrap(), packet);
        }
        _ => panic!("another command"),
    }
    assert!(matches!(
        ClientCommand::MessageFor(1, 2, String::from("hi")).clone(),
        ClientCommand::MessageFor(1, 2, text) if text == "hi"
    ));
    assert!(matches!(ClientCommand::File(3, 9).clone(), ClientCommand::File(3, 9)));
    assert!(matches!(
        ServerCommand::SendMessage(7, String::from("yo")).clone(),
        ServerCommand::SendMessage(7, text) if text == "yo"
    ));
    assert!(matches!(ServerCommand::RequestNetworkDiscovery.clone(), ServerCommand::RequestNetworkDiscovery));
}
