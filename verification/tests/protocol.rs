use drone_mesh::config::{Client, Config, Drone as DroneConfig, Server};
use drone_mesh::drone::{endpoint_flood_response, Drone, DroneCommand, DroneOutcome};
use drone_mesh::message::{Message, MessageContent};
use drone_mesh::packet::{Ack, NackType, NodeType as TraceKind, Packet, PacketType};
use drone_mesh::reliability::{avoid_for_nack, NackAction, OutboundSession, ReassemblyBuffer};
use drone_mesh::routing::SourceRoutingHeader;
use drone_mesh::topology::{NodeType, Topology};

#[test]
fn duplicate_ack_completes_session_exactly_once() {
    let frags = Message::disassembly(vec![5; 300]); // four fragments
    let mut session = OutboundSession::new(1, 5, vec![1, 2, 5], frags, 3, 100, 0);
    assert!(!session.handle_ack(0));
    assert!(!session.handle_ack(1));
    assert!(!session.handle_ack(2));
    // Awaiting fragment 3: the first ack completes the session,
    // the duplicate is a no-op.
    assert!(session.handle_ack(3));
    assert!(!session.handle_ack(3));
    assert!(session.is_complete());
}

#[test]
fn unknown_ack_is_ignored() {
    let frags = Message::disassembly(vec![5; 100]);
    let mut session = OutboundSession::new(1, 5, vec![1, 2, 5], frags, 3, 100, 0);
    assert!(!session.handle_ack(99));
    assert!(!session.is_complete());
}

#[test]
fn nack_resends_along_new_route_and_bounds_retries() {
    let frags = Message::disassembly(vec![5; 10]);
    let mut session = OutboundSession::new(8, 5, vec![1, 2, 5], frags, 2, 100, 0);
    match session.handle_nack(0, Some(vec![1, 3, 5]), 10) {
        NackAction::Resend { to, packet } => {
            assert_eq!(to, 3);
            assert_eq!(packet.routing_header.hops, vec![1, 3, 5]);
            assert_eq!(packet.routing_header.hop_index, 1);
            assert_eq!(packet.session_id, 8);
            assert!(matches!(packet.pack_type, PacketType::MsgFragment(_)));
        }
        _ => panic!("expected a resend"),
    }
    assert!(matches!(session.handle_nack(0, None, 20), NackAction::Resend { .. }));
    // Third report exhausts the budget of two retries.
    assert!(matches!(session.handle_nack(0, None, 30), NackAction::Failed));
    // Further reports for a failed session change nothing.
    assert!(matches!(session.handle_nack(0, None, 40), NackAction::Ignore));
}

#[test]
fn nack_for_acked_fragment_is_ignored() {
    let frags = Message::disassembly(vec![5; 10]);
    let mut session = OutboundSession::new(8, 5, vec![1, 2, 5], frags, 2, 100, 0);
    session.handle_ack(0);
    assert!(matches!(session.handle_nack(0, None, 10), NackAction::Ignore));
}

#[test]
fn timeout_reports_overdue_fragments() {
    let frags = Message::disassembly(vec![5; 200]); // three fragments
    let mut session = OutboundSession::new(8, 5, vec![1, 2, 5], frags, 2, 100, 0);
    session.handle_ack(1);
    assert_eq!(session.timed_out(50), Vec::<u64>::new());
    assert_eq!(session.timed_out(100), vec![0, 2]);
}

#[test]
fn reassembly_accepts_out_of_order_and_discards_duplicates() {
    let bytes: Vec<u8> = (0..200u8).collect();
    let frags = Message::disassembly(bytes.clone());
    let total = frags.len() as u64;
    let mut buffer = ReassemblyBuffer::new(7, 42, total, 0);
    assert!(buffer.accept(&frags[2], 1));
    assert!(buffer.accept(&frags[0], 2));
    assert!(!buffer.accept(&frags[0], 3)); // duplicate index: discarded
    assert!(!buffer.is_complete());
    assert!(buffer.accept(&frags[1], 4));
    assert!(buffer.is_complete());
    let rebuilt = Message::assembly(buffer.fragments_in_order());
    assert_eq!(rebuilt, bytes);
}

#[test]
fn reassembly_expiry() {
    let buffer = ReassemblyBuffer::new(7, 42, 3, 100);
    assert!(!buffer.expired(150, 100));
    assert!(buffer.expired(200, 100));
}

#[test]
fn topology_routes_avoid_failed_nodes() {
    let mut t = Topology::new();
    t.ensure_node(1, NodeType::Client);
    t.ensure_node(5, NodeType::Server);
    for d in [2u8, 3, 4] {
        t.ensure_node(d, NodeType::Drone);
    }
    // Two disjoint relay branches: 1-2-5 and 1-3-4-5.
    for (a, b) in [(1u8, 2u8), (2, 5), (1, 3), (3, 4), (4, 5)] {
        assert!(t.add_link(a, b));
        assert!(t.add_link(b, a));
    }
    let short = t.compute_route(1, 5, None).expect("a route exists");
    assert_eq!(short.path, vec![1, 2, 5]);
    let detour = t.compute_route(1, 5, Some(2)).expect("a detour exists");
    assert_eq!(detour.path, vec![1, 3, 4, 5]);
    t.remove_link(3, 4);
    assert!(t.compute_route(1, 5, Some(2)).is_none());
    assert!(!t.is_linked(3, 4));
}

#[test]
fn route_never_relays_through_endpoints() {
    let mut t = Topology::new();
    t.ensure_node(1, NodeType::Client);
    t.ensure_node(5, NodeType::Server);
    t.ensure_node(9, NodeType::Client);
    // The only connection runs through another client: no route may use it.
    for (a, b) in [(1u8, 9u8), (9, 5)] {
        assert!(t.add_link(a, b));
        assert!(t.add_link(b, a));
    }
    assert!(t.compute_route(1, 5, None).is_none());
}

#[test]
fn nack_kind_picks_the_node_to_avoid() {
    assert_eq!(avoid_for_nack(&NackType::ErrorInRouting(3)), Some(3));
    assert_eq!(avoid_for_nack(&NackType::UnexpectedRecipient(4)), Some(4));
    assert_eq!(avoid_for_nack(&NackType::DestinationIsDrone), None);
    assert_eq!(avoid_for_nack(&NackType::Dropped), None);

    // A routing error reroutes around the failed drone and resends there.
    let mut t = Topology::new();
    t.ensure_node(1, NodeType::Client);
    t.ensure_node(5, NodeType::Server);
    for d in [2u8, 3, 4] {
        t.ensure_node(d, NodeType::Drone);
    }
    for (a, b) in [(1u8, 2u8), (2, 5), (1, 3), (3, 4), (4, 5)] {
        assert!(t.add_link(a, b));
        assert!(t.add_link(b, a));
    }
    let avoid = avoid_for_nack(&NackType::ErrorInRouting(2));
    let reroute = t.compute_route(1, 5, avoid).expect("a detour exists");
    assert_eq!(reroute.path, vec![1, 3, 4, 5]);
    let frags = Message::disassembly(vec![5; 10]);
    let mut session = OutboundSession::new(9, 5, vec![1, 2, 5], frags, 2, 100, 0);
    match session.handle_nack(0, Some(reroute.path), 10) {
        NackAction::Resend { to, packet } => {
            assert_eq!(to, 3);
            assert_eq!(packet.routing_header.hops, vec![1, 3, 4, 5]);
        }
        _ => panic!("expected a resend"),
    }
}

#[test]
fn nack_with_topology_reroutes_around_the_blamed_drone() {
    let mut t = Topology::new();
    t.ensure_node(1, NodeType::Client);
    t.ensure_node(5, NodeType::Server);
    for d in [2u8, 3, 4] {
        t.ensure_node(d, NodeType::Drone);
    }
    for (a, b) in [(1u8, 2u8), (2, 5), (1, 3), (3, 4), (4, 5)] {
        assert!(t.add_link(a, b));
        assert!(t.add_link(b, a));
    }
    let frags = Message::disassembly(vec![5; 10]);
    let mut session = OutboundSession::new(9, 5, vec![1, 2, 5], frags, 2, 100, 0);
    match session.handle_nack_with_topology(0, &NackType::ErrorInRouting(2), &t, 10) {
        NackAction::Resend { to, packet } => {
            assert_eq!(to, 3);
            assert_eq!(packet.routing_header.hops, vec![1, 3, 4, 5]);
        }
        _ => panic!("expected a resend"),
    }
    // A drop blames nobody: the shortest route is recomputed as it stands.
    match session.handle_nack_with_topology(0, &NackType::Dropped, &t, 20) {
        NackAction::Resend { to, packet } => {
            assert_eq!(to, 2);
            assert_eq!(packet.routing_header.hops, vec![1, 2, 5]);
        }
        _ => panic!("expected a resend"),
    }
}

#[test]
fn flood_trace_merges_into_topology() {
    let mut t = Topology::new();
    t.ensure_node(1, NodeType::Client);
    // A response came back along 1-2-3-5: the view now knows the whole arm.
    let trace = vec![
        (1, TraceKind::Client),
        (2, TraceKind::Drone),
        (3, TraceKind::Drone),
        (5, TraceKind::Server),
    ];
    t.merge_trace(&trace);
    assert!(t.has_node(2) && t.has_node(3) && t.has_node(5));
    assert!(t.is_linked(2, 3) && t.is_linked(3, 2));
    let route = t.compute_route(1, 5, None).expect("the merged arm is a route");
    assert_eq!(route.path, vec![1, 2, 3, 5]);
}

#[test]
fn config_id_uniqueness() {
    let config = Config {
        drone: vec![DroneConfig { id: 2, connected_drone_ids: vec![1, 5], pdr: 0 }],
        client: vec![Client { id: 1, connected_drone_ids: vec![2] }],
        server: vec![Server { id: 5, connected_drone_ids: vec![2] }],
    };
    assert!(config.ids_unique());
    let clashing = Config {
        drone: vec![DroneConfig { id: 1, connected_drone_ids: vec![], pdr: 0 }],
        client: vec![Client { id: 1, connected_drone_ids: vec![] }],
        server: vec![],
    };
    assert!(!clashing.ids_unique());
}

#[test]
fn endpoint_answers_floods_with_itself_appended() {
    let request = drone_mesh::drone::initiate_flood(1, TraceKind::Client, 3, 5);
    let grown = match Drone::new(2, 0).handle_flood_request(&request, 9, 0) {
        drone_mesh::drone::FloodOutcome::Rebroadcast { request } => request,
        _ => panic!("expected a rebroadcast"),
    };
    let (to, packet) = endpoint_flood_response(5, TraceKind::Server, &grown, 9)
        .expect("a trace names a sender");
    assert_eq!(to, 2);
    match packet.pack_type {
        PacketType::FloodResponse(fr) => {
            assert_eq!(fr.flood_id, 3);
            assert_eq!(fr.path_trace.len(), 3);
            assert_eq!(fr.path_trace[2], (5, TraceKind::Server));
        }
        _ => panic!("expected a flood response"),
    }
    assert_eq!(packet.routing_header.hops, vec![5, 2, 1]);
}

/// A three-drone chain with a client and a server at the edges, zero drop
/// rate: one single-fragment message travels with exactly one forwarded
/// packet per hop, and one ack travels the reverse path.
#[test]
fn three_drone_chain_delivers_and_acknowledges() {
    let client = 1u8;
    let server = 5u8;
    let route = vec![client, 2, 3, 4, server];

    let mut drones = vec![
        Drone::new(2, 0),
        Drone::new(3, 0),
        Drone::new(4, 0),
    ];
    drones[0].apply_command(DroneCommand::AddSender(1));
    drones[0].apply_command(DroneCommand::AddSender(3));
    drones[1].apply_command(DroneCommand::AddSender(2));
    drones[1].apply_command(DroneCommand::AddSender(4));
    drones[2].apply_command(DroneCommand::AddSender(3));
    drones[2].apply_command(DroneCommand::AddSender(5));

    // The client fragments one short message: a single fragment.
    let m = Message::new(
        SourceRoutingHeader { hop_index: 1, hops: route.clone() },
        client,
        7,
        MessageContent::ReqServerType,
    );
    let bytes = m.serialize();
    let frags = Message::disassembly(bytes.clone());
    assert_eq!(frags.len(), 1);
    let mut session = OutboundSession::new(7, server, route.clone(), frags.clone(), 3, 100, 0);

    let mut packet = Packet {
        pack_type: PacketType::MsgFragment(frags[0]),
        routing_header: SourceRoutingHeader { hop_index: 1, hops: route.clone() },
        session_id: 7,
    };

    // Forward through the chain: exactly one forwarded packet per drone.
    let mut forwards: u32 = 0;
    for d in &drones {
        let (fragment, header) = match &packet.pack_type {
            PacketType::MsgFragment(f) => (*f, packet.routing_header.clone()),
            _ => panic!("expected a fragment"),
        };
        match d.handle_fragment(&header, &fragment, packet.session_id, 0) {
            DroneOutcome::Forward { to, packet: next } => {
                forwards += 1;
                assert_eq!(next.routing_header.hop_index, header.hop_index + 1);
                assert_eq!(to, next.routing_header.hops[next.routing_header.hop_index]);
                packet = next;
            }
            _ => panic!("a zero drop rate chain forwards"),
        }
    }
    assert_eq!(forwards, 3);
    assert_eq!(packet.routing_header.hops[packet.routing_header.hop_index], server);

    // The server reassembles and answers with one ack along the reverse path.
    let fragment = match &packet.pack_type {
        PacketType::MsgFragment(f) => *f,
        _ => panic!("expected a fragment"),
    };
    let mut buffer = ReassemblyBuffer::new(client, 7, fragment.total_n_fragments, 0);
    assert!(buffer.accept(&fragment, 0));
    assert!(buffer.is_complete());
    let rebuilt = Message::assembly(buffer.fragments_in_order());
    let data = Message::deserialize(rebuilt).expect("the message survives the trip");
    assert!(matches!(data.content, MessageContent::ReqServerType));

    let back = packet.routing_header.reversed_prefix();
    assert_eq!(back.hops, vec![5, 4, 3, 2, 1]);
    let mut ack = Packet {
        pack_type: PacketType::Ack(Ack { fragment_index: fragment.fragment_index }),
        routing_header: back,
        session_id: 7,
    };

    let mut ack_forwards: u32 = 0;
    for d in drones.iter().rev() {
        match d.forward_transit(&ack) {
            Some((to, next)) => {
                ack_forwards += 1;
                assert_eq!(to, next.routing_header.hops[next.routing_header.hop_index]);
                ack = next;
            }
            None => panic!("acks are always forwarded on a live chain"),
        }
    }
    assert_eq!(ack_forwards, 3);
    assert_eq!(ack.routing_header.hops[ack.routing_header.hop_index], client);

    // The client books the ack: the session completes exactly once.
    assert!(session.handle_ack(fragment.fragment_index));
    assert!(session.is_complete());
}
