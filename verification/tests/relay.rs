use drone_mesh::drone::{
    initiate_flood, Drone, DroneCommand, DroneOutcome, FloodOutcome, PDR_UNIT,
};
use drone_mesh::packet::{Fragment, FragmentData, NackType, NodeType, PacketType};
use drone_mesh::routing::SourceRoutingHeader;

fn fragment() -> Fragment {
    Fragment {
        fragment_index: 0,
        total_n_fragments: 1,
        data: FragmentData { length: 3, data: [7; 80] },
    }
}

fn drone_with(id: u8, neighbors: &[u8], pdr: u32) -> Drone {
    let mut d = Drone::new(id, pdr);
    for n in neighbors {
        d.apply_command(DroneCommand::AddSender(*n));
    }
    d
}

#[test]
fn forward_increments_hop_index_by_one() {
    let d = drone_with(2, &[1, 3], 0);
    let h = SourceRoutingHeader { hop_index: 1, hops: vec![1, 2, 3] };
    match d.handle_fragment(&h, &fragment(), 5, 0) {
        DroneOutcome::Forward { to, packet } => {
            assert_eq!(to, 3);
            assert_eq!(packet.routing_header.hop_index, 2);
            assert_eq!(packet.routing_header.hops, vec![1, 2, 3]);
            assert_eq!(packet.session_id, 5);
            assert!(matches!(packet.pack_type, PacketType::MsgFragment(_)));
        }
        _ => panic!("expected a forward"),
    }
}

#[test]
fn wrong_recipient_is_rejected() {
    let d = drone_with(9, &[1, 3], 0);
    let h = SourceRoutingHeader { hop_index: 1, hops: vec![1, 2, 3] };
    match d.handle_fragment(&h, &fragment(), 5, 0) {
        DroneOutcome::NackBack { to, packet } => {
            assert_eq!(to, 1);
            match packet.pack_type {
                PacketType::Nack(n) => {
                    assert_eq!(n.nack_type, NackType::UnexpectedRecipient(9));
                    assert_eq!(n.fragment_index, 0);
                }
                _ => panic!("expected a nack"),
            }
        }
        _ => panic!("expected a rejection"),
    }
}

#[test]
fn fragment_path_ending_at_drone_is_rejected() {
    let d = drone_with(3, &[2], 0);
    let h = SourceRoutingHeader { hop_index: 2, hops: vec![1, 2, 3] };
    match d.handle_fragment(&h, &fragment(), 5, 0) {
        DroneOutcome::NackBack { to, packet } => {
            assert_eq!(to, 2);
            match packet.pack_type {
                PacketType::Nack(n) => assert_eq!(n.nack_type, NackType::DestinationIsDrone),
                _ => panic!("expected a nack"),
            }
        }
        _ => panic!("expected a rejection"),
    }
}

#[test]
fn removed_link_yields_error_in_routing() {
    let mut d = drone_with(2, &[1, 3], 0);
    d.apply_command(DroneCommand::RemoveSender(3));
    let h = SourceRoutingHeader { hop_index: 1, hops: vec![1, 2, 3] };
    match d.handle_fragment(&h, &fragment(), 5, 0) {
        DroneOutcome::NackBack { to, packet } => {
            assert_eq!(to, 1);
            // The nack travels the reversed processed prefix.
            assert_eq!(packet.routing_header.hops, vec![2, 1]);
            assert_eq!(packet.routing_header.hop_index, 1);
            match packet.pack_type {
                PacketType::Nack(n) => assert_eq!(n.nack_type, NackType::ErrorInRouting(3)),
                _ => panic!("expected a nack"),
            }
        }
        _ => panic!("expected a rejection"),
    }
}

#[test]
fn full_drop_rate_drops_with_dropped_nack() {
    let d = drone_with(2, &[1, 3], PDR_UNIT);
    let h = SourceRoutingHeader { hop_index: 1, hops: vec![1, 2, 3] };
    match d.handle_fragment(&h, &fragment(), 5, PDR_UNIT - 1) {
        DroneOutcome::NackBack { to, packet } => {
            assert_eq!(to, 1);
            match packet.pack_type {
                PacketType::Nack(n) => assert_eq!(n.nack_type, NackType::Dropped),
                _ => panic!("expected a nack"),
            }
        }
        _ => panic!("expected a drop"),
    }
}

#[test]
fn observed_drop_fraction_matches_configured_rate() {
    // Uniform rolls over the whole unit: the drop fraction equals the
    // configured rate exactly, by the sampling rule.
    let pdr = 30_000; // drop rate 0.3
    let d = drone_with(2, &[1, 3], pdr);
    let h = SourceRoutingHeader { hop_index: 1, hops: vec![1, 2, 3] };
    let mut dropped: u32 = 0;
    let mut total: u32 = 0;
    let mut roll: u32 = 0;
    while roll < PDR_UNIT {
        match d.handle_fragment(&h, &fragment(), 5, roll) {
            DroneOutcome::NackBack { .. } => dropped += 1,
            DroneOutcome::Forward { .. } => {}
            DroneOutcome::Discard => panic!("unexpected discard"),
        }
        total += 1;
        roll += 100;
    }
    assert_eq!(total, 1000);
    assert_eq!(dropped, 300);
}

#[test]
fn pseudo_random_rolls_converge_to_drop_rate() {
    // A simple linear-congruential sequence as the roll source: the observed
    // drop fraction stays within sampling error of the configured rate.
    let pdr = 25_000; // drop rate 0.25
    let d = drone_with(2, &[1, 3], pdr);
    let h = SourceRoutingHeader { hop_index: 1, hops: vec![1, 2, 3] };
    let mut state: u64 = 0x2545_F491_4F6C_DD1D;
    let n = 20_000u32;
    let mut dropped: u32 = 0;
    for _ in 0..n {
        state = state.wrapping_mul(6364136223846793005).wrapping_add(1442695040888963407);
        let roll = ((state >> 33) % PDR_UNIT as u64) as u32;
        if let DroneOutcome::NackBack { .. } = d.handle_fragment(&h, &fragment(), 5, roll) {
            dropped += 1;
        }
    }
    let fraction = dropped as f64 / n as f64;
    assert!((fraction - 0.25).abs() < 0.01, "fraction {fraction}");
}

#[test]
fn crashed_drone_rejects_fragments() {
    let mut d = drone_with(2, &[1, 3], 0);
    d.apply_command(DroneCommand::Crash);
    let h = SourceRoutingHeader { hop_index: 1, hops: vec![1, 2, 3] };
    match d.handle_fragment(&h, &fragment(), 5, 0) {
        DroneOutcome::NackBack { packet, .. } => match packet.pack_type {
            PacketType::Nack(n) => assert_eq!(n.nack_type, NackType::ErrorInRouting(2)),
            _ => panic!("expected a nack"),
        },
        _ => panic!("expected a rejection"),
    }
}

#[test]
fn set_drop_rate_clamps_to_unit() {
    let mut d = Drone::new(1, 0);
    d.apply_command(DroneCommand::SetPacketDropRate(PDR_UNIT + 5));
    let h = SourceRoutingHeader { hop_index: 1, hops: vec![0, 1, 2] };
    let mut d2 = d.clone();
    d2.apply_command(DroneCommand::AddSender(2));
    // Every roll below the unit now drops.
    match d2.handle_fragment(&h, &fragment(), 5, PDR_UNIT - 1) {
        DroneOutcome::NackBack { packet, .. } => match packet.pack_type {
            PacketType::Nack(n) => assert_eq!(n.nack_type, NackType::Dropped),
            _ => panic!("expected a nack"),
        },
        _ => panic!("expected a drop"),
    }
}

#[test]
fn flood_ttl_two_never_grows_trace_past_three() {
    let session = 11u64;
    let request = initiate_flood(10, NodeType::Client, 77, 2);
    assert_eq!(request.path_trace.len(), 1);

    let b = drone_with(20, &[10, 30], 0);
    let r1 = match b.handle_flood_request(&request, session, 0) {
        FloodOutcome::Rebroadcast { request } => request,
        _ => panic!("expected a rebroadcast"),
    };
    assert_eq!(r1.path_trace.len(), 2);
    assert_eq!(r1.ttl, 1);

    let c = drone_with(30, &[20, 40], 0);
    let r2 = match c.handle_flood_request(&r1, session, 0) {
        FloodOutcome::Rebroadcast { request } => request,
        _ => panic!("expected a rebroadcast"),
    };
    assert_eq!(r2.path_trace.len(), 3);
    assert_eq!(r2.ttl, 0);

    // The radius is spent: the next drone answers instead of growing the
    // trace further.
    let d = drone_with(40, &[30], 0);
    match d.handle_flood_request(&r2, session, 0) {
        FloodOutcome::Respond { to, packet } => {
            assert_eq!(to, 30);
            match packet.pack_type {
                PacketType::FloodResponse(fr) => {
                    assert_eq!(fr.flood_id, 77);
                    assert_eq!(fr.path_trace.len(), 3);
                }
                _ => panic!("expected a flood response"),
            }
            assert_eq!(packet.routing_header.hops, vec![40, 30, 20, 10]);
            assert_eq!(packet.routing_header.hop_index, 1);
        }
        _ => panic!("expected a response"),
    }
}

#[test]
fn flood_cycle_is_answered_not_forwarded() {
    let session = 11u64;
    let b = drone_with(20, &[10, 30], 0);
    let request = initiate_flood(10, NodeType::Client, 5, 10);
    let grown = match b.handle_flood_request(&request, session, 0) {
        FloodOutcome::Rebroadcast { request } => request,
        _ => panic!("expected a rebroadcast"),
    };
    // The same drone sees its own trace entry: it answers.
    match b.handle_flood_request(&grown, session, 0) {
        FloodOutcome::Respond { to, .. } => assert_eq!(to, 20),
        _ => panic!("expected a response"),
    }
}

#[test]
fn broadcast_targets_exclude_sender() {
    let d = drone_with(2, &[1, 3, 4], 0);
    assert_eq!(d.broadcast_targets(1), vec![3, 4]);
    assert_eq!(d.broadcast_targets(9), vec![1, 3, 4]);
}
