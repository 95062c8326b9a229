//! Tests of the protocol state machine: dispatch, heartbeat, commands,
//! and the discovery scenarios.

use peernet::addr::PeerAddr;
use peernet::directory::{NeighbourDirectory, NeighbourEntry};
use peernet::errors::{ConstructionError, DecodeError};
use peernet::message::{MemberResponse, Message, MessageContent};
use peernet::runtime::{
    build_alive, build_chat, build_member_request, handle_command, handle_datagram,
    handle_member_response, heartbeat_tick, startup_packets, Action, PeerConfig, TTL_GRACE_MS,
};

fn addr(last: u8, port: u16) -> PeerAddr {
    PeerAddr::new(10, 0, 0, last, port)
}

#[test]
fn config_rejects_oversized_names() {
    let long = "x".repeat(33);
    assert!(matches!(
        PeerConfig::new(long.clone(), "g".to_string(), 4000, None),
        Err(ConstructionError::OversizedName)
    ));
    assert!(matches!(
        PeerConfig::new("me".to_string(), long, 4000, None),
        Err(ConstructionError::OversizedGroup)
    ));
    assert!(PeerConfig::new("me".to_string(), "g".to_string(), 4000, None).is_ok());
}

#[test]
fn startup_requests_membership_from_bootstrap() {
    let bootstrap = addr(9, 9000);
    let cfg =
        PeerConfig::new("me".to_string(), "g".to_string(), 4000, Some(bootstrap)).unwrap();
    let packets = startup_packets(&cfg);
    assert_eq!(packets.len(), 1);
    assert_eq!(packets[0].socket_addr, bootstrap);
    assert_eq!(packets[0].data, build_member_request(&cfg.name, &cfg.group).unwrap());

    let lone = PeerConfig::new("me".to_string(), "g".to_string(), 4000, None).unwrap();
    assert_eq!(startup_packets(&lone).len(), 0);
}

#[test]
fn dispatch_rejects_malformed_datagrams() {
    let mut dir = NeighbourDirectory::new();
    // Shorter than a header.
    assert!(matches!(
        handle_datagram(&mut dir, &vec![0x9D, 0x11], addr(1, 1), 0),
        Err(DecodeError::Format(_))
    ));
    // Unknown type nibble.
    assert!(matches!(
        handle_datagram(&mut dir, &vec![0x9D, 0x17, 0x00, 0x00], addr(1, 1), 0),
        Err(DecodeError::Protocol(_))
    ));
    // A truncated member request payload.
    let mut frame = build_member_request(&"b".to_string(), &"g".to_string()).unwrap();
    frame.pop();
    assert!(matches!(
        handle_datagram(&mut dir, &frame, addr(1, 1), 0),
        Err(DecodeError::Format(_))
    ));
    // Nothing was recorded on any of those.
    assert_eq!(dir.group_count(), 0);
}

#[test]
fn member_request_registers_sender_and_answers() {
    // Peer A, bootstrapping group "g", already knows C; B sends a
    // MemberRequest from addr1.
    let mut dir = NeighbourDirectory::new();
    dir.insert("g", NeighbourEntry::new("C".to_string(), addr(3, 3000), 500));

    let addr1 = addr(2, 2000);
    let frame = build_member_request(&"B".to_string(), &"g".to_string()).unwrap();
    let actions = handle_datagram(&mut dir, &frame, addr1, 0).unwrap();

    // B is now registered in "g" under the packet's source address.
    let everyone = dir.members("g", "");
    assert_eq!(everyone.len(), 2);
    assert_eq!(everyone[0], ("C".to_string(), addr(3, 3000)));
    assert_eq!(everyone[1], ("B".to_string(), addr1));

    // The answer goes back to addr1 and lists the prior members, not B.
    assert_eq!(actions.len(), 1);
    match &actions[0] {
        Action::Send(packet) => {
            assert_eq!(packet.socket_addr, addr1);
            let msg = Message::<MemberResponse>::decode(&packet.data).unwrap();
            let res = msg.content().unwrap();
            assert_eq!(res.group_name(), "g");
            assert_eq!(*res.peers(), vec![("C".to_string(), addr(3, 3000))]);
        },
        other => panic!("expected a send, got {:?}", other),
    }
}

#[test]
fn member_request_never_trusts_a_claimed_address() {
    // The request names peer B; whatever the directory learns must carry
    // the datagram's source address, which only the transport knows.
    let mut dir = NeighbourDirectory::new();
    let source = addr(7, 7777);
    let frame = build_member_request(&"B".to_string(), &"g".to_string()).unwrap();
    handle_datagram(&mut dir, &frame, source, 0).unwrap();
    let everyone = dir.members("g", "");
    assert_eq!(everyone, vec![("B".to_string(), source)]);
}

#[test]
fn gossip_cannot_displace_first_address() {
    // Two MemberResponse payloads both mention C, at different
    // addresses: C stays bound to the first address processed.
    let mut dir = NeighbourDirectory::new();

    let first = MemberResponse::new("g", vec![("C".to_string(), addr(1, 1000))]).unwrap();
    handle_member_response(&mut dir, &first, 0);

    let second = MemberResponse::new("g", vec![("C".to_string(), addr(2, 2000))]).unwrap();
    handle_member_response(&mut dir, &second, 0);

    let everyone = dir.members("g", "");
    assert_eq!(everyone, vec![("C".to_string(), addr(1, 1000))]);
}

#[test]
fn gossip_does_not_extend_a_known_entrys_life() {
    // C is known with an expiry of 100; a later gossiped response about C
    // must not push that deadline out.
    let mut dir = NeighbourDirectory::new();
    dir.insert("g", NeighbourEntry::new("C".to_string(), addr(1, 1000), 100));

    let gossip = MemberResponse::new("g", vec![("C".to_string(), addr(2, 2000))]).unwrap();
    handle_member_response(&mut dir, &gossip, 99);

    dir.sweep(100);
    assert!(!dir.contains("g", "C"));
}

#[test]
fn grace_ttl_survives_until_first_alive_deadline() {
    // An entry inserted via MemberRequest at instant 0 gets the grace
    // expiry: still present 120 s later absent any Alive, removable only
    // once the grace deadline passes.
    let mut dir = NeighbourDirectory::new();
    let frame = build_member_request(&"B".to_string(), &"g".to_string()).unwrap();
    handle_datagram(&mut dir, &frame, addr(2, 2000), 0).unwrap();

    dir.sweep(120_000);
    assert!(dir.contains("g", "B"));

    dir.sweep(TTL_GRACE_MS - 1);
    assert!(dir.contains("g", "B"));

    dir.sweep(TTL_GRACE_MS);
    assert!(!dir.contains("g", "B"));
}

#[test]
fn alive_renews_known_peer_everywhere() {
    let mut dir = NeighbourDirectory::new();
    dir.insert("g", NeighbourEntry::new("B".to_string(), addr(2, 2000), 100));
    dir.insert("h", NeighbourEntry::new("B".to_string(), addr(2, 2001), 100));
    dir.insert("g", NeighbourEntry::new("C".to_string(), addr(3, 3000), 100));

    let frame_bytes = {
        let alive = build_alive(&"B".to_string()).unwrap();
        alive
    };
    let actions = handle_datagram(&mut dir, &frame_bytes, addr(2, 2000), 50).unwrap();
    assert_eq!(actions.len(), 0);

    // B's deadline moved out by the renewal TTL in both groups; C's did
    // not.
    dir.sweep(100);
    assert!(dir.contains("g", "B"));
    assert!(dir.contains("h", "B"));
    assert!(!dir.contains("g", "C"));
}

#[test]
fn alive_from_unknown_peer_registers_nothing() {
    let mut dir = NeighbourDirectory::new();
    let frame = build_alive(&"stranger".to_string()).unwrap();
    let actions = handle_datagram(&mut dir, &frame, addr(5, 5000), 0).unwrap();
    assert_eq!(actions.len(), 0);
    assert_eq!(dir.group_count(), 0);
}

#[test]
fn chat_is_delivered_to_the_user() {
    let mut dir = NeighbourDirectory::new();
    let frame = build_chat(&"B".to_string(), &"hi all".to_string()).unwrap();
    let actions = handle_datagram(&mut dir, &frame, addr(2, 2000), 0).unwrap();
    assert_eq!(actions.len(), 1);
    match &actions[0] {
        Action::Deliver { peer_id, msg } => {
            assert_eq!(peer_id, "B");
            assert_eq!(msg, "hi all");
        },
        other => panic!("expected a delivery, got {:?}", other),
    }
    assert_eq!(dir.group_count(), 0);
}

#[test]
fn heartbeat_sweeps_then_greets_survivors() {
    let mut dir = NeighbourDirectory::new();
    dir.insert("g", NeighbourEntry::new("B".to_string(), addr(2, 2000), 100));
    dir.insert("g", NeighbourEntry::new("C".to_string(), addr(3, 3000), 900));
    dir.insert("h", NeighbourEntry::new("D".to_string(), addr(4, 4000), 900));

    let name = "me".to_string();
    let packets = heartbeat_tick(&mut dir, &name, 500);

    // B expired before the tick and gets no final heartbeat.
    assert!(!dir.contains("g", "B"));
    assert_eq!(packets.len(), 2);
    let alive_bytes = build_alive(&name).unwrap();
    assert_eq!(packets[0].socket_addr, addr(3, 3000));
    assert_eq!(packets[0].data, alive_bytes);
    assert_eq!(packets[1].socket_addr, addr(4, 4000));
    assert_eq!(packets[1].data, alive_bytes);
}

#[test]
fn peers_command_snapshots_the_directory() {
    let mut dir = NeighbourDirectory::new();
    dir.insert("g", NeighbourEntry::new("B".to_string(), addr(2, 2000), 100));
    let cfg = PeerConfig::new("me".to_string(), "g".to_string(), 4000, None).unwrap();

    let actions = handle_command(&dir, &cfg, &"peers".to_string()).unwrap();
    assert_eq!(actions.len(), 1);
    match &actions[0] {
        Action::Snapshot(snap) => assert_eq!(*snap, dir),
        other => panic!("expected a snapshot, got {:?}", other),
    }
}

#[test]
fn req_command_rerequests_membership() {
    let mut dir = NeighbourDirectory::new();
    dir.insert("g", NeighbourEntry::new("B".to_string(), addr(2, 2000), 100));
    let bootstrap = addr(9, 9000);
    let cfg =
        PeerConfig::new("me".to_string(), "g".to_string(), 4000, Some(bootstrap)).unwrap();

    // The verb is recognized with surrounding whitespace, as typed lines
    // have.
    let actions = handle_command(&dir, &cfg, &"  req \n".to_string()).unwrap();
    assert_eq!(actions.len(), 2);
    let request = build_member_request(&cfg.name, &cfg.group).unwrap();
    match &actions[0] {
        Action::Send(p) => {
            assert_eq!(p.socket_addr, addr(2, 2000));
            assert_eq!(p.data, request);
        },
        other => panic!("expected a send, got {:?}", other),
    }
    match &actions[1] {
        Action::Send(p) => {
            assert_eq!(p.socket_addr, bootstrap);
            assert_eq!(p.data, request);
        },
        other => panic!("expected a send, got {:?}", other),
    }
}

#[test]
fn other_lines_are_broadcast_as_chat() {
    let mut dir = NeighbourDirectory::new();
    dir.insert("g", NeighbourEntry::new("B".to_string(), addr(2, 2000), 100));
    dir.insert("g", NeighbourEntry::new("C".to_string(), addr(3, 3000), 100));
    let cfg = PeerConfig::new("me".to_string(), "g".to_string(), 4000, None).unwrap();

    let line = "lunch at noon?".to_string();
    let actions = handle_command(&dir, &cfg, &line).unwrap();
    assert_eq!(actions.len(), 2);
    let expected = build_chat(&cfg.name, &line).unwrap();
    for (i, dest) in [addr(2, 2000), addr(3, 3000)].iter().enumerate() {
        match &actions[i] {
            Action::Send(p) => {
                assert_eq!(p.socket_addr, *dest);
                assert_eq!(p.data, expected);
            },
            other => panic!("expected a send, got {:?}", other),
        }
    }
}

#[test]
fn overlong_chat_line_is_refused() {
    let dir = NeighbourDirectory::new();
    let cfg = PeerConfig::new("me".to_string(), "g".to_string(), 4000, None).unwrap();
    let long = "z".repeat(256);
    assert!(handle_command(&dir, &cfg, &long).is_err());
    let just_fits = "z".repeat(255);
    assert!(handle_command(&dir, &cfg, &just_fits).is_ok());
}
