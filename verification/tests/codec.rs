//! Tests of the wire codec: header and payload framing, round trips,
//! and rejection of malformed input.

use peernet::errors::DecodeError;
use peernet::addr::PeerAddr;
use peernet::message::{
    Alive, Chat, Header, MemberRequest, MemberResponse, Message, MessageContent, MessageType,
    MAGIC_HEADER,
};

#[test]
fn header_serialization() {
    let mut header = Header::new(12, MessageType::Alive, 501);
    let mut expected: Vec<u8> = vec![MAGIC_HEADER, 0xC1, 0x01, 0xF5];
    assert_eq!(header.encode(), expected);

    header = Header::new(5, MessageType::Chat, 113);
    expected = vec![MAGIC_HEADER, 0x58, 0x00, 0x71];
    assert_eq!(header.encode(), expected);
}

#[test]
fn header_round_trip() {
    let cases = [
        (0u8, MessageType::Alive, 0u16),
        (15, MessageType::MemberReq, 65535),
        (1, MessageType::MemberRes, 223),
        (7, MessageType::Chat, 288),
    ];
    for (version, msg_type, size) in cases {
        let header = Header::new(version, msg_type, size);
        let decoded = Header::decode(&header.encode()).unwrap();
        assert_eq!(decoded, header);
        assert_eq!(decoded.msg_type(), msg_type);
        assert_eq!(decoded.msg_size(), size);
    }
}

#[test]
fn header_rejects_bad_input() {
    // Too short for a header.
    assert!(matches!(
        Header::decode(&vec![MAGIC_HEADER, 0x11]),
        Err(DecodeError::Format(_))
    ));
    // Missing magic byte.
    assert!(matches!(
        Header::decode(&vec![0x00, 0x11, 0x00, 0x00]),
        Err(DecodeError::Format(_))
    ));
    // Unknown type nibble (0x3 names no message type).
    assert!(matches!(
        Header::decode(&vec![MAGIC_HEADER, 0x13, 0x00, 0x00]),
        Err(DecodeError::Protocol(_))
    ));
}

#[test]
fn member_request_serialization() {
    let req = MemberRequest::new("peer-A", "my-group").unwrap();
    let buf: Vec<u8> = req.encode().unwrap();
    assert_eq!(buf[0..8], *"my-group".as_bytes());
}

#[test]
fn member_request_deserialization() {
    let req = MemberRequest::new("peer1", "my-group").unwrap();

    let bytes: Vec<u8> = req.encode().unwrap();

    let req2 = MemberRequest::decode(&bytes).unwrap();
    assert_eq!(req2.group_name(), "my-group");
    assert_eq!(req2.peer_id(), "peer1");
}

#[test]
fn member_request_rejects_long_names() {
    let long = "x".repeat(33);
    assert!(MemberRequest::new("peer", &long).is_err());
    assert!(MemberRequest::new(&long, "group").is_err());
    assert!(MemberRequest::new("peer", "group-of-32-bytes-exactly-plus!!").is_ok());
}

#[test]
fn member_request_rejects_non_utf8_field() {
    // A name field holding an invalid UTF-8 byte must fail decoding.
    let mut bytes = vec![0u8; 64];
    bytes[0] = 0xFF;
    assert!(MemberRequest::decode(&bytes).is_err());
}

#[test]
fn member_response_serialization() {
    let peers = vec![
        ("peer-A".to_string(), PeerAddr::new(11, 22, 33, 44, 1234)),
        ("peer-B".to_string(), PeerAddr::new(255, 0, 0, 1, 65511)),
    ];
    let res = MemberResponse::new("my-group", peers).unwrap();
    let buf: Vec<u8> = res.encode().unwrap();

    let res2 = MemberResponse::decode(&buf).unwrap();

    assert_eq!(res2.group_name(), "my-group".to_string());

    assert_eq!(res2.member_number, 2);

    assert_eq!(res2.peers()[0], ("peer-A".to_string(), PeerAddr::new(11, 22, 33, 44, 1234)));
    assert_eq!(res2.peers()[1], ("peer-B".to_string(), PeerAddr::new(255, 0, 0, 1, 65511)));
}

#[test]
fn member_response_deserialization() {
    let data = [
        // group name
        'g' as u8, 'r' as u8, 'p' as u8, 0, 0, 0, 0, 0, 0, 0, 0, 0, 0, 0, 0, 0, 0, 0, 0, 0, 0, 0,
        0, 0, 0, 0, 0, 0, 0, 0, 0, 0,
        // member count
        2,
        // First peer name
        'p' as u8, 'e' as u8, 'e' as u8, 'r' as u8, 'A' as u8, 0, 0, 0, 0, 0, 0, 0, 0, 0, 0, 0, 0,
        0, 0, 0, 0, 0, 0, 0, 0, 0, 0, 0, 0, 0, 0, 0,
        // First IP and port
        11, 22, 255, 0, 0x04, 0xD2,
        // Second peer name
        'p' as u8, 'e' as u8, 'e' as u8, 'r' as u8, 'B' as u8, 0, 0, 0, 0, 0, 0, 0, 0, 0, 0, 0, 0,
        0, 0, 0, 0, 0, 0, 0, 0, 0, 0, 0, 0, 0, 0, 0,
        // Second IP and port
        255, 0, 1, 1, 0xFD, 0xFE,
    ];
    let res = MemberResponse::decode(&data.to_vec()).unwrap();

    assert_eq!(res.group_name(), "grp".to_string());

    // Member count
    assert_eq!(res.member_number, 2);

    let peers = res.peers();
    assert_eq!(peers[0], ("peerA".to_string(), PeerAddr::new(11, 22, 255, 0, 1234)));
    assert_eq!(peers[1], ("peerB".to_string(), PeerAddr::new(255, 0, 1, 1, 65022)));
}

#[test]
fn member_response_rejects_sixth_peer() {
    let mut peers = Vec::new();
    for i in 0..6 {
        peers.push((format!("peer-{}", i), PeerAddr::new(10, 0, 0, i as u8, 4000)));
    }
    // Six peers exceed the protocol's cap of five: no bytes are produced.
    assert!(MemberResponse::new("my-group", peers).is_err());

    let mut five = Vec::new();
    for i in 0..5 {
        five.push((format!("peer-{}", i), PeerAddr::new(10, 0, 0, i as u8, 4000)));
    }
    assert!(MemberResponse::new("my-group", five).is_ok());
}

#[test]
fn member_response_rejects_overlong_count() {
    // A count byte above five is malformed even when the bytes are there.
    let mut bytes = vec![0u8; 33 + 38 * 6];
    bytes[0] = 'g' as u8;
    bytes[32] = 6;
    assert!(MemberResponse::decode(&bytes).is_err());
}

#[test]
fn chat_round_trip() {
    let msg = "hello there".to_string();
    let chat = Chat::new("peer-A".to_string(), &msg);
    let bytes = chat.encode().unwrap();
    assert_eq!(bytes.len(), 33 + msg.len());
    assert_eq!(bytes[32], msg.len() as u8);

    let chat2 = Chat::decode(&bytes).unwrap();
    assert_eq!(chat2.peer_id(), "peer-A");
    assert_eq!(chat2.msg(), "hello there");
}

#[test]
fn chat_keeps_multibyte_text() {
    let msg = "grüße, мир".to_string();
    let chat = Chat::new("peer-A".to_string(), &msg);
    let bytes = chat.encode().unwrap();
    let chat2 = Chat::decode(&bytes).unwrap();
    assert_eq!(chat2.msg(), "grüße, мир");
}

#[test]
fn chat_rejects_long_message() {
    let long = "y".repeat(256);
    let chat = Chat::new("peer-A".to_string(), &long);
    assert!(chat.encode().is_err());

    let just_fits = "y".repeat(255);
    let chat = Chat::new("peer-A".to_string(), &just_fits);
    assert!(chat.encode().is_ok());
}

#[test]
fn alive_round_trip() {
    let alive = Alive::new("peer-A".to_string());
    let bytes = alive.encode().unwrap();
    assert_eq!(bytes.len(), 32);
    let alive2 = Alive::decode(&bytes).unwrap();
    assert_eq!(alive2.peer_id(), "peer-A");
}

#[test]
fn message_frame_round_trip() {
    let req = MemberRequest::new("peer1", "my-group").unwrap();
    let header = Header::new(1, MessageType::MemberReq, 64);
    let msg = Message::new(header, Some(req));
    let bytes = msg.encode().unwrap();
    assert_eq!(bytes.len(), 68);

    let msg2 = Message::<MemberRequest>::decode(&bytes).unwrap();
    assert_eq!(*msg2.header(), header);
    let content = msg2.content().unwrap();
    assert_eq!(content.group_name(), "my-group");
    assert_eq!(content.peer_id(), "peer1");
}

#[test]
fn message_frame_rejects_size_mismatch() {
    let req = MemberRequest::new("peer1", "my-group").unwrap();
    // The header claims 63 payload bytes but 64 follow.
    let msg = Message::new(Header::new(1, MessageType::MemberReq, 63), Some(req));
    let bytes = msg.encode().unwrap();
    assert!(matches!(
        Message::<MemberRequest>::decode(&bytes),
        Err(DecodeError::Format(_))
    ));
}
