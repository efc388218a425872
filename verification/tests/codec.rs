use drone_mesh::message::{Message, MessageContent, MessageData, ServerType};
use drone_mesh::packet::Fragment;
use drone_mesh::routing::SourceRoutingHeader;

fn header() -> SourceRoutingHeader {
    SourceRoutingHeader { hop_index: 1, hops: vec![1, 2, 3] }
}

fn roundtrip(content: MessageContent) -> MessageData {
    let m = Message::new(header(), 7, 42, content);
    let bytes = m.serialize();
    Message::deserialize(bytes).expect("serialized data must deserialize")
}

#[test]
fn message_new_sets_fields() {
    let m = Message::new(header(), 9, 77, MessageContent::ReqFilesList);
    assert_eq!(m.message_data.source_id, 9);
    assert_eq!(m.message_data.session_id, 77);
    assert!(matches!(m.message_data.content, MessageContent::ReqFilesList));
    assert_eq!(m.routing_header.hops, vec![1, 2, 3]);
}

#[test]
fn serialize_exact_bytes_for_req_file() {
    let m = Message::new(header(), 5, 258, MessageContent::ReqFile(2));
    let bytes = m.serialize();
    // source id, 8 bytes of session id little endian, tag, 8 bytes of file id.
    let expected = vec![
        5, 2, 1, 0, 0, 0, 0, 0, 0, 2, 2, 0, 0, 0, 0, 0, 0, 0,
    ];
    assert_eq!(bytes, expected);
}

#[test]
fn roundtrip_plain_variants() {
    for content in [
        MessageContent::ReqServerType,
        MessageContent::ReqFilesList,
        MessageContent::ReqClientList,
        MessageContent::ReqRegistrationToChat,
        MessageContent::ErrUnsupportedRequestType,
        MessageContent::ErrRequestedNotFound,
        MessageContent::ErrWrongClientId,
    ] {
        let d = roundtrip(content);
        assert_eq!(d.source_id, 7);
        assert_eq!(d.session_id, 42);
    }
}

#[test]
fn roundtrip_req_file_and_media() {
    let d = roundtrip(MessageContent::ReqFile(u64::MAX));
    assert!(matches!(d.content, MessageContent::ReqFile(u64::MAX)));
    let d = roundtrip(MessageContent::ReqMedia(12345));
    assert!(matches!(d.content, MessageContent::ReqMedia(12345)));
}

#[test]
fn roundtrip_message_send() {
    let d = roundtrip(MessageContent::ReqMessageSend { to: 3, message: vec![1, 2, 3, 255] });
    match d.content {
        MessageContent::ReqMessageSend { to, message } => {
            assert_eq!(to, 3);
            assert_eq!(message, vec![1, 2, 3, 255]);
        }
        _ => panic!("wrong variant"),
    }
}

#[test]
fn roundtrip_server_type() {
    for t in [ServerType::Chat, ServerType::Text, ServerType::Media] {
        let d = roundtrip(MessageContent::RespServerType(t));
        match d.content {
            MessageContent::RespServerType(got) => assert_eq!(got, t),
            _ => panic!("wrong variant"),
        }
    }
}

#[test]
fn roundtrip_files_list() {
    let d = roundtrip(MessageContent::RespFilesList(vec![0, 1, u64::MAX, 7]));
    match d.content {
        MessageContent::RespFilesList(l) => assert_eq!(l, vec![0, 1, u64::MAX, 7]),
        _ => panic!("wrong variant"),
    }
    let d = roundtrip(MessageContent::RespFilesList(vec![]));
    match d.content {
        MessageContent::RespFilesList(l) => assert!(l.is_empty()),
        _ => panic!("wrong variant"),
    }
}

#[test]
fn roundtrip_resp_file_media_clients_from() {
    let blob: Vec<u8> = (0..=255u8).cycle().take(1000).collect();
    let d = roundtrip(MessageContent::RespFile(blob.clone()));
    match d.content {
        MessageContent::RespFile(b) => assert_eq!(b, blob),
        _ => panic!("wrong variant"),
    }
    let d = roundtrip(MessageContent::RespMedia(vec![9; 81]));
    match d.content {
        MessageContent::RespMedia(b) => assert_eq!(b, vec![9; 81]),
        _ => panic!("wrong variant"),
    }
    let d = roundtrip(MessageContent::RespClientList(vec![1, 2, 3]));
    match d.content {
        MessageContent::RespClientList(l) => assert_eq!(l, vec![1, 2, 3]),
        _ => panic!("wrong variant"),
    }
    let d = roundtrip(MessageContent::RespMessageFrom { from: 8, message: vec![0, 0, 7] });
    match d.content {
        MessageContent::RespMessageFrom { from, message } => {
            assert_eq!(from, 8);
            assert_eq!(message, vec![0, 0, 7]);
        }
        _ => panic!("wrong variant"),
    }
}

#[test]
fn deserialize_rejects_garbage() {
    assert!(Message::deserialize(vec![]).is_none());
    assert!(Message::deserialize(vec![1, 2, 3]).is_none());
    // Valid prefix but unknown tag.
    let mut bytes = vec![5, 0, 0, 0, 0, 0, 0, 0, 0];
    bytes.push(200);
    assert!(Message::deserialize(bytes).is_none());
    // Known tag with a truncated length field.
    let mut bytes = vec![5, 0, 0, 0, 0, 0, 0, 0, 0];
    bytes.extend_from_slice(&[9, 1, 0, 0]);
    assert!(Message::deserialize(bytes).is_none());
    // Length prefix promising more bytes than present.
    let mut bytes = vec![5, 0, 0, 0, 0, 0, 0, 0, 0];
    bytes.push(9);
    bytes.extend_from_slice(&7u64.to_le_bytes());
    bytes.extend_from_slice(&[1, 2, 3]);
    assert!(Message::deserialize(bytes).is_none());
}

fn fragment_roundtrip(len: usize) {
    let bytes: Vec<u8> = (0..len).map(|i| (i % 251) as u8).collect();
    let frags = Message::disassembly(bytes.clone());
    let expected_count = if len == 0 { 1 } else { len.div_ceil(80) };
    assert_eq!(frags.len(), expected_count);
    for (i, f) in frags.iter().enumerate() {
        assert_eq!(f.fragment_index, i as u64);
        assert_eq!(f.total_n_fragments, expected_count as u64);
        assert!(f.data.length <= 80);
    }
    let rebuilt = Message::assembly(frags);
    assert_eq!(rebuilt, bytes);
}

#[test]
fn disassembly_then_assembly_is_identity() {
    for len in [0usize, 1, 80, 81, 1000] {
        fragment_roundtrip(len);
    }
}

#[test]
fn disassembly_shapes() {
    let frags = Message::disassembly(vec![7; 1000]);
    assert_eq!(frags.len(), 13);
    assert_eq!(frags[12].data.length, 40);
    for f in frags[..12].iter() {
        assert_eq!(f.data.length, 80);
    }
    let frags = Message::disassembly(vec![]);
    assert_eq!(frags.len(), 1);
    assert_eq!(frags[0].data.length, 0);
}

#[test]
fn assembly_orders_by_fragment_index() {
    // Reassembly goes by fragment index, not by the order given.
    let a = Fragment {
        fragment_index: 0,
        total_n_fragments: 2,
        data: drone_mesh::packet::FragmentData { length: 2, data: [1; 80] },
    };
    let b = Fragment {
        fragment_index: 1,
        total_n_fragments: 2,
        data: drone_mesh::packet::FragmentData { length: 1, data: [9; 80] },
    };
    assert_eq!(Message::assembly(vec![a, b]), vec![1, 1, 9]);
    assert_eq!(Message::assembly(vec![b, a]), vec![1, 1, 9]);
}

#[test]
fn assembly_of_any_permutation_rebuilds_the_bytes() {
    let bytes: Vec<u8> = (0..250u8).collect(); // four fragments
    let frags = Message::disassembly(bytes.clone());
    assert_eq!(frags.len(), 4);
    let permutations: [[usize; 4]; 4] = [
        [3, 1, 0, 2],
        [2, 3, 0, 1],
        [1, 0, 3, 2],
        [0, 3, 2, 1],
    ];
    for order in permutations {
        let shuffled: Vec<Fragment> = order.iter().map(|&k| frags[k]).collect();
        assert_eq!(Message::assembly(shuffled), bytes);
    }
}

#[test]
fn assembly_discards_duplicate_fragments() {
    let bytes: Vec<u8> = (0..200u8).collect(); // three fragments
    let frags = Message::disassembly(bytes.clone());
    let mut with_duplicates = frags.clone();
    with_duplicates.push(frags[1]);
    with_duplicates.push(frags[0]);
    with_duplicates.push(frags[2]);
    assert_eq!(Message::assembly(with_duplicates), bytes);
}

#[test]
fn full_message_through_fragments() {
    let content = MessageContent::RespFile((0..=255u8).cycle().take(500).collect());
    let m = Message::new(header(), 3, 99, content);
    let bytes = m.serialize();
    let frags = Message::disassembly(bytes.clone());
    let rebuilt = Message::assembly(frags);
    assert_eq!(rebuilt, bytes);
    let d = Message::deserialize(rebuilt).unwrap();
    assert_eq!(d.source_id, 3);
    assert_eq!(d.session_id, 99);
    match d.content {
        MessageContent::RespFile(b) => assert_eq!(b.len(), 500),
        _ => panic!("wrong variant"),
    }
}
