use kademlia_dht::kad_id::NodeId;
use kademlia_dht::network::{
    decode_frame, decode_payload, encode_frame, encode_payload, frame_length, WireError,
};
use kademlia_dht::protocol::Message;

fn id(seed: u8) -> NodeId {
    let mut bytes = [0u8; 20];
    for (i, b) in bytes.iter_mut().enumerate() {
        *b = seed.wrapping_mul(31).wrapping_add(i as u8);
    }
    NodeId(bytes)
}

fn same(a: &Message, b: &Message) -> bool {
    match (a, b) {
        (Message::Ping(x, p), Message::Ping(y, q)) => x == y && p == q,
        (Message::Pong(x, p), Message::Pong(y, q)) => x == y && p == q,
        (Message::FindNode(x), Message::FindNode(y)) => x == y,
        (Message::FoundNodes(x), Message::FoundNodes(y)) => x == y,
        _ => false,
    }
}

fn samples() -> Vec<Message> {
    let mut many = Vec::new();
    for n in 0..255u32 {
        many.push((id(n as u8), format!("192.168.{}.{}:{}", n / 16, n % 16, 4000 + n)));
    }
    vec![
        Message::Ping(id(1), 0),
        Message::Ping(id(2), 9000),
        Message::Pong(id(3), 65535),
        Message::Pong(NodeId([0u8; 20]), 1),
        Message::FindNode(id(4)),
        Message::FindNode(NodeId([0xff; 20])),
        Message::FoundNodes(Vec::new()),
        Message::FoundNodes(vec![(id(5), String::new())]),
        Message::FoundNodes(vec![(id(6), "a:1".to_string()), (id(7), "b:2".to_string())]),
        Message::FoundNodes(vec![(id(8), "h\u{e9}te-\u{4e16}\u{754c}-\u{1f600}:80".to_string())]),
        Message::FoundNodes(many),
    ]
}

#[test]
fn frame_round_trip() {
    let msg = Message::FoundNodes(vec![(id(1), "a:1".to_string()), (id(2), "b:2".to_string())]);
    let payload = encode_payload(&msg);
    let mut wire = (payload.len() as u32).to_be_bytes().to_vec();
    wire.extend_from_slice(&payload);
    assert_eq!(encode_frame(&msg), Some(wire.clone()));
    let back = decode_frame(&wire).unwrap();
    assert!(same(&back, &msg));
}

#[test]
fn every_message_shape_round_trips() {
    for msg in samples().iter() {
        let payload = encode_payload(msg);
        let back = decode_payload(&payload).unwrap();
        assert!(same(&back, msg));
        let frame = encode_frame(msg).unwrap();
        assert_eq!(frame.len(), payload.len() + 4);
        assert_eq!(&frame[4..], &payload[..]);
        let back = decode_frame(&frame).unwrap();
        assert!(same(&back, msg));
        assert_eq!(encode_payload(&back), payload);
    }
}

#[test]
fn a_list_of_255_entries_round_trips() {
    let msg = samples().pop().unwrap();
    let frame = encode_frame(&msg).unwrap();
    match decode_frame(&frame).unwrap() {
        Message::FoundNodes(peers) => {
            assert_eq!(peers.len(), 255);
            assert_eq!(peers[254], (id(254), "192.168.15.14:4254".to_string()));
        }
        other => panic!("unexpected {:?}", other),
    }
}

#[test]
fn ping_frame_bytes_are_exact() {
    let frame = encode_frame(&Message::Ping(id(0), 0x1234)).unwrap();
    let mut expected = vec![0, 0, 0, 26, 0, 0, 0, 0];
    expected.extend_from_slice(&id(0).0);
    expected.extend_from_slice(&[0x34, 0x12]);
    assert_eq!(frame, expected);
}

#[test]
fn found_nodes_payload_bytes_are_exact() {
    let payload = encode_payload(&Message::FoundNodes(vec![(id(9), "ab:1".to_string())]));
    let mut expected = vec![3, 0, 0, 0, 1, 0, 0, 0, 0, 0, 0, 0];
    expected.extend_from_slice(&id(9).0);
    expected.extend_from_slice(&[4, 0, 0, 0, 0, 0, 0, 0]);
    expected.extend_from_slice(b"ab:1");
    assert_eq!(payload, expected);
    assert_eq!(encode_payload(&Message::FindNode(id(9)))[..4], [2, 0, 0, 0]);
    assert_eq!(encode_payload(&Message::Pong(id(9), 1))[..4], [1, 0, 0, 0]);
    assert_eq!(encode_payload(&Message::FoundNodes(Vec::new())), vec![3, 0, 0, 0, 0, 0, 0, 0, 0, 0, 0, 0]);
}

#[test]
fn frame_length_is_big_endian() {
    assert_eq!(frame_length(&[0, 0, 0, 0]), 0);
    assert_eq!(frame_length(&[0, 0, 0, 26]), 26);
    assert_eq!(frame_length(&[0, 0, 1, 0]), 256);
    assert_eq!(frame_length(&[1, 2, 3, 4]), 0x0102_0304);
    assert_eq!(frame_length(&[0xff, 0xff, 0xff, 0xff]), u32::MAX);
}

#[test]
fn short_reads_are_transport_errors() {
    let frame = encode_frame(&Message::Ping(id(1), 7)).unwrap();
    for cut in 0..frame.len() {
        match decode_frame(&frame[..cut]) {
            Err(WireError::Transport) => {}
            other => panic!("cut at {}: {:?}", cut, other),
        }
    }
    assert!(decode_frame(&frame).is_ok());
}

#[test]
fn bytes_behind_the_frame_are_not_read() {
    let msg = Message::FindNode(id(3));
    let mut wire = encode_frame(&msg).unwrap();
    wire.extend_from_slice(&[1, 2, 3]);
    assert!(same(&decode_frame(&wire).unwrap(), &msg));
}

#[test]
fn malformed_payloads_are_decode_errors() {
    let good = encode_payload(&Message::FoundNodes(vec![(id(6), "a:1".to_string())]));
    let mut cases: Vec<Vec<u8>> = Vec::new();
    cases.push(Vec::new());
    cases.push(vec![0, 0, 0]);
    cases.push(vec![4, 0, 0, 0]);
    cases.push(vec![0, 0, 0, 1]);
    let mut ping = encode_payload(&Message::Ping(id(1), 7));
    ping.push(0);
    cases.push(ping);
    let ping = encode_payload(&Message::Ping(id(1), 7));
    cases.push(ping[..25].to_vec());
    let find = encode_payload(&Message::FindNode(id(1)));
    cases.push(find[..23].to_vec());
    let mut find_long = find.clone();
    find_long.push(9);
    cases.push(find_long);
    cases.push(good[..good.len() - 1].to_vec());
    let mut trailing = good.clone();
    trailing.push(0);
    cases.push(trailing);
    let mut too_many = good.clone();
    too_many[4] = 2;
    cases.push(too_many);
    let mut too_few = good.clone();
    too_few[4] = 0;
    cases.push(too_few);
    let mut huge_count = good.clone();
    for b in huge_count[4..12].iter_mut() {
        *b = 0xff;
    }
    cases.push(huge_count);
    let mut huge_text = good.clone();
    for b in huge_text[32..40].iter_mut() {
        *b = 0xff;
    }
    cases.push(huge_text);
    let mut bad_utf8 = good.clone();
    let last = bad_utf8.len() - 1;
    bad_utf8[last] = 0xff;
    cases.push(bad_utf8);
    cases.push(vec![3, 0, 0, 0, 0, 0, 0]);
    for (n, bytes) in cases.iter().enumerate() {
        match decode_payload(bytes) {
            Err(WireError::Decode) => {}
            other => panic!("case {}: {:?}", n, other),
        }
        let mut wire = (bytes.len() as u32).to_be_bytes().to_vec();
        wire.extend_from_slice(bytes);
        match decode_frame(&wire) {
            Err(WireError::Decode) => {}
            other => panic!("framed case {}: {:?}", n, other),
        }
    }
}

#[test]
fn decoded_addresses_are_the_encoded_text() {
    let msg = Message::FoundNodes(vec![(id(1), "example.org:4242".to_string())]);
    match decode_payload(&encode_payload(&msg)).unwrap() {
        Message::FoundNodes(peers) => {
            assert_eq!(peers.len(), 1);
            assert_eq!(peers[0].1, "example.org:4242");
            assert_eq!(peers[0].0, id(1));
        }
        other => panic!("unexpected {:?}", other),
    }
}

#[test]
fn payloads_agree_with_bincode() {
    let ping = bincode::serialize(&(0u32, id(1).0, 9000u16)).unwrap();
    assert_eq!(encode_payload(&Message::Ping(id(1), 9000)), ping);
    let pong = bincode::serialize(&(1u32, id(2).0, 65535u16)).unwrap();
    assert_eq!(encode_payload(&Message::Pong(id(2), 65535)), pong);
    let find = bincode::serialize(&(2u32, id(3).0)).unwrap();
    assert_eq!(encode_payload(&Message::FindNode(id(3))), find);
    let peers = vec![(id(4), "a:1".to_string()), (id(5), "caf\u{e9}:22".to_string()), (id(6), String::new())];
    let plain: Vec<([u8; 20], String)> = peers.iter().map(|p| (p.0 .0, p.1.clone())).collect();
    let found = bincode::serialize(&(3u32, plain.clone())).unwrap();
    assert_eq!(encode_payload(&Message::FoundNodes(peers.clone())), found);
    let empty: Vec<([u8; 20], String)> = Vec::new();
    assert_eq!(encode_payload(&Message::FoundNodes(Vec::new())), bincode::serialize(&(3u32, empty)).unwrap());

    match decode_payload(&ping).unwrap() {
        Message::Ping(from, port) => {
            let back: (u32, [u8; 20], u16) = bincode::deserialize(&ping).unwrap();
            assert_eq!((0, from.0, port), back);
        }
        other => panic!("unexpected {:?}", other),
    }
    match decode_payload(&found).unwrap() {
        Message::FoundNodes(list) => {
            let back: (u32, Vec<([u8; 20], String)>) = bincode::deserialize(&found).unwrap();
            assert_eq!(back.0, 3);
            assert_eq!(back.1, plain);
            assert_eq!(list, peers);
        }
        other => panic!("unexpected {:?}", other),
    }
}
