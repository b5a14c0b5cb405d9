use kademlia_dht::kad_id::NodeId;
use kademlia_dht::network::WireError;
use kademlia_dht::node::{
    rewrite_address, KademliaNode, BUCKET_FRESHNESS_SECS, BUCKET_SCAN_PERIOD_SECS, DEFAULT_K,
    LIVENESS_PERIOD_SECS, LOOKUP_ROUNDS, LOOKUP_WIDTH,
};
use kademlia_dht::observer::Observer;
use kademlia_dht::protocol::Message;
use kademlia_dht::routing::RoutingTable;

fn zero() -> NodeId {
    NodeId([0u8; 20])
}

fn in_bucket(i: usize, tail: u8) -> NodeId {
    let mut bytes = [0u8; 20];
    bytes[i / 8] = 1u8 << (7 - i % 8);
    if i / 8 < 19 {
        bytes[19] = tail;
    }
    NodeId(bytes)
}

fn peer(id: NodeId, addr: &str) -> (NodeId, String) {
    (id, addr.to_string())
}

#[test]
fn defaults() {
    assert_eq!(DEFAULT_K, 8);
    assert_eq!(LOOKUP_WIDTH, 5);
    assert_eq!(LOOKUP_ROUNDS, 3);
    assert_eq!(LIVENESS_PERIOD_SECS, 30);
    assert_eq!(BUCKET_SCAN_PERIOD_SECS, 60);
    assert_eq!(BUCKET_FRESHNESS_SECS, 30 * 60);
}

#[test]
fn new_node_has_an_empty_table_of_k_eight() {
    let node = KademliaNode::new(in_bucket(3, 1), 9000, 12);
    assert_eq!(node.id, in_bucket(3, 1));
    assert_eq!(node.port, 9000);
    assert_eq!(node.routing.my_id(), in_bucket(3, 1));
    assert_eq!(node.routing.k(), 8);
    assert!(node.snapshot().is_empty());
    assert_eq!(node.routing.last_touched(0), Some(12));
    let observer = Observer::new(in_bucket(3, 1), 0, 5);
    assert_eq!(observer.node.port, 0);
    assert_eq!(observer.node.id, in_bucket(3, 1));
    assert!(observer.occupied_buckets().is_empty());
}

#[test]
fn address_rewrite_swaps_the_port() {
    assert_eq!(rewrite_address("1.2.3.4:51234", 9000), Some("1.2.3.4:9000".to_string()));
    assert_eq!(rewrite_address("host:1", 0), Some("host:0".to_string()));
    assert_eq!(rewrite_address("[::1]:51234", 65535), Some("[::1]:65535".to_string()));
    assert_eq!(rewrite_address(":5", 80), Some(":80".to_string()));
    assert_eq!(rewrite_address("h:", 80), Some("h:80".to_string()));
    assert_eq!(rewrite_address("h\u{f6}st:5", 12), Some("h\u{f6}st:12".to_string()));
    assert_eq!(rewrite_address("no-port", 9000), None);
    assert_eq!(rewrite_address("", 9000), None);
}

#[test]
fn ping_is_recorded_and_answered_with_pong() {
    let mut node = KademliaNode::new(zero(), 7000, 0);
    let sender = in_bucket(42, 1);
    let reply = node.handle_message(Message::Ping(sender, 9000), "10.1.1.1:50000", 33);
    match reply {
        Some(Message::Pong(id, port)) => {
            assert_eq!(id, zero());
            assert_eq!(port, 7000);
        }
        other => panic!("unexpected {:?}", other),
    }
    assert_eq!(node.snapshot(), vec![(42, sender, "10.1.1.1:9000".to_string())]);
    assert_eq!(node.routing.last_touched(42), Some(33));
}

#[test]
fn pong_is_recorded_and_not_answered() {
    let mut node = KademliaNode::new(zero(), 7000, 0);
    let sender = in_bucket(10, 1);
    let reply = node.handle_message(Message::Pong(sender, 9001), "10.1.1.2:50000", 1);
    assert!(reply.is_none());
    assert_eq!(node.snapshot(), vec![(10, sender, "10.1.1.2:9001".to_string())]);
}

#[test]
fn sender_without_port_separator_is_discarded() {
    let mut node = KademliaNode::new(zero(), 7000, 0);
    assert!(node.handle_message(Message::Ping(in_bucket(1, 1), 9000), "nowhere", 1).is_none());
    assert!(node.handle_message(Message::Pong(in_bucket(1, 1), 9000), "nowhere", 1).is_none());
    assert!(node.snapshot().is_empty());
}

#[test]
fn ping_from_the_node_itself_is_answered_but_not_recorded() {
    let mut node = KademliaNode::new(in_bucket(5, 5), 7000, 0);
    let reply = node.handle_message(Message::Ping(in_bucket(5, 5), 7000), "127.0.0.1:4", 1);
    assert!(matches!(reply, Some(Message::Pong(_, 7000))));
    assert!(node.snapshot().is_empty());
}

#[test]
fn find_node_is_answered_with_the_five_closest_and_records_nothing() {
    let mut node = KademliaNode::new(zero(), 7000, 0);
    for i in 0..7usize {
        node.routing.insert(in_bucket(100 + i, 1), format!("h{}:1", i), 1);
    }
    let before = node.snapshot();
    let target = in_bucket(106, 1);
    match node.handle_message(Message::FindNode(target), "10.0.0.9:1234", 50) {
        Some(Message::FoundNodes(list)) => {
            assert_eq!(list, node.routing.find_closest(&target, 5));
            assert_eq!(list.len(), 5);
            assert_eq!(list[0], peer(target, "h6:1"));
        }
        other => panic!("unexpected {:?}", other),
    }
    assert_eq!(node.snapshot(), before);
    assert_eq!(node.routing.last_touched(106), Some(1));
}

#[test]
fn found_nodes_arriving_at_the_server_are_ignored() {
    let mut node = KademliaNode::new(zero(), 7000, 0);
    let msg = Message::FoundNodes(vec![peer(in_bucket(3, 1), "a:1")]);
    assert!(node.handle_message(msg, "10.0.0.9:1234", 50).is_none());
    assert!(node.snapshot().is_empty());
}

#[test]
fn requests_carry_the_nodes_identity() {
    let node = KademliaNode::new(in_bucket(9, 2), 4321, 0);
    assert!(matches!(node.ping(), Message::Ping(id, 4321) if id == in_bucket(9, 2)));
    assert!(matches!(KademliaNode::find_node(&zero()), Message::FindNode(id) if id == zero()));
}

#[test]
fn liveness_targets_are_the_peers_of_the_table() {
    let mut node = KademliaNode::new(zero(), 7000, 0);
    node.routing.insert(in_bucket(50, 1), "b:1".to_string(), 1);
    node.routing.insert(in_bucket(2, 1), "a:1".to_string(), 1);
    node.routing.insert(in_bucket(50, 2), "c:1".to_string(), 1);
    assert_eq!(
        node.liveness_targets(),
        vec![peer(in_bucket(2, 1), "a:1"), peer(in_bucket(50, 1), "b:1"), peer(in_bucket(50, 2), "c:1")]
    );
}

#[test]
fn liveness_substitution() {
    let x = in_bucket(42, 1);
    let y = in_bucket(42, 2);
    let mut node = KademliaNode::new(zero(), 7000, 0);
    node.routing = RoutingTable::new(zero(), 1, 0);
    node.routing.insert(x, "x:1".to_string(), 1);
    node.routing.insert(y, "y:1".to_string(), 1);
    assert_eq!(node.routing.bucket(42).unwrap(), vec![peer(x, "x:1")]);
    assert_eq!(node.routing.cache_bucket(42).unwrap(), vec![peer(y, "y:1")]);
    let alive = node.record_liveness(x, &Err(WireError::Transport));
    assert!(!alive);
    assert_eq!(node.routing.bucket(42).unwrap(), vec![peer(y, "y:1")]);
    assert!(node.routing.cache_bucket(42).unwrap().is_empty());
}

#[test]
fn only_a_pong_shows_a_peer_alive() {
    let x = in_bucket(42, 1);
    let outcomes: Vec<(Result<Message, WireError>, bool)> = vec![
        (Ok(Message::Pong(x, 1)), true),
        (Ok(Message::Pong(zero(), 9)), true),
        (Ok(Message::Ping(x, 1)), false),
        (Ok(Message::FindNode(x)), false),
        (Ok(Message::FoundNodes(Vec::new())), false),
        (Err(WireError::Transport), false),
        (Err(WireError::Decode), false),
    ];
    for (outcome, expected) in outcomes.iter() {
        let mut node = KademliaNode::new(zero(), 7000, 0);
        node.routing.insert(x, "x:1".to_string(), 1);
        assert_eq!(node.record_liveness(x, outcome), *expected);
        assert_eq!(node.snapshot().len(), if *expected { 1 } else { 0 });
    }
}

#[test]
fn bootstrap_reply_seeds_the_table() {
    let owner = in_bucket(8, 8);
    let mut node = KademliaNode::new(owner, 7000, 0);
    let list = vec![peer(in_bucket(1, 1), "a:1"), peer(owner, "me:1"), peer(in_bucket(2, 1), "b:1")];
    assert!(node.absorb_bootstrap_reply(&Ok(Message::FoundNodes(list)), 5));
    let known: Vec<String> = node.snapshot().into_iter().map(|n| n.2).collect();
    assert_eq!(known.len(), 2);
    assert!(known.contains(&"a:1".to_string()));
    assert!(known.contains(&"b:1".to_string()));
    assert!(!node.absorb_bootstrap_reply(&Ok(Message::Pong(owner, 1)), 6));
    assert!(!node.absorb_bootstrap_reply(&Err(WireError::Transport), 6));
    assert!(!node.absorb_bootstrap_reply(&Err(WireError::Decode), 6));
    assert_eq!(node.snapshot().len(), 2);
    assert!(node.absorb_bootstrap_reply(&Ok(Message::FoundNodes(Vec::new())), 7));
    assert_eq!(node.snapshot().len(), 2);
}

#[test]
fn stale_buckets_get_a_refresh_target_inside_the_bucket() {
    let owner = in_bucket(8, 8);
    let mut node = KademliaNode::new(owner, 7000, 0);
    let mut member = owner.0;
    member[3] ^= 0x10;
    let bucket = RoutingTable::bucket_index(&owner, &NodeId(member));
    assert_eq!(bucket, 27);
    node.routing.insert(NodeId(member), "a:1".to_string(), 100);
    assert_eq!(node.bucket_refresh_target(bucket, 100 + 1800), None);
    assert_eq!(node.bucket_refresh_target(bucket + 1, 100 + 1801), None);
    assert_eq!(node.bucket_refresh_target(160, 100 + 1801), None);
    assert_eq!(node.bucket_refresh_target(usize::MAX, 100 + 1801), None);
    for _ in 0..20 {
        let target = node.bucket_refresh_target(bucket, 100 + 1801).unwrap();
        assert_eq!(RoutingTable::bucket_index(&owner, &target), bucket);
    }
}

#[test]
fn a_node_is_well_formed_while_its_table_is_its_own() {
    let mut node = KademliaNode::new(zero(), 7000, 0);
    assert!(node.is_wf());
    node.handle_message(Message::Ping(in_bucket(4, 1), 9000), "10.1.1.1:50000", 3);
    node.record_liveness(in_bucket(4, 1), &Err(WireError::Decode));
    assert!(node.is_wf());
    node.routing = RoutingTable::new(in_bucket(1, 1), 8, 0);
    assert!(!node.is_wf());
    node.id = in_bucket(1, 1);
    assert!(node.is_wf());
}

#[test]
fn observer_lists_the_occupied_buckets() {
    let mut observer = Observer::new(zero(), 0, 0);
    observer.node.routing.insert(in_bucket(77, 1), "a:1".to_string(), 1);
    observer.node.routing.insert(in_bucket(3, 1), "b:1".to_string(), 1);
    observer.node.routing.insert(in_bucket(77, 2), "c:1".to_string(), 1);
    assert_eq!(observer.occupied_buckets(), vec![3, 77]);
}
