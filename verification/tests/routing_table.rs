use kademlia_dht::kad_id::NodeId;
use kademlia_dht::protocol::{closer, xor_distance, magnitude_less};
use kademlia_dht::routing::RoutingTable;

fn zero() -> NodeId {
    NodeId([0u8; 20])
}

/// An id that falls into bucket 42 of the all-zero owner.
fn in_bucket_42(tail: u8) -> NodeId {
    let mut bytes = [0u8; 20];
    bytes[5] = 0x20;
    bytes[19] = tail;
    NodeId(bytes)
}

fn in_bucket(i: usize, tail: u8) -> NodeId {
    let mut bytes = [0u8; 20];
    bytes[i / 8] = 1u8 << (7 - i % 8);
    if i / 8 < 19 {
        bytes[19] = tail;
    }
    NodeId(bytes)
}

fn peer(id: NodeId, addr: &str) -> (NodeId, String) {
    (id, addr.to_string())
}

fn bucket(table: &RoutingTable, i: usize) -> Vec<(NodeId, String)> {
    table.bucket(i).unwrap()
}

fn cache(table: &RoutingTable, i: usize) -> Vec<(NodeId, String)> {
    table.cache_bucket(i).unwrap()
}

fn check_invariants(table: &RoutingTable) {
    assert!(table.is_wf());
    let owner = table.my_id();
    let k = table.k();
    for i in 0..160 {
        let b = bucket(table, i);
        let c = cache(table, i);
        assert!(b.len() <= k);
        assert!(c.len() <= std::cmp::max(k / 2, 1));
        if k >= 2 {
            assert!(c.len() <= k / 2);
        }
        for (id, _) in b.iter().chain(c.iter()) {
            assert_ne!(*id, owner);
            assert_eq!(RoutingTable::bucket_index(&owner, id), i);
        }
    }
}

fn check_distinct(table: &RoutingTable) {
    for i in 0..160 {
        let b = bucket(table, i);
        for x in 0..b.len() {
            for y in x + 1..b.len() {
                assert_ne!(b[x].0, b[y].0);
                assert_ne!(b[x].1, b[y].1);
            }
        }
        let c = cache(table, i);
        for x in 0..c.len() {
            for y in x + 1..c.len() {
                assert_ne!(c[x].0, c[y].0);
            }
        }
    }
}

#[test]
fn new_table_is_empty() {
    let table = RoutingTable::new(zero(), 8, 17);
    assert_eq!(table.my_id(), zero());
    assert_eq!(table.k(), 8);
    for i in 0..160 {
        assert!(bucket(&table, i).is_empty());
        assert!(cache(&table, i).is_empty());
        assert_eq!(table.last_touched(i), Some(17));
    }
    assert_eq!(table.bucket(160), None);
    assert_eq!(table.cache_bucket(160), None);
    assert_eq!(table.last_touched(160), None);
    assert!(table.all_nodes().is_empty());
    assert!(table.find_closest(&zero(), 5).is_empty());
    assert!(table.occupied_buckets().is_empty());
}

#[test]
fn insert_ignores_the_owner() {
    let owner = in_bucket_42(9);
    let mut table = RoutingTable::new(owner, 8, 0);
    table.insert(owner, "1.2.3.4:1".to_string(), 5);
    assert!(table.all_nodes().is_empty());
    for i in 0..160 {
        assert!(cache(&table, i).is_empty());
        assert_eq!(table.last_touched(i), Some(0));
    }
}

#[test]
fn insert_appends_and_stamps() {
    let mut table = RoutingTable::new(zero(), 8, 0);
    table.insert(in_bucket_42(1), "a:1".to_string(), 10);
    table.insert(in_bucket_42(2), "b:1".to_string(), 20);
    table.insert(in_bucket(0, 1), "c:1".to_string(), 30);
    assert_eq!(bucket(&table, 42), vec![peer(in_bucket_42(1), "a:1"), peer(in_bucket_42(2), "b:1")]);
    assert_eq!(bucket(&table, 0), vec![peer(in_bucket(0, 1), "c:1")]);
    assert_eq!(table.last_touched(42), Some(20));
    assert_eq!(table.last_touched(0), Some(30));
    assert_eq!(table.last_touched(1), Some(0));
    check_invariants(&table);
    check_distinct(&table);
}

#[test]
fn insert_of_a_known_pair_only_touches() {
    let mut table = RoutingTable::new(zero(), 8, 0);
    table.insert(in_bucket_42(1), "a:1".to_string(), 10);
    table.insert(in_bucket_42(2), "b:1".to_string(), 11);
    let before = bucket(&table, 42);
    table.insert(in_bucket_42(1), "a:1".to_string(), 99);
    assert_eq!(bucket(&table, 42), before);
    assert!(cache(&table, 42).is_empty());
    assert_eq!(table.last_touched(42), Some(99));
}

#[test]
fn insert_is_idempotent_on_contents() {
    let mut table = RoutingTable::new(zero(), 2, 0);
    let steps = [
        peer(in_bucket_42(1), "a:1"),
        peer(in_bucket_42(2), "b:1"),
        peer(in_bucket_42(3), "c:1"),
        peer(in_bucket_42(3), "c:2"),
        peer(in_bucket_42(1), "z:1"),
        peer(in_bucket(7, 1), "a:1"),
    ];
    for (id, addr) in steps.iter() {
        table.insert(*id, addr.clone(), 1);
        let buckets: Vec<_> = (0..160).map(|i| bucket(&table, i)).collect();
        let caches: Vec<_> = (0..160).map(|i| cache(&table, i)).collect();
        table.insert(*id, addr.clone(), 2);
        table.insert(*id, addr.clone(), 3);
        for i in 0..160 {
            assert_eq!(bucket(&table, i), buckets[i]);
            assert_eq!(cache(&table, i), caches[i]);
        }
        check_invariants(&table);
        check_distinct(&table);
    }
}

#[test]
fn insert_with_a_new_address_replaces_the_entry() {
    let mut table = RoutingTable::new(zero(), 8, 0);
    table.insert(in_bucket_42(1), "a:1".to_string(), 1);
    table.insert(in_bucket_42(2), "b:1".to_string(), 2);
    table.insert(in_bucket_42(1), "a:2".to_string(), 3);
    assert_eq!(bucket(&table, 42), vec![peer(in_bucket_42(2), "b:1"), peer(in_bucket_42(1), "a:2")]);
    assert_eq!(table.last_touched(42), Some(3));
    check_distinct(&table);
}

#[test]
fn address_conflict_evicts_the_old_owner_of_the_address() {
    let a = in_bucket_42(1);
    let b = in_bucket_42(2);
    let mut table = RoutingTable::new(zero(), 8, 0);
    table.insert(a, "1.2.3.4:9000".to_string(), 1);
    table.insert(b, "1.2.3.4:9000".to_string(), 2);
    assert_eq!(bucket(&table, 42), vec![peer(b, "1.2.3.4:9000")]);
    assert!(cache(&table, 42).is_empty());
}

#[test]
fn a_new_pair_can_purge_two_entries() {
    let mut table = RoutingTable::new(zero(), 8, 0);
    table.insert(in_bucket_42(1), "a:1".to_string(), 1);
    table.insert(in_bucket_42(2), "b:1".to_string(), 1);
    table.insert(in_bucket_42(3), "c:1".to_string(), 1);
    table.insert(in_bucket_42(1), "c:1".to_string(), 2);
    assert_eq!(bucket(&table, 42), vec![peer(in_bucket_42(2), "b:1"), peer(in_bucket_42(1), "c:1")]);
}

#[test]
fn full_bucket_sends_the_newcomer_to_the_cache() {
    let mut table = RoutingTable::new(zero(), 3, 0);
    for t in 1..=3u8 {
        table.insert(in_bucket_42(t), format!("h{}:1", t), t as u64);
    }
    let before = bucket(&table, 42);
    assert_eq!(before.len(), 3);
    table.insert(in_bucket_42(4), "h4:1".to_string(), 50);
    assert_eq!(bucket(&table, 42), before);
    assert_eq!(cache(&table, 42), vec![peer(in_bucket_42(4), "h4:1")]);
    assert_eq!(table.last_touched(42), Some(3));
    check_invariants(&table);
}

#[test]
fn cache_updates_the_address_of_a_cached_id_in_place() {
    let mut table = RoutingTable::new(zero(), 4, 0);
    for t in 1..=4u8 {
        table.insert(in_bucket_42(t), format!("h{}:1", t), 1);
    }
    table.insert(in_bucket_42(5), "h5:1".to_string(), 2);
    table.insert(in_bucket_42(6), "h6:1".to_string(), 2);
    assert_eq!(cache(&table, 42), vec![peer(in_bucket_42(5), "h5:1"), peer(in_bucket_42(6), "h6:1")]);
    table.insert(in_bucket_42(5), "h5:2".to_string(), 3);
    assert_eq!(cache(&table, 42), vec![peer(in_bucket_42(5), "h5:2"), peer(in_bucket_42(6), "h6:1")]);
}

#[test]
fn cache_holds_half_of_k_and_drops_the_oldest() {
    let mut table = RoutingTable::new(zero(), 4, 0);
    for t in 1..=4u8 {
        table.insert(in_bucket_42(t), format!("h{}:1", t), 1);
    }
    for t in 5..=7u8 {
        table.insert(in_bucket_42(t), format!("h{}:1", t), 2);
    }
    assert_eq!(cache(&table, 42), vec![peer(in_bucket_42(6), "h6:1"), peer(in_bucket_42(7), "h7:1")]);
    assert_eq!(bucket(&table, 42).len(), 4);
    check_invariants(&table);
    check_distinct(&table);
}

#[test]
fn default_k_gives_a_cache_of_four() {
    let mut table = RoutingTable::new(zero(), 8, 0);
    for t in 1..=20u8 {
        table.insert(in_bucket_42(t), format!("h{}:1", t), 1);
    }
    assert_eq!(bucket(&table, 42).len(), 8);
    let cached: Vec<NodeId> = cache(&table, 42).into_iter().map(|p| p.0).collect();
    assert_eq!(cached, vec![in_bucket_42(17), in_bucket_42(18), in_bucket_42(19), in_bucket_42(20)]);
    check_invariants(&table);
}

#[test]
fn buckets_of_capacity_one_keep_one_cached_peer() {
    let mut table = RoutingTable::new(zero(), 1, 0);
    table.insert(in_bucket_42(1), "a:1".to_string(), 1);
    table.insert(in_bucket_42(2), "b:1".to_string(), 1);
    table.insert(in_bucket_42(3), "c:1".to_string(), 1);
    assert_eq!(bucket(&table, 42), vec![peer(in_bucket_42(1), "a:1")]);
    assert_eq!(cache(&table, 42), vec![peer(in_bucket_42(3), "c:1")]);
}

#[test]
fn buckets_of_capacity_zero_hold_nothing() {
    let mut table = RoutingTable::new(zero(), 0, 0);
    table.insert(in_bucket_42(1), "a:1".to_string(), 1);
    table.insert(in_bucket_42(2), "b:1".to_string(), 1);
    assert!(bucket(&table, 42).is_empty());
    assert_eq!(cache(&table, 42), vec![peer(in_bucket_42(2), "b:1")]);
    assert!(table.find_closest(&zero(), 5).is_empty());
}

#[test]
fn remove_takes_the_peer_out_and_leaves_the_cache() {
    let mut table = RoutingTable::new(zero(), 2, 0);
    table.insert(in_bucket_42(1), "a:1".to_string(), 1);
    table.insert(in_bucket_42(2), "b:1".to_string(), 1);
    table.insert(in_bucket_42(3), "c:1".to_string(), 1);
    table.remove(&in_bucket_42(1));
    assert_eq!(bucket(&table, 42), vec![peer(in_bucket_42(2), "b:1")]);
    assert_eq!(cache(&table, 42), vec![peer(in_bucket_42(3), "c:1")]);
    assert_eq!(table.last_touched(42), Some(1));
    table.remove(&in_bucket_42(9));
    assert_eq!(bucket(&table, 42), vec![peer(in_bucket_42(2), "b:1")]);
    table.remove(&in_bucket_42(3));
    assert_eq!(cache(&table, 42), vec![peer(in_bucket_42(3), "c:1")]);
    check_invariants(&table);
}

#[test]
fn cache_promotion() {
    let a = in_bucket_42(1);
    let b = in_bucket_42(2);
    let c = in_bucket_42(3);
    let mut table = RoutingTable::new(zero(), 2, 0);
    table.insert(a, "a1".to_string(), 1);
    table.insert(b, "b1".to_string(), 2);
    table.insert(c, "c1".to_string(), 3);
    assert_eq!(bucket(&table, 42), vec![peer(a, "a1"), peer(b, "b1")]);
    assert_eq!(cache(&table, 42), vec![peer(c, "c1")]);
    table.substitute_or_remove_node(a);
    assert_eq!(bucket(&table, 42), vec![peer(c, "c1"), peer(b, "b1")]);
    assert!(cache(&table, 42).is_empty());
    table.substitute_or_remove_node(b);
    assert_eq!(bucket(&table, 42), vec![peer(c, "c1")]);
    assert!(cache(&table, 42).is_empty());
    check_invariants(&table);
}

#[test]
fn substitute_of_an_unknown_peer_changes_nothing() {
    let mut table = RoutingTable::new(zero(), 2, 0);
    table.insert(in_bucket_42(1), "a:1".to_string(), 1);
    table.insert(in_bucket_42(2), "b:1".to_string(), 1);
    table.insert(in_bucket_42(3), "c:1".to_string(), 1);
    table.substitute_or_remove_node(in_bucket_42(9));
    assert_eq!(bucket(&table, 42), vec![peer(in_bucket_42(1), "a:1"), peer(in_bucket_42(2), "b:1")]);
    assert_eq!(cache(&table, 42), vec![peer(in_bucket_42(3), "c:1")]);
    table.substitute_or_remove_node(in_bucket_42(3));
    assert_eq!(cache(&table, 42), vec![peer(in_bucket_42(3), "c:1")]);
}

#[test]
fn substitute_keeps_the_position_in_the_bucket() {
    let mut table = RoutingTable::new(zero(), 3, 0);
    for t in 1..=4u8 {
        table.insert(in_bucket_42(t), format!("h{}:1", t), 1);
    }
    table.substitute_or_remove_node(in_bucket_42(2));
    assert_eq!(
        bucket(&table, 42),
        vec![peer(in_bucket_42(1), "h1:1"), peer(in_bucket_42(4), "h4:1"), peer(in_bucket_42(3), "h3:1")]
    );
}

#[test]
fn a_stale_cache_entry_can_come_back_as_a_duplicate() {
    let b = in_bucket_42(2);
    let c = in_bucket_42(3);
    let mut table = RoutingTable::new(zero(), 2, 0);
    table.insert(in_bucket_42(1), "a1".to_string(), 1);
    table.insert(b, "b1".to_string(), 1);
    table.insert(c, "c1".to_string(), 1);
    table.remove(&in_bucket_42(1));
    table.insert(c, "c1".to_string(), 2);
    assert_eq!(bucket(&table, 42), vec![peer(b, "b1"), peer(c, "c1")]);
    assert_eq!(cache(&table, 42), vec![peer(c, "c1")]);
    table.substitute_or_remove_node(b);
    assert_eq!(bucket(&table, 42), vec![peer(c, "c1"), peer(c, "c1")]);
    check_invariants(&table);
    table.remove(&c);
    assert!(bucket(&table, 42).is_empty());
}

#[test]
fn all_nodes_lists_every_bucket_in_order() {
    let mut table = RoutingTable::new(zero(), 8, 0);
    table.insert(in_bucket(100, 1), "d:1".to_string(), 1);
    table.insert(in_bucket_42(1), "a:1".to_string(), 1);
    table.insert(in_bucket(0, 1), "c:1".to_string(), 1);
    table.insert(in_bucket_42(2), "b:1".to_string(), 1);
    assert_eq!(
        table.all_nodes(),
        vec![
            (0, in_bucket(0, 1), "c:1".to_string()),
            (42, in_bucket_42(1), "a:1".to_string()),
            (42, in_bucket_42(2), "b:1".to_string()),
            (100, in_bucket(100, 1), "d:1".to_string()),
        ]
    );
    assert_eq!(table.occupied_buckets(), vec![0, 42, 100]);
}

#[test]
fn find_closest_orders_by_distance_and_takes_the_nearest() {
    let mut table = RoutingTable::new(zero(), 8, 0);
    let mut all = Vec::new();
    let mut seed: u32 = 12345;
    for n in 0..40u32 {
        let mut bytes = [0u8; 20];
        for b in bytes.iter_mut() {
            seed = seed.wrapping_mul(1103515245).wrapping_add(12345);
            *b = (seed >> 16) as u8;
        }
        let id = NodeId(bytes);
        table.insert(id, format!("10.0.0.{}:7000", n), 1);
    }
    for (_, id, addr) in table.all_nodes() {
        all.push((id, addr));
    }
    check_invariants(&table);
    check_distinct(&table);
    let targets = [zero(), NodeId([0xff; 20]), in_bucket_42(7), all[3].0];
    for target in targets.iter() {
        for k in [0usize, 1, 5, 8, all.len(), all.len() + 3] {
            let found = table.find_closest(target, k);
            assert_eq!(found.len(), std::cmp::min(k, all.len()));
            for w in found.windows(2) {
                assert!(!closer(&w[1].0, &w[0].0, target));
                assert!(!magnitude_less(&xor_distance(&w[1].0, target), &xor_distance(&w[0].0, target)));
            }
            for p in found.iter() {
                assert!(all.contains(p));
            }
            for p in all.iter() {
                if !found.contains(p) {
                    for q in found.iter() {
                        assert!(!closer(&p.0, &q.0, target));
                    }
                }
            }
        }
    }
    let nearest = table.find_closest(&all[3].0, 1);
    assert_eq!(nearest, vec![all[3].clone()]);
}

#[test]
fn find_closest_exact_order() {
    let mut table = RoutingTable::new(zero(), 8, 0);
    table.insert(in_bucket(0, 1), "far:1".to_string(), 1);
    table.insert(in_bucket(159, 0), "near:1".to_string(), 1);
    table.insert(in_bucket(80, 1), "mid:1".to_string(), 1);
    assert_eq!(
        table.find_closest(&zero(), 5),
        vec![peer(in_bucket(159, 0), "near:1"), peer(in_bucket(80, 1), "mid:1"), peer(in_bucket(0, 1), "far:1")]
    );
    assert_eq!(table.find_closest(&in_bucket(0, 0), 2), vec![peer(in_bucket(0, 1), "far:1"), peer(in_bucket(159, 0), "near:1")]);
}

#[test]
fn find_closest_does_not_consult_caches() {
    let mut table = RoutingTable::new(zero(), 1, 0);
    table.insert(in_bucket_42(1), "a:1".to_string(), 1);
    table.insert(in_bucket_42(2), "b:1".to_string(), 1);
    assert_eq!(table.find_closest(&in_bucket_42(2), 5), vec![peer(in_bucket_42(1), "a:1")]);
}

#[test]
fn staleness_needs_a_peer_and_an_old_stamp() {
    let mut table = RoutingTable::new(zero(), 8, 100);
    assert!(!table.is_stale(42, 100_000, 1800));
    table.insert(in_bucket_42(1), "a:1".to_string(), 1000);
    assert!(!table.is_stale(42, 1000, 1800));
    assert!(!table.is_stale(42, 2800, 1800));
    assert!(table.is_stale(42, 2801, 1800));
    assert!(!table.is_stale(42, 10, 1800));
    assert!(!table.is_stale(41, 100_000, 1800));
    assert!(!table.is_stale(160, 100_000, 1800));
    table.insert(in_bucket_42(1), "a:1".to_string(), 2801);
    assert!(!table.is_stale(42, 2801, 1800));
}

#[test]
fn invariants_hold_after_a_long_run() {
    let owner = in_bucket(17, 3);
    let mut table = RoutingTable::new(owner, 3, 0);
    let mut seed: u32 = 99;
    for step in 0..600u64 {
        seed = seed.wrapping_mul(1664525).wrapping_add(1013904223);
        let bucket_no = ((seed >> 8) % 6) as usize * 30;
        let tail = ((seed >> 20) % 7) as u8;
        let mut bytes = owner.0;
        bytes[bucket_no / 8] ^= 1u8 << (7 - bucket_no % 8);
        bytes[19] ^= tail << 3;
        let id = NodeId(bytes);
        match (seed >> 28) % 4 {
            0 | 1 => table.insert(id, format!("10.0.{}.{}:1", bucket_no, (seed >> 4) % 5), step),
            2 => table.remove(&id),
            _ => table.substitute_or_remove_node(id),
        }
        check_invariants(&table);
    }
    table.insert(owner, "self:1".to_string(), 1);
    check_invariants(&table);
}

#[test]
fn inserts_and_removes_keep_entries_distinct() {
    let mut table = RoutingTable::new(zero(), 3, 0);
    let mut seed: u32 = 7;
    for step in 0..500u64 {
        seed = seed.wrapping_mul(1664525).wrapping_add(1013904223);
        let id = in_bucket(((seed >> 8) % 4) as usize * 40, ((seed >> 16) % 9) as u8);
        if (seed >> 28) % 3 == 0 {
            table.remove(&id);
        } else {
            table.insert(id, format!("h{}:1", (seed >> 4) % 6), step);
        }
        check_invariants(&table);
        check_distinct(&table);
    }
}
