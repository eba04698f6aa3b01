use kademlia_dht::key::Key;
use kademlia_dht::node::node_data::NodeData;
use kademlia_dht::routing::RoutingBucket;
use kademlia_dht::routing::RoutingTable;
use kademlia_dht::KEY_LENGTH;
use std::sync::Arc;

const SECOND: u64 = 1_000_000_000;

fn peer(first: u8, tag: u8) -> NodeData {
    let mut bytes = [0u8; KEY_LENGTH];
    bytes[0] = first;
    bytes[KEY_LENGTH - 1] = tag;
    NodeData { addr: format!("10.0.{}.{}:8000", first, tag), id: Key::new(bytes) }
}

fn local_node() -> NodeData {
    NodeData { addr: "127.0.0.1:8000".to_string(), id: Key::new([0u8; KEY_LENGTH]) }
}

fn empty_table() -> RoutingTable {
    RoutingTable::new_at(Arc::new(local_node()), 0)
}

fn all_nodes_of(table: &RoutingTable) -> Vec<NodeData> {
    let mut all = Vec::new();
    for i in 0..table.size() {
        all.extend(table.bucket_nodes(i));
    }
    all
}

#[test]
fn bucket_moves_a_known_node_to_the_end() {
    let mut bucket = RoutingBucket::new(0);
    bucket.update_node(peer(0x80, 1), 1);
    bucket.update_node(peer(0x80, 2), 2);
    bucket.update_node(peer(0x80, 3), 3);
    bucket.update_node(peer(0x80, 1), 4);
    assert_eq!(bucket.get_nodes(), &[peer(0x80, 2), peer(0x80, 3), peer(0x80, 1)][..]);
    assert_eq!(bucket.size(), 3);
    assert!(bucket.contains(&peer(0x80, 3)));
    assert!(!bucket.contains(&peer(0x80, 4)));
}

#[test]
fn bucket_drops_the_least_recently_seen_node_when_over_capacity() {
    let mut bucket = RoutingBucket::new(0);
    for tag in 0..21u8 {
        bucket.update_node(peer(0x80, tag), 1);
    }
    assert_eq!(bucket.size(), 20);
    assert!(!bucket.contains(&peer(0x80, 0)));
    assert_eq!(bucket.get_nodes()[0], peer(0x80, 1));
    assert_eq!(bucket.get_nodes()[19], peer(0x80, 20));
}

#[test]
fn bucket_split_keeps_the_nodes_of_its_own_ring() {
    let mut bucket = RoutingBucket::new(7);
    bucket.update_node(peer(0x80, 1), 7);
    bucket.update_node(peer(0x40, 2), 7);
    bucket.update_node(peer(0xC0, 3), 7);
    bucket.update_node(peer(0x01, 4), 7);
    let closer = bucket.split(&Key::new([0u8; KEY_LENGTH]), 0);
    assert_eq!(bucket.get_nodes(), &[peer(0x80, 1), peer(0xC0, 3)][..]);
    assert_eq!(closer.get_nodes(), &[peer(0x40, 2), peer(0x01, 4)][..]);
    assert!(!closer.is_stale_at(7 + 3600 * SECOND));
    assert!(closer.is_stale_at(8 + 3600 * SECOND));
}

#[test]
fn bucket_removes_nodes() {
    let mut bucket = RoutingBucket::new(0);
    assert_eq!(bucket.remove_lrs(), None);
    bucket.update_node(peer(0x80, 1), 1);
    bucket.update_node(peer(0x80, 2), 2);
    bucket.update_node(peer(0x80, 3), 3);
    assert_eq!(bucket.remove_node(&peer(0x80, 2)), Some(peer(0x80, 2)));
    assert_eq!(bucket.remove_node(&peer(0x80, 2)), None);
    assert_eq!(bucket.remove_lrs(), Some(peer(0x80, 1)));
    assert_eq!(bucket.get_nodes(), &[peer(0x80, 3)][..]);
}

#[test]
fn bucket_is_stale_after_the_refresh_interval() {
    let bucket = RoutingBucket::new(100);
    assert!(!bucket.is_stale_at(100));
    assert!(!bucket.is_stale_at(50));
    assert!(!bucket.is_stale_at(100 + 3600 * SECOND));
    assert!(bucket.is_stale_at(101 + 3600 * SECOND));
    let fresh = RoutingBucket::new(u64::MAX);
    assert!(!fresh.is_stale());
}

#[test]
fn new_table_has_one_empty_bucket() {
    let table = empty_table();
    assert_eq!(table.size(), 1);
    assert!(table.bucket_nodes(0).is_empty());
    assert!(table.bucket_nodes(1).is_empty());
    assert_eq!(table.node_data(), local_node());
    assert!(table.get_closest_nodes(&Key::new([1u8; KEY_LENGTH]), 3).is_empty());
    let clocked = RoutingTable::new(Arc::new(local_node()));
    assert_eq!(clocked.size(), 1);
    assert!(clocked.get_stale_indexes().is_empty());
}

#[test]
fn table_splits_its_last_bucket_when_it_is_full() {
    let mut table = empty_table();
    for tag in 0..10u8 {
        assert!(table.update_node_at(peer(0x80, tag), 1));
    }
    for tag in 0..10u8 {
        assert!(table.update_node_at(peer(0x40, tag), 1));
    }
    assert_eq!(table.size(), 1);
    assert_eq!(table.bucket_nodes(0).len(), 20);
    assert!(table.update_node_at(peer(0x20, 0), 1));
    assert_eq!(table.size(), 2);
    assert_eq!(table.bucket_nodes(0).len(), 10);
    assert_eq!(table.bucket_nodes(1).len(), 11);
    for node in table.bucket_nodes(0) {
        assert_eq!(node.id.leading_zeros(), 0);
    }
    for node in table.bucket_nodes(1) {
        assert!(node.id.leading_zeros() >= 1);
    }
    assert_eq!(all_nodes_of(&table).len(), 21);
}

#[test]
fn table_refuses_a_node_whose_full_bucket_cannot_be_split() {
    let mut table = empty_table();
    for tag in 0..20u8 {
        assert!(table.update_node_at(peer(0x80, tag), 1));
    }
    assert!(!table.update_node_at(peer(0x80, 20), 2));
    assert_eq!(table.size(), 2);
    assert_eq!(table.bucket_nodes(0).len(), 20);
    assert_eq!(table.bucket_nodes(1).len(), 0);
    assert!(!table.update_node_at(peer(0x80, 21), 3));
    assert_eq!(table.size(), 2);
    assert!(table.update_node_at(peer(0x80, 5), 4));
    assert_eq!(table.bucket_nodes(0)[19], peer(0x80, 5));
    assert!(table.update_node_at(peer(0x01, 0), 5));
    assert_eq!(table.bucket_nodes(1), vec![peer(0x01, 0)]);
}

#[test]
fn table_splits_more_than_once_for_one_node() {
    let mut table = empty_table();
    for tag in 0..20u8 {
        assert!(table.update_node_at(peer(0x10, tag), 1));
    }
    assert!(table.update_node_at(peer(0x08, 0), 2));
    assert_eq!(table.size(), 5);
    assert_eq!(table.bucket_nodes(3).len(), 20);
    assert_eq!(table.bucket_nodes(4), vec![peer(0x08, 0)]);
    assert_eq!(table.bucket_nodes(0).len() + table.bucket_nodes(1).len(), 0);
    let mut same = empty_table();
    for tag in 0..20u8 {
        assert!(same.update_node_at(peer(0x10, tag), 1));
    }
    assert!(!same.update_node_at(peer(0x10, 20), 2));
    assert_eq!(same.size(), 5);
    assert_eq!(same.bucket_nodes(3).len(), 20);
    assert_eq!(same.bucket_nodes(4).len(), 0);
}

#[test]
fn table_never_holds_more_than_its_limits() {
    let mut table = empty_table();
    let mut now = 0;
    for first in [0x80u8, 0x40, 0x20, 0x10, 0x08, 0x04, 0x02, 0x01, 0xC0, 0x60] {
        for tag in 0..30u8 {
            now += 1;
            table.update_node_at(peer(first, tag), now);
        }
    }
    assert!(table.size() <= 256);
    let all = all_nodes_of(&table);
    for i in 0..table.size() {
        assert!(table.bucket_nodes(i).len() <= 20);
    }
    for i in 0..all.len() {
        for j in 0..all.len() {
            assert!(i == j || all[i] != all[j]);
        }
    }
}

#[test]
fn updated_node_is_the_closest_to_its_own_id() {
    let mut table = empty_table();
    for tag in 0..15u8 {
        table.update_node_at(peer(0x80, tag), 1);
        table.update_node_at(peer(0x08, tag), 1);
    }
    let node = peer(0x08, 99);
    assert!(table.update_node_at(node.clone(), 2));
    assert_eq!(table.get_closest_nodes(&node.id, 1), vec![node]);
    assert!(table.update_node(peer(0x80, 3)));
    assert_eq!(table.get_closest_nodes(&peer(0x80, 3).id, 1), vec![peer(0x80, 3)]);
}

#[test]
fn closest_nodes_are_sorted_and_as_many_as_asked_for() {
    let mut table = empty_table();
    for first in [0x80u8, 0x40, 0x20, 0x10] {
        for tag in 0..12u8 {
            table.update_node_at(peer(first, tag), 1);
        }
    }
    let total = all_nodes_of(&table).len();
    assert_eq!(total, 48);
    let key = peer(0x20, 200).id;
    for count in [0usize, 1, 5, 12, 13, 30, 48, 49, 100] {
        let closest = table.get_closest_nodes(&key, count);
        assert_eq!(closest.len(), std::cmp::min(count, total));
        for pair in closest.windows(2) {
            assert!(pair[0].id.xor(&key) <= pair[1].id.xor(&key));
        }
    }
    let nearest = table.get_closest_nodes(&key, 12);
    for node in &nearest {
        assert_eq!(node.id.0[0], 0x20);
    }
    assert_eq!(nearest[0], peer(0x20, 8));
    assert_eq!(nearest[11], peer(0x20, 7));
}

#[test]
fn closest_nodes_keep_the_order_of_the_bucket_at_equal_distance() {
    let mut table = empty_table();
    let first = NodeData { addr: "a:1".to_string(), id: peer(0x80, 1).id };
    let second = NodeData { addr: "b:1".to_string(), id: peer(0x80, 1).id };
    table.update_node_at(first.clone(), 1);
    table.update_node_at(second.clone(), 1);
    assert_eq!(table.get_closest_nodes(&first.id, 2), vec![first.clone(), second.clone()]);
    table.update_node_at(first.clone(), 2);
    assert_eq!(table.get_closest_nodes(&first.id, 1), vec![second]);
}

#[test]
fn table_removes_nodes_from_the_bucket_of_a_key() {
    let mut table = empty_table();
    for tag in 0..20u8 {
        table.update_node_at(peer(0x80, tag), 1);
    }
    table.update_node_at(peer(0x40, 0), 1);
    table.update_node_at(peer(0x40, 1), 1);
    assert_eq!(table.size(), 2);
    assert_eq!(table.remove_lrs(&peer(0x80, 77).id), Some(peer(0x80, 0)));
    assert_eq!(table.remove_lrs(&peer(0x01, 0).id), Some(peer(0x40, 0)));
    assert_eq!(table.remove_lrs(&peer(0x40, 9).id), Some(peer(0x40, 1)));
    assert_eq!(table.remove_lrs(&peer(0x40, 9).id), None);
    table.remove_node(&peer(0x80, 7));
    table.remove_node(&peer(0x80, 7));
    table.remove_node(&peer(0x40, 7));
    assert_eq!(table.bucket_nodes(0).len(), 18);
    assert!(!table.bucket_nodes(0).contains(&peer(0x80, 7)));
}

#[test]
fn stale_buckets_are_found_and_get_keys_of_their_range() {
    let mut table = empty_table();
    for tag in 0..20u8 {
        table.update_node_at(peer(0x80, tag), 10);
    }
    table.update_node_at(peer(0x40, 0), 20);
    table.update_node_at(peer(0x20, 0), 30);
    assert_eq!(table.size(), 2);
    assert_eq!(table.get_stale_indexes_at(30), Vec::<usize>::new());
    assert_eq!(table.get_stale_indexes_at(10 + 3600 * SECOND), Vec::<usize>::new());
    assert_eq!(table.get_stale_indexes_at(11 + 3600 * SECOND), vec![0]);
    assert_eq!(table.get_stale_indexes_at(31 + 3600 * SECOND), vec![0, 1]);
    let keys = table.stale_keys_at(11 + 3600 * SECOND);
    assert_eq!(keys.len(), 1);
    assert_eq!(keys[0].leading_zeros(), 0);
    let every = table.bucket_keys();
    assert_eq!(every.len(), 2);
    assert_eq!(every[1].leading_zeros(), 1);
    let chosen = RoutingTable::refresh_keys(&vec![255, 0, 17]);
    assert_eq!(chosen[0].leading_zeros(), 255);
    assert_eq!(chosen[1].leading_zeros(), 0);
    assert_eq!(chosen[2].leading_zeros(), 17);
}
