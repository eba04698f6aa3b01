use kademlia_dht::key::Key;
use kademlia_dht::node::close_request;
use kademlia_dht::node::complete_update;
use kademlia_dht::node::found_value;
use kademlia_dht::node::handle_request;
use kademlia_dht::node::handle_request_at;
use kademlia_dht::node::handle_response;
use kademlia_dht::node::node_data::NodeData;
use kademlia_dht::node::node_data::NodeDataDistancePair;
use kademlia_dht::node::open_request;
use kademlia_dht::node::seed_table;
use kademlia_dht::node::store_targets;
use kademlia_dht::node::update_routing_table;
use kademlia_dht::pending::PendingRequests;
use kademlia_dht::protocol::Request;
use kademlia_dht::protocol::RequestPayload;
use kademlia_dht::protocol::Response;
use kademlia_dht::protocol::ResponsePayload;
use kademlia_dht::routing::RoutingTable;
use kademlia_dht::storage::Storage;
use kademlia_dht::KEY_LENGTH;
use std::sync::Arc;

const HOUR_NS: u64 = 3600 * 1_000_000_000;

fn member(first: u8, tag: u8) -> NodeData {
    let mut bytes = [0u8; KEY_LENGTH];
    bytes[0] = first;
    bytes[KEY_LENGTH - 1] = tag;
    NodeData { addr: format!("member-{}-{}", first, tag), id: Key::new(bytes) }
}

fn me() -> NodeData {
    NodeData { addr: "me".to_string(), id: Key::new([0u8; KEY_LENGTH]) }
}

fn request_of(payload: RequestPayload) -> Request {
    Request { id: Key::new([9u8; KEY_LENGTH]), sender: member(0x80, 1), payload }
}

fn table_with(nodes: Vec<NodeData>) -> RoutingTable {
    let mut table = RoutingTable::new_at(Arc::new(me()), 0);
    for node in nodes {
        table.update_node_at(node, 1);
    }
    table
}

fn payload_nodes(payload: ResponsePayload) -> Vec<NodeData> {
    match payload {
        ResponsePayload::Nodes(nodes) => nodes,
        other => panic!("expected nodes, got {:?}", other),
    }
}

#[test]
fn ping_is_answered_with_a_pong() {
    let mut storage = Storage::new();
    let table = table_with(Vec::new());
    let request = request_of(RequestPayload::Ping);
    let response = handle_request_at(&request, &me(), &mut storage, &table, 5);
    assert!(matches!(response.payload, ResponsePayload::Pong));
    assert_eq!(response.receiver, me());
    assert_eq!(response.request.id, request.id);
    assert_eq!(response.request.sender, request.sender);
    assert_eq!(storage.len(), 0);
}

#[test]
fn store_inserts_and_find_value_returns_the_value() {
    let mut storage = Storage::new();
    let table = table_with(vec![member(0x80, 1), member(0x40, 2)]);
    let key = Key::new([5u8; KEY_LENGTH]);
    let store = request_of(RequestPayload::Store(key, "World".to_string()));
    let stored = handle_request_at(&store, &me(), &mut storage, &table, 10);
    assert!(matches!(stored.payload, ResponsePayload::Pong));
    let find = request_of(RequestPayload::FindValue(key));
    match handle_request_at(&find, &me(), &mut storage, &table, 20).payload {
        ResponsePayload::Value(value) => assert_eq!(value, "World"),
        other => panic!("expected the value, got {:?}", other),
    }
    let late = handle_request_at(&find, &me(), &mut storage, &table, 11 + HOUR_NS);
    assert_eq!(payload_nodes(late.payload).len(), 2);
    let other = request_of(RequestPayload::FindValue(Key::new([6u8; KEY_LENGTH])));
    let missing = handle_request(&other, &me(), &mut storage, &table);
    assert_eq!(payload_nodes(missing.payload).len(), 2);
}

#[test]
fn find_node_returns_the_twenty_closest_nodes() {
    let mut storage = Storage::new();
    let mut nodes = Vec::new();
    for first in [0x80u8, 0x40, 0x20] {
        for tag in 0..10u8 {
            nodes.push(member(first, tag));
        }
    }
    let table = table_with(nodes);
    let key = member(0x40, 3).id;
    let find = request_of(RequestPayload::FindNode(key));
    let found = payload_nodes(handle_request_at(&find, &me(), &mut storage, &table, 5).payload);
    assert_eq!(found.len(), 20);
    assert_eq!(found[0], member(0x40, 3));
    for pair in found.windows(2) {
        assert!(pair[0].id.xor(&key) <= pair[1].id.xor(&key));
    }
    for node in &found[..10] {
        assert_eq!(node.id.0[0], 0x40);
    }
}

#[test]
fn responses_are_paired_with_their_requests_by_the_token() {
    let mut pending: PendingRequests<u8> = PendingRequests::new();
    let first = open_request(&mut pending, &me(), RequestPayload::Ping, 1).unwrap();
    let second = open_request(&mut pending, &me(), RequestPayload::FindNode(me().id), 2).unwrap();
    assert!(first.id != second.id);
    assert_eq!(first.sender, me());
    assert!(matches!(second.payload, RequestPayload::FindNode(_)));
    assert_eq!(pending.len(), 2);
    let response =
        Response { request: second.clone(), receiver: member(0x80, 1), payload: ResponsePayload::Pong };
    assert_eq!(handle_response(&response, &pending), Some(&2));
    let stranger = Response {
        request: request_of(RequestPayload::Ping),
        receiver: member(0x80, 1),
        payload: ResponsePayload::Pong,
    };
    if stranger.request.id != first.id && stranger.request.id != second.id {
        assert_eq!(handle_response(&stranger, &pending), None);
    }
}

#[test]
fn closing_a_request_removes_its_token_and_a_silent_peer() {
    let mut pending: PendingRequests<u8> = PendingRequests::new();
    let mut table = table_with(vec![member(0x80, 1), member(0x80, 2)]);
    let answered = open_request(&mut pending, &me(), RequestPayload::Ping, 1).unwrap();
    let silent = open_request(&mut pending, &me(), RequestPayload::Ping, 2).unwrap();
    let response =
        Response { request: answered.clone(), receiver: member(0x80, 1), payload: ResponsePayload::Pong };
    let outcome =
        close_request(&mut pending, &mut table, &answered.id, &member(0x80, 1), Some(response));
    assert!(outcome.is_some());
    assert!(!pending.contains_key(&answered.id));
    assert!(pending.contains_key(&silent.id));
    assert_eq!(table.bucket_nodes(0).len(), 2);
    let nothing = close_request(&mut pending, &mut table, &silent.id, &member(0x80, 2), None);
    assert!(nothing.is_none());
    assert!(!pending.contains_key(&silent.id));
    assert_eq!(pending.len(), 0);
    assert_eq!(table.bucket_nodes(0), vec![member(0x80, 1)]);
}

#[test]
fn a_full_bucket_gives_up_its_least_recently_seen_node() {
    let mut nodes = Vec::new();
    for tag in 0..20u8 {
        nodes.push(member(0x80, tag));
    }
    let mut table = table_with(nodes);
    assert_eq!(update_routing_table(&mut table, &member(0x80, 3), 2), None);
    assert_eq!(table.bucket_nodes(0)[19], member(0x80, 3));
    let newcomer = member(0x80, 50);
    let lrs = update_routing_table(&mut table, &newcomer, 3);
    assert_eq!(lrs, Some(member(0x80, 0)));
    assert_eq!(table.bucket_nodes(0).len(), 19);
    assert!(complete_update(&mut table, newcomer.clone(), None, 4));
    assert_eq!(table.bucket_nodes(0).len(), 20);
    assert_eq!(table.bucket_nodes(0)[19], newcomer);
    assert!(!table.bucket_nodes(0).contains(&member(0x80, 0)));
    assert_eq!(update_routing_table(&mut table, &member(0x40, 0), 5), None);
    assert_eq!(table.bucket_nodes(1), vec![member(0x40, 0)]);
}

#[test]
fn a_node_starts_with_its_bootstrap_peer() {
    let alone = seed_table(Arc::new(me()), None, 0);
    assert_eq!(alone.size(), 1);
    assert!(alone.bucket_nodes(0).is_empty());
    let joined = seed_table(Arc::new(me()), Some(member(0x80, 1)), 0);
    assert_eq!(joined.bucket_nodes(0), vec![member(0x80, 1)]);
    assert_eq!(joined.node_data(), me());
}

#[test]
fn outcome_of_a_lookup_is_taken_apart() {
    let nodes = vec![member(0x80, 1), member(0x40, 1)];
    assert_eq!(store_targets(ResponsePayload::Nodes(nodes.clone())), nodes);
    assert!(store_targets(ResponsePayload::Value("v".to_string())).is_empty());
    assert!(store_targets(ResponsePayload::Pong).is_empty());
    assert_eq!(found_value(ResponsePayload::Value("v".to_string())), Some("v".to_string()));
    assert_eq!(found_value(ResponsePayload::Nodes(nodes)), None);
    assert_eq!(found_value(ResponsePayload::Pong), None);
}

#[test]
fn closer_pairs_are_greater() {
    let near = NodeDataDistancePair(member(0x80, 1), Key::new([1u8; KEY_LENGTH]));
    let far = NodeDataDistancePair(member(0x80, 2), Key::new([2u8; KEY_LENGTH]));
    let same = NodeDataDistancePair(member(0x80, 1), Key::new([3u8; KEY_LENGTH]));
    assert!(near > far);
    assert!(far < near);
    assert!(near == same);
    assert!(near != far);
    assert!(near.clone() == near);
}
