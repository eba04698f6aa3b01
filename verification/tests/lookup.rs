use kademlia_dht::key::Key;
use kademlia_dht::lookup::Lookup;
use kademlia_dht::lookup::LookupAction;
use kademlia_dht::lookup::LookupPhase;
use kademlia_dht::node::node_data::NodeData;
use kademlia_dht::protocol::Request;
use kademlia_dht::protocol::RequestPayload;
use kademlia_dht::protocol::Response;
use kademlia_dht::protocol::ResponsePayload;
use kademlia_dht::routing::RoutingTable;
use kademlia_dht::KEY_LENGTH;
use std::sync::Arc;

fn node(tag: u8) -> NodeData {
    let mut bytes = [0u8; KEY_LENGTH];
    bytes[0] = tag;
    NodeData { addr: format!("node-{}", tag), id: Key::new(bytes) }
}

fn home() -> NodeData {
    NodeData { addr: "home".to_string(), id: Key::new([0xFFu8; KEY_LENGTH]) }
}

fn target() -> Key {
    Key::new([0u8; KEY_LENGTH])
}

fn answer_of(receiver: NodeData, payload: ResponsePayload) -> Option<Response> {
    let request = Request {
        id: Key::new([7u8; KEY_LENGTH]),
        sender: home(),
        payload: RequestPayload::FindNode(target()),
    };
    Some(Response { request, receiver, payload })
}

fn asked(action: LookupAction) -> NodeData {
    match action {
        LookupAction::Query(peer, _) => peer,
        other => panic!("expected a query, got {:?}", other),
    }
}

fn is_wait(action: &LookupAction) -> bool {
    matches!(action, LookupAction::Wait)
}

fn nodes_of(action: LookupAction) -> Vec<NodeData> {
    match action {
        LookupAction::Done(ResponsePayload::Nodes(nodes)) => nodes,
        other => panic!("expected nodes, got {:?}", other),
    }
}

#[test]
fn lookup_without_seeds_ends_with_the_local_node() {
    let mut lookup = Lookup::with_seeds(home(), Vec::new(), target(), true);
    assert_eq!(lookup.phase(), LookupPhase::Seeding);
    assert_eq!(nodes_of(lookup.poll()), vec![home()]);
    assert_eq!(lookup.phase(), LookupPhase::Finished);
    assert_eq!(nodes_of(lookup.poll()), vec![home()]);
}

#[test]
fn lookup_asks_the_closest_seeds_first_and_no_more_than_three_at_once() {
    let seeds = vec![node(0x40), node(0x10), node(0x80), node(0x20)];
    let mut lookup = Lookup::with_seeds(home(), seeds, target(), true);
    assert_eq!(asked(lookup.poll()), node(0x10));
    assert_eq!(asked(lookup.poll()), node(0x20));
    assert_eq!(asked(lookup.poll()), node(0x40));
    assert_eq!(lookup.in_flight(), 3);
    assert!(is_wait(&lookup.poll()));
    assert_eq!(lookup.phase(), LookupPhase::Converging);
    lookup.deliver(None);
    assert_eq!(lookup.in_flight(), 2);
    assert_eq!(asked(lookup.poll()), node(0x80));
    assert!(is_wait(&lookup.poll()));
}

#[test]
fn lookup_asks_for_the_value_when_it_is_not_a_node_lookup() {
    let mut finder = Lookup::with_seeds(home(), vec![node(1)], target(), false);
    match finder.poll() {
        LookupAction::Query(peer, RequestPayload::FindValue(key)) => {
            assert_eq!(peer, node(1));
            assert_eq!(key, target());
        },
        other => panic!("expected a value query, got {:?}", other),
    }
    let mut walker = Lookup::with_seeds(home(), vec![node(1)], target(), true);
    match walker.poll() {
        LookupAction::Query(_, RequestPayload::FindNode(key)) => assert_eq!(key, target()),
        other => panic!("expected a node query, got {:?}", other),
    }
    assert_eq!(walker.target(), target());
}

#[test]
fn lookup_ends_with_the_value_as_soon_as_one_arrives() {
    let mut lookup = Lookup::with_seeds(home(), vec![node(1), node(2)], target(), false);
    asked(lookup.poll());
    asked(lookup.poll());
    assert!(is_wait(&lookup.poll()));
    lookup.deliver(answer_of(node(1), ResponsePayload::Value("World".to_string())));
    assert_eq!(lookup.phase(), LookupPhase::Finished);
    match lookup.poll() {
        LookupAction::Done(ResponsePayload::Value(value)) => assert_eq!(value, "World"),
        other => panic!("expected the value, got {:?}", other),
    }
    lookup.deliver(answer_of(node(2), ResponsePayload::Nodes(vec![node(3)])));
    match lookup.outcome() {
        ResponsePayload::Value(value) => assert_eq!(value, "World"),
        other => panic!("expected the value, got {:?}", other),
    }
}

#[test]
fn lookup_with_unreachable_peers_ends_after_one_timeout_each() {
    let seeds = vec![node(1), node(2), node(3)];
    let mut lookup = Lookup::with_seeds(home(), seeds, target(), true);
    let mut queries = 0;
    let mut waits = 0;
    let result = loop {
        match lookup.poll() {
            LookupAction::Query(_, _) => queries += 1,
            LookupAction::Wait => {
                waits += 1;
                lookup.deliver(None);
            },
            LookupAction::Done(payload) => break payload,
        }
        assert!(queries + waits < 100);
    };
    assert_eq!(queries, 3);
    assert_eq!(waits, 3);
    match result {
        ResponsePayload::Nodes(nodes) => assert_eq!(nodes, vec![home()]),
        other => panic!("expected nodes, got {:?}", other),
    }
}

#[test]
fn lookup_stops_converging_when_an_answer_brings_nothing_closer() {
    let mut lookup = Lookup::with_seeds(home(), vec![node(0x10)], target(), true);
    assert_eq!(asked(lookup.poll()), node(0x10));
    assert!(is_wait(&lookup.poll()));
    lookup.deliver(answer_of(node(0x10), ResponsePayload::Nodes(vec![node(0x08), node(0x20)])));
    assert_eq!(lookup.phase(), LookupPhase::Converging);
    assert_eq!(asked(lookup.poll()), node(0x08));
    assert_eq!(asked(lookup.poll()), node(0x20));
    assert!(is_wait(&lookup.poll()));
    lookup.deliver(answer_of(node(0x08), ResponsePayload::Nodes(vec![node(0x09), node(0x10)])));
    assert_eq!(lookup.phase(), LookupPhase::Filling);
    assert_eq!(asked(lookup.poll()), node(0x09));
    assert!(is_wait(&lookup.poll()));
    lookup.deliver(answer_of(node(0x20), ResponsePayload::Pong));
    lookup.deliver(answer_of(node(0x09), ResponsePayload::Nodes(Vec::new())));
    assert_eq!(lookup.in_flight(), 0);
    let nodes = nodes_of(lookup.poll());
    assert_eq!(nodes, vec![node(0x08), node(0x09), node(0x10), home()]);
}

#[test]
fn lookup_queues_a_peer_only_once() {
    let mut lookup = Lookup::with_seeds(home(), vec![node(1), node(2)], target(), true);
    asked(lookup.poll());
    asked(lookup.poll());
    assert!(is_wait(&lookup.poll()));
    lookup.deliver(
        answer_of(node(1), ResponsePayload::Nodes(vec![node(2), node(3), node(3), home(), node(1)])),
    );
    assert_eq!(asked(lookup.poll()), node(3));
    assert!(is_wait(&lookup.poll()));
    lookup.deliver(answer_of(node(2), ResponsePayload::Nodes(vec![node(3), node(1)])));
    assert!(is_wait(&lookup.poll()));
    lookup.deliver(answer_of(node(3), ResponsePayload::Nodes(vec![node(2)])));
    assert_eq!(nodes_of(lookup.poll()), vec![node(1), node(2), node(3), home()]);
}

#[test]
fn lookup_returns_no_more_than_twenty_nodes_closest_first() {
    let seeds = vec![node(100)];
    let mut lookup = Lookup::with_seeds(home(), seeds, target(), true);
    let mut known: Vec<NodeData> = (1..=40u8).map(node).collect();
    known.reverse();
    let mut waiting: Vec<NodeData> = Vec::new();
    let mut steps = 0;
    let result = loop {
        steps += 1;
        assert!(steps < 1000);
        match lookup.poll() {
            LookupAction::Query(peer, _) => waiting.push(peer),
            LookupAction::Wait => {
                let peer = waiting.remove(0);
                lookup.deliver(answer_of(peer, ResponsePayload::Nodes(known.clone())));
            },
            LookupAction::Done(payload) => break payload,
        }
    };
    match result {
        ResponsePayload::Nodes(nodes) => {
            assert_eq!(nodes.len(), 20);
            for pair in nodes.windows(2) {
                assert!(pair[0].id.xor(&target()) <= pair[1].id.xor(&target()));
            }
            assert_eq!(nodes[19], home());
            assert_eq!(nodes[0], node(1));
        },
        other => panic!("expected nodes, got {:?}", other),
    }
}

#[test]
fn deliver_changes_nothing_when_no_outcome_is_awaited() {
    let mut lookup = Lookup::with_seeds(home(), vec![node(1)], target(), true);
    lookup.deliver(answer_of(node(9), ResponsePayload::Value("early".to_string())));
    assert_eq!(lookup.phase(), LookupPhase::Seeding);
    assert_eq!(asked(lookup.poll()), node(1));
    assert!(is_wait(&lookup.poll()));
    lookup.deliver(None);
    lookup.deliver(None);
    assert_eq!(lookup.in_flight(), 0);
    assert_eq!(nodes_of(lookup.poll()), vec![home()]);
}

#[test]
fn lookup_starts_from_the_closest_nodes_of_the_table() {
    let mut table = RoutingTable::new_at(Arc::new(home()), 0);
    for tag in [0x01u8, 0x02, 0x04, 0x08, 0x10] {
        assert!(table.update_node_at(node(tag), 1));
    }
    let mut lookup = Lookup::new(&table, target(), true);
    assert_eq!(asked(lookup.poll()), node(0x01));
    assert_eq!(asked(lookup.poll()), node(0x02));
    assert_eq!(asked(lookup.poll()), node(0x04));
    assert!(is_wait(&lookup.poll()));
    lookup.deliver(None);
    assert!(is_wait(&lookup.poll()));
}
