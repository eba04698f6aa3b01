use kademlia_dht::key::Key;
use kademlia_dht::pending::PendingRequests;
use kademlia_dht::KEY_LENGTH;

fn token(tag: u8) -> Key {
    Key::new([tag; KEY_LENGTH])
}

#[test]
fn pending_requests_are_found_by_their_token() {
    let mut pending: PendingRequests<u32> = PendingRequests::new();
    assert_eq!(pending.len(), 0);
    assert_eq!(pending.insert(token(1), 10), None);
    assert_eq!(pending.insert(token(2), 20), None);
    assert!(pending.contains_key(&token(1)));
    assert!(!pending.contains_key(&token(3)));
    assert_eq!(pending.get(&token(2)), Some(&20));
    assert_eq!(pending.get(&token(3)), None);
    assert_eq!(pending.len(), 2);
}

#[test]
fn pending_insert_replaces_and_remove_takes_out() {
    let mut pending: PendingRequests<String> = PendingRequests::new();
    assert_eq!(pending.insert(token(1), "a".to_string()), None);
    assert_eq!(pending.insert(token(1), "b".to_string()), Some("a".to_string()));
    assert_eq!(pending.len(), 1);
    assert_eq!(pending.remove(&token(1)), Some("b".to_string()));
    assert_eq!(pending.remove(&token(1)), None);
    assert!(!pending.contains_key(&token(1)));
    assert_eq!(pending.len(), 0);
}

#[test]
fn fresh_tokens_are_not_in_the_table() {
    let mut pending: PendingRequests<usize> = PendingRequests::new();
    for i in 0..100 {
        let fresh = pending.fresh_token().unwrap();
        assert!(!pending.contains_key(&fresh));
        assert_eq!(pending.insert(fresh, i), None);
    }
    assert_eq!(pending.len(), 100);
}
