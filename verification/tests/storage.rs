use kademlia_dht::key::Key;
use kademlia_dht::storage::Storage;
use kademlia_dht::KEY_LENGTH;

const HOUR: u64 = 3600 * 1_000_000_000;

fn storage_key(tag: u8) -> Key {
    Key::new([tag; KEY_LENGTH])
}

#[test]
fn get_returns_what_was_inserted() {
    let mut storage = Storage::new();
    assert_eq!(storage.get_at(&storage_key(1), 0).cloned(), None);
    storage.insert_at(storage_key(1), "one".to_string(), 10);
    storage.insert_at(storage_key(2), "two".to_string(), 20);
    assert_eq!(storage.get_at(&storage_key(1), 30).cloned(), Some("one".to_string()));
    assert_eq!(storage.get_at(&storage_key(2), 30).cloned(), Some("two".to_string()));
    assert_eq!(storage.get_at(&storage_key(3), 30).cloned(), None);
    assert_eq!(storage.len(), 2);
}

#[test]
fn second_insert_replaces_the_first() {
    let mut storage = Storage::new();
    storage.insert_at(storage_key(1), "v1".to_string(), 10);
    storage.insert_at(storage_key(1), "v2".to_string(), 20);
    assert_eq!(storage.get_at(&storage_key(1), 30).cloned(), Some("v2".to_string()));
    assert_eq!(storage.len(), 1);
    assert_eq!(storage.get_at(&storage_key(1), 10 + HOUR + 1).cloned(), Some("v2".to_string()));
    assert_eq!(storage.get_at(&storage_key(1), 20 + HOUR).cloned(), Some("v2".to_string()));
    assert_eq!(storage.get_at(&storage_key(1), 20 + HOUR + 1).cloned(), None);
}

#[test]
fn items_expire_after_the_expiration_time() {
    let mut storage = Storage::new();
    storage.insert_at(storage_key(1), "old".to_string(), 100);
    storage.insert_at(storage_key(2), "new".to_string(), 200);
    assert_eq!(storage.get_at(&storage_key(1), 100 + HOUR).cloned(), Some("old".to_string()));
    assert_eq!(storage.get_at(&storage_key(1), 101 + HOUR).cloned(), None);
    assert_eq!(storage.len(), 1);
    assert_eq!(storage.get_at(&storage_key(2), 101 + HOUR).cloned(), Some("new".to_string()));
    storage.insert_at(storage_key(3), "late".to_string(), 201 + HOUR);
    assert_eq!(storage.len(), 1);
    assert_eq!(storage.get_at(&storage_key(2), 201 + HOUR).cloned(), None);
    assert_eq!(storage.get_at(&storage_key(3), 201 + HOUR).cloned(), Some("late".to_string()));
}

#[test]
fn nothing_expires_before_the_clock_has_run_for_the_expiration_time() {
    let mut storage = Storage::new();
    storage.insert_at(storage_key(1), "early".to_string(), 0);
    storage.remove_expired(HOUR);
    assert_eq!(storage.len(), 1);
    storage.remove_expired(HOUR + 1);
    assert_eq!(storage.len(), 0);
    storage.insert_at(storage_key(1), "again".to_string(), 50);
    assert_eq!(storage.get_at(&storage_key(1), 10).cloned(), Some("again".to_string()));
}

#[test]
fn clocked_insert_and_get_round_trip() {
    let mut storage = Storage::default();
    storage.insert(storage_key(9), "World".to_string());
    assert_eq!(storage.get(&storage_key(9)).cloned(), Some("World".to_string()));
    assert_eq!(storage.get(&storage_key(8)).cloned(), None);
    storage.insert(storage_key(9), "Again".to_string());
    assert_eq!(storage.get(&storage_key(9)).cloned(), Some("Again".to_string()));
}
