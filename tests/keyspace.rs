use rustis::store::State;

#[test]
fn test_get_and_set() {
    let mut db = State::new();
    let key = "test_key".to_string();
    let value = b"test_value".to_vec();
    db.set(key.clone(), value.clone(), None, 0);
    assert_eq!(db.get(&key), Some(value));
}

#[test]
fn test_get_nonexistent_key() {
    let db = State::new();
    assert_eq!(db.get(&"nonexistent_key".to_string()), None);
}

#[test]
fn test_subscribe_and_publish() {
    let mut db = State::new();
    let channel = "test_channel".to_string();
    let message = b"Hello, channel".to_vec();
    let mut subscriber1 = db.subscribe(channel.clone());
    let mut subscriber2 = db.subscribe(channel.clone());
    let subscribers_number = db.publish(&channel, message.clone());
    assert_eq!(subscribers_number, 2);
    assert_eq!(subscriber1.try_recv().unwrap(), message);
    assert_eq!(subscriber2.try_recv().unwrap(), message);
}

#[test]
fn test_publish_without_subscribers() {
    let db = State::new();
    let channel = "test_channel".to_string();
    assert_eq!(db.publish(&channel, b"No subscribers".to_vec()), 0);
}

#[test]
fn publish_after_receivers_dropped_reaches_none() {
    let mut db = State::new();
    let channel = "c".to_string();
    let rx = db.subscribe(channel.clone());
    drop(rx);
    assert_eq!(db.publish(&channel, b"m".to_vec()), 0);
}

#[test]
fn test_rdb_save_and_load() {
    let mut db = State::new();
    db.set("test_key1".to_string(), b"test_value1".to_vec(), None, 0);
    db.set("test_key2".to_string(), b"test_value2".to_vec(), Some(500), 0);
    let loaded = State::from_entries(db.entry_list());
    assert_eq!(db.get(&"test_key1".to_string()), loaded.get(&"test_key1".to_string()));
    assert_eq!(db.get(&"test_key2".to_string()), loaded.get(&"test_key2".to_string()));
    assert_eq!(loaded.next_expiration(), Some(500));
}

#[test]
fn later_snapshot_records_win() {
    let loaded = State::from_entries(vec![
        ("k".to_string(), b"old".to_vec(), Some(10)),
        ("k".to_string(), b"new".to_vec(), None),
    ]);
    assert_eq!(loaded.get(&"k".to_string()), Some(b"new".to_vec()));
    assert_eq!(loaded.next_expiration(), None);
}

#[test]
fn reaper_removes_expired_keys_only() {
    let mut db = State::new();
    assert!(db.set("a".to_string(), b"1".to_vec(), Some(1000), 0));
    assert!(!db.set("b".to_string(), b"2".to_vec(), Some(3000), 0));
    assert!(!db.set("c".to_string(), b"3".to_vec(), None, 0));
    assert_eq!(db.next_expiration(), Some(1000));
    assert_eq!(db.clean_expired_keys(999), Some(1000));
    assert_eq!(db.get(&"a".to_string()), Some(b"1".to_vec()));
    assert_eq!(db.clean_expired_keys(1000), Some(3000));
    assert_eq!(db.get(&"a".to_string()), None);
    assert_eq!(db.get(&"b".to_string()), Some(b"2".to_vec()));
    assert_eq!(db.clean_expired_keys(5000), None);
    assert_eq!(db.get(&"b".to_string()), None);
    assert_eq!(db.get(&"c".to_string()), Some(b"3".to_vec()));
}

#[test]
fn earlier_expiry_wakes_the_reaper() {
    let mut db = State::new();
    assert!(db.set("a".to_string(), b"1".to_vec(), Some(5000), 0));
    assert!(db.set("b".to_string(), b"2".to_vec(), Some(1000), 0));
    assert!(!db.set("c".to_string(), b"3".to_vec(), Some(1000), 0));
    assert_eq!(db.next_expiration(), Some(1000));
}

#[test]
fn overwrite_replaces_expiry() {
    let mut db = State::new();
    db.set("k".to_string(), b"1".to_vec(), Some(100), 0);
    db.set("k".to_string(), b"2".to_vec(), None, 0);
    assert_eq!(db.next_expiration(), None);
    assert_eq!(db.clean_expired_keys(10_000), None);
    assert_eq!(db.get(&"k".to_string()), Some(b"2".to_vec()));
}

#[test]
fn expiry_saturates_at_the_end_of_time() {
    let mut db = State::new();
    db.set("k".to_string(), b"1".to_vec(), Some(u64::MAX), 10);
    assert_eq!(db.next_expiration(), Some(u64::MAX));
}

#[test]
fn ttl_zero_expires_at_once() {
    let mut db = State::new();
    db.set("k".to_string(), b"v".to_vec(), Some(0), 42);
    assert_eq!(db.clean_expired_keys(42), None);
    assert_eq!(db.get(&"k".to_string()), None);
}

#[test]
fn del_removes_key_and_expiry() {
    let mut db = State::new();
    db.set("k".to_string(), b"v".to_vec(), Some(100), 0);
    db.del(&"k".to_string());
    assert_eq!(db.get(&"k".to_string()), None);
    assert_eq!(db.next_expiration(), None);
    db.del(&"absent".to_string());
}

#[test]
fn shutdown_stops_the_reaper() {
    let mut db = State::new();
    db.set("k".to_string(), b"v".to_vec(), Some(1), 0);
    assert!(!db.is_shutdown());
    db.shutdown_clean_task();
    assert!(db.is_shutdown());
    assert_eq!(db.clean_expired_keys(100), None);
    assert_eq!(db.get(&"k".to_string()), Some(b"v".to_vec()));
}
