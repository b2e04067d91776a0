use bytes::Bytes;
use healing_cache::cache::CacheStore;
use healing_cache::clock::{millis, secs};

/// Lets the time pass on the clock of the store.
fn wait(store: &CacheStore, nanos: u128) {
    let start = store.now();
    while store.now() - start < nanos {}
}

#[test]
fn test_set_get_roundtrip() {
    let mut store = CacheStore::new();
    store.set("hello".into(), Bytes::from("world"), None);
    let val = store.get("hello").unwrap();
    assert_eq!(val, Bytes::from("world"));
}

#[test]
fn test_get_nonexistent() {
    let mut store = CacheStore::new();
    assert!(store.get("missing").is_none());
}

#[test]
fn test_delete_removes_key() {
    let mut store = CacheStore::new();
    store.set("key".into(), Bytes::from("val"), None);
    assert!(store.delete("key"));
    assert!(store.get("key").is_none());
}

#[test]
fn test_ttl_expiry() {
    let mut store = CacheStore::new();
    store.set("ttl_key".into(), Bytes::from("ttl_val"), Some(millis(50)));
    // Immediate read should succeed
    assert!(store.get("ttl_key").is_some());
    // Wait for expiry
    wait(&store, millis(100));
    assert!(store.get("ttl_key").is_none());
}

#[test]
fn test_no_ttl() {
    let mut store = CacheStore::new();
    store.set("persist".into(), Bytes::from("forever"), None);
    wait(&store, millis(50));
    assert!(store.get("persist").is_some());
}

#[test]
fn test_overwrite() {
    let mut store = CacheStore::new();
    store.set("key".into(), Bytes::from("v1"), None);
    store.set("key".into(), Bytes::from("v2"), None);
    assert_eq!(store.get("key").unwrap(), Bytes::from("v2"));
}

#[test]
fn store_test_exists() {
    let mut store = CacheStore::new();
    store.set("e".into(), Bytes::from("x"), None);
    assert!(store.key_exists("e"));
    store.delete("e");
    assert!(!store.key_exists("e"));
}

#[test]
fn store_test_expire() {
    let mut store = CacheStore::new();
    store.set("exp".into(), Bytes::from("val"), None);
    assert!(store.expire("exp", millis(50)));
    // Should exist immediately
    assert!(store.key_exists("exp"));
    wait(&store, millis(100));
    assert!(!store.key_exists("exp"));
}

#[test]
fn test_ttl_remaining() {
    let mut store = CacheStore::new();
    store.set("ttl_rem".into(), Bytes::from("val"), Some(secs(1)));
    let remaining = store.ttl("ttl_rem").unwrap();
    // Should be roughly 1s, allow some slack
    assert!(remaining > millis(900));
    assert!(remaining <= secs(1));
}

#[test]
fn test_entries_for_transfer() {
    let mut store = CacheStore::new();
    store.set("no_ttl".into(), Bytes::from("v1"), None);
    store.set("with_ttl".into(), Bytes::from("v2"), Some(secs(60)));
    store.set("expired".into(), Bytes::from("v3"), Some(millis(1)));
    wait(&store, millis(10));

    let entries = store.entries_for_transfer();
    // "expired" should be skipped
    assert_eq!(entries.len(), 2);
    let keys: Vec<&str> = entries.iter().map(|(k, _, _)| k.as_str()).collect();
    assert!(keys.contains(&"no_ttl"));
    assert!(keys.contains(&"with_ttl"));
    assert!(!keys.contains(&"expired"));

    // Check TTL values
    for (key, _, expires_at_ms) in &entries {
        if key == "no_ttl" {
            assert!(expires_at_ms.is_none());
        } else if key == "with_ttl" {
            // Should be roughly 60000ms remaining
            let ms = expires_at_ms.unwrap();
            assert!(ms > 59_000 && ms <= 60_000);
        }
    }
}

#[test]
fn test_set_from_transfer_with_ttl() {
    let mut store = CacheStore::new();
    store.set_from_transfer("transferred".into(), Bytes::from("data"), Some(5000));
    let val = store.get("transferred").unwrap();
    assert_eq!(val, Bytes::from("data"));
    let remaining = store.ttl("transferred").unwrap();
    assert!(remaining > millis(4000));
    assert!(remaining <= millis(5000));
}

#[test]
fn test_set_from_transfer_no_ttl() {
    let mut store = CacheStore::new();
    store.set_from_transfer("permanent".into(), Bytes::from("data"), None);
    assert!(store.get("permanent").is_some());
    assert!(store.ttl("permanent").is_none());
}

#[test]
fn test_set_from_transfer_expired_skipped() {
    let mut store = CacheStore::new();
    store.set_from_transfer("already_dead".into(), Bytes::from("data"), Some(0));
    // Should be skipped (already expired)
    assert!(store.get("already_dead").is_none());
}

#[test]
fn test_epoch_conversion() {
    let store = CacheStore::new();
    let now = store.now();
    let ms = store.instant_to_epoch_ms(now);
    // now is after epoch, so ms should be >= 0
    let back = store.epoch_ms_to_instant(ms);
    // Should round-trip approximately
    let diff = back.saturating_sub(now);
    assert!(diff < millis(10));
}
