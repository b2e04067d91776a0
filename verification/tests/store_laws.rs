use bytes::Bytes;
use healing_cache::cache::{CacheEntry, CacheStore};
use healing_cache::clock::{millis, secs, Clock, MAX_NANOS};

#[test]
fn reads_give_back_what_was_written() {
    let mut store = CacheStore::new();
    store.set_at("a".into(), Bytes::from("1"), Some(10), 100);
    store.set_at("b".into(), Bytes::from("2"), None, 100);
    assert_eq!(store.get_at("a", 109).unwrap(), Bytes::from("1"));
    assert_eq!(store.ttl_at("a", 103), Some(7));
    // Expired, but not dropped yet.
    assert_eq!(store.ttl_at("a", 110), Some(0));
    assert_eq!(store.len_at(110), 1);
    assert!(store.get_at("a", 110).is_none());
    assert_eq!(store.ttl_at("a", 105), None);
    assert_eq!(store.get_at("b", u128::MAX).unwrap(), Bytes::from("2"));
    assert_eq!(store.ttl_at("b", 110), None);
}

#[test]
fn a_ttl_of_zero_is_over_at_once() {
    let mut store = CacheStore::new();
    store.set_at("a".into(), Bytes::from("1"), Some(0), 5);
    assert!(!store.key_exists_at("a", 5));
    store.set_at("a".into(), Bytes::from("1"), Some(MAX_NANOS), MAX_NANOS);
    assert!(store.key_exists_at("a", MAX_NANOS));
}

#[test]
fn expiry_can_be_set_later() {
    let mut store = CacheStore::new();
    assert!(!store.expire_at("a", 10, 0));
    store.set_at("a".into(), Bytes::from("1"), None, 0);
    assert!(store.expire_at("a", 10, 5));
    assert_eq!(store.ttl_at("a", 5), Some(10));
    assert!(store.key_exists_at("a", 14));
    assert!(!store.key_exists_at("a", 15));
}

#[test]
fn sweeping_drops_expired_keys_only() {
    let mut store = CacheStore::new();
    store.set_at("a".into(), Bytes::from("1"), Some(10), 0);
    store.set_at("b".into(), Bytes::from("2"), Some(20), 0);
    store.set_at("c".into(), Bytes::from("3"), None, 0);
    store.sweep_at(10);
    assert_eq!(store.ttl_at("a", 0), None);
    assert_eq!(store.get_at("b", 10).unwrap(), Bytes::from("2"));
    assert_eq!(store.get_at("c", 10).unwrap(), Bytes::from("3"));
    assert_eq!(store.data().len(), 2);
    store.sweep();
    assert!(!store.is_empty());
}

#[test]
fn the_map_can_be_reached() {
    let mut store = CacheStore::new();
    store.data().insert("a".to_string(), CacheEntry { value: Bytes::from("1"), expires_at: Some(9) });
    assert_eq!(store.ttl_at("a", 4), Some(5));
    assert!(!CacheEntry { value: Bytes::new(), expires_at: Some(9) }.is_live(9));
    assert!(CacheEntry { value: Bytes::new(), expires_at: Some(9) }.is_live(8));
    let copy = CacheEntry { value: Bytes::from("v"), expires_at: Some(9) }.clone();
    assert_eq!(copy.value, Bytes::from("v"));
    assert_eq!(copy.expires_at, Some(9));
}

#[test]
fn transfers_do_not_outlive() {
    let mut here = CacheStore::new();
    let mut there = CacheStore::new();
    here.set_at("k".into(), Bytes::from("v"), Some(millis(3) + 999_999), 0);
    here.set_at("short".into(), Bytes::from("v"), Some(999_999), 0);
    for (key, value, left) in here.entries_for_transfer_at(0) {
        if key == "k" {
            assert_eq!(left, Some(3));
        } else {
            // Less than a millisecond: nothing worth sending is left.
            assert_eq!(left, Some(0));
        }
        there.set_from_transfer_at(key, Bytes::from(value), left, 500);
    }
    assert_eq!(there.get_at("k", 500).unwrap(), Bytes::from("v"));
    assert_eq!(there.ttl_at("k", 500), Some(millis(3)));
    assert!(there.get_at("short", 500).is_none());
    assert!(there.get_at("k", 500 + millis(3)).is_none());
    // What stood there is replaced, unless nothing is left of what was sent.
    there.set_at("k".into(), Bytes::from("old"), None, 500);
    there.set_from_transfer_at("k".into(), Bytes::from("v"), Some(0), 500);
    assert_eq!(there.get_at("k", 500).unwrap(), Bytes::from("old"));
    there.set_from_transfer_at("k".into(), Bytes::from("v"), Some(3), 500);
    assert_eq!(there.get_at("k", 500).unwrap(), Bytes::from("v"));
    assert_eq!(there.ttl_at("k", 500), Some(millis(3)));
}

#[test]
fn deleted_keys_are_gone() {
    let mut store = CacheStore::new();
    assert!(!store.delete("k"));
    store.set_at("k".into(), Bytes::from("v"), None, 0);
    store.set_at("l".into(), Bytes::from("w"), None, 0);
    assert!(store.delete("k"));
    assert!(!store.key_exists_at("k", 0));
    assert!(store.key_exists_at("l", 0));
}

#[test]
fn epoch_milliseconds() {
    let store = CacheStore::new();
    let epoch = store.epoch();
    assert_eq!(store.epoch_ms_to_instant(0), epoch);
    assert_eq!(store.epoch_ms_to_instant(7), epoch + millis(7));
    assert_eq!(store.instant_to_epoch_ms(epoch + millis(7) + 999_999), 7);
    assert_eq!(store.instant_to_epoch_ms(epoch), 0);
    if epoch > 0 {
        assert_eq!(store.instant_to_epoch_ms(epoch - 1), 0);
    }
    for ms in [0, 1, 12345, u64::MAX] {
        assert_eq!(store.instant_to_epoch_ms(store.epoch_ms_to_instant(ms)), ms);
    }
}

#[test]
fn clocks_go_forward() {
    let clock = Clock::start();
    let a = clock.now();
    let b = clock.now();
    assert!(a <= b);
    assert_eq!(secs(3), 3_000_000_000);
    assert_eq!(millis(3), 3_000_000);
    assert_eq!(secs(u64::MAX) + 999_999_999, MAX_NANOS);
}
