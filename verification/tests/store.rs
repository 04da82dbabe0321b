//! The shared store: bindings, expiry, the reaper's purge.

use mini_redis::db::State;

#[test]
fn set_then_get() {
    let mut st = State::new();
    st.set(b"hello".to_vec(), b"world".to_vec(), None);
    assert_eq!(st.get(b"hello"), Some(b"world".to_vec()));
    assert_eq!(st.get(b"missing"), None);
}

#[test]
fn set_overwrites() {
    let mut st = State::new();
    st.set(b"k".to_vec(), b"v1".to_vec(), None);
    st.set(b"k".to_vec(), b"v2".to_vec(), None);
    assert_eq!(st.get(b"k"), Some(b"v2".to_vec()));
}

#[test]
fn expired_key_purged() {
    let mut st = State::new();
    st.set(b"k".to_vec(), b"v".to_vec(), Some(100));
    // not yet due: the reaper reports when to wake again
    assert_eq!(st.purge_expired_keys(50), Some(100));
    assert_eq!(st.get(b"k"), Some(b"v".to_vec()));
    // past due: the key goes, nothing is left to wait for
    assert_eq!(st.purge_expired_keys(400), None);
    assert_eq!(st.get(b"k"), None);
}

#[test]
fn purge_takes_only_due_keys() {
    let mut st = State::new();
    st.set(b"a".to_vec(), b"1".to_vec(), Some(100));
    st.set(b"b".to_vec(), b"2".to_vec(), Some(50));
    st.set(b"c".to_vec(), b"3".to_vec(), None);
    assert_eq!(st.purge_expired_keys(60), Some(100));
    assert_eq!(st.get(b"a"), Some(b"1".to_vec()));
    assert_eq!(st.get(b"b"), None);
    assert_eq!(st.get(b"c"), Some(b"3".to_vec()));
}

#[test]
fn next_expiration_is_the_soonest() {
    let mut st = State::new();
    assert_eq!(st.next_expiration(), None);
    st.set(b"a".to_vec(), b"1".to_vec(), Some(300));
    assert_eq!(st.next_expiration(), Some(300));
    st.set(b"b".to_vec(), b"2".to_vec(), Some(100));
    assert_eq!(st.next_expiration(), Some(100));
    st.set(b"c".to_vec(), b"3".to_vec(), Some(200));
    assert_eq!(st.next_expiration(), Some(100));
}

#[test]
fn set_says_when_to_wake_the_reaper() {
    let mut st = State::new();
    // first expiring binding: the reaper must learn of it
    assert!(st.set(b"a".to_vec(), b"1".to_vec(), Some(300)));
    // due later than the head: the reaper sleeps on
    assert!(!st.set(b"b".to_vec(), b"2".to_vec(), Some(400)));
    // due sooner than the head: wake it
    assert!(st.set(b"c".to_vec(), b"3".to_vec(), Some(100)));
    // no expiry at all: never wake
    assert!(!st.set(b"d".to_vec(), b"4".to_vec(), None));
}

#[test]
fn overwrite_clears_old_expiration() {
    let mut st = State::new();
    st.set(b"k".to_vec(), b"v".to_vec(), Some(100));
    st.set(b"k".to_vec(), b"v2".to_vec(), None);
    // the index pair of the old binding must be gone with it
    assert_eq!(st.next_expiration(), None);
    assert_eq!(st.purge_expired_keys(1000), None);
    assert_eq!(st.get(b"k"), Some(b"v2".to_vec()));
}

#[test]
fn overwrite_replaces_expiration() {
    let mut st = State::new();
    st.set(b"k".to_vec(), b"v".to_vec(), Some(100));
    st.set(b"k".to_vec(), b"v".to_vec(), Some(500));
    assert_eq!(st.next_expiration(), Some(500));
    assert_eq!(st.purge_expired_keys(200), Some(500));
    assert_eq!(st.get(b"k"), Some(b"v".to_vec()));
}

#[test]
fn two_keys_same_instant() {
    let mut st = State::new();
    st.set(b"a".to_vec(), b"1".to_vec(), Some(100));
    st.set(b"b".to_vec(), b"2".to_vec(), Some(100));
    assert_eq!(st.purge_expired_keys(100), None);
    assert_eq!(st.get(b"a"), None);
    assert_eq!(st.get(b"b"), None);
}

#[test]
fn shutdown_stops_purging() {
    let mut st = State::new();
    st.set(b"k".to_vec(), b"v".to_vec(), Some(10));
    assert!(!st.is_shutdown());
    st.shutdown();
    assert!(st.is_shutdown());
    // the reaper sees the flag and exits without touching the state
    assert_eq!(st.purge_expired_keys(1000), None);
    assert_eq!(st.get(b"k"), Some(b"v".to_vec()));
}
