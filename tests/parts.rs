use lease_store::bytes::compare_bytes;
use lease_store::collection::LeaseCollection;
use lease_store::lease::Lease;
use lease_store::queue::ExpiryQueue;
use lease_store::MAX_LEASE_TTL;

#[test]
fn lease_ttl_is_clamped() {
    assert_eq!(Lease::new(1, 0).ttl(), 1);
    assert_eq!(Lease::new(1, -5).ttl(), 1);
    assert_eq!(Lease::new(1, MAX_LEASE_TTL + 7).ttl() as i64, MAX_LEASE_TTL);
    assert_eq!(Lease::new(1, 42).ttl(), 42);
}

#[test]
fn lease_refresh_and_expiry() {
    let mut l = Lease::new(3, 2);
    assert!(!l.expired(u64::MAX));
    assert_eq!(l.remaining(10), u64::MAX);
    assert_eq!(l.refresh(100, 1_000), 3_100);
    assert_eq!(l.remaining(3_000), 100);
    assert!(!l.expired(3_099));
    assert!(l.expired(3_100));
    assert_eq!(l.remaining(4_000), 0);
    l.forever();
    assert_eq!(l.expiry(), None);
}

#[test]
fn lease_keys_sorted_set() {
    let mut l = Lease::new(1, 10);
    l.insert_key(b"m".to_vec());
    l.insert_key(b"c".to_vec());
    l.insert_key(b"m".to_vec());
    l.insert_key(b"x".to_vec());
    assert_eq!(l.keys(), vec![b"c".to_vec(), b"m".to_vec(), b"x".to_vec()]);
    l.remove_key(b"m");
    l.remove_key(b"q");
    assert_eq!(l.keys(), vec![b"c".to_vec(), b"x".to_vec()]);
}

#[test]
fn bytes_compare_lexicographic() {
    assert!(compare_bytes(b"a", b"b") < 0);
    assert!(compare_bytes(b"ab", b"a") > 0);
    assert!(compare_bytes(b"", b"a") < 0);
    assert_eq!(compare_bytes(b"abc", b"abc"), 0);
    assert!(compare_bytes(b"b", b"abc") > 0);
}

#[test]
fn queue_orders_by_expiry_then_id() {
    let mut q = ExpiryQueue::new();
    assert_eq!(q.peek(), None);
    q.insert(5, 300);
    q.insert(2, 100);
    q.insert(9, 100);
    q.insert(5, 50);
    assert_eq!(q.peek(), Some(50));
    assert_eq!(q.pop(), Some(5));
    assert_eq!(q.pop(), Some(2));
    assert_eq!(q.pop(), Some(9));
    assert_eq!(q.pop(), None);
    q.insert(1, 1);
    q.clear();
    assert_eq!(q.peek(), None);
}

#[test]
fn collection_skips_stale_queue_entries() {
    let mut c = LeaseCollection::new();
    c.grant(1, 1, true, 0);
    c.grant(2, 1, true, 0);
    assert!(c.revoke(1).is_some());
    assert!(c.revoke(1).is_none());
    assert_eq!(c.find_expired_leases(1_000), vec![2]);
    assert!(c.find_expired_leases(1_000).is_empty());
}

#[test]
fn collection_renew_and_grant_existing() {
    let mut c = LeaseCollection::new();
    assert!(c.renew(1, 0).is_err());
    c.grant(1, 10, true, 0);
    c.grant(1, 99, true, 0);
    assert_eq!(c.look_up(1).unwrap().ttl(), 10);
    assert_eq!(c.renew(1, 5_000), Ok(10));
    assert!(c.find_expired_leases(14_999).is_empty());
    assert_eq!(c.find_expired_leases(15_000), vec![1]);
    assert!(c.contains_lease(1));
    c.demote();
    c.promote(1_000, 20_000);
    assert_eq!(c.look_up(1).unwrap().expiry(), Some(31_000));
}
