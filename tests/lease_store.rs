use lease_store::error::LeaseError;
use lease_store::store::{
    LeaseGrantRequest, LeaseGrantResponse, LeaseRequest, LeaseResponse, LeaseRevokeRequest, LeaseStore,
};
use lease_store::MAX_LEASE_TTL;

fn grant(id: i64, ttl: i64) -> LeaseRequest {
    LeaseRequest::Grant(LeaseGrantRequest { id, ttl })
}

fn revoke(id: i64) -> LeaseRequest {
    LeaseRequest::Revoke(LeaseRevokeRequest { id })
}

fn exe_and_sync_req(
    ls: &mut LeaseStore,
    req: LeaseRequest,
    now: u64,
) -> Result<(LeaseResponse, Vec<Vec<u8>>), LeaseError> {
    let id = 7;
    let res = ls.execute(id, req);
    let deleted = ls.after_sync(id, now);
    res.map(|r| (r, deleted))
}

#[test]
fn test_lease_storage() {
    let mut lease_store = LeaseStore::new();
    let _ignore1 = exe_and_sync_req(&mut lease_store, grant(1, 10), 0).unwrap();

    let lo = lease_store.look_up(1);
    assert!(lo.is_some());
    let lo = lo.unwrap();
    assert_eq!(lo.id(), 1);
    assert_eq!(lo.ttl(), 10);
    assert_eq!(lease_store.leases(0).len(), 1);

    let attach_non_existing_lease = lease_store.attach(0, "key".into());
    assert!(attach_non_existing_lease.is_err());
    let attach_existing_lease = lease_store.attach(1, "key".into());
    assert!(attach_existing_lease.is_ok());

    let (_, deleted) = exe_and_sync_req(&mut lease_store, revoke(1), 0).unwrap();
    assert_eq!(deleted, vec![b"key".to_vec()]);
    assert!(lease_store.look_up(1).is_none());
    assert!(lease_store.leases(0).is_empty());
}

#[test]
fn grant_then_revoke_round_trip() {
    let mut s = LeaseStore::new();
    let r = exe_and_sync_req(&mut s, grant(5, 30), 100).unwrap();
    assert_eq!(r.0, LeaseResponse::Grant(LeaseGrantResponse { id: 5, ttl: 30 }));
    assert!(s.look_up(5).is_some());
    let r = exe_and_sync_req(&mut s, revoke(5), 100).unwrap();
    assert_eq!(r.0, LeaseResponse::Revoke);
    assert!(r.1.is_empty());
    assert!(s.look_up(5).is_none());
}

#[test]
fn grant_ttl_boundary() {
    let mut s = LeaseStore::new();
    assert_eq!(
        s.execute(1, grant(1, MAX_LEASE_TTL + 1)),
        Err(LeaseError::TtlTooLarge(MAX_LEASE_TTL + 1))
    );
    let _ = s.after_sync(1, 0);
    assert!(s.look_up(1).is_none());
    assert!(s.execute(2, grant(1, MAX_LEASE_TTL)).is_ok());
    let _ = s.after_sync(2, 0);
    assert_eq!(s.look_up(1).unwrap().ttl(), 9_000_000_000);
}

#[test]
fn grant_id_zero_is_not_found() {
    let mut s = LeaseStore::new();
    assert_eq!(s.execute(1, grant(0, 10)), Err(LeaseError::LeaseNotFound));
    let _ = s.after_sync(1, 0);
    assert!(s.leases(0).is_empty());
}

#[test]
fn keep_alive_needs_leader() {
    let mut s = LeaseStore::new();
    exe_and_sync_req(&mut s, grant(1, 10), 0).unwrap();
    assert_eq!(s.keep_alive(1, 0), Err(LeaseError::NotLeader));
    s.promote(0, 1_000);
    assert_eq!(s.look_up(1).unwrap().remaining(1_000), 10_000);
    assert_eq!(s.keep_alive(1, 4_000), Ok(10));
    assert_eq!(s.look_up(1).unwrap().expiry(), Some(14_000));
    assert_eq!(s.look_up(1).unwrap().remaining(4_000), 10_000);
    assert_eq!(s.keep_alive(1, 6_000), Ok(10));
    assert_eq!(s.look_up(1).unwrap().expiry(), Some(16_000));
    assert_eq!(s.keep_alive(2, 6_000), Err(LeaseError::LeaseNotFound));
}

#[test]
fn keep_alive_after_expiry_fails() {
    let mut s = LeaseStore::new();
    s.promote(0, 0);
    exe_and_sync_req(&mut s, grant(4, 1), 0).unwrap();
    assert_eq!(s.keep_alive(4, 1_000), Err(LeaseError::LeaseExpired));
}

#[test]
fn demote_then_nothing_expires() {
    let mut s = LeaseStore::new();
    s.promote(0, 0);
    exe_and_sync_req(&mut s, grant(2, 1), 0).unwrap();
    s.demote();
    assert!(s.find_expired_leases(u64::MAX).is_empty());
    assert_eq!(s.look_up(2).unwrap().expiry(), None);
}

#[test]
fn scenario_grant_and_sync() {
    let mut s = LeaseStore::new();
    assert!(s.execute(3, grant(1, 10)).is_ok());
    assert!(s.after_sync(3, 0).is_empty());
    assert_eq!(s.look_up(1).unwrap().ttl(), 10);
    assert_eq!(s.leases(0).len(), 1);
}

#[test]
fn scenario_attach_and_get_lease() {
    let mut s = LeaseStore::new();
    exe_and_sync_req(&mut s, grant(1, 10), 0).unwrap();
    assert_eq!(s.attach(0, b"key".to_vec()), Err(LeaseError::LeaseNotFound));
    assert_eq!(s.attach(1, b"key".to_vec()), Ok(()));
    assert_eq!(s.get_lease(b"key"), 1);
    assert_eq!(s.get_lease(b"other"), 0);
    assert_eq!(s.get_keys(1), vec![b"key".to_vec()]);
}

#[test]
fn scenario_revoke_emits_delete() {
    let mut s = LeaseStore::new();
    exe_and_sync_req(&mut s, grant(1, 10), 0).unwrap();
    s.attach(1, b"key".to_vec()).unwrap();
    assert!(s.execute(9, revoke(1)).is_ok());
    assert_eq!(s.after_sync(9, 0), vec![b"key".to_vec()]);
    assert!(s.look_up(1).is_none());
    assert!(s.leases(0).is_empty());
}

#[test]
fn scenario_expiry_then_demote() {
    let mut s = LeaseStore::new();
    s.promote(0, 0);
    exe_and_sync_req(&mut s, grant(2, 1), 0).unwrap();
    assert!(s.find_expired_leases(999).is_empty());
    s.promote(0, 0);
    assert_eq!(s.find_expired_leases(1_001), vec![2]);
    s.demote();
    assert!(s.find_expired_leases(5_000).is_empty());
}

#[test]
fn scenario_grant_twice_exists() {
    let mut s = LeaseStore::new();
    exe_and_sync_req(&mut s, grant(6, 10), 0).unwrap();
    assert_eq!(s.execute(2, grant(6, 10)), Err(LeaseError::LeaseExists(6)));
    assert!(s.after_sync(2, 0).is_empty());
    assert_eq!(s.leases(0).len(), 1);
}

#[test]
fn scenario_revoke_sorts_keys() {
    let mut s = LeaseStore::new();
    exe_and_sync_req(&mut s, grant(3, 10), 0).unwrap();
    for k in ["b", "a", "c"] {
        s.attach(3, k.as_bytes().to_vec()).unwrap();
    }
    let (_, deleted) = exe_and_sync_req(&mut s, revoke(3), 0).unwrap();
    assert_eq!(deleted, vec![b"a".to_vec(), b"b".to_vec(), b"c".to_vec()]);
}

#[test]
fn revoke_applied_twice_deletes_once() {
    let mut s = LeaseStore::new();
    exe_and_sync_req(&mut s, grant(1, 10), 0).unwrap();
    s.attach(1, b"k".to_vec()).unwrap();
    assert!(s.execute(1, revoke(1)).is_ok());
    assert!(s.execute(2, revoke(1)).is_ok());
    assert_eq!(s.after_sync(1, 0), vec![b"k".to_vec()]);
    assert!(s.after_sync(2, 0).is_empty());
}

#[test]
fn replicas_delete_alike() {
    let mut a = LeaseStore::new();
    let mut b = LeaseStore::new();
    exe_and_sync_req(&mut a, grant(1, 10), 0).unwrap();
    exe_and_sync_req(&mut b, grant(1, 10), 0).unwrap();
    for k in ["zz", "a", "ab", ""] {
        a.attach(1, k.as_bytes().to_vec()).unwrap();
    }
    for k in ["ab", "", "zz", "a", "a"] {
        b.attach(1, k.as_bytes().to_vec()).unwrap();
    }
    let (_, da) = exe_and_sync_req(&mut a, revoke(1), 0).unwrap();
    let (_, db) = exe_and_sync_req(&mut b, revoke(1), 0).unwrap();
    assert_eq!(da, db);
    assert_eq!(da, vec![b"".to_vec(), b"a".to_vec(), b"ab".to_vec(), b"zz".to_vec()]);
}

#[test]
fn leader_queues_and_follower_does_not() {
    let mut s = LeaseStore::new();
    exe_and_sync_req(&mut s, grant(1, 5), 0).unwrap();
    assert_eq!(s.look_up(1).unwrap().expiry(), None);
    assert!(s.find_expired_leases(u64::MAX / 2).is_empty());
    s.promote(500, 1_000);
    assert_eq!(s.look_up(1).unwrap().expiry(), Some(6_500));
    exe_and_sync_req(&mut s, grant(2, 1), 2_000).unwrap();
    assert_eq!(s.look_up(2).unwrap().expiry(), Some(3_000));
    assert_eq!(s.find_expired_leases(10_000), vec![2, 1]);
}

#[test]
fn detach_removes_key() {
    let mut s = LeaseStore::new();
    exe_and_sync_req(&mut s, grant(1, 10), 0).unwrap();
    s.attach(1, b"x".to_vec()).unwrap();
    s.attach(1, b"y".to_vec()).unwrap();
    assert_eq!(s.detach(2, b"x"), Err(LeaseError::LeaseNotFound));
    assert_eq!(s.detach(1, b"x"), Ok(()));
    assert_eq!(s.get_lease(b"x"), 0);
    assert_eq!(s.get_keys(1), vec![b"y".to_vec()]);
}

#[test]
fn attach_rebinds_index() {
    let mut s = LeaseStore::new();
    exe_and_sync_req(&mut s, grant(1, 10), 0).unwrap();
    exe_and_sync_req(&mut s, grant(2, 10), 0).unwrap();
    s.attach(1, b"k".to_vec()).unwrap();
    s.attach(2, b"k".to_vec()).unwrap();
    assert_eq!(s.get_lease(b"k"), 2);
}

#[test]
fn leases_sorted_by_remaining() {
    let mut s = LeaseStore::new();
    s.promote(0, 0);
    exe_and_sync_req(&mut s, grant(1, 30), 0).unwrap();
    exe_and_sync_req(&mut s, grant(2, 10), 0).unwrap();
    exe_and_sync_req(&mut s, grant(3, 20), 0).unwrap();
    let ids: Vec<i64> = s.leases(0).iter().map(|l| l.id()).collect();
    assert_eq!(ids, vec![2, 3, 1]);
}

#[test]
fn staged_until_synced() {
    let mut s = LeaseStore::new();
    assert!(!s.is_staged(4));
    assert!(s.execute(4, grant(0, 1)).is_err());
    assert!(s.is_staged(4));
    assert!(s.after_sync(4, 0).is_empty());
    assert!(!s.is_staged(4));
}
