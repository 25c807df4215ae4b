use std::collections::HashMap;
use vstd::prelude::*;

use crate::bytes::{lemma_sorted_unique, sorted_of, strictly_sorted};
use crate::collection::{granted, LeaseCollection};
use crate::error::LeaseError;
use crate::queue::entry_lt;
use crate::lease::{key_seq, Lease, LeaseView, MAX_LEASE_TTL_MILLIS};
use crate::MAX_LEASE_TTL;

verus! {

broadcast use vstd::std_specs::hash::group_hash_axioms;

/// Identifier that the consensus layer gives a proposal; it ties `execute` to `after_sync`.
pub type ProposeId = u64;

/// Asks for a lease `id` living `ttl` seconds.
#[derive(Debug, Clone, Copy, PartialEq, Eq, Structural)]
pub struct LeaseGrantRequest {
    pub id: i64,
    pub ttl: i64,
}

/// Asks for the lease `id` to be revoked.
#[derive(Debug, Clone, Copy, PartialEq, Eq, Structural)]
pub struct LeaseRevokeRequest {
    pub id: i64,
}

/// A lease request that goes through consensus.
#[derive(Debug, Clone, Copy, PartialEq, Eq, Structural)]
pub enum LeaseRequest {
    Grant(LeaseGrantRequest),
    Revoke(LeaseRevokeRequest),
}

/// The answer to an accepted grant.
#[derive(Debug, Clone, Copy, PartialEq, Eq, Structural)]
pub struct LeaseGrantResponse {
    pub id: i64,
    pub ttl: i64,
}

/// The answer to an accepted request.
#[derive(Debug, Clone, Copy, PartialEq, Eq, Structural)]
pub enum LeaseResponse {
    Grant(LeaseGrantResponse),
    Revoke,
}

/// A request staged by `execute`, waiting for its commit.
#[derive(Debug, Clone, Copy, PartialEq, Eq, Structural)]
pub struct RequestCtx {
    pub req: LeaseRequest,
    pub met_err: bool,
}

/// What validation says of a grant against the leases `m`.
pub open spec fn grant_check(m: Map<i64, LeaseView>, req: LeaseGrantRequest) -> Result<LeaseGrantResponse, LeaseError> {
    if req.id == 0 {
        Err(LeaseError::LeaseNotFound)
    } else if req.ttl > MAX_LEASE_TTL {
        Err(LeaseError::TtlTooLarge(req.ttl))
    } else if m.contains_key(req.id) {
        Err(LeaseError::LeaseExists(req.id))
    } else {
        Ok(LeaseGrantResponse { id: req.id, ttl: req.ttl })
    }
}

/// What validation says of a revoke against the leases `m`.
pub open spec fn revoke_check(m: Map<i64, LeaseView>, req: LeaseRevokeRequest) -> Result<(), LeaseError> {
    if m.contains_key(req.id) {
        Ok(())
    } else {
        Err(LeaseError::LeaseNotFound)
    }
}

/// What `execute` answers for `req` against the leases `m`.
pub open spec fn execute_result(m: Map<i64, LeaseView>, req: LeaseRequest) -> Result<LeaseResponse, LeaseError> {
    match req {
        LeaseRequest::Grant(g) => match grant_check(m, g) {
            Ok(resp) => Ok(LeaseResponse::Grant(resp)),
            Err(e) => Err(e),
        },
        LeaseRequest::Revoke(v) => match revoke_check(m, v) {
            Ok(_) => Ok(LeaseResponse::Revoke),
            Err(e) => Err(e),
        },
    }
}

/// The keys that committing a revoke of `id` deletes, in the order they are deleted.
pub open spec fn revoke_deletes(m: Map<i64, LeaseView>, id: i64) -> Seq<Seq<u8>> {
    if m.contains_key(id) {
        sorted_of(m[id].keys)
    } else {
        Seq::empty()
    }
}

/// The lease store of one node: leases, staged requests and the node's role.
pub struct LeaseStore {
    collection: LeaseCollection,
    sp_exec_pool: HashMap<ProposeId, RequestCtx>,
    leader: bool,
}

impl LeaseStore {
    pub open spec fn lease_map(&self) -> Map<i64, LeaseView> {
        self.collection().lease_map()
    }

    pub open spec fn item_map(&self) -> Map<Seq<u8>, i64> {
        self.collection().item_map()
    }

    pub open spec fn queue_map(&self) -> Map<i64, u64> {
        self.collection().queue_map()
    }

    /// Requests staged by `execute`, by proposal id.
    pub closed spec fn pool(&self) -> Map<ProposeId, RequestCtx> {
        self.sp_exec_pool@
    }

    pub closed spec fn leader(&self) -> bool {
        self.leader
    }

    pub closed spec fn collection(&self) -> LeaseCollection {
        self.collection
    }

    /// The collection is well formed, and a follower never expires a lease.
    pub closed spec fn wf(&self) -> bool {
        &&& self.collection.wf()
        &&& !self.leader ==> self.collection.follower_consistent()
    }

    /// Every lease with an expiry is queued under it.
    pub open spec fn leader_consistent(&self) -> bool {
        self.collection().leader_consistent()
    }

    /// The queue is empty and no lease has an expiry.
    pub open spec fn follower_consistent(&self) -> bool {
        self.collection().follower_consistent()
    }

    /// Every indexed key belongs to the lease the index names.
    pub open spec fn index_consistent(&self) -> bool {
        self.collection().index_consistent()
    }

    /// A store with no leases, in the follower role.
    pub fn new() -> (r: LeaseStore)
        ensures
            r.wf(),
            !r.leader(),
            r.lease_map() == Map::<i64, LeaseView>::empty(),
            r.item_map() == Map::<Seq<u8>, i64>::empty(),
            r.queue_map() == Map::<i64, u64>::empty(),
            r.pool() == Map::<ProposeId, RequestCtx>::empty(),
            r.follower_consistent(),
    {
        let r = LeaseStore { collection: LeaseCollection::new(), sp_exec_pool: HashMap::new(), leader: false };
        assert(r.collection().follower_consistent());
        r
    }

    pub fn is_leader(&self) -> (r: bool)
        ensures
            r == self.leader(),
    {
        self.leader
    }

    /// Whether a request is staged under `id`.
    pub fn is_staged(&self, id: ProposeId) -> (r: bool)
        ensures
            r == self.pool().contains_key(id),
    {
        self.sp_exec_pool.contains_key(&id)
    }

    fn handle_lease_grant_request(&self, req: &LeaseGrantRequest) -> (r: Result<LeaseGrantResponse, LeaseError>)
        requires
            self.wf(),
        ensures
            r == grant_check(self.lease_map(), *req),
    {
        if req.id == 0 {
            return Err(LeaseError::LeaseNotFound);
        }
        if req.ttl > MAX_LEASE_TTL {
            return Err(LeaseError::TtlTooLarge(req.ttl));
        }
        if self.collection.contains_lease(req.id) {
            return Err(LeaseError::LeaseExists(req.id));
        }
        Ok(LeaseGrantResponse { id: req.id, ttl: req.ttl })
    }

    fn handle_lease_revoke_request(&self, req: &LeaseRevokeRequest) -> (r: Result<(), LeaseError>)
        requires
            self.wf(),
        ensures
            r == revoke_check(self.lease_map(), *req),
    {
        if self.collection.contains_lease(req.id) {
            Ok(())
        } else {
            Err(LeaseError::LeaseNotFound)
        }
    }

    /// Validates `req` against the current leases without changing them, and stages it
    /// under `id` for `after_sync`, marked when it was refused.
    pub fn execute(&mut self, id: ProposeId, req: LeaseRequest) -> (r: Result<LeaseResponse, LeaseError>)
        requires
            old(self).wf(),
        ensures
            final(self).wf(),
            r == execute_result(old(self).lease_map(), req),
            final(self).pool() == old(self).pool().insert(id, RequestCtx { req, met_err: r is Err }),
            final(self).collection() == old(self).collection(),
            final(self).leader() == old(self).leader(),
    {
        let res = match req {
            LeaseRequest::Grant(g) => match self.handle_lease_grant_request(&g) {
                Ok(resp) => Ok(LeaseResponse::Grant(resp)),
                Err(e) => Err(e),
            },
            LeaseRequest::Revoke(v) => match self.handle_lease_revoke_request(&v) {
                Ok(_) => Ok(LeaseResponse::Revoke),
                Err(e) => Err(e),
            },
        };
        let met_err = res.is_err();
        let _prev = self.sp_exec_pool.insert(id, RequestCtx { req, met_err });
        res
    }

    fn sync_lease_grant_request(&mut self, req: &LeaseGrantRequest, now: u64)
        requires
            old(self).wf(),
            now + MAX_LEASE_TTL_MILLIS <= u64::MAX,
        ensures
            final(self).wf(),
            final(self).pool() == old(self).pool(),
            final(self).leader() == old(self).leader(),
            final(self).item_map() == old(self).item_map(),
            grant_check(old(self).lease_map(), *req) is Err ==> final(self).collection() == old(self).collection(),
            grant_check(old(self).lease_map(), *req) is Ok ==> {
                let g = granted(req.id, req.ttl, old(self).leader(), now);
                &&& final(self).lease_map() == old(self).lease_map().insert(req.id, g)
                &&& final(self).queue_map() == if old(self).leader() {
                    old(self).queue_map().insert(req.id, g.expiry->0)
                } else {
                    old(self).queue_map()
                }
            },
            old(self).index_consistent() ==> final(self).index_consistent(),
            old(self).leader() && old(self).leader_consistent() ==> final(self).leader_consistent(),
    {
        if req.id == 0 || req.ttl > MAX_LEASE_TTL || self.collection.contains_lease(req.id) {
            return;
        }
        let leader = self.leader;
        self.collection.grant(req.id, req.ttl, leader, now);
    }

    fn sync_lease_revoke_request(&mut self, req: &LeaseRevokeRequest) -> (r: Vec<Vec<u8>>)
        requires
            old(self).wf(),
        ensures
            final(self).wf(),
            final(self).pool() == old(self).pool(),
            final(self).leader() == old(self).leader(),
            final(self).item_map() == old(self).item_map(),
            final(self).queue_map() == old(self).queue_map(),
            final(self).lease_map() == old(self).lease_map().remove(req.id),
            key_seq(r@) == revoke_deletes(old(self).lease_map(), req.id),
            strictly_sorted(key_seq(r@)),
            old(self).lease_map().contains_key(req.id) ==> key_seq(r@).to_set() == old(self).lease_map()[req.id].keys,
            old(self).leader_consistent() ==> final(self).leader_consistent(),
    {
        match self.collection.revoke(req.id) {
            Some(lease) => lease.keys(),
            None => {
                let r: Vec<Vec<u8>> = Vec::new();
                assert(key_seq(r@) =~= Seq::<Seq<u8>>::empty());
                r
            },
        }
    }

    /// Applies the request staged under `id` once consensus committed it, and returns
    /// the keys to delete, ascending; none when nothing is to be deleted.
    pub fn after_sync(&mut self, id: ProposeId, now: u64) -> (r: Vec<Vec<u8>>)
        requires
            old(self).wf(),
            old(self).pool().contains_key(id),
            now + MAX_LEASE_TTL_MILLIS <= u64::MAX,
        ensures
            final(self).wf(),
            final(self).pool() == old(self).pool().remove(id),
            final(self).leader() == old(self).leader(),
            final(self).item_map() == old(self).item_map(),
            strictly_sorted(key_seq(r@)),
            ({
                let ctx = old(self).pool()[id];
                let m = old(self).lease_map();
                if ctx.met_err {
                    final(self).collection() == old(self).collection() && r@.len() == 0
                } else {
                    match ctx.req {
                        LeaseRequest::Grant(g) => {
                            &&& r@.len() == 0
                            &&& grant_check(m, g) is Err ==> final(self).collection() == old(self).collection()
                            &&& grant_check(m, g) is Ok ==> {
                                let l = granted(g.id, g.ttl, old(self).leader(), now);
                                &&& final(self).lease_map() == m.insert(g.id, l)
                                &&& final(self).queue_map() == if old(self).leader() {
                                    old(self).queue_map().insert(g.id, l.expiry->0)
                                } else {
                                    old(self).queue_map()
                                }
                            }
                        },
                        LeaseRequest::Revoke(v) => {
                            &&& final(self).lease_map() == m.remove(v.id)
                            &&& final(self).queue_map() == old(self).queue_map()
                            &&& key_seq(r@) == revoke_deletes(m, v.id)
                            &&& m.contains_key(v.id) ==> key_seq(r@).to_set() == m[v.id].keys
                            &&& !m.contains_key(v.id) ==> r@.len() == 0
                        },
                    }
                }
            }),
            old(self).leader() && old(self).leader_consistent() ==> final(self).leader_consistent(),
            old(self).index_consistent() && (old(self).pool()[id].met_err || old(self).pool()[id].req is Grant)
                ==> final(self).index_consistent(),
    {
        let ctx = match self.sp_exec_pool.remove(&id) {
            Some(c) => c,
            None => {
                proof { assert(false); }
                RequestCtx { req: LeaseRequest::Revoke(LeaseRevokeRequest { id: 0 }), met_err: true }
            },
        };
        let empty: Vec<Vec<u8>> = Vec::new();
        assert(key_seq(empty@) =~= Seq::<Seq<u8>>::empty());
        if ctx.met_err {
            return empty;
        }
        match ctx.req {
            LeaseRequest::Grant(g) => {
                self.sync_lease_grant_request(&g, now);
                empty
            },
            LeaseRequest::Revoke(v) => self.sync_lease_revoke_request(&v),
        }
    }

    /// Binds `key` to the lease `lease_id`.
    pub fn attach(&mut self, lease_id: i64, key: Vec<u8>) -> (r: Result<(), LeaseError>)
        requires
            old(self).wf(),
        ensures
            final(self).wf(),
            final(self).pool() == old(self).pool(),
            final(self).leader() == old(self).leader(),
            final(self).queue_map() == old(self).queue_map(),
            r is Err <==> !old(self).lease_map().contains_key(lease_id),
            r matches Err(e) ==> e == LeaseError::LeaseNotFound,
            r is Err ==> final(self).lease_map() == old(self).lease_map() && final(self).item_map()
                == old(self).item_map(),
            r is Ok ==> final(self).lease_map() == old(self).lease_map().insert(
                lease_id,
                LeaseView {
                    keys: old(self).lease_map()[lease_id].keys.insert(key@),
                    ..old(self).lease_map()[lease_id]
                },
            ) && final(self).item_map() == old(self).item_map().insert(key@, lease_id),
            old(self).index_consistent() ==> final(self).index_consistent(),
            old(self).leader_consistent() ==> final(self).leader_consistent(),
    {
        self.collection.attach(lease_id, key)
    }

    /// Unbinds `key` from the lease `lease_id` and from the index.
    pub fn detach(&mut self, lease_id: i64, key: &[u8]) -> (r: Result<(), LeaseError>)
        requires
            old(self).wf(),
        ensures
            final(self).wf(),
            final(self).pool() == old(self).pool(),
            final(self).leader() == old(self).leader(),
            final(self).queue_map() == old(self).queue_map(),
            r is Err <==> !old(self).lease_map().contains_key(lease_id),
            r matches Err(e) ==> e == LeaseError::LeaseNotFound,
            r is Err ==> final(self).lease_map() == old(self).lease_map() && final(self).item_map()
                == old(self).item_map(),
            r is Ok ==> final(self).lease_map() == old(self).lease_map().insert(
                lease_id,
                LeaseView {
                    keys: old(self).lease_map()[lease_id].keys.remove(key@),
                    ..old(self).lease_map()[lease_id]
                },
            ) && final(self).item_map() == old(self).item_map().remove(key@),
            old(self).index_consistent() ==> final(self).index_consistent(),
            old(self).leader_consistent() ==> final(self).leader_consistent(),
    {
        self.collection.detach(lease_id, key)
    }

    /// The id of the lease `key` is bound to, or zero.
    pub fn get_lease(&self, key: &[u8]) -> (r: i64)
        requires
            self.wf(),
        ensures
            r == if self.item_map().contains_key(key@) { self.item_map()[key@] } else { 0 },
    {
        self.collection.get_lease(key)
    }

    /// A copy of the lease `lease_id`.
    pub fn look_up(&self, lease_id: i64) -> (r: Option<Lease>)
        requires
            self.wf(),
        ensures
            r is Some <==> self.lease_map().contains_key(lease_id),
            r matches Some(l) ==> l.wf() && l@ == self.lease_map()[lease_id],
    {
        self.collection.look_up(lease_id)
    }

    /// The keys of the lease `lease_id`, ascending; none when there is no such lease.
    pub fn get_keys(&self, lease_id: i64) -> (r: Vec<Vec<u8>>)
        requires
            self.wf(),
        ensures
            key_seq(r@) == revoke_deletes(self.lease_map(), lease_id),
            strictly_sorted(key_seq(r@)),
            self.lease_map().contains_key(lease_id) ==> key_seq(r@).to_set() == self.lease_map()[lease_id].keys,
            !self.lease_map().contains_key(lease_id) ==> r@.len() == 0,
    {
        self.collection.get_keys(lease_id)
    }

    /// Renews the lease `lease_id` from `now`; only a leader may. Returns its time-to-live.
    pub fn keep_alive(&mut self, lease_id: i64, now: u64) -> (r: Result<i64, LeaseError>)
        requires
            old(self).wf(),
            now + MAX_LEASE_TTL_MILLIS <= u64::MAX,
        ensures
            final(self).wf(),
            final(self).pool() == old(self).pool(),
            final(self).leader() == old(self).leader(),
            final(self).item_map() == old(self).item_map(),
            !old(self).leader() ==> r == Err::<i64, LeaseError>(LeaseError::NotLeader),
            old(self).leader() && !old(self).lease_map().contains_key(lease_id) ==> r == Err::<i64, LeaseError>(
                LeaseError::LeaseNotFound,
            ),
            old(self).leader() && old(self).lease_map().contains_key(lease_id) && old(self).lease_map()[lease_id].expired_at(now)
                ==> r == Err::<i64, LeaseError>(LeaseError::LeaseExpired),
            r is Err ==> final(self).lease_map() == old(self).lease_map() && final(self).queue_map()
                == old(self).queue_map(),
            old(self).leader() && old(self).lease_map().contains_key(lease_id)
                && !old(self).lease_map()[lease_id].expired_at(now) ==> ({
                let l = old(self).lease_map()[lease_id];
                let e = l.refreshed_expiry(now, 0) as u64;
                &&& r == Ok::<i64, LeaseError>(l.ttl as i64)
                &&& final(self).lease_map() == old(self).lease_map().insert(lease_id, LeaseView { expiry: Some(e), ..l })
                &&& final(self).queue_map() == old(self).queue_map().insert(lease_id, e)
            }),
            old(self).index_consistent() ==> final(self).index_consistent(),
            old(self).leader_consistent() ==> final(self).leader_consistent(),
    {
        if !self.leader {
            return Err(LeaseError::NotLeader);
        }
        self.collection.renew(lease_id, now)
    }

    /// Takes the expired entries out of the queue and returns the ids that still hold
    /// a lease, earliest first.
    pub fn find_expired_leases(&mut self, now: u64) -> (r: Vec<i64>)
        requires
            old(self).wf(),
        ensures
            final(self).wf(),
            final(self).pool() == old(self).pool(),
            final(self).leader() == old(self).leader(),
            final(self).lease_map() == old(self).lease_map(),
            final(self).item_map() == old(self).item_map(),
            final(self).queue_map() == old(self).queue_map().restrict(
                old(self).queue_map().dom().filter(|id: i64| old(self).queue_map()[id] > now),
            ),
            forall|id: i64|
                r@.contains(id) <==> (old(self).queue_map().contains_key(id) && old(self).queue_map()[id] <= now
                    && old(self).lease_map().contains_key(id)),
            forall|i: int, j: int|
                0 <= i < j < r@.len() ==> entry_lt(
                    old(self).queue_map()[#[trigger] r@[i]],
                    r@[i],
                    old(self).queue_map()[#[trigger] r@[j]],
                    r@[j],
                ),
            !old(self).leader() ==> r@.len() == 0,
            old(self).leader_consistent() ==> forall|id: i64|
                #[trigger] old(self).lease_map().contains_key(id) && old(self).lease_map()[id].expiry is Some
                    && !r@.contains(id) ==> final(self).queue_map().contains_key(id) && Some(
                    final(self).queue_map()[id],
                ) == old(self).lease_map()[id].expiry,
    {
        self.collection.find_expired_leases(now)
    }

    /// A copy of every lease, by remaining time at `now`, shortest first.
    pub fn leases(&self, now: u64) -> (r: Vec<Lease>)
        requires
            self.wf(),
        ensures
            forall|j: int|
                0 <= j < r@.len() ==> (#[trigger] r@[j]).wf() && self.lease_map().contains_key(r@[j]@.id)
                    && self.lease_map()[r@[j]@.id] == r@[j]@,
            forall|id: i64|
                #[trigger] self.lease_map().contains_key(id) ==> exists|j: int| 0 <= j < r@.len() && (#[trigger] r@[j])@.id == id,
            forall|a: int, b: int| 0 <= a < b < r@.len() ==> (#[trigger] r@[a])@.id != (#[trigger] r@[b])@.id,
            forall|a: int, b: int|
                0 <= a < b < r@.len() ==> (#[trigger] r@[a])@.remaining_at(now) <= (#[trigger] r@[b])@.remaining_at(now),
    {
        self.collection.leases(now)
    }

    /// Steps down: every lease lives forever and the queue empties.
    pub fn demote(&mut self)
        requires
            old(self).wf(),
        ensures
            final(self).wf(),
            !final(self).leader(),
            final(self).pool() == old(self).pool(),
            final(self).item_map() == old(self).item_map(),
            final(self).lease_map() == old(self).lease_map().map_values(
                |l: LeaseView| LeaseView { expiry: None, ..l },
            ),
            final(self).follower_consistent(),
            old(self).index_consistent() ==> final(self).index_consistent(),
    {
        self.collection.demote();
        self.leader = false;
    }

    /// Takes the lead: every lease is refreshed from `now` with grace `extend` and queued.
    pub fn promote(&mut self, extend: u64, now: u64)
        requires
            old(self).wf(),
            now + MAX_LEASE_TTL_MILLIS + extend <= u64::MAX,
        ensures
            final(self).wf(),
            final(self).leader(),
            final(self).pool() == old(self).pool(),
            final(self).item_map() == old(self).item_map(),
            final(self).lease_map() == old(self).lease_map().map_values(
                |l: LeaseView| LeaseView { expiry: Some(l.refreshed_expiry(now, extend) as u64), ..l },
            ),
            final(self).queue_map() == old(self).queue_map().union_prefer_right(
                old(self).lease_map().map_values(|l: LeaseView| l.refreshed_expiry(now, extend) as u64),
            ),
            final(self).leader_consistent(),
            old(self).index_consistent() ==> final(self).index_consistent(),
    {
        self.collection.promote(extend, now);
        self.leader = true;
    }
}

/// On a follower the queue is empty and no lease has an expiry.
pub proof fn lemma_follower_never_expires(s: LeaseStore)
    requires
        s.wf(),
        !s.leader(),
    ensures
        s.queue_map().is_empty(),
        forall|id: i64| #[trigger] s.lease_map().contains_key(id) ==> s.lease_map()[id].expiry is None,
{
}

/// Once demoted, a store holds no expired lease, whatever the time.
pub proof fn lemma_demoted_finds_nothing(s: LeaseStore, now: u64)
    requires
        s.wf(),
        !s.leader(),
    ensures
        forall|id: i64|
            !(#[trigger] s.queue_map().contains_key(id) && s.queue_map()[id] <= now && s.lease_map().contains_key(id)),
{
}

/// Committing the same revoke twice deletes keys at most once: after the first, the
/// lease is gone and the second deletes nothing.
pub proof fn lemma_revoke_idempotent(m: Map<i64, LeaseView>, id: i64)
    ensures
        revoke_deletes(m.remove(id), id).len() == 0,
{
}

/// Replicas that hold the same keys on a lease delete them in the same order, however
/// each came to hold them.
pub proof fn lemma_deletes_deterministic(d1: Seq<Seq<u8>>, d2: Seq<Seq<u8>>, keys: Set<Seq<u8>>)
    requires
        strictly_sorted(d1),
        strictly_sorted(d2),
        d1.to_set() == keys,
        d2.to_set() == keys,
    ensures
        d1 == d2,
{
    lemma_sorted_unique(d1, d2);
}

/// A keep-alive later in time sets a later expiry, and leaves the full time-to-live.
pub proof fn lemma_keep_alive_monotonic(l: LeaseView, now1: u64, now2: u64)
    requires
        now1 <= now2,
    ensures
        l.refreshed_expiry(now1, 0) <= l.refreshed_expiry(now2, 0),
        l.refreshed_expiry(now2, 0) - now2 == l.ttl * 1000,
{
}

} // verus!
