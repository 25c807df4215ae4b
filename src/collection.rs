use vstd::prelude::*;

use crate::bytes::{compare_bytes, sorted_of, strictly_sorted};
use crate::error::LeaseError;
use crate::lease::{clamped_ttl, key_seq, Lease, LeaseView, MAX_LEASE_TTL_MILLIS, MILLIS_PER_SEC};
use crate::queue::{entry_lt, is_first, ExpiryQueue};

verus! {

/// The leases, the index from key to lease id, and the expiry queue.
pub struct LeaseCollection {
    leases: Vec<Lease>,
    lease_ghost: Ghost<Map<i64, LeaseView>>,
    items: Vec<(Vec<u8>, i64)>,
    item_ghost: Ghost<Map<Seq<u8>, i64>>,
    queue: ExpiryQueue,
}

spec fn holds_index(perm: Seq<int>, t: int) -> bool {
    exists|j: int| 0 <= j < perm.len() && perm[j] == t
}

/// The lease a grant creates.
pub open spec fn granted(id: i64, ttl: i64, is_leader: bool, now: u64) -> LeaseView {
    LeaseView {
        id,
        ttl: clamped_ttl(ttl as int),
        expiry: if is_leader {
            Some((now + clamped_ttl(ttl as int) * MILLIS_PER_SEC) as u64)
        } else {
            None
        },
        keys: Set::empty(),
    }
}

impl LeaseCollection {
    /// Lease id to lease.
    pub closed spec fn lease_map(&self) -> Map<i64, LeaseView> {
        self.lease_ghost@
    }

    /// Key to the id of the lease it was last attached to.
    pub closed spec fn item_map(&self) -> Map<Seq<u8>, i64> {
        self.item_ghost@
    }

    /// Lease id to the expiry instant it is queued under.
    pub closed spec fn queue_map(&self) -> Map<i64, u64> {
        self.queue@
    }

    pub closed spec fn wf(&self) -> bool {
        let l = self.leases@;
        let it = self.items@;
        &&& forall|i: int|
            0 <= i < l.len() ==> (#[trigger] l[i]).wf() && self.lease_ghost@.contains_key(l[i]@.id)
                && self.lease_ghost@[l[i]@.id] == l[i]@
        &&& forall|id: i64|
            #[trigger] self.lease_ghost@.contains_key(id) ==> exists|i: int|
                0 <= i < l.len() && (#[trigger] l[i])@.id == id
        &&& forall|i: int, j: int| 0 <= i < j < l.len() ==> (#[trigger] l[i])@.id != (#[trigger] l[j])@.id
        &&& forall|i: int|
            0 <= i < it.len() ==> #[trigger] self.item_ghost@.contains_key(it[i].0@)
                && self.item_ghost@[it[i].0@] == it[i].1
        &&& forall|k: Seq<u8>|
            #[trigger] self.item_ghost@.contains_key(k) ==> exists|i: int|
                0 <= i < it.len() && (#[trigger] it[i]).0@ == k
        &&& forall|i: int, j: int|
            0 <= i < j < it.len() ==> (#[trigger] it[i]).0@ != (#[trigger] it[j]).0@
        &&& self.queue.wf()
    }

    /// Every lease that has an expiry is queued under it.
    pub open spec fn leader_consistent(&self) -> bool {
        forall|id: i64|
            #[trigger] self.lease_map().contains_key(id) && self.lease_map()[id].expiry is Some
                ==> self.queue_map().contains_key(id) && Some(self.queue_map()[id])
                == self.lease_map()[id].expiry
    }

    /// The queue is empty and no lease has an expiry.
    pub open spec fn follower_consistent(&self) -> bool {
        &&& self.queue_map().is_empty()
        &&& forall|id: i64| #[trigger] self.lease_map().contains_key(id) ==> self.lease_map()[id].expiry is None
    }

    /// Every indexed key belongs to the lease that the index names.
    pub open spec fn index_consistent(&self) -> bool {
        forall|k: Seq<u8>|
            #[trigger] self.item_map().contains_key(k) ==> self.lease_map().contains_key(self.item_map()[k])
                && self.lease_map()[self.item_map()[k]].keys.contains(k)
    }

    pub fn new() -> (r: LeaseCollection)
        ensures
            r.wf(),
            r.lease_map() == Map::<i64, LeaseView>::empty(),
            r.item_map() == Map::<Seq<u8>, i64>::empty(),
            r.queue_map() == Map::<i64, u64>::empty(),
    {
        LeaseCollection {
            leases: Vec::new(),
            lease_ghost: Ghost(Map::empty()),
            items: Vec::new(),
            item_ghost: Ghost(Map::empty()),
            queue: ExpiryQueue::new(),
        }
    }

    fn position(&self, id: i64) -> (r: Option<usize>)
        requires
            self.wf(),
        ensures
            match r {
                Some(i) => i < self.leases@.len() && self.leases@[i as int]@.id == id
                    && self.lease_map().contains_key(id),
                None => !self.lease_map().contains_key(id),
            },
    {
        let mut i: usize = 0;
        while i < self.leases.len()
            invariant
                i <= self.leases.len(),
                self.wf(),
                forall|j: int| 0 <= j < i ==> (#[trigger] self.leases@[j])@.id != id,
            decreases self.leases.len() - i,
        {
            if self.leases[i].id() == id {
                assert(self.leases@[i as int].wf());
                return Some(i);
            }
            i = i + 1;
        }
        None
    }

    fn item_position(&self, key: &[u8]) -> (r: Option<usize>)
        requires
            self.wf(),
        ensures
            match r {
                Some(i) => i < self.items@.len() && self.items@[i as int].0@ == key@
                    && self.item_map().contains_key(key@),
                None => !self.item_map().contains_key(key@),
            },
    {
        let mut i: usize = 0;
        while i < self.items.len()
            invariant
                i <= self.items.len(),
                self.wf(),
                forall|j: int| 0 <= j < i ==> (#[trigger] self.items@[j]).0@ != key@,
            decreases self.items.len() - i,
        {
            if compare_bytes(self.items[i].0.as_slice(), key) == 0 {
                assert(self.item_map().contains_key(self.items@[i as int].0@));
                return Some(i);
            }
            i = i + 1;
        }
        None
    }

    /// Whether a lease with this id exists.
    pub fn contains_lease(&self, lease_id: i64) -> (r: bool)
        requires
            self.wf(),
        ensures
            r == self.lease_map().contains_key(lease_id),
    {
        self.position(lease_id).is_some()
    }

    /// The id of the lease a key is indexed under, or zero.
    pub fn get_lease(&self, key: &[u8]) -> (r: i64)
        requires
            self.wf(),
        ensures
            r == if self.item_map().contains_key(key@) { self.item_map()[key@] } else { 0 },
    {
        match self.item_position(key) {
            Some(i) => {
                assert(self.item_map().contains_key(self.items@[i as int].0@));
                self.items[i].1
            },
            None => 0,
        }
    }

    /// A copy of the lease with this id.
    pub fn look_up(&self, lease_id: i64) -> (r: Option<Lease>)
        requires
            self.wf(),
        ensures
            r is Some <==> self.lease_map().contains_key(lease_id),
            r matches Some(l) ==> l.wf() && l@ == self.lease_map()[lease_id],
    {
        match self.position(lease_id) {
            Some(i) => {
                assert(self.leases@[i as int].wf());
                Some(self.leases[i].snapshot())
            },
            None => None,
        }
    }

    /// The keys attached to a lease, ascending; none when there is no such lease.
    pub fn get_keys(&self, lease_id: i64) -> (r: Vec<Vec<u8>>)
        requires
            self.wf(),
        ensures
            key_seq(r@) == if self.lease_map().contains_key(lease_id) {
                sorted_of(self.lease_map()[lease_id].keys)
            } else {
                Seq::<Seq<u8>>::empty()
            },
            strictly_sorted(key_seq(r@)),
            self.lease_map().contains_key(lease_id) ==> key_seq(r@).to_set() == self.lease_map()[lease_id].keys,
    {
        match self.position(lease_id) {
            Some(i) => {
                assert(self.leases@[i as int].wf());
                self.leases[i].keys()
            },
            None => {
                let r: Vec<Vec<u8>> = Vec::new();
                assert(key_seq(r@) =~= Seq::<Seq<u8>>::empty());
                r
            },
        }
    }

    proof fn lemma_queue_changed(&self, prev: LeaseCollection)
        requires
            prev.wf(),
            self.leases == prev.leases,
            self.lease_ghost == prev.lease_ghost,
            self.items == prev.items,
            self.item_ghost == prev.item_ghost,
            self.queue.wf(),
        ensures
            self.wf(),
    {
    }

    proof fn lemma_leases_changed(&self, prev: LeaseCollection)
        requires
            prev.wf(),
            self.items == prev.items,
            self.item_ghost == prev.item_ghost,
            self.queue.wf(),
            forall|i: int|
                0 <= i < self.leases@.len() ==> (#[trigger] self.leases@[i]).wf() && self.lease_ghost@.contains_key(
                    self.leases@[i]@.id,
                ) && self.lease_ghost@[self.leases@[i]@.id] == self.leases@[i]@,
            forall|id: i64|
                #[trigger] self.lease_ghost@.contains_key(id) ==> exists|i: int|
                    0 <= i < self.leases@.len() && (#[trigger] self.leases@[i])@.id == id,
            forall|i: int, j: int|
                0 <= i < j < self.leases@.len() ==> (#[trigger] self.leases@[i])@.id != (
                #[trigger] self.leases@[j])@.id,
        ensures
            self.wf(),
    {
    }

    /// Re-establishes the invariant after the lease at `i` was replaced by one with the same id.
    proof fn lemma_replaced(&self, prev: LeaseCollection, i: int)
        requires
            prev.wf(),
            0 <= i < prev.leases@.len(),
            self.leases@ == prev.leases@.update(i, self.leases@[i]),
            self.leases@[i].wf(),
            self.leases@[i]@.id == prev.leases@[i]@.id,
            self.lease_ghost@ == prev.lease_ghost@.insert(self.leases@[i]@.id, self.leases@[i]@),
            self.items == prev.items,
            self.item_ghost == prev.item_ghost,
            self.queue == prev.queue,
        ensures
            self.wf(),
    {
        let l = self.leases@;
        assert forall|j: int| 0 <= j < l.len() implies (#[trigger] l[j]).wf()
            && self.lease_ghost@.contains_key(l[j]@.id) && self.lease_ghost@[l[j]@.id] == l[j]@ by {
            if j != i {
                assert(l[j] == prev.leases@[j]);
                assert(prev.leases@[j]@.id != prev.leases@[i]@.id);
            }
        }
        assert forall|id: i64| #[trigger] self.lease_ghost@.contains_key(id) implies exists|j: int|
            0 <= j < l.len() && (#[trigger] l[j])@.id == id by {
            if id != l[i]@.id {
                let j = choose|j: int| 0 <= j < prev.leases@.len() && (#[trigger] prev.leases@[j])@.id == id;
                assert(l[j] == prev.leases@[j]);
            }
        }
        assert forall|a: int, b: int| 0 <= a < b < l.len() implies (#[trigger] l[a])@.id != (#[trigger] l[b])@.id by {
            assert(prev.leases@[a]@.id != prev.leases@[b]@.id);
            if a != i {
                assert(l[a] == prev.leases@[a]);
            }
            if b != i {
                assert(l[b] == prev.leases@[b]);
            }
        }
    }

    /// Binds `key` to the lease `lease_id`.
    pub fn attach(&mut self, lease_id: i64, key: Vec<u8>) -> (r: Result<(), LeaseError>)
        requires
            old(self).wf(),
        ensures
            final(self).wf(),
            final(self).queue_map() == old(self).queue_map(),
            r is Err <==> !old(self).lease_map().contains_key(lease_id),
            r matches Err(e) ==> e == LeaseError::LeaseNotFound,
            r is Err ==> final(self).lease_map() == old(self).lease_map() && final(self).item_map()
                == old(self).item_map(),
            r is Ok ==> final(self).lease_map() == old(self).lease_map().insert(
                lease_id,
                LeaseView {
                    keys: old(self).lease_map()[lease_id].keys.insert(key@),
                    ..old(self).lease_map()[lease_id]
                },
            ) && final(self).item_map() == old(self).item_map().insert(key@, lease_id),
            old(self).index_consistent() ==> final(self).index_consistent(),
            old(self).leader_consistent() ==> final(self).leader_consistent(),
            old(self).follower_consistent() ==> final(self).follower_consistent(),
    {
        match self.position(lease_id) {
            None => Err(LeaseError::LeaseNotFound),
            Some(i) => {
                let ghost prev = *self;
                let ghost kv = key@;
                let kc = key.clone();
                assert(kc@ =~= key@);
                proof { assert(self.leases@[i as int].wf()); }
                self.leases[i].insert_key(kc);
                self.lease_ghost = Ghost(self.lease_ghost@.insert(lease_id, self.leases@[i as int]@));
                proof { self.lemma_replaced(prev, i as int); }
                self.set_item(key, lease_id);
                proof {
                    let f = *self;
                    assert forall|k: Seq<u8>| #[trigger] f.item_map().contains_key(k) && prev.index_consistent()
                        implies f.lease_map().contains_key(f.item_map()[k])
                        && f.lease_map()[f.item_map()[k]].keys.contains(k) by {
                        if k != kv {
                            assert(prev.item_map().contains_key(k));
                        }
                    }
                }
                Ok(())
            },
        }
    }

    fn set_item(&mut self, key: Vec<u8>, lease_id: i64)
        requires
            old(self).wf(),
        ensures
            final(self).wf(),
            final(self).item_map() == old(self).item_map().insert(key@, lease_id),
            final(self).lease_map() == old(self).lease_map(),
            final(self).queue_map() == old(self).queue_map(),
    {
        let ghost prev = *self;
        match self.item_position(key.as_slice()) {
            Some(i) => {
                let ghost kv = key@;
                self.items.set(i, (key, lease_id));
                self.item_ghost = Ghost(self.item_ghost@.insert(kv, lease_id));
                proof {
                    let it = self.items@;
                    assert forall|a: int| 0 <= a < it.len() implies #[trigger] self.item_ghost@.contains_key(it[a].0@)
                        && self.item_ghost@[it[a].0@] == it[a].1 by {
                        if a != i {
                            assert(it[a] == prev.items@[a]);
                            assert(prev.item_ghost@.contains_key(prev.items@[a].0@));
                        }
                    }
                    assert forall|k: Seq<u8>| #[trigger] self.item_ghost@.contains_key(k) implies exists|a: int|
                        0 <= a < it.len() && (#[trigger] it[a]).0@ == k by {
                        if k != kv {
                            let a = choose|a: int| 0 <= a < prev.items@.len() && (#[trigger] prev.items@[a]).0@ == k;
                            assert(it[a] == prev.items@[a]);
                        } else {
                            assert(it[i as int].0@ == k);
                        }
                    }
                    assert forall|a: int, b: int| 0 <= a < b < it.len() implies (#[trigger] it[a]).0@ != (#[trigger] it[b]).0@ by {
                        assert(prev.items@[a].0@ != prev.items@[b].0@);
                        if a != i {
                            assert(it[a] == prev.items@[a]);
                        }
                        if b != i {
                            assert(it[b] == prev.items@[b]);
                        }
                    }
                }
            },
            None => {
                let ghost kv = key@;
                self.items.push((key, lease_id));
                self.item_ghost = Ghost(self.item_ghost@.insert(kv, lease_id));
                proof {
                    let it = self.items@;
                    let n = prev.items@.len() as int;
                    assert forall|a: int| 0 <= a < it.len() implies #[trigger] self.item_ghost@.contains_key(it[a].0@)
                        && self.item_ghost@[it[a].0@] == it[a].1 by {
                        if a != n {
                            assert(it[a] == prev.items@[a]);
                            assert(prev.item_ghost@.contains_key(prev.items@[a].0@));
                        }
                    }
                    assert forall|k: Seq<u8>| #[trigger] self.item_ghost@.contains_key(k) implies exists|a: int|
                        0 <= a < it.len() && (#[trigger] it[a]).0@ == k by {
                        if k != kv {
                            let a = choose|a: int| 0 <= a < prev.items@.len() && (#[trigger] prev.items@[a]).0@ == k;
                            assert(it[a] == prev.items@[a]);
                        } else {
                            assert(it[n].0@ == k);
                        }
                    }
                    assert forall|a: int, b: int| 0 <= a < b < it.len() implies (#[trigger] it[a]).0@ != (#[trigger] it[b]).0@ by {
                        if b == n {
                            assert(it[a] == prev.items@[a]);
                            assert(prev.item_ghost@.contains_key(prev.items@[a].0@));
                        } else {
                            assert(prev.items@[a].0@ != prev.items@[b].0@);
                            assert(it[a] == prev.items@[a]);
                            assert(it[b] == prev.items@[b]);
                        }
                    }
                }
            },
        }
    }

    fn remove_item(&mut self, key: &[u8])
        requires
            old(self).wf(),
        ensures
            final(self).wf(),
            final(self).item_map() == old(self).item_map().remove(key@),
            final(self).lease_map() == old(self).lease_map(),
            final(self).queue_map() == old(self).queue_map(),
    {
        let ghost prev = *self;
        match self.item_position(key) {
            Some(i) => {
                let _gone = self.items.remove(i);
                self.item_ghost = Ghost(self.item_ghost@.remove(key@));
                proof {
                    let it = self.items@;
                    let p = prev.items@;
                    assert(it =~= p.remove(i as int));
                    assert forall|a: int| 0 <= a < it.len() implies #[trigger] self.item_ghost@.contains_key(it[a].0@)
                        && self.item_ghost@[it[a].0@] == it[a].1 by {
                        let b = if a < i { a } else { a + 1 };
                        assert(it[a] == p[b]);
                        assert(p[b].0@ != p[i as int].0@);
                        assert(prev.item_ghost@.contains_key(p[b].0@));
                    }
                    assert forall|k: Seq<u8>| #[trigger] self.item_ghost@.contains_key(k) implies exists|a: int|
                        0 <= a < it.len() && (#[trigger] it[a]).0@ == k by {
                        let a = choose|a: int| 0 <= a < p.len() && (#[trigger] p[a]).0@ == k;
                        if a < i {
                            assert(it[a] == p[a]);
                        } else {
                            assert(a != i);
                            assert(it[a - 1] == p[a]);
                        }
                    }
                    assert forall|a: int, b: int| 0 <= a < b < it.len() implies (#[trigger] it[a]).0@ != (#[trigger] it[b]).0@ by {
                        let a2 = if a < i { a } else { a + 1 };
                        let b2 = if b < i { b } else { b + 1 };
                        assert(it[a] == p[a2] && it[b] == p[b2]);
                        assert(p[a2].0@ != p[b2].0@);
                    }
                }
            },
            None => {
                assert(self.item_ghost@.remove(key@) =~= self.item_ghost@);
            },
        }
    }

    /// Unbinds `key`, removing it from the lease `lease_id` and from the index.
    pub fn detach(&mut self, lease_id: i64, key: &[u8]) -> (r: Result<(), LeaseError>)
        requires
            old(self).wf(),
        ensures
            final(self).wf(),
            final(self).queue_map() == old(self).queue_map(),
            r is Err <==> !old(self).lease_map().contains_key(lease_id),
            r matches Err(e) ==> e == LeaseError::LeaseNotFound,
            r is Err ==> final(self).lease_map() == old(self).lease_map() && final(self).item_map()
                == old(self).item_map(),
            r is Ok ==> final(self).lease_map() == old(self).lease_map().insert(
                lease_id,
                LeaseView {
                    keys: old(self).lease_map()[lease_id].keys.remove(key@),
                    ..old(self).lease_map()[lease_id]
                },
            ) && final(self).item_map() == old(self).item_map().remove(key@),
            old(self).index_consistent() ==> final(self).index_consistent(),
            old(self).leader_consistent() ==> final(self).leader_consistent(),
            old(self).follower_consistent() ==> final(self).follower_consistent(),
    {
        match self.position(lease_id) {
            None => Err(LeaseError::LeaseNotFound),
            Some(i) => {
                let ghost prev = *self;
                proof { assert(self.leases@[i as int].wf()); }
                self.leases[i].remove_key(key);
                self.lease_ghost = Ghost(self.lease_ghost@.insert(lease_id, self.leases@[i as int]@));
                proof { self.lemma_replaced(prev, i as int); }
                self.remove_item(key);
                proof {
                    let f = *self;
                    assert forall|k: Seq<u8>| #[trigger] f.item_map().contains_key(k) && prev.index_consistent()
                        implies f.lease_map().contains_key(f.item_map()[k])
                        && f.lease_map()[f.item_map()[k]].keys.contains(k) by {
                        assert(prev.item_map().contains_key(k));
                    }
                }
                Ok(())
            },
        }
    }

    /// Removes the lease `lease_id` and hands it back. The key index is left as it is.
    pub fn revoke(&mut self, lease_id: i64) -> (r: Option<Lease>)
        requires
            old(self).wf(),
        ensures
            final(self).wf(),
            r is Some <==> old(self).lease_map().contains_key(lease_id),
            r matches Some(l) ==> l.wf() && l@ == old(self).lease_map()[lease_id],
            final(self).lease_map() == old(self).lease_map().remove(lease_id),
            final(self).item_map() == old(self).item_map(),
            final(self).queue_map() == old(self).queue_map(),
            old(self).leader_consistent() ==> final(self).leader_consistent(),
            old(self).follower_consistent() ==> final(self).follower_consistent(),
    {
        let ghost prev = *self;
        match self.position(lease_id) {
            None => {
                assert(self.lease_ghost@.remove(lease_id) =~= self.lease_ghost@);
                None
            },
            Some(i) => {
                proof { assert(self.leases@[i as int].wf()); }
                let l = self.leases.remove(i);
                self.lease_ghost = Ghost(self.lease_ghost@.remove(lease_id));
                proof {
                    let ls = self.leases@;
                    let p = prev.leases@;
                    assert(ls =~= p.remove(i as int));
                    assert forall|a: int| 0 <= a < ls.len() implies (#[trigger] ls[a]).wf()
                        && self.lease_ghost@.contains_key(ls[a]@.id) && self.lease_ghost@[ls[a]@.id] == ls[a]@ by {
                        let b = if a < i { a } else { a + 1 };
                        assert(ls[a] == p[b]);
                        assert(p[b]@.id != p[i as int]@.id);
                    }
                    assert forall|id: i64| #[trigger] self.lease_ghost@.contains_key(id) implies exists|a: int|
                        0 <= a < ls.len() && (#[trigger] ls[a])@.id == id by {
                        let a = choose|a: int| 0 <= a < p.len() && (#[trigger] p[a])@.id == id;
                        if a < i {
                            assert(ls[a] == p[a]);
                        } else {
                            assert(a != i);
                            assert(ls[a - 1] == p[a]);
                        }
                    }
                    assert forall|a: int, b: int| 0 <= a < b < ls.len() implies (#[trigger] ls[a])@.id != (#[trigger] ls[b])@.id by {
                        let a2 = if a < i { a } else { a + 1 };
                        let b2 = if b < i { b } else { b + 1 };
                        assert(ls[a] == p[a2] && ls[b] == p[b2]);
                        assert(p[a2]@.id != p[b2]@.id);
                    }
                    self.lemma_leases_changed(prev);
                }
                Some(l)
            },
        }
    }

    /// Creates the lease `lease_id` unless it exists. A leader gives it an expiry and
    /// queues it; a follower lets it live forever.
    pub fn grant(&mut self, lease_id: i64, ttl: i64, is_leader: bool, now: u64)
        requires
            old(self).wf(),
            now + MAX_LEASE_TTL_MILLIS <= u64::MAX,
        ensures
            final(self).wf(),
            final(self).item_map() == old(self).item_map(),
            old(self).lease_map().contains_key(lease_id) ==> final(self).lease_map() == old(self).lease_map()
                && final(self).queue_map() == old(self).queue_map(),
            !old(self).lease_map().contains_key(lease_id) ==> final(self).lease_map() == old(self).lease_map().insert(
                lease_id,
                granted(lease_id, ttl, is_leader, now),
            ) && final(self).queue_map() == if is_leader {
                old(self).queue_map().insert(lease_id, granted(lease_id, ttl, is_leader, now).expiry->0)
            } else {
                old(self).queue_map()
            },
            old(self).index_consistent() ==> final(self).index_consistent(),
            is_leader && old(self).leader_consistent() ==> final(self).leader_consistent(),
            !is_leader && old(self).follower_consistent() ==> final(self).follower_consistent(),
    {
        if self.contains_lease(lease_id) {
            return;
        }
        let ghost prev = *self;
        let mut lease = Lease::new(lease_id, ttl);
        if is_leader {
            let expiry = lease.refresh(0, now);
            self.queue.insert(lease_id, expiry);
        }
        let ghost lv = lease@;
        self.leases.push(lease);
        self.lease_ghost = Ghost(self.lease_ghost@.insert(lease_id, lv));
        proof {
            let ls = self.leases@;
            let p = prev.leases@;
            let n = p.len() as int;
            assert(lv == granted(lease_id, ttl, is_leader, now));
            assert forall|a: int| 0 <= a < ls.len() implies (#[trigger] ls[a]).wf()
                && self.lease_ghost@.contains_key(ls[a]@.id) && self.lease_ghost@[ls[a]@.id] == ls[a]@ by {
                if a < n {
                    assert(ls[a] == p[a]);
                    assert(prev.lease_ghost@.contains_key(p[a]@.id));
                }
            }
            assert forall|id: i64| #[trigger] self.lease_ghost@.contains_key(id) implies exists|a: int|
                0 <= a < ls.len() && (#[trigger] ls[a])@.id == id by {
                if id == lease_id {
                    assert(ls[n]@.id == id);
                } else {
                    let a = choose|a: int| 0 <= a < p.len() && (#[trigger] p[a])@.id == id;
                    assert(ls[a] == p[a]);
                }
            }
            assert forall|a: int, b: int| 0 <= a < b < ls.len() implies (#[trigger] ls[a])@.id != (#[trigger] ls[b])@.id by {
                assert(ls[a] == p[a]);
                assert(prev.lease_ghost@.contains_key(p[a]@.id));
                if b < n {
                    assert(ls[b] == p[b]);
                }
            }
            self.lemma_leases_changed(prev);
            let f = *self;
            assert forall|k: Seq<u8>| #[trigger] f.item_map().contains_key(k) && prev.index_consistent()
                implies f.lease_map().contains_key(f.item_map()[k])
                && f.lease_map()[f.item_map()[k]].keys.contains(k) by {
                assert(prev.item_map().contains_key(k));
            }
            if !is_leader && prev.follower_consistent() {
                assert(f.queue_map() =~= prev.queue_map());
            }
        }
    }

    /// Extends the lease `lease_id` by its time-to-live from `now`; returns the
    /// time-to-live in seconds.
    pub fn renew(&mut self, lease_id: i64, now: u64) -> (r: Result<i64, LeaseError>)
        requires
            old(self).wf(),
            now + MAX_LEASE_TTL_MILLIS <= u64::MAX,
        ensures
            final(self).wf(),
            final(self).item_map() == old(self).item_map(),
            !old(self).lease_map().contains_key(lease_id) ==> r == Err::<i64, LeaseError>(LeaseError::LeaseNotFound),
            old(self).lease_map().contains_key(lease_id) && old(self).lease_map()[lease_id].expired_at(now)
                ==> r == Err::<i64, LeaseError>(LeaseError::LeaseExpired),
            r is Err ==> final(self).lease_map() == old(self).lease_map() && final(self).queue_map()
                == old(self).queue_map(),
            old(self).lease_map().contains_key(lease_id) && !old(self).lease_map()[lease_id].expired_at(now)
                ==> ({
                let l = old(self).lease_map()[lease_id];
                let e = l.refreshed_expiry(now, 0) as u64;
                &&& r == Ok::<i64, LeaseError>(l.ttl as i64)
                &&& final(self).lease_map() == old(self).lease_map().insert(lease_id, LeaseView { expiry: Some(e), ..l })
                &&& final(self).queue_map() == old(self).queue_map().insert(lease_id, e)
            }),
            old(self).index_consistent() ==> final(self).index_consistent(),
            old(self).leader_consistent() ==> final(self).leader_consistent(),
    {
        match self.position(lease_id) {
            None => Err(LeaseError::LeaseNotFound),
            Some(i) => {
                proof { assert(self.leases@[i as int].wf()); }
                if self.leases[i].expired(now) {
                    return Err(LeaseError::LeaseExpired);
                }
                let ghost prev = *self;
                let expiry = self.leases[i].refresh(0, now);
                self.lease_ghost = Ghost(self.lease_ghost@.insert(lease_id, self.leases@[i as int]@));
                proof { self.lemma_replaced(prev, i as int); }
                let ghost mid = *self;
                self.queue.insert(lease_id, expiry);
                proof { self.lemma_queue_changed(mid); }
                let ttl = self.leases[i].ttl();
                proof { self.leases@[i as int].lemma_wf_ttl(); }
                Ok(ttl as i64)
            },
        }
    }

    /// Takes out of the queue every entry whose expiry is at or before `now`, earliest
    /// first, and returns the ids among them that still hold a lease.
    pub fn find_expired_leases(&mut self, now: u64) -> (r: Vec<i64>)
        requires
            old(self).wf(),
        ensures
            final(self).wf(),
            final(self).lease_map() == old(self).lease_map(),
            final(self).item_map() == old(self).item_map(),
            final(self).queue_map() == old(self).queue_map().restrict(
                old(self).queue_map().dom().filter(|id: i64| old(self).queue_map()[id] > now),
            ),
            forall|id: i64|
                r@.contains(id) <==> (old(self).queue_map().contains_key(id) && old(self).queue_map()[id] <= now
                    && old(self).lease_map().contains_key(id)),
            forall|i: int, j: int|
                0 <= i < j < r@.len() ==> entry_lt(
                    old(self).queue_map()[#[trigger] r@[i]],
                    r@[i],
                    old(self).queue_map()[#[trigger] r@[j]],
                    r@[j],
                ),
            old(self).leader_consistent() ==> forall|id: i64|
                #[trigger] old(self).lease_map().contains_key(id) && old(self).lease_map()[id].expiry is Some
                    && !r@.contains(id) ==> final(self).queue_map().contains_key(id) && Some(
                    final(self).queue_map()[id],
                ) == old(self).lease_map()[id].expiry,
            old(self).follower_consistent() ==> final(self).follower_consistent() && r@.len() == 0,
    {
        let ghost q0 = self.queue_map();
        let ghost l0 = self.lease_map();
        let mut expired: Vec<i64> = Vec::new();
        loop
            invariant
                self.wf(),
                self.lease_map() == l0,
                self.item_map() == old(self).item_map(),
                forall|id: i64|
                    #[trigger] self.queue_map().contains_key(id) ==> q0.contains_key(id) && self.queue_map()[id]
                        == q0[id],
                forall|id: i64|
                    #[trigger] q0.contains_key(id) && !self.queue_map().contains_key(id) ==> q0[id] <= now
                        && forall|id2: i64|
                        #[trigger] self.queue_map().contains_key(id2) ==> entry_lt(q0[id], id, q0[id2], id2),
                forall|id: i64|
                    expired@.contains(id) <==> (q0.contains_key(id) && !self.queue_map().contains_key(id)
                        && l0.contains_key(id)),
                forall|i: int, j: int|
                    0 <= i < j < expired@.len() ==> entry_lt(
                        q0[#[trigger] expired@[i]],
                        expired@[i],
                        q0[#[trigger] expired@[j]],
                        expired@[j],
                    ),
            ensures
                forall|id: i64| #[trigger] self.queue_map().contains_key(id) ==> self.queue_map()[id] > now,
            decreases self.queue.size(),
        {
            match self.queue.peek() {
                None => {
                    break;
                },
                Some(first) => {
                    if first > now {
                        proof {
                            let qc = self.queue_map();
                            let fid = choose|fid: i64| is_first(qc, fid) && qc[fid] == first;
                            assert forall|id: i64| #[trigger] qc.contains_key(id) implies qc[id] > now by {
                                if id != fid {
                                    assert(entry_lt(qc[fid], fid, qc[id], id));
                                }
                            }
                        }
                        break;
                    }
                    let ghost prev = *self;
                    let ghost qc = self.queue_map();
                    let popped = self.queue.pop();
                    proof { self.lemma_queue_changed(prev); }
                    match popped {
                        Some(id) => {
                            proof {
                                let fid = choose|fid: i64| is_first(qc, fid) && qc[fid] == first;
                                if fid != id {
                                    assert(entry_lt(qc[fid], fid, qc[id], id));
                                    assert(entry_lt(qc[id], id, qc[fid], fid));
                                }
                                assert forall|x: i64| #[trigger] q0.contains_key(x) && !self.queue_map().contains_key(x)
                                    implies q0[x] <= now && forall|id2: i64|
                                    #[trigger] self.queue_map().contains_key(id2) ==> entry_lt(q0[x], x, q0[id2], id2) by {
                                    if x != id {
                                        assert(!qc.contains_key(x));
                                    }
                                    assert forall|id2: i64| #[trigger] self.queue_map().contains_key(id2) implies entry_lt(q0[x], x, q0[id2], id2) by {
                                        assert(qc.contains_key(id2));
                                        assert(id2 != id);
                                        assert(qc[id2] == q0[id2]);
                                        assert(qc[id] == q0[id]);
                                    }
                                }
                            }
                            if self.contains_lease(id) {
                                let ghost before = expired@;
                                expired.push(id);
                                proof {
                                    assert forall|x: i64| expired@.contains(x) <==> (q0.contains_key(x)
                                        && !self.queue_map().contains_key(x) && l0.contains_key(x)) by {
                                        if x != id && expired@.contains(x) {
                                            let k = choose|k: int| 0 <= k < expired@.len() && expired@[k] == x;
                                            assert(before[k] == x);
                                        }
                                        if x != id && q0.contains_key(x) && !self.queue_map().contains_key(x) && l0.contains_key(x) {
                                            assert(before.contains(x));
                                            let k = choose|k: int| 0 <= k < before.len() && before[k] == x;
                                            assert(expired@[k] == x);
                                        }
                                        if x == id {
                                            assert(expired@[before.len() as int] == x);
                                        }
                                    }
                                    assert forall|i: int, j: int| 0 <= i < j < expired@.len() implies entry_lt(
                                        q0[#[trigger] expired@[i]],
                                        expired@[i],
                                        q0[#[trigger] expired@[j]],
                                        expired@[j],
                                    ) by {
                                        if j == before.len() {
                                            assert(before.contains(expired@[i]));
                                            assert(qc.contains_key(id));
                                        } else {
                                            assert(expired@[i] == before[i] && expired@[j] == before[j]);
                                        }
                                    }
                                }
                            } else {
                                proof {
                                    assert forall|x: i64| expired@.contains(x) <==> (q0.contains_key(x)
                                        && !self.queue_map().contains_key(x) && l0.contains_key(x)) by {
                                    }
                                }
                            }
                        },
                        None => {},
                    }
                },
            }
        }
        proof {
            let qf = self.queue_map();
            let want = q0.restrict(q0.dom().filter(|id: i64| q0[id] > now));
            assert forall|id: i64| #[trigger] qf.contains_key(id) <==> want.contains_key(id) by {
                if qf.contains_key(id) {
                    assert(q0.dom().filter(|id: i64| q0[id] > now).contains(id));
                }
            }
            assert forall|id: i64| #[trigger] qf.contains_key(id) implies qf[id] == want[id] by {
                if qf.contains_key(id) {
                    assert(q0.dom().filter(|id: i64| q0[id] > now).contains(id));
                }
            }
            assert(qf =~= want);
            if old(self).follower_consistent() {
                assert(qf =~= Map::<i64, u64>::empty());
                if expired@.len() > 0 {
                    assert(expired@.contains(expired@[0]));
                }
            }
        }
        expired
    }

    /// Makes every lease live forever and empties the queue.
    pub fn demote(&mut self)
        requires
            old(self).wf(),
        ensures
            final(self).wf(),
            final(self).queue_map() == Map::<i64, u64>::empty(),
            final(self).item_map() == old(self).item_map(),
            final(self).lease_map() == old(self).lease_map().map_values(
                |l: LeaseView| LeaseView { expiry: None, ..l },
            ),
            final(self).follower_consistent(),
            old(self).index_consistent() ==> final(self).index_consistent(),
    {
        let ghost prev = *self;
        let mut i: usize = 0;
        while i < self.leases.len()
            invariant
                prev.wf(),
                i <= self.leases.len(),
                self.leases@.len() == prev.leases@.len(),
                self.items == prev.items,
                self.item_ghost == prev.item_ghost,
                self.queue == prev.queue,
                self.lease_ghost == prev.lease_ghost,
                forall|j: int|
                    0 <= j < i ==> (#[trigger] self.leases@[j]).wf() && self.leases@[j]@ == (LeaseView {
                        expiry: None,
                        ..prev.leases@[j]@
                    }),
                forall|j: int| i <= j < self.leases@.len() ==> #[trigger] self.leases@[j] == prev.leases@[j],
            decreases self.leases.len() - i,
        {
            assert(prev.leases@[i as int].wf());
            self.leases[i].forever();
            i = i + 1;
        }
        self.lease_ghost = Ghost(prev.lease_ghost@.map_values(|l: LeaseView| LeaseView { expiry: None, ..l }));
        self.queue.clear();
        proof {
            let ls = self.leases@;
            let p = prev.leases@;
            assert forall|a: int| 0 <= a < ls.len() implies (#[trigger] ls[a]).wf()
                && self.lease_ghost@.contains_key(ls[a]@.id) && self.lease_ghost@[ls[a]@.id] == ls[a]@ by {
                assert(prev.lease_ghost@.contains_key(p[a]@.id));
            }
            assert forall|id: i64| #[trigger] self.lease_ghost@.contains_key(id) implies exists|a: int|
                0 <= a < ls.len() && (#[trigger] ls[a])@.id == id by {
                assert(prev.lease_ghost@.contains_key(id));
                let a = choose|a: int| 0 <= a < p.len() && (#[trigger] p[a])@.id == id;
                assert(ls[a]@.id == id);
            }
            assert forall|a: int, b: int| 0 <= a < b < ls.len() implies (#[trigger] ls[a])@.id != (#[trigger] ls[b])@.id by {
                assert(p[a]@.id != p[b]@.id);
            }
            self.lemma_leases_changed(prev);
            let f = *self;
            assert forall|k: Seq<u8>| #[trigger] f.item_map().contains_key(k) && prev.index_consistent()
                implies f.lease_map().contains_key(f.item_map()[k])
                && f.lease_map()[f.item_map()[k]].keys.contains(k) by {
                assert(prev.item_map().contains_key(k));
            }
        }
    }

    /// Refreshes every lease from `now` with grace `extend` and queues it.
    pub fn promote(&mut self, extend: u64, now: u64)
        requires
            old(self).wf(),
            now + MAX_LEASE_TTL_MILLIS + extend <= u64::MAX,
        ensures
            final(self).wf(),
            final(self).item_map() == old(self).item_map(),
            final(self).lease_map() == old(self).lease_map().map_values(
                |l: LeaseView| LeaseView { expiry: Some(l.refreshed_expiry(now, extend) as u64), ..l },
            ),
            final(self).queue_map() == old(self).queue_map().union_prefer_right(
                old(self).lease_map().map_values(|l: LeaseView| l.refreshed_expiry(now, extend) as u64),
            ),
            final(self).leader_consistent(),
            old(self).index_consistent() ==> final(self).index_consistent(),
    {
        let ghost prev = *self;
        let ghost q0 = self.queue@;
        let ghost l0 = self.lease_ghost@;
        let ghost mut done: Map<i64, u64> = Map::empty();
        let mut i: usize = 0;
        while i < self.leases.len()
            invariant
                prev.wf(),
                q0 == prev.queue@,
                l0 == prev.lease_ghost@,
                now + MAX_LEASE_TTL_MILLIS + extend <= u64::MAX,
                i <= self.leases.len(),
                self.leases@.len() == prev.leases@.len(),
                self.items == prev.items,
                self.item_ghost == prev.item_ghost,
                self.lease_ghost == prev.lease_ghost,
                self.queue.wf(),
                self.queue@ == q0.union_prefer_right(done),
                forall|id: i64|
                    #[trigger] done.contains_key(id) <==> exists|j: int| 0 <= j < i && (#[trigger] prev.leases@[j])@.id == id,
                forall|id: i64|
                    #[trigger] done.contains_key(id) ==> l0.contains_key(id) && done[id] == l0[id].refreshed_expiry(now, extend),
                forall|j: int|
                    0 <= j < i ==> (#[trigger] self.leases@[j]).wf() && self.leases@[j]@ == (LeaseView {
                        expiry: Some(prev.leases@[j]@.refreshed_expiry(now, extend) as u64),
                        ..prev.leases@[j]@
                    }),
                forall|j: int| i <= j < self.leases@.len() ==> #[trigger] self.leases@[j] == prev.leases@[j],
            decreases self.leases.len() - i,
        {
            assert(prev.leases@[i as int].wf());
            let ghost pl = prev.leases@[i as int]@;
            assert(l0.contains_key(pl.id) && l0[pl.id] == pl);
            let expiry = self.leases[i].refresh(extend, now);
            let id = self.leases[i].id();
            self.queue.insert(id, expiry);
            proof {
                let d0 = done;
                done = done.insert(id, expiry);
                assert(self.queue@ =~= q0.union_prefer_right(done));
                assert forall|x: i64| #[trigger] done.contains_key(x) <==> exists|j: int|
                    0 <= j < i + 1 && (#[trigger] prev.leases@[j])@.id == x by {
                    if x == id {
                        assert(prev.leases@[i as int]@.id == x);
                    } else if exists|j: int| 0 <= j < i + 1 && (#[trigger] prev.leases@[j])@.id == x {
                        let j = choose|j: int| 0 <= j < i + 1 && (#[trigger] prev.leases@[j])@.id == x;
                        assert(j < i);
                        assert(d0.contains_key(x));
                    }
                }
            }
            i = i + 1;
        }
        let ghost newmap = l0.map_values(
            |l: LeaseView| LeaseView { expiry: Some(l.refreshed_expiry(now, extend) as u64), ..l },
        );
        self.lease_ghost = Ghost(newmap);
        proof {
            let ls = self.leases@;
            let p = prev.leases@;
            assert forall|a: int| 0 <= a < ls.len() implies (#[trigger] ls[a]).wf()
                && self.lease_ghost@.contains_key(ls[a]@.id) && self.lease_ghost@[ls[a]@.id] == ls[a]@ by {
                assert(prev.lease_ghost@.contains_key(p[a]@.id));
            }
            assert forall|id: i64| #[trigger] self.lease_ghost@.contains_key(id) implies exists|a: int|
                0 <= a < ls.len() && (#[trigger] ls[a])@.id == id by {
                assert(prev.lease_ghost@.contains_key(id));
                let a = choose|a: int| 0 <= a < p.len() && (#[trigger] p[a])@.id == id;
                assert(ls[a]@.id == id);
            }
            assert forall|a: int, b: int| 0 <= a < b < ls.len() implies (#[trigger] ls[a])@.id != (#[trigger] ls[b])@.id by {
                assert(p[a]@.id != p[b]@.id);
            }
            self.lemma_leases_changed(prev);
            let target = l0.map_values(|l: LeaseView| l.refreshed_expiry(now, extend) as u64);
            assert forall|id: i64| #[trigger] done.contains_key(id) <==> target.contains_key(id) by {
                if l0.contains_key(id) {
                    let a = choose|a: int| 0 <= a < p.len() && (#[trigger] p[a])@.id == id;
                    assert(p[a]@.id == id);
                }
            }
            assert(done =~= target);
            let f = *self;
            assert forall|k: Seq<u8>| #[trigger] f.item_map().contains_key(k) && prev.index_consistent()
                implies f.lease_map().contains_key(f.item_map()[k])
                && f.lease_map()[f.item_map()[k]].keys.contains(k) by {
                assert(prev.item_map().contains_key(k));
            }
        }
    }

    /// A copy of every lease, by remaining time at `now`, shortest first.
    pub fn leases(&self, now: u64) -> (r: Vec<Lease>)
        requires
            self.wf(),
        ensures
            forall|j: int|
                0 <= j < r@.len() ==> (#[trigger] r@[j]).wf() && self.lease_map().contains_key(r@[j]@.id)
                    && self.lease_map()[r@[j]@.id] == r@[j]@,
            forall|id: i64|
                #[trigger] self.lease_map().contains_key(id) ==> exists|j: int| 0 <= j < r@.len() && (#[trigger] r@[j])@.id == id,
            forall|a: int, b: int| 0 <= a < b < r@.len() ==> (#[trigger] r@[a])@.id != (#[trigger] r@[b])@.id,
            forall|a: int, b: int|
                0 <= a < b < r@.len() ==> (#[trigger] r@[a])@.remaining_at(now) <= (#[trigger] r@[b])@.remaining_at(now),
    {
        let mut res: Vec<Lease> = Vec::new();
        let ghost mut perm: Seq<int> = Seq::empty();
        let mut i: usize = 0;
        while i < self.leases.len()
            invariant
                self.wf(),
                i <= self.leases.len(),
                res@.len() == i,
                perm.len() == i,
                forall|j: int|
                    0 <= j < i ==> 0 <= #[trigger] perm[j] < i && res@[j].wf() && res@[j]@ == self.leases@[perm[j]]@,
                forall|a: int, b: int| 0 <= a < b < i ==> #[trigger] perm[a] != #[trigger] perm[b],
                forall|t: int| 0 <= t < i ==> #[trigger] holds_index(perm, t),
                forall|a: int, b: int|
                    0 <= a < b < i ==> (#[trigger] res@[a])@.remaining_at(now) <= (#[trigger] res@[b])@.remaining_at(now),
            decreases self.leases.len() - i,
        {
            assert(self.leases@[i as int].wf());
            let l = self.leases[i].snapshot();
            let rem = l.remaining(now);
            let mut p: usize = 0;
            while p < res.len() && res[p].remaining(now) <= rem
                invariant
                    p <= res@.len(),
                    forall|j: int| 0 <= j < p ==> (#[trigger] res@[j])@.remaining_at(now) <= rem,
                decreases res@.len() - p,
            {
                p = p + 1;
            }
            let ghost before = res@;
            let ghost pb = perm;
            let ghost lv = l@;
            res.insert(p, l);
            proof {
                perm = perm.insert(p as int, i as int);
                assert(res@ =~= before.insert(p as int, res@[p as int]));
                assert forall|j: int| 0 <= j < i + 1 implies 0 <= #[trigger] perm[j] < i + 1 && res@[j].wf()
                    && res@[j]@ == self.leases@[perm[j]]@ by {
                    if j < p {
                        assert(perm[j] == pb[j] && res@[j] == before[j]);
                    } else if j > p {
                        assert(perm[j] == pb[j - 1] && res@[j] == before[j - 1]);
                    }
                }
                assert forall|a: int, b: int| 0 <= a < b < i + 1 implies #[trigger] perm[a] != #[trigger] perm[b] by {
                    if a != p && b != p {
                        let a2 = if a < p { a } else { a - 1 };
                        let b2 = if b < p { b } else { b - 1 };
                        assert(perm[a] == pb[a2] && perm[b] == pb[b2]);
                    } else if a == p {
                        assert(perm[b] == pb[b - 1]);
                    } else {
                        assert(perm[a] == pb[a]);
                    }
                }
                assert forall|t: int| 0 <= t < i + 1 implies #[trigger] holds_index(perm, t) by {
                    if t == i {
                        assert(perm[p as int] == t);
                    } else {
                        assert(holds_index(pb, t));
                        let j = choose|j: int| 0 <= j < pb.len() && #[trigger] pb[j] == t;
                        if j < p {
                            assert(perm[j] == t);
                        } else {
                            assert(perm[j + 1] == t);
                        }
                    }
                }
                assert forall|a: int, b: int| 0 <= a < b < i + 1 implies (#[trigger] res@[a])@.remaining_at(now)
                    <= (#[trigger] res@[b])@.remaining_at(now) by {
                    if b < p {
                        assert(res@[a] == before[a] && res@[b] == before[b]);
                    } else if b == p {
                        assert(res@[a] == before[a]);
                    } else if a < p {
                        assert(res@[a] == before[a] && res@[b] == before[b - 1]);
                    } else if a == p {
                        assert(res@[b] == before[b - 1]);
                    } else {
                        assert(res@[a] == before[a - 1] && res@[b] == before[b - 1]);
                    }
                }
            }
            i = i + 1;
        }
        proof {
            let ls = self.leases@;
            assert forall|j: int| 0 <= j < res@.len() implies (#[trigger] res@[j]).wf()
                && self.lease_map().contains_key(res@[j]@.id) && self.lease_map()[res@[j]@.id] == res@[j]@ by {
                assert(ls[perm[j]].wf());
            }
            assert forall|id: i64| #[trigger] self.lease_map().contains_key(id) implies exists|j: int|
                0 <= j < res@.len() && (#[trigger] res@[j])@.id == id by {
                let t = choose|t: int| 0 <= t < ls.len() && (#[trigger] ls[t])@.id == id;
                assert(holds_index(perm, t));
                let j = choose|j: int| 0 <= j < perm.len() && #[trigger] perm[j] == t;
                assert(res@[j]@.id == id);
            }
            assert forall|a: int, b: int| 0 <= a < b < res@.len() implies (#[trigger] res@[a])@.id
                != (#[trigger] res@[b])@.id by {
                assert(perm[a] != perm[b]);
                if perm[a] < perm[b] {
                    assert(ls[perm[a]]@.id != ls[perm[b]]@.id);
                } else {
                    assert(ls[perm[b]]@.id != ls[perm[a]]@.id);
                }
            }
        }
        res
    }
}

} // verus!
