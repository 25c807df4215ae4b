use vstd::prelude::*;

use crate::bytes::{
    bytes_lt, compare_bytes, lemma_lt_asymmetric, lemma_lt_transitive, lemma_sorted_of,
    sorted_of, strictly_sorted,
};
use crate::{MAX_LEASE_TTL, MIN_LEASE_TTL};

verus! {

/// Milliseconds in a second.
pub const MILLIS_PER_SEC: u64 = 1000;

/// Longest time-to-live in milliseconds.
pub const MAX_LEASE_TTL_MILLIS: u64 = 9_000_000_000_000;

/// The time-to-live a lease gets for a requested one, in seconds.
pub open spec fn clamped_ttl(ttl: int) -> int {
    if ttl < MIN_LEASE_TTL {
        MIN_LEASE_TTL as int
    } else if ttl > MAX_LEASE_TTL {
        MAX_LEASE_TTL as int
    } else {
        ttl
    }
}

/// The abstract content of a lease.
pub struct LeaseView {
    pub id: i64,
    /// Time-to-live in seconds.
    pub ttl: int,
    /// Instant (in milliseconds) at which the lease runs out; `None` is "never".
    pub expiry: Option<u64>,
    pub keys: Set<Seq<u8>>,
}

impl LeaseView {
    pub open spec fn expired_at(self, now: u64) -> bool {
        match self.expiry {
            Some(e) => e <= now,
            None => false,
        }
    }

    pub open spec fn remaining_at(self, now: u64) -> u64 {
        match self.expiry {
            Some(e) => if e > now { (e - now) as u64 } else { 0 },
            None => u64::MAX,
        }
    }

    /// The expiry that a refresh at `now` with grace `extend` sets.
    pub open spec fn refreshed_expiry(self, now: u64, extend: u64) -> int {
        now + self.ttl * MILLIS_PER_SEC + extend
    }
}

/// The byte strings held in a vector of keys.
pub open spec fn key_seq(keys: Seq<Vec<u8>>) -> Seq<Seq<u8>> {
    keys.map_values(|k: Vec<u8>| k@)
}

/// A time-bounded lease owning a set of keys.
#[derive(Debug)]
pub struct Lease {
    id: i64,
    ttl: u64,
    expiry: Option<u64>,
    /// Kept in strictly ascending order.
    keys: Vec<Vec<u8>>,
}

impl View for Lease {
    type V = LeaseView;

    closed spec fn view(&self) -> LeaseView {
        LeaseView {
            id: self.id,
            ttl: self.ttl as int,
            expiry: self.expiry,
            keys: key_seq(self.keys@).to_set(),
        }
    }
}

impl Lease {
    pub closed spec fn wf(&self) -> bool {
        &&& strictly_sorted(key_seq(self.keys@))
        &&& MIN_LEASE_TTL <= self.ttl <= MAX_LEASE_TTL
    }

    pub proof fn lemma_wf_ttl(&self)
        requires
            self.wf(),
        ensures
            MIN_LEASE_TTL <= self@.ttl <= MAX_LEASE_TTL,
    {
    }

    /// A lease with the given id and time-to-live (in seconds), no keys and no expiry.
    pub fn new(id: i64, ttl: i64) -> (r: Lease)
        ensures
            r.wf(),
            r@ == (LeaseView { id, ttl: clamped_ttl(ttl as int), expiry: None, keys: Set::empty() }),
    {
        let t: i64 = if ttl < MIN_LEASE_TTL {
            MIN_LEASE_TTL
        } else if ttl > MAX_LEASE_TTL {
            MAX_LEASE_TTL
        } else {
            ttl
        };
        let r = Lease { id, ttl: t as u64, expiry: None, keys: Vec::new() };
        assert(key_seq(r.keys@).to_set() =~= Set::empty());
        r
    }

    pub fn id(&self) -> (r: i64)
        ensures
            r == self@.id,
    {
        self.id
    }

    /// Time-to-live in seconds.
    pub fn ttl(&self) -> (r: u64)
        ensures
            r == self@.ttl,
    {
        self.ttl
    }

    pub fn expiry(&self) -> (r: Option<u64>)
        ensures
            r == self@.expiry,
    {
        self.expiry
    }

    /// Sets the expiry to `now + ttl + extend` and returns it.
    pub fn refresh(&mut self, extend: u64, now: u64) -> (r: u64)
        requires
            old(self).wf(),
            now + MAX_LEASE_TTL_MILLIS + extend <= u64::MAX,
        ensures
            final(self).wf(),
            r == old(self)@.refreshed_expiry(now, extend),
            final(self)@ == (LeaseView { expiry: Some(r), ..old(self)@ }),
    {
        assert(self.ttl * MILLIS_PER_SEC <= MAX_LEASE_TTL_MILLIS) by (nonlinear_arith)
            requires
                self.ttl <= MAX_LEASE_TTL,
        ;
        let e = now + self.ttl * MILLIS_PER_SEC + extend;
        self.expiry = Some(e);
        e
    }

    /// Makes the lease never expire.
    pub fn forever(&mut self)
        requires
            old(self).wf(),
        ensures
            final(self).wf(),
            final(self)@ == (LeaseView { expiry: None, ..old(self)@ }),
    {
        self.expiry = None;
    }

    pub fn expired(&self, now: u64) -> (r: bool)
        ensures
            r == self@.expired_at(now),
    {
        match self.expiry {
            Some(e) => e <= now,
            None => false,
        }
    }

    /// Milliseconds until expiry; the largest value when the lease never expires.
    pub fn remaining(&self, now: u64) -> (r: u64)
        ensures
            r == self@.remaining_at(now),
    {
        match self.expiry {
            Some(e) => if e > now { e - now } else { 0 },
            None => u64::MAX,
        }
    }

    /// The attached keys in ascending order.
    pub fn keys(&self) -> (r: Vec<Vec<u8>>)
        requires
            self.wf(),
        ensures
            key_seq(r@) == sorted_of(self@.keys),
            strictly_sorted(key_seq(r@)),
            key_seq(r@).to_set() == self@.keys,
    {
        let mut r: Vec<Vec<u8>> = Vec::new();
        let mut i: usize = 0;
        while i < self.keys.len()
            invariant
                i <= self.keys.len(),
                key_seq(r@) =~= key_seq(self.keys@).subrange(0, i as int),
            decreases self.keys.len() - i,
        {
            let k = self.keys[i].clone();
            assert(k@ =~= self.keys@[i as int]@);
            let ghost before = r@;
            r.push(k);
            assert(r@ == before.push(k));
            assert(key_seq(r@) =~= key_seq(before).push(k@));
            i = i + 1;
        }
        assert(key_seq(r@) =~= key_seq(self.keys@));
        proof { lemma_sorted_of(key_seq(self.keys@)); }
        r
    }

    /// A copy of the lease.
    pub fn snapshot(&self) -> (r: Lease)
        requires
            self.wf(),
        ensures
            r.wf(),
            r@ == self@,
    {
        let keys = self.keys();
        proof { lemma_sorted_of(key_seq(self.keys@)); }
        Lease { id: self.id, ttl: self.ttl, expiry: self.expiry, keys }
    }

    /// Adds a key to the lease.
    pub fn insert_key(&mut self, key: Vec<u8>)
        requires
            old(self).wf(),
        ensures
            final(self).wf(),
            final(self)@ == (LeaseView { keys: old(self)@.keys.insert(key@), ..old(self)@ }),
    {
        let ghost ks = key_seq(self.keys@);
        let mut i: usize = 0;
        let mut stop = false;
        while i < self.keys.len() && !stop
            invariant
                i <= self.keys.len(),
                self.wf(),
                *self == *old(self),
                ks == key_seq(self.keys@),
                strictly_sorted(ks),
                forall|j: int| 0 <= j < i ==> bytes_lt(#[trigger] ks[j], key@),
                stop ==> i < self.keys.len() && bytes_lt(key@, ks[i as int]),
            decreases self.keys.len() - i, if stop { 0int } else { 1int },
        {
            let c = compare_bytes(self.keys[i].as_slice(), key.as_slice());
            if c == 0 {
                assert(ks.to_set().insert(key@) =~= ks.to_set()) by {
                    assert(ks[i as int] == key@);
                }
                return;
            }
            if c > 0 {
                stop = true;
            } else {
                i = i + 1;
            }
        }
        proof {
            assert forall|j: int| i <= j < ks.len() implies bytes_lt(key@, #[trigger] ks[j]) by {
                if j > i {
                    lemma_lt_transitive(key@, ks[i as int], ks[j]);
                }
            }
        }
        let ghost kv = key@;
        self.keys.insert(i, key);
        proof {
            let ns = key_seq(self.keys@);
            assert(ns =~= ks.insert(i as int, kv));
            assert forall|a: int, b: int| 0 <= a < b < ns.len() implies bytes_lt(
                #[trigger] ns[a],
                #[trigger] ns[b],
            ) by {
                if b < i {
                } else if a < i && b == i {
                } else if a < i {
                    assert(ns[b] == ks[b - 1]);
                    lemma_lt_transitive(ns[a], kv, ns[b]);
                } else if a == i {
                    assert(ns[b] == ks[b - 1]);
                } else {
                    assert(ns[a] == ks[a - 1] && ns[b] == ks[b - 1]);
                }
            }
            assert(ns.to_set() =~= ks.to_set().insert(kv)) by {
                assert forall|x: Seq<u8>| ks.to_set().contains(x) implies ns.to_set().contains(x) by {
                    let j = choose|j: int| 0 <= j < ks.len() && ks[j] == x;
                    if j < i {
                        assert(ns[j] == x);
                    } else {
                        assert(ns[j + 1] == x);
                    }
                }
                assert(ns[i as int] == kv);
            }
        }
    }

    /// Removes a key from the lease, if it holds it.
    pub fn remove_key(&mut self, key: &[u8])
        requires
            old(self).wf(),
        ensures
            final(self).wf(),
            final(self)@ == (LeaseView { keys: old(self)@.keys.remove(key@), ..old(self)@ }),
    {
        let ghost ks = key_seq(self.keys@);
        let mut i: usize = 0;
        while i < self.keys.len()
            invariant
                i <= self.keys.len(),
                self.wf(),
                *self == *old(self),
                ks == key_seq(self.keys@),
                strictly_sorted(ks),
                forall|j: int| 0 <= j < i ==> #[trigger] ks[j] != key@,
            decreases self.keys.len() - i,
        {
            let c = compare_bytes(self.keys[i].as_slice(), key);
            if c == 0 {
                let _k = self.keys.remove(i);
                proof {
                    let ns = key_seq(self.keys@);
                    assert(ns =~= ks.remove(i as int));
                    assert forall|a: int, b: int| 0 <= a < b < ns.len() implies bytes_lt(
                        #[trigger] ns[a],
                        #[trigger] ns[b],
                    ) by {
                        if a >= i {
                            assert(ns[a] == ks[a + 1] && ns[b] == ks[b + 1]);
                        } else if b >= i {
                            assert(ns[b] == ks[b + 1]);
                        }
                    }
                    assert(ns.to_set() =~= ks.to_set().remove(key@)) by {
                        assert forall|x: Seq<u8>| ns.to_set().contains(x) implies x != key@ by {
                            let j = choose|j: int| 0 <= j < ns.len() && ns[j] == x;
                            if j < i {
                                lemma_lt_asymmetric(ks[j], ks[i as int]);
                            } else {
                                assert(ns[j] == ks[j + 1]);
                                lemma_lt_asymmetric(ks[i as int], ks[j + 1]);
                            }
                        }
                        assert forall|x: Seq<u8>|
                            ks.to_set().contains(x) && x != key@ implies ns.to_set().contains(x) by {
                            let j = choose|j: int| 0 <= j < ks.len() && ks[j] == x;
                            if j < i {
                                assert(ns[j] == x);
                            } else {
                                assert(ns[j - 1] == x);
                            }
                        }
                    }
                }
                return;
            }
            i = i + 1;
        }
        assert(ks.to_set().remove(key@) =~= ks.to_set());
    }
}

} // verus!
