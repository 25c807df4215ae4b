use vstd::prelude::*;

verus! {

/// Order of queue entries: by expiry, then by id.
pub open spec fn entry_lt(e1: u64, id1: i64, e2: u64, id2: i64) -> bool {
    e1 < e2 || (e1 == e2 && id1 < id2)
}

fn entry_before(e1: u64, id1: i64, e2: u64, id2: i64) -> (r: bool)
    ensures
        r == entry_lt(e1, id1, e2, id2),
{
    e1 < e2 || (e1 == e2 && id1 < id2)
}

/// `id` holds the earliest entry of `m`.
pub open spec fn is_first(m: Map<i64, u64>, id: i64) -> bool {
    &&& m.contains_key(id)
    &&& forall|j: i64| #[trigger] m.contains_key(j) && j != id ==> entry_lt(m[id], id, m[j], j)
}

/// Lease ids ordered by expiry instant (milliseconds), at most one entry per id.
/// `peek` and `pop` take constant time; `insert` is linear in the number of entries.
pub struct ExpiryQueue {
    /// Entries `(expiry, id)` in strictly descending order: the earliest is last.
    entries: Vec<(u64, i64)>,
    contents: Ghost<Map<i64, u64>>,
}

impl View for ExpiryQueue {
    type V = Map<i64, u64>;

    closed spec fn view(&self) -> Map<i64, u64> {
        self.contents@
    }
}

impl ExpiryQueue {
    /// Number of entries.
    pub closed spec fn size(&self) -> nat {
        self.entries@.len()
    }

    pub closed spec fn wf(&self) -> bool {
        let q = self.entries@;
        &&& forall|i: int, j: int|
            0 <= i < j < q.len() ==> entry_lt(#[trigger] q[j].0, q[j].1, #[trigger] q[i].0, q[i].1)
        &&& forall|i: int|
            0 <= i < q.len() ==> #[trigger] self.contents@.contains_key(q[i].1)
                && self.contents@[q[i].1] == q[i].0
        &&& forall|id: i64|
            #[trigger] self.contents@.contains_key(id) ==> exists|i: int|
                0 <= i < q.len() && #[trigger] q[i].1 == id
    }

    pub fn new() -> (r: ExpiryQueue)
        ensures
            r.wf(),
            r@ == Map::<i64, u64>::empty(),
    {
        ExpiryQueue { entries: Vec::new(), contents: Ghost(Map::empty()) }
    }

    /// Removes every entry.
    pub fn clear(&mut self)
        ensures
            final(self).wf(),
            final(self)@ == Map::<i64, u64>::empty(),
    {
        self.entries.clear();
        self.contents = Ghost(Map::empty());
    }

    /// The earliest expiry, if any.
    pub fn peek(&self) -> (r: Option<u64>)
        requires
            self.wf(),
        ensures
            r is None <==> self@.is_empty(),
            r matches Some(e) ==> exists|id: i64| is_first(self@, id) && self@[id] == e,
    {
        let n = self.entries.len();
        if n == 0 {
            assert(self@ =~= Map::<i64, u64>::empty());
            None
        } else {
            let (e, id) = self.entries[n - 1];
            proof { self.lemma_last_first(); }
            Some(e)
        }
    }

    proof fn lemma_last_first(&self)
        requires
            self.wf(),
            self.entries@.len() > 0,
        ensures
            is_first(self@, self.entries@.last().1),
    {
        let q = self.entries@;
        let n = q.len() - 1;
        assert(self.contents@.contains_key(q[n].1));
        assert forall|j: i64| #[trigger] self@.contains_key(j) && j != q[n].1 implies entry_lt(
            self@[q[n].1],
            q[n].1,
            self@[j],
            j,
        ) by {
            let i = choose|i: int| 0 <= i < q.len() && #[trigger] q[i].1 == j;
            assert(i < n);
            assert(self.contents@.contains_key(q[i].1));
            assert(self@[j] == q[i].0);
            assert(entry_lt(q[n].0, q[n].1, q[i].0, q[i].1));
        }
    }

    /// Removes the earliest entry and returns its id.
    pub fn pop(&mut self) -> (r: Option<i64>)
        requires
            old(self).wf(),
        ensures
            final(self).wf(),
            r is None <==> old(self)@.is_empty(),
            r is None ==> final(self)@ == old(self)@,
            r is Some ==> final(self).size() + 1 == old(self).size(),
            r matches Some(id) ==> is_first(old(self)@, id) && final(self)@ == old(self)@.remove(id),
    {
        match self.entries.pop() {
            None => {
                assert(self@ =~= Map::<i64, u64>::empty());
                None
            },
            Some((e, id)) => {
                proof {
                    let q = old(self).entries@;
                    old(self).lemma_last_first();
                    self.contents@ = self.contents@.remove(id);
                    assert forall|i: int| 0 <= i < self.entries@.len() implies #[trigger] self.entries@[i].1 != id by {
                        assert(entry_lt(q[q.len() - 1].0, q[q.len() - 1].1, q[i].0, q[i].1));
                    }
                    assert forall|j: i64| #[trigger] self.contents@.contains_key(j) implies exists|i: int|
                        0 <= i < self.entries@.len() && #[trigger] self.entries@[i].1 == j by {
                        let i = choose|i: int| 0 <= i < q.len() && #[trigger] q[i].1 == j;
                        assert(self.entries@[i].1 == j);
                    }
                }
                Some(id)
            },
        }
    }

    /// Sets the expiry of `id`, replacing an earlier entry of it.
    pub fn insert(&mut self, id: i64, expiry: u64)
        requires
            old(self).wf(),
        ensures
            final(self).wf(),
            final(self)@ == old(self)@.insert(id, expiry),
    {
        let mut k: usize = 0;
        while k < self.entries.len() && self.entries[k].1 != id
            invariant
                k <= self.entries.len(),
                self.wf(),
                *self == *old(self),
                forall|j: int| 0 <= j < k ==> #[trigger] self.entries@[j].1 != id,
            decreases self.entries.len() - k,
        {
            k = k + 1;
        }
        if k < self.entries.len() {
            let ghost q = self.entries@;
            let ghost oc = self.contents@;
            let _old = self.entries.remove(k);
            proof {
                let nq = self.entries@;
                assert(nq =~= q.remove(k as int));
                self.contents@ = self.contents@.remove(id);
                assert forall|i: int| 0 <= i < nq.len() implies #[trigger] nq[i].1 != id by {
                    if i < k {
                        assert(nq[i] == q[i]);
                    } else {
                        assert(nq[i] == q[i + 1]);
                        assert(oc.contains_key(q[i + 1].1));
                        assert(oc.contains_key(q[k as int].1));
                        assert(entry_lt(q[i + 1].0, q[i + 1].1, q[k as int].0, q[k as int].1));
                    }
                }
                assert forall|i: int, j: int| 0 <= i < j < nq.len() implies entry_lt(
                    #[trigger] nq[j].0,
                    nq[j].1,
                    #[trigger] nq[i].0,
                    nq[i].1,
                ) by {
                    if i >= k {
                        assert(nq[i] == q[i + 1] && nq[j] == q[j + 1]);
                    } else if j >= k {
                        assert(nq[j] == q[j + 1]);
                    }
                }
                assert forall|j: i64| #[trigger] self.contents@.contains_key(j) implies exists|i: int|
                    0 <= i < nq.len() && #[trigger] nq[i].1 == j by {
                    let i = choose|i: int| 0 <= i < q.len() && #[trigger] q[i].1 == j;
                    if i < k {
                        assert(nq[i].1 == j);
                    } else {
                        assert(nq[i - 1].1 == j);
                    }
                }
                assert forall|i: int| 0 <= i < nq.len() implies #[trigger] self.contents@.contains_key(
                    nq[i].1,
                ) && self.contents@[nq[i].1] == nq[i].0 by {
                    if i < k {
                        assert(nq[i] == q[i]);
                    } else {
                        assert(nq[i] == q[i + 1]);
                    }
                }
                assert(self.wf());
            }
        } else {
            proof {
                assert forall|i: int| 0 <= i < self.entries@.len() implies #[trigger] self.entries@[i].1 != id by {
                }
            }
        }
        let ghost base = self.contents@;
        let mut p: usize = 0;
        while p < self.entries.len() && entry_before(expiry, id, self.entries[p].0, self.entries[p].1)
            invariant
                p <= self.entries.len(),
                self.wf(),
                self.contents@ == base,
                !base.contains_key(id),
                forall|i: int| 0 <= i < self.entries@.len() ==> #[trigger] self.entries@[i].1 != id,
                forall|j: int| 0 <= j < p ==> entry_lt(expiry, id, #[trigger] self.entries@[j].0, self.entries@[j].1),
            decreases self.entries.len() - p,
        {
            p = p + 1;
        }
        let ghost q = self.entries@;
        self.entries.insert(p, (expiry, id));
        self.contents = Ghost(base.insert(id, expiry));
        proof {
            let nq = self.entries@;
            assert(nq =~= q.insert(p as int, (expiry, id)));
            assert forall|j: int| p <= j < q.len() implies entry_lt(#[trigger] q[j].0, q[j].1, expiry, id) by {
                assert(q[p as int].1 != id);
                if j > p {
                    assert(entry_lt(q[j].0, q[j].1, q[p as int].0, q[p as int].1));
                }
            }
            assert forall|i: int, j: int| 0 <= i < j < nq.len() implies entry_lt(
                #[trigger] nq[j].0,
                nq[j].1,
                #[trigger] nq[i].0,
                nq[i].1,
            ) by {
                if j < p {
                } else if j == p {
                } else if i < p {
                    assert(nq[j] == q[j - 1]);
                } else if i == p {
                    assert(nq[j] == q[j - 1]);
                } else {
                    assert(nq[i] == q[i - 1] && nq[j] == q[j - 1]);
                }
            }
            assert forall|i: int| 0 <= i < nq.len() implies #[trigger] self.contents@.contains_key(
                nq[i].1,
            ) && self.contents@[nq[i].1] == nq[i].0 by {
                if i < p {
                    assert(nq[i] == q[i]);
                    assert(base.contains_key(q[i].1));
                    assert(q[i].1 != id);
                } else if i > p {
                    assert(nq[i] == q[i - 1]);
                    assert(base.contains_key(q[i - 1].1));
                    assert(q[i - 1].1 != id);
                }
            }
            assert forall|j: i64| #[trigger] self.contents@.contains_key(j) implies exists|i: int|
                0 <= i < nq.len() && #[trigger] nq[i].1 == j by {
                if j == id {
                    assert(nq[p as int].1 == j);
                } else {
                    let i = choose|i: int| 0 <= i < q.len() && #[trigger] q[i].1 == j;
                    if i < p {
                        assert(nq[i].1 == j);
                    } else {
                        assert(nq[i + 1].1 == j);
                    }
                }
            }
            assert(self.wf());
        }
    }
}

} // verus!
