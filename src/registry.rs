//! The set of live connections: each outbound half under an identifier that
//! no other connection has had.
use vstd::prelude::*;

verus! {

pub struct Registry<H> {
    entries: Vec<(u64, H)>,
    next_id: u64,
}

/// The targets whose delivery failed.
pub open spec fn failed_ids(targets: Seq<u64>, delivered: Seq<bool>) -> Set<u64> {
    Set::new(|id: u64| exists|i: int| failed_at(targets, delivered, i, id))
}

/// `h` is what `before` held under one of the identifiers in `ids`.
pub open spec fn held_by_one_of<H>(before: Map<u64, H>, ids: Set<u64>, h: H) -> bool {
    exists|id: u64| ids.contains(id) && before.contains_key(id) && before[id] == h
}

/// The delivery to `targets[i]`, which is `id`, failed.
pub open spec fn failed_at(targets: Seq<u64>, delivered: Seq<bool>, i: int, id: u64) -> bool {
    0 <= i < targets.len() && i < delivered.len() && targets[i] == id && !delivered[i]
}

impl<H> Registry<H> {
    spec fn has(&self, id: u64) -> bool {
        exists|i: int| 0 <= i < self.entries@.len() && self.entries@[i].0 == id
    }

    spec fn index_of(&self, id: u64) -> int {
        choose|i: int| 0 <= i < self.entries@.len() && self.entries@[i].0 == id
    }

    /// No identifier is held twice, and every one was handed out.
    pub closed spec fn wf(&self) -> bool {
        &&& forall|i: int, j: int|
            0 <= i < j < self.entries@.len() ==> self.entries@[i].0 != self.entries@[j].0
        &&& forall|i: int| 0 <= i < self.entries@.len() ==> self.entries@[i].0 < self.next_id
    }

    /// Every identifier has been handed out: no connection can be added.
    pub closed spec fn exhausted(&self) -> bool {
        self.next_id == u64::MAX
    }

    proof fn lemma_index(&self, i: int)
        requires
            self.wf(),
            0 <= i < self.entries@.len(),
        ensures
            self.has(self.entries@[i].0),
            self.index_of(self.entries@[i].0) == i,
            self@.contains_key(self.entries@[i].0),
            self@[self.entries@[i].0] == self.entries@[i].1,
    {
        let id = self.entries@[i].0;
        assert(self.has(id));
        let j = self.index_of(id);
        if j < i {
            assert(self.entries@[j].0 != self.entries@[i].0);
        } else if i < j {
            assert(self.entries@[i].0 != self.entries@[j].0);
        }
    }

    proof fn lemma_removed(old_r: &Self, new_r: &Self, i: int)
        requires
            old_r.wf(),
            0 <= i < old_r.entries@.len(),
            new_r.entries@ == old_r.entries@.remove(i),
            new_r.next_id == old_r.next_id,
        ensures
            new_r.wf(),
            new_r@ == old_r@.remove(old_r.entries@[i].0),
    {
        let id = old_r.entries@[i].0;
        let n = old_r.entries@.len();
        assert forall|a: int, b: int| 0 <= a < b < new_r.entries@.len() implies new_r.entries@[a].0
            != new_r.entries@[b].0 by {
            let a2 = if a < i { a } else { a + 1 };
            let b2 = if b < i { b } else { b + 1 };
            assert(new_r.entries@[a] == old_r.entries@[a2]);
            assert(new_r.entries@[b] == old_r.entries@[b2]);
        }
        assert forall|a: int| 0 <= a < new_r.entries@.len() implies new_r.entries@[a].0
            < new_r.next_id by {
            let a2 = if a < i { a } else { a + 1 };
            assert(new_r.entries@[a] == old_r.entries@[a2]);
        }
        assert forall|k: u64| #[trigger] new_r.has(k) == (old_r.has(k) && k != id) by {
            if new_r.has(k) {
                let j = new_r.index_of(k);
                let j2 = if j < i { j } else { j + 1 };
                assert(old_r.entries@[j2] == new_r.entries@[j]);
                assert(old_r.has(k));
                if k == id {
                    old_r.lemma_index(i);
                    old_r.lemma_index(j2);
                }
            }
            if old_r.has(k) && k != id {
                let j = old_r.index_of(k);
                if j < i {
                    assert(new_r.entries@[j] == old_r.entries@[j]);
                } else {
                    assert(j != i);
                    assert(new_r.entries@[j - 1] == old_r.entries@[j]);
                }
                assert(new_r.has(k));
            }
        }
        assert forall|k: u64| #[trigger] new_r@.contains_key(k) implies new_r@[k] == old_r@[k] by {
            let j = new_r.index_of(k);
            let j2 = if j < i { j } else { j + 1 };
            assert(old_r.entries@[j2] == new_r.entries@[j]);
            new_r.lemma_index(j);
            old_r.lemma_index(j2);
        }
        assert(new_r@ =~= old_r@.remove(id));
    }

    proof fn lemma_pushed(old_r: &Self, new_r: &Self, id: u64, h: H)
        requires
            old_r.wf(),
            id == old_r.next_id,
            id < u64::MAX,
            new_r.entries@ == old_r.entries@.push((id, h)),
            new_r.next_id == id + 1,
        ensures
            new_r.wf(),
            !old_r@.contains_key(id),
            new_r@ == old_r@.insert(id, h),
    {
        let n = old_r.entries@.len();
        assert(!old_r.has(id));
        assert forall|a: int, b: int| 0 <= a < b < new_r.entries@.len() implies new_r.entries@[a].0
            != new_r.entries@[b].0 by {
            assert(new_r.entries@[a] == old_r.entries@[a]);
        }
        assert forall|a: int| 0 <= a < new_r.entries@.len() implies new_r.entries@[a].0
            < new_r.next_id by {
            if a < n {
                assert(new_r.entries@[a] == old_r.entries@[a]);
            }
        }
        assert forall|k: u64| #[trigger] new_r.has(k) == (old_r.has(k) || k == id) by {
            if new_r.has(k) {
                let j = new_r.index_of(k);
                if j < n {
                    assert(old_r.entries@[j] == new_r.entries@[j]);
                }
            }
            if old_r.has(k) {
                let j = old_r.index_of(k);
                assert(new_r.entries@[j] == old_r.entries@[j]);
            }
            if k == id {
                assert(new_r.entries@[n as int].0 == id);
            }
        }
        assert forall|k: u64| #[trigger] new_r@.contains_key(k) implies new_r@[k] == old_r@.insert(
            id,
            h,
        )[k] by {
            let j = new_r.index_of(k);
            new_r.lemma_index(j);
            if j < n {
                assert(old_r.entries@[j] == new_r.entries@[j]);
                old_r.lemma_index(j);
            }
        }
        assert(new_r@ =~= old_r@.insert(id, h));
    }

    /// An empty registry.
    pub fn new() -> (r: Registry<H>)
        ensures
            r.wf(),
            !r.exhausted(),
            r@ == Map::<u64, H>::empty(),
    {
        let r = Registry { entries: Vec::new(), next_id: 0 };
        assert(r@ =~= Map::<u64, H>::empty());
        r
    }

    /// Adds a connection under a fresh identifier and returns it; hands the
    /// connection back only once every identifier has been used.
    pub fn register(&mut self, handle: H) -> (r: Result<u64, H>)
        requires
            old(self).wf(),
        ensures
            final(self).wf(),
            r is Err <==> old(self).exhausted(),
            match r {
                Ok(id) => !old(self)@.contains_key(id) && final(self)@ == old(self)@.insert(
                    id,
                    handle,
                ),
                Err(h) => h == handle && final(self)@ == old(self)@,
            },
    {
        if self.next_id == u64::MAX {
            return Err(handle);
        }
        let id = self.next_id;
        let ghost before = *self;
        self.entries.push((id, handle));
        self.next_id = id + 1;
        proof {
            Self::lemma_pushed(&before, self, id, handle);
        }
        Ok(id)
    }

    /// Removes a connection, and returns its outbound half if it was there.
    pub fn deregister(&mut self, id: u64) -> (r: Option<H>)
        requires
            old(self).wf(),
        ensures
            final(self).wf(),
            final(self).exhausted() == old(self).exhausted(),
            final(self)@ == old(self)@.remove(id),
            match r {
                Some(h) => old(self)@.contains_key(id) && h == old(self)@[id],
                None => !old(self)@.contains_key(id),
            },
    {
        let mut i: usize = 0;
        while i < self.entries.len()
            invariant
                self.wf(),
                i <= self.entries@.len(),
                forall|j: int| 0 <= j < i ==> self.entries@[j].0 != id,
                *self == *old(self),
            decreases self.entries@.len() - i,
        {
            if self.entries[i].0 == id {
                let ghost before = *self;
                proof {
                    before.lemma_index(i as int);
                }
                let (_, h) = self.entries.remove(i);
                proof {
                    Self::lemma_removed(&before, self, i as int);
                }
                return Some(h);
            }
            i = i + 1;
        }
        proof {
            if self@.contains_key(id) {
                let j = self.index_of(id);
            }
            assert(self@ =~= self@.remove(id));
        }
        None
    }

    /// Removes every target whose delivery failed (`delivered[i]` is false
    /// for `targets[i]`), and hands back their outbound halves to be closed.
    pub fn prune(&mut self, targets: &Vec<u64>, delivered: &Vec<bool>) -> (dropped: Vec<H>)
        requires
            old(self).wf(),
            targets@.len() == delivered@.len(),
        ensures
            final(self).wf(),
            final(self)@ == old(self)@.remove_keys(failed_ids(targets@, delivered@)),
            forall|k: int|
                0 <= k < dropped@.len() ==> held_by_one_of(
                    old(self)@,
                    failed_ids(targets@, delivered@),
                    #[trigger] dropped@[k],
                ),
    {
        let mut dropped: Vec<H> = Vec::new();
        let mut i: usize = 0;
        proof {
            assert(failed_ids(targets@.subrange(0, 0), delivered@.subrange(0, 0)) =~= Set::empty());
            assert(self@ =~= old(self)@.remove_keys(Set::empty()));
        }
        while i < targets.len()
            invariant
                self.wf(),
                i <= targets@.len(),
                targets@.len() == delivered@.len(),
                self@ == old(self)@.remove_keys(
                    failed_ids(targets@.subrange(0, i as int), delivered@.subrange(0, i as int)),
                ),
                forall|k: int|
                    0 <= k < dropped@.len() ==> held_by_one_of(
                        old(self)@,
                        failed_ids(targets@, delivered@),
                        #[trigger] dropped@[k],
                    ),
            decreases targets@.len() - i,
        {
            let ghost prev = failed_ids(targets@.subrange(0, i as int), delivered@.subrange(0, i as int));
            let ghost next = failed_ids(
                targets@.subrange(0, i + 1 as int),
                delivered@.subrange(0, i + 1 as int),
            );
            let ghost before = self@;
            let t = targets[i];
            proof {
                let tp = targets@.subrange(0, i as int);
                let dp = delivered@.subrange(0, i as int);
                let tn = targets@.subrange(0, i + 1 as int);
                let dn = delivered@.subrange(0, i + 1 as int);
                assert forall|j: int, id: u64| 0 <= j < i implies failed_at(tp, dp, j, id)
                    == failed_at(tn, dn, j, id) by {
                    assert(tp[j] == tn[j] && dp[j] == dn[j]);
                }
                assert(tn[i as int] == t && dn[i as int] == delivered@[i as int]);
                assert forall|id: u64| next.contains(id) == (prev.contains(id) || (
                !delivered@[i as int] && id == t)) by {
                    if next.contains(id) {
                        let j = choose|j: int| failed_at(tn, dn, j, id);
                        if j < i {
                            assert(failed_at(tp, dp, j, id));
                        }
                    }
                    if prev.contains(id) {
                        let j = choose|j: int| failed_at(tp, dp, j, id);
                        assert(failed_at(tn, dn, j, id));
                    }
                    if !delivered@[i as int] && id == t {
                        assert(failed_at(tn, dn, i as int, id));
                    }
                }
                if !delivered@[i as int] {
                    assert(failed_at(targets@, delivered@, i as int, t));
                    assert(next =~= prev.insert(t));
                } else {
                    assert(next =~= prev);
                }
            }
            if !delivered[i] {
                match self.deregister(t) {
                    Some(h) => {
                        let ghost prev_dropped = dropped@;
                        proof {
                            assert(failed_at(targets@, delivered@, i as int, t));
                            assert(failed_ids(targets@, delivered@).contains(t));
                            assert(before.contains_key(t) && h == before[t]);
                            assert(old(self)@.contains_key(t) && h == old(self)@[t]);
                            assert(held_by_one_of(old(self)@, failed_ids(targets@, delivered@), h));
                        }
                        dropped.push(h);
                        proof {
                            assert forall|k: int| 0 <= k < prev_dropped.len() implies dropped@[k]
                                == prev_dropped[k] by {}
                        }
                    },
                    None => {},
                }
                proof {
                    assert(self@ =~= old(self)@.remove_keys(next));
                }
            }
            i = i + 1;
        }
        proof {
            assert(targets@.subrange(0, targets@.len() as int) =~= targets@);
            assert(delivered@.subrange(0, delivered@.len() as int) =~= delivered@);
        }
        dropped
    }

    /// The identifiers of all live connections, each once.
    pub fn ids(&self) -> (r: Vec<u64>)
        requires
            self.wf(),
        ensures
            r@.no_duplicates(),
            forall|id: u64| r@.contains(id) <==> self@.contains_key(id),
    {
        let mut r: Vec<u64> = Vec::new();
        let mut i: usize = 0;
        while i < self.entries.len()
            invariant
                self.wf(),
                i <= self.entries@.len(),
                r@.len() == i,
                forall|j: int| 0 <= j < i ==> r@[j] == self.entries@[j].0,
            decreases self.entries@.len() - i,
        {
            r.push(self.entries[i].0);
            i = i + 1;
        }
        proof {
            assert forall|id: u64| r@.contains(id) <==> self@.contains_key(id) by {
                if r@.contains(id) {
                    let j = choose|j: int| 0 <= j < r@.len() && r@[j] == id;
                    self.lemma_index(j);
                }
                if self@.contains_key(id) {
                    let j = self.index_of(id);
                    assert(r@[j] == id);
                }
            }
        }
        r
    }

    /// The outbound half of a connection, if it is live.
    pub fn get(&self, id: u64) -> (r: Option<&H>)
        requires
            self.wf(),
        ensures
            match r {
                Some(h) => self@.contains_key(id) && *h == self@[id],
                None => !self@.contains_key(id),
            },
    {
        let mut i: usize = 0;
        while i < self.entries.len()
            invariant
                self.wf(),
                i <= self.entries@.len(),
                forall|j: int| 0 <= j < i ==> self.entries@[j].0 != id,
            decreases self.entries@.len() - i,
        {
            if self.entries[i].0 == id {
                proof {
                    self.lemma_index(i as int);
                }
                return Some(&self.entries[i].1);
            }
            i = i + 1;
        }
        None
    }
}

impl<H> View for Registry<H> {
    type V = Map<u64, H>;

    closed spec fn view(&self) -> Map<u64, H> {
        Map::new(|id: u64| self.has(id), |id: u64| self.entries@[self.index_of(id)].1)
    }
}

} // verus!
