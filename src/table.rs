use vstd::prelude::*;
use crate::counter::{DurationCount, StoreProcessResult, stale_at};
use crate::identity::{IdentityView, RequestIdentifier};

verus! {

/// The abstract state of one table: a counter per caller, and the quota
/// that every new counter is given.
pub struct TableView {
    pub entries: Map<IdentityView, DurationCount>,
    pub lim: nat,
}

/// A well-formed table: a positive quota, shared by every counter.
pub open spec fn table_wf(t: TableView) -> bool {
    &&& 0 < t.lim <= usize::MAX
    &&& forall|k: IdentityView| #[trigger] t.entries.contains_key(k) ==> {
        &&& t.entries[k].wf()
        &&& t.entries[k].size == t.lim
    }
}

/// The counter that a caller's first request at `now` creates.
pub open spec fn fresh_counter(lim: nat, now: u64) -> DurationCount {
    DurationCount { start: now, remain: (lim - 1) as usize, size: lim as usize }
}

/// `t` without the counters that are stale at `now`.
pub open spec fn evicted(t: TableView, now: u64) -> TableView {
    TableView {
        entries: Map::new(
            |k: IdentityView| t.entries.contains_key(k) && !stale_at(t.entries[k].start as int, now as int),
            |k: IdentityView| t.entries[k],
        ),
        lim: t.lim,
    }
}

/// One request of caller `id` at `now` against a table whose stale
/// counters were already removed.
pub open spec fn admitted(t: TableView, id: IdentityView, now: u64) -> (StoreProcessResult, TableView) {
    if t.entries.contains_key(id) {
        let (r, c) = t.entries[id].consumed(now);
        (r, TableView { entries: t.entries.insert(id, c), lim: t.lim })
    } else {
        (
            StoreProcessResult::Continue,
            TableView { entries: t.entries.insert(id, fresh_counter(t.lim, now)), lim: t.lim },
        )
    }
}

/// One request of caller `id` at `now`: eviction, then admission.
pub open spec fn table_step(t: TableView, id: IdentityView, now: u64) -> (StoreProcessResult, TableView) {
    admitted(evicted(t, now), id, now)
}

/// Per-caller counters of one route or backend.
#[derive(Debug)]
pub struct IpTable {
    ids: Vec<RequestIdentifier>,
    counts: Vec<DurationCount>,
    lim: usize,
}

impl View for IpTable {
    type V = TableView;

    closed spec fn view(&self) -> TableView {
        TableView {
            entries: Map::new(
                |k: IdentityView| exists|i: int| 0 <= i < self.ids@.len() && self.ids@[i]@ == k,
                |k: IdentityView|
                    self.counts@[choose|i: int| 0 <= i < self.ids@.len() && self.ids@[i]@ == k],
            ),
            lim: self.lim as nat,
        }
    }
}

impl IpTable {
    pub closed spec fn wf(&self) -> bool {
        &&& self.ids@.len() == self.counts@.len()
        &&& self.lim > 0
        &&& forall|i: int, j: int|
            0 <= i < j < self.ids@.len() ==> #[trigger] self.ids@[i]@ != #[trigger] self.ids@[j]@
        &&& forall|i: int|
            0 <= i < self.counts@.len() ==> #[trigger] self.counts@[i].wf() && self.counts@[i].size
                == self.lim
    }

    proof fn lemma_view_at(&self, i: int)
        requires
            self.wf(),
            0 <= i < self.ids@.len(),
        ensures
            self@.entries.contains_key(self.ids@[i]@),
            self@.entries[self.ids@[i]@] == self.counts@[i],
    {
        let k = self.ids@[i]@;
        assert(0 <= i < self.ids@.len() && self.ids@[i]@ == k);
        let j = choose|j: int| 0 <= j < self.ids@.len() && self.ids@[j]@ == k;
        if i < j {
            assert(self.ids@[i]@ != self.ids@[j]@);
        } else if j < i {
            assert(self.ids@[j]@ != self.ids@[i]@);
        }
    }

    /// The abstract state of a well-formed table is well formed.
    pub proof fn lemma_wf(&self)
        requires
            self.wf(),
        ensures
            table_wf(self@),
    {
        assert forall|k: IdentityView| #[trigger] self@.entries.contains_key(k) implies {
            &&& self@.entries[k].wf()
            &&& self@.entries[k].size == self@.lim
        } by {
            let i = choose|i: int| 0 <= i < self.ids@.len() && self.ids@[i]@ == k;
            self.lemma_view_at(i);
        }
    }

    /// An empty table whose callers get `lim` requests per window.
    pub fn init_table(lim: usize) -> (r: Self)
        requires
            lim > 0,
        ensures
            r.wf(),
            r@.entries == Map::<IdentityView, DurationCount>::empty(),
            r@.lim == lim,
    {
        let r = IpTable { ids: Vec::new(), counts: Vec::new(), lim };
        assert(r@.entries =~= Map::<IdentityView, DurationCount>::empty());
        r
    }

    /// The quota per window.
    pub fn limit(&self) -> (r: usize)
        ensures
            r == self@.lim,
    {
        self.lim
    }

    fn position(&self, id: &RequestIdentifier) -> (r: Option<usize>)
        requires
            self.wf(),
        ensures
            match r {
                Some(i) => i < self.ids@.len() && self.ids@[i as int]@ == id@,
                None => !self@.entries.contains_key(id@),
            },
    {
        let mut i: usize = 0;
        while i < self.ids.len()
            invariant
                self.wf(),
                i <= self.ids@.len(),
                forall|j: int| 0 <= j < i ==> self.ids@[j]@ != id@,
            decreases self.ids@.len() - i,
        {
            if self.ids[i] == *id {
                return Some(i);
            }
            i = i + 1;
        }
        None
    }

    /// True when `id` has a counter.
    pub fn contains(&self, id: &RequestIdentifier) -> (r: bool)
        requires
            self.wf(),
        ensures
            r == self@.entries.contains_key(id@),
    {
        match self.position(id) {
            Some(i) => {
                proof {
                    self.lemma_view_at(i as int);
                }
                true
            },
            None => false,
        }
    }

    /// Admits one request of `ri` at `now`: a known caller is charged on its
    /// counter, a new one gets a fresh counter and is let through.
    pub fn check_or_add(&mut self, ri: RequestIdentifier, now: u64) -> (r: StoreProcessResult)
        requires
            old(self).wf(),
        ensures
            final(self).wf(),
            (r, final(self)@) == admitted(old(self)@, ri@, now),
    {
        proof {
            self.lemma_wf();
        }
        match self.position(&ri) {
            Some(i) => {
                proof {
                    self.lemma_view_at(i as int);
                }
                let mut c = self.counts[i];
                let r = c.reduce(now);
                self.counts.set(i, c);
                proof {
                    let k = ri@;
                    let v = old(self)@.entries.insert(k, c);
                    assert forall|j: int| 0 <= j < self.counts@.len() implies #[trigger] self.counts@[j].wf()
                        && self.counts@[j].size == self.lim by {
                        if j != i {
                            assert(self.counts@[j] == old(self).counts@[j]);
                        } else {
                            assert(self.counts@[j] == c);
                        }
                    }
                    assert(self.wf());
                    assert forall|k2: IdentityView| #[trigger] self@.entries.contains_key(k2) <==> v.contains_key(k2) by {
                        if v.contains_key(k2) && k2 != k {
                            let j = choose|j: int| 0 <= j < old(self).ids@.len() && old(self).ids@[j]@ == k2;
                            self.lemma_view_at(j);
                        }
                        if k2 == k {
                            self.lemma_view_at(i as int);
                        }
                    }
                    assert forall|k2: IdentityView| #[trigger] self@.entries.contains_key(k2) implies
                        self@.entries[k2] == v[k2] by {
                        let j = choose|j: int| 0 <= j < self.ids@.len() && self.ids@[j]@ == k2;
                        self.lemma_view_at(j);
                        old(self).lemma_view_at(j);
                    }
                    assert(self@.entries =~= v);
                }
                r
            },
            None => {
                let ghost k = ri@;
                let (c, r) = DurationCount::new(self.lim, now);
                self.ids.push(ri);
                self.counts.push(c);
                proof {
                    let v = old(self)@.entries.insert(k, c);
                    let n = old(self).ids@.len() as int;
                    assert forall|j: int| 0 <= j < n implies #[trigger] self.ids@[j]@ != k by {
                        old(self).lemma_view_at(j);
                    }
                    assert forall|k2: IdentityView| #[trigger] self@.entries.contains_key(k2) <==> v.contains_key(k2) by {
                        if v.contains_key(k2) && k2 != k {
                            let j = choose|j: int| 0 <= j < old(self).ids@.len() && old(self).ids@[j]@ == k2;
                            assert(self.ids@[j] == old(self).ids@[j]);
                            self.lemma_view_at(j);
                        }
                        if k2 == k {
                            self.lemma_view_at(n);
                        }
                    }
                    assert forall|k2: IdentityView| #[trigger] self@.entries.contains_key(k2) implies
                        self@.entries[k2] == v[k2] by {
                        let j = choose|j: int| 0 <= j < self.ids@.len() && self.ids@[j]@ == k2;
                        self.lemma_view_at(j);
                        if j < n {
                            assert(self.ids@[j] == old(self).ids@[j]);
                            old(self).lemma_view_at(j);
                        }
                    }
                    assert(self@.entries =~= v);
                }
                r
            },
        }
    }

    /// Removes every counter that is stale at `now`.
    pub fn gc(&mut self, now: u64)
        requires
            old(self).wf(),
        ensures
            final(self).wf(),
            final(self)@ == evicted(old(self)@, now),
    {
        let ghost o = *old(self);
        let ghost mut src: Seq<int> = Seq::empty();
        let ghost mut dst: Map<int, int> = Map::empty();
        let mut ids: Vec<RequestIdentifier> = Vec::new();
        let mut counts: Vec<DurationCount> = Vec::new();
        while self.ids.len() > 0
            invariant
                o.wf(),
                self.lim == o.lim,
                self.ids@ == o.ids@.take(self.ids@.len() as int),
                self.counts@ == o.counts@.take(self.ids@.len() as int),
                self.ids@.len() <= o.ids@.len(),
                ids@.len() == counts@.len(),
                src.len() == ids@.len(),
                forall|j: int|
                    0 <= j < ids@.len() ==> self.ids@.len() <= #[trigger] src[j] < o.ids@.len()
                        && ids@[j]@ == o.ids@[src[j]]@ && counts@[j] == o.counts@[src[j]]
                        && !stale_at(o.counts@[src[j]].start as int, now as int),
                forall|i: int, j: int| 0 <= i < j < ids@.len() ==> #[trigger] src[i] > #[trigger] src[j],
                forall|m: int|
                    self.ids@.len() <= m < o.ids@.len() && !stale_at(
                        #[trigger] o.counts@[m].start as int,
                        now as int,
                    ) ==> dst.contains_key(m) && 0 <= dst[m] < ids@.len() && src[dst[m]] == m,
            decreases self.ids@.len(),
        {
            let ghost n = self.ids@.len() - 1;
            let id = self.ids.pop().unwrap();
            let c = self.counts.pop().unwrap();
            proof {
                assert(o.ids@.take(n + 1)[n] == o.ids@[n]);
                assert(o.counts@.take(n + 1)[n] == o.counts@[n]);
                assert(self.ids@ =~= o.ids@.take(n));
                assert(self.counts@ =~= o.counts@.take(n));
            }
            if !c.is_stale(now) {
                proof {
                    dst = dst.insert(n, ids@.len() as int);
                    src = src.push(n);
                }
                ids.push(id);
                counts.push(c);
            }
        }
        proof {
            assert forall|i: int, j: int| 0 <= i < j < ids@.len() implies #[trigger] ids@[i]@ != #[trigger] ids@[j]@ by {
                assert(src[i] > src[j]);
                assert(o.ids@[src[j]]@ != o.ids@[src[i]]@);
            }
            assert forall|j: int| 0 <= j < counts@.len() implies #[trigger] counts@[j].wf() && counts@[j].size == o.lim by {
                assert(counts@[j] == o.counts@[src[j]]);
            }
        }
        self.ids = ids;
        self.counts = counts;
        proof {
            assert(self.wf());
            let e = evicted(o@, now).entries;
            assert forall|k: IdentityView| #[trigger] self@.entries.contains_key(k) <==> e.contains_key(k) by {
                if self@.entries.contains_key(k) {
                    let j = choose|j: int| 0 <= j < self.ids@.len() && self.ids@[j]@ == k;
                    assert(src[j] == src[j]);
                    o.lemma_view_at(src[j]);
                }
                if e.contains_key(k) {
                    let m = choose|m: int| 0 <= m < o.ids@.len() && o.ids@[m]@ == k;
                    o.lemma_view_at(m);
                    assert(!stale_at(o.counts@[m].start as int, now as int));
                    let j = dst[m];
                    assert(src[j] == m);
                    assert(self.ids@[j]@ == k);
                }
            }
            assert forall|k: IdentityView| #[trigger] self@.entries.contains_key(k) implies self@.entries[k] == e[k] by {
                let j = choose|j: int| 0 <= j < self.ids@.len() && self.ids@[j]@ == k;
                self.lemma_view_at(j);
                assert(src[j] == src[j]);
                o.lemma_view_at(src[j]);
            }
            assert(self@.entries =~= e);
        }
    }
}

} // verus!
