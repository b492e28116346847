use vstd::prelude::*;
use crate::counter::StoreProcessResult;
use crate::identity::{IdentityView, RequestIdentifier};
use crate::config::{AegisConfig, BackendConfig, RouteConfig, backend_key, quota_of};
use crate::table::{IpTable, TableView, table_step, table_wf};
use vstd::string::*;

verus! {

/// The map whose keys are `keys` and whose value at `keys[i]` is `vals[i]`,
/// for keys without repetition.
pub open spec fn keyed_map<K, V>(keys: Seq<K>, vals: Seq<V>) -> Map<K, V> {
    Map::new(
        |k: K| exists|i: int| 0 <= i < keys.len() && keys[i] == k,
        |k: K| vals[choose|i: int| 0 <= i < keys.len() && keys[i] == k],
    )
}

pub open spec fn distinct<K>(keys: Seq<K>) -> bool {
    forall|i: int, j: int| 0 <= i < j < keys.len() ==> #[trigger] keys[i] != #[trigger] keys[j]
}

proof fn lemma_keyed_at<K, V>(keys: Seq<K>, vals: Seq<V>, i: int)
    requires
        distinct(keys),
        0 <= i < keys.len(),
    ensures
        keyed_map(keys, vals).contains_key(keys[i]),
        keyed_map(keys, vals)[keys[i]] == vals[i],
{
    let k = keys[i];
    assert(0 <= i < keys.len() && keys[i] == k);
    let j = choose|j: int| 0 <= j < keys.len() && keys[j] == k;
    if i < j {
        assert(keys[i] != keys[j]);
    } else if j < i {
        assert(keys[j] != keys[i]);
    }
}

proof fn lemma_keyed_update<K, V>(keys: Seq<K>, vals: Seq<V>, i: int, v: V)
    requires
        distinct(keys),
        keys.len() == vals.len(),
        0 <= i < keys.len(),
    ensures
        keyed_map(keys, vals.update(i, v)) == keyed_map(keys, vals).insert(keys[i], v),
{
    let a = keyed_map(keys, vals.update(i, v));
    let b = keyed_map(keys, vals).insert(keys[i], v);
    assert forall|k: K| #[trigger] a.contains_key(k) implies b.contains_key(k) && a[k] == b[k] by {
        let j = choose|j: int| 0 <= j < keys.len() && keys[j] == k;
        lemma_keyed_at(keys, vals.update(i, v), j);
        lemma_keyed_at(keys, vals, j);
    }
    assert forall|k: K| #[trigger] b.contains_key(k) implies a.contains_key(k) by {
        if k != keys[i] {
            let j = choose|j: int| 0 <= j < keys.len() && keys[j] == k;
            lemma_keyed_at(keys, vals.update(i, v), j);
        } else {
            lemma_keyed_at(keys, vals.update(i, v), i);
        }
    }
    assert(a =~= b);
}

proof fn lemma_keyed_push<K, V>(keys: Seq<K>, vals: Seq<V>, k: K, v: V)
    requires
        distinct(keys),
        keys.len() == vals.len(),
        !keyed_map(keys, vals).contains_key(k),
    ensures
        distinct(keys.push(k)),
        keyed_map(keys.push(k), vals.push(v)) == keyed_map(keys, vals).insert(k, v),
{
    let n = keys.len() as int;
    assert forall|j: int| 0 <= j < n implies #[trigger] keys[j] != k by {
        lemma_keyed_at(keys, vals, j);
    }
    assert(distinct(keys.push(k))) by {
        assert forall|i: int, j: int| 0 <= i < j < n + 1 implies #[trigger] keys.push(k)[i] != #[trigger] keys.push(k)[j] by {
            if j == n {
                assert(keys[i] != k);
            } else {
                assert(keys[i] != keys[j]);
            }
        }
    }
    let a = keyed_map(keys.push(k), vals.push(v));
    let b = keyed_map(keys, vals).insert(k, v);
    assert forall|k2: K| #[trigger] a.contains_key(k2) implies b.contains_key(k2) && a[k2] == b[k2] by {
        let j = choose|j: int| 0 <= j < n + 1 && keys.push(k)[j] == k2;
        lemma_keyed_at(keys.push(k), vals.push(v), j);
        if j < n {
            lemma_keyed_at(keys, vals, j);
        }
    }
    assert forall|k2: K| #[trigger] b.contains_key(k2) implies a.contains_key(k2) by {
        if k2 != k {
            let j = choose|j: int| 0 <= j < n && keys[j] == k2;
            lemma_keyed_at(keys.push(k), vals.push(v), j);
        } else {
            lemma_keyed_at(keys.push(k), vals.push(v), n);
        }
    }
    assert(a =~= b);
}

/// Identity tables keyed by path.
#[derive(Debug)]
pub struct PathTables {
    keys: Vec<String>,
    tables: Vec<IpTable>,
}

impl PathTables {
    spec fn key_seq(&self) -> Seq<Seq<char>> {
        self.keys@.map_values(|s: String| s@)
    }

    spec fn table_seq(&self) -> Seq<TableView> {
        self.tables@.map_values(|t: IpTable| t@)
    }

    pub closed spec fn wf(&self) -> bool {
        &&& self.keys@.len() == self.tables@.len()
        &&& distinct(self.key_seq())
        &&& forall|i: int| 0 <= i < self.tables@.len() ==> (#[trigger] self.tables@[i]).wf()
    }
}

impl View for PathTables {
    type V = Map<Seq<char>, TableView>;

    closed spec fn view(&self) -> Map<Seq<char>, TableView> {
        keyed_map(self.key_seq(), self.table_seq())
    }
}

impl PathTables {
    /// Every table of a well-formed collection is well formed.
    pub proof fn lemma_wf(&self)
        requires
            self.wf(),
        ensures
            forall|p: Seq<char>| #[trigger] self@.contains_key(p) ==> table_wf(self@[p]),
    {
        assert forall|p: Seq<char>| #[trigger] self@.contains_key(p) implies table_wf(self@[p]) by {
            let i = choose|i: int| 0 <= i < self.key_seq().len() && self.key_seq()[i] == p;
            lemma_keyed_at(self.key_seq(), self.table_seq(), i);
            self.tables@[i].lemma_wf();
        }
    }

    /// An empty collection with room for `capacity` paths.
    pub fn with_capacity(capacity: usize) -> (r: Self)
        ensures
            r.wf(),
            r@ == Map::<Seq<char>, TableView>::empty(),
    {
        let r = PathTables { keys: Vec::with_capacity(capacity), tables: Vec::with_capacity(capacity) };
        assert(r@ =~= Map::<Seq<char>, TableView>::empty());
        r
    }

    fn position(&self, path: &String) -> (r: Option<usize>)
        requires
            self.wf(),
        ensures
            match r {
                Some(i) => i < self.keys@.len() && self.keys@[i as int]@ == path@,
                None => !self@.contains_key(path@),
            },
    {
        let mut i: usize = 0;
        while i < self.keys.len()
            invariant
                self.wf(),
                i <= self.keys@.len(),
                forall|j: int| 0 <= j < i ==> self.keys@[j]@ != path@,
            decreases self.keys@.len() - i,
        {
            if self.keys[i] == *path {
                return Some(i);
            }
            i = i + 1;
        }
        proof {
            assert forall|j: int| 0 <= j < self.key_seq().len() implies self.key_seq()[j] != path@ by {
                assert(self.key_seq()[j] == self.keys@[j]@);
            }
        }
        None
    }

    /// True when `path` has a table.
    pub fn contains(&self, path: &String) -> (r: bool)
        requires
            self.wf(),
        ensures
            r == self@.contains_key(path@),
    {
        match self.position(path) {
            Some(i) => {
                proof {
                    lemma_keyed_at(self.key_seq(), self.table_seq(), i as int);
                }
                true
            },
            None => false,
        }
    }

    /// Sets the table of `key`, replacing any earlier one.
    pub fn insert(&mut self, key: String, table: IpTable)
        requires
            old(self).wf(),
            table.wf(),
        ensures
            final(self).wf(),
            final(self)@ == old(self)@.insert(key@, table@),
    {
        match self.position(&key) {
            Some(i) => {
                let ghost ks = self.key_seq();
                let ghost ts = self.table_seq();
                self.tables.set(i, table);
                proof {
                    assert(self.key_seq() == ks);
                    assert(self.table_seq() =~= ts.update(i as int, table@));
                    lemma_keyed_update(ks, ts, i as int, table@);
                    assert(ks[i as int] == key@);
                }
            },
            None => {
                let ghost ks = self.key_seq();
                let ghost ts = self.table_seq();
                let ghost k = key@;
                self.keys.push(key);
                self.tables.push(table);
                proof {
                    assert(self.key_seq() =~= ks.push(k));
                    assert(self.table_seq() =~= ts.push(table@));
                    lemma_keyed_push(ks, ts, k, table@);
                }
            },
        }
    }

    /// Evicts stale callers from the table at `path`, then admits `id`;
    /// `None` when `path` has no table.
    pub fn charge(&mut self, path: &String, id: RequestIdentifier, now: u64) -> (r: Option<StoreProcessResult>)
        requires
            old(self).wf(),
        ensures
            final(self).wf(),
            old(self)@.contains_key(path@) ==> {
                let (o, t) = table_step(old(self)@[path@], id@, now);
                r == Some(o) && final(self)@ == old(self)@.insert(path@, t)
            },
            !old(self)@.contains_key(path@) ==> r is None && final(self)@ == old(self)@,
    {
        match self.position(path) {
            Some(i) => {
                let ghost ks = self.key_seq();
                let ghost ts = self.table_seq();
                proof {
                    lemma_keyed_at(ks, ts, i as int);
                }
                let mut t = self.tables.remove(i);
                t.gc(now);
                let o = t.check_or_add(id, now);
                self.tables.insert(i, t);
                proof {
                    assert(self.tables@ =~= old(self).tables@.update(i as int, t));
                    assert(self.key_seq() == ks);
                    assert(self.table_seq() =~= ts.update(i as int, t@));
                    lemma_keyed_update(ks, ts, i as int, t@);
                    assert forall|j: int| 0 <= j < self.tables@.len() implies (#[trigger] self.tables@[j]).wf() by {
                        if j != i {
                            assert(self.tables@[j] == old(self).tables@[j]);
                        }
                    }
                }
                Some(o)
            },
            None => None,
        }
    }
}

/// The abstract state of the store: a table per route path and one per
/// backend path.
pub struct StoreView {
    pub routes: Map<Seq<char>, TableView>,
    pub backends: Map<Seq<char>, TableView>,
}

/// One request of `id` for `path` at `now`: the route table decides if there
/// is one for `path`, else the backend table, else the path is not found.
pub open spec fn store_step(s: StoreView, path: Seq<char>, id: IdentityView, now: u64) -> (StoreProcessResult, StoreView) {
    if s.routes.contains_key(path) {
        let (r, t) = table_step(s.routes[path], id, now);
        (r, StoreView { routes: s.routes.insert(path, t), backends: s.backends })
    } else if s.backends.contains_key(path) {
        let (r, t) = table_step(s.backends[path], id, now);
        (r, StoreView { routes: s.routes, backends: s.backends.insert(path, t) })
    } else {
        (StoreProcessResult::NotFound, s)
    }
}

/// A fresh table with quota `lim`.
pub open spec fn empty_table(lim: nat) -> TableView {
    TableView { entries: Map::empty(), lim }
}

/// `m` after adding, in order, a fresh table for each backend.
pub open spec fn with_backends(m: Map<Seq<char>, TableView>, bs: Seq<BackendConfig>) -> Map<Seq<char>, TableView>
    decreases bs.len(),
{
    if bs.len() == 0 {
        m
    } else {
        with_backends(m, bs.drop_last()).insert(
            backend_key(bs.last()),
            empty_table(quota_of(bs.last().rate_limit_ip_min)),
        )
    }
}

/// `m` after adding, in order, a fresh table for each route.
pub open spec fn with_routes(m: Map<Seq<char>, TableView>, rs: Seq<RouteConfig>) -> Map<Seq<char>, TableView>
    decreases rs.len(),
{
    if rs.len() == 0 {
        m
    } else {
        with_routes(m, rs.drop_last()).insert(rs.last().url@, empty_table(quota_of(rs.last().rate_limit_ip_min)))
    }
}

/// All rate-limit state of the gateway.
#[derive(Debug)]
pub struct InMemoryStore {
    backend_store: PathTables,
    routes_store: PathTables,
}

impl View for InMemoryStore {
    type V = StoreView;

    closed spec fn view(&self) -> StoreView {
        StoreView { routes: self.routes_store@, backends: self.backend_store@ }
    }
}

impl InMemoryStore {
    pub closed spec fn wf(&self) -> bool {
        self.backend_store.wf() && self.routes_store.wf()
    }

    /// Every table of a well-formed store is well formed.
    pub proof fn lemma_wf(&self)
        requires
            self.wf(),
        ensures
            forall|p: Seq<char>| #[trigger] self@.routes.contains_key(p) ==> table_wf(self@.routes[p]),
            forall|p: Seq<char>| #[trigger] self@.backends.contains_key(p) ==> table_wf(self@.backends[p]),
    {
        self.routes_store.lemma_wf();
        self.backend_store.lemma_wf();
    }

    /// A store with no routes and no backends, with room for `rcount`
    /// routes and `bcount` backends.
    pub fn init_empty(rcount: usize, bcount: usize) -> (r: Self)
        ensures
            r.wf(),
            r@.routes == Map::<Seq<char>, TableView>::empty(),
            r@.backends == Map::<Seq<char>, TableView>::empty(),
    {
        InMemoryStore {
            backend_store: PathTables::with_capacity(bcount),
            routes_store: PathTables::with_capacity(rcount),
        }
    }

    /// Adds a fresh table for every backend and every route of `config`; a
    /// later entry with the same key replaces an earlier one.
    pub fn fill(&mut self, config: &AegisConfig)
        requires
            old(self).wf(),
            config.quotas_positive(),
        ensures
            final(self).wf(),
            final(self)@.backends == with_backends(old(self)@.backends, config.backends()),
            final(self)@.routes == with_routes(old(self)@.routes, config.routes()),
    {
        let backends = config.backend_config();
        let mut i: usize = 0;
        while i < backends.len()
            invariant
                self.wf(),
                config.quotas_positive(),
                backends@ == config.backends(),
                i <= backends@.len(),
                self@.backends == with_backends(old(self)@.backends, backends@.take(i as int)),
                self@.routes == old(self)@.routes,
            decreases backends@.len() - i,
        {
            let bcfg = &backends[i];
            let url = match &bcfg.prefix {
                Some(pfx) => {
                    let mut r_url = bcfg.url.clone();
                    r_url.append(pfx.as_str());
                    r_url
                },
                None => bcfg.url.clone(),
            };
            let size = match bcfg.rate_limit_ip_min {
                Some(v) => v,
                None => crate::config::DEFAULT_QUOTA,
            };
            assert(quota_of(backends@[i as int].rate_limit_ip_min) > 0);
            let table = IpTable::init_table(size as usize);
            self.backend_store.insert(url, table);
            proof {
                assert(backends@.take(i + 1).drop_last() =~= backends@.take(i as int));
            }
            i = i + 1;
        }
        assert(backends@.take(i as int) =~= backends@);
        let routes = config.route_config();
        let mut i: usize = 0;
        while i < routes.len()
            invariant
                self.wf(),
                config.quotas_positive(),
                routes@ == config.routes(),
                i <= routes@.len(),
                self@.routes == with_routes(old(self)@.routes, routes@.take(i as int)),
                self@.backends == with_backends(old(self)@.backends, config.backends()),
            decreases routes@.len() - i,
        {
            let rcfg = &routes[i];
            let url = rcfg.url.clone();
            let size = match rcfg.rate_limit_ip_min {
                Some(v) => v,
                None => crate::config::DEFAULT_QUOTA,
            };
            assert(quota_of(routes@[i as int].rate_limit_ip_min) > 0);
            let table = IpTable::init_table(size as usize);
            self.routes_store.insert(url, table);
            proof {
                assert(routes@.take(i + 1).drop_last() =~= routes@.take(i as int));
            }
            i = i + 1;
        }
        assert(routes@.take(i as int) =~= routes@);
    }

    /// Decides one request of `ip` for `rpath` at `now` (milliseconds): the
    /// route table of `rpath` if there is one, else its backend table, else
    /// `NotFound`. The table that decides first evicts its stale callers.
    pub fn process(&mut self, rpath: String, ip: RequestIdentifier, now: u64) -> (r: StoreProcessResult)
        requires
            old(self).wf(),
        ensures
            final(self).wf(),
            (r, final(self)@) == store_step(old(self)@, rpath@, ip@, now),
    {
        if self.routes_store.contains(&rpath) {
            match self.routes_store.charge(&rpath, ip, now) {
                Some(r) => r,
                None => StoreProcessResult::NotFound,
            }
        } else {
            match self.backend_store.charge(&rpath, ip, now) {
                Some(r) => r,
                None => StoreProcessResult::NotFound,
            }
        }
    }
}

} // verus!
