//! What the store promises over sequences of requests.
use vstd::prelude::*;
use crate::counter::{DurationCount, StoreProcessResult, WINDOW_MS, stale_at};
use crate::identity::IdentityView;
use crate::store::{StoreView, store_step};
use crate::table::{TableView, admitted, evicted, fresh_counter, table_step, table_wf};

verus! {

/// The table after caller `id` made one request at each of `times`, in order.
pub open spec fn after_requests(t: TableView, id: IdentityView, times: Seq<u64>) -> TableView
    decreases times.len(),
{
    if times.len() == 0 {
        t
    } else {
        table_step(after_requests(t, id, times.drop_last()), id, times.last()).1
    }
}

/// The outcome of the `k`-th (from zero) of the requests at `times`.
pub open spec fn nth_outcome(t: TableView, id: IdentityView, times: Seq<u64>, k: int) -> StoreProcessResult {
    table_step(after_requests(t, id, times.take(k)), id, times[k]).0
}

/// One request keeps a table well formed.
pub proof fn lemma_step_wf(t: TableView, id: IdentityView, now: u64)
    requires
        table_wf(t),
    ensures
        table_wf(table_step(t, id, now).1),
        table_step(t, id, now).1.lim == t.lim,
{
    let e = evicted(t, now);
    assert(table_wf(e));
    let t2 = table_step(t, id, now).1;
    assert forall|k: IdentityView| #[trigger] t2.entries.contains_key(k) implies {
        &&& t2.entries[k].wf()
        &&& t2.entries[k].size == t2.lim
    } by {
        if k != id {
            assert(t2.entries[k] == e.entries[k]);
        } else if e.entries.contains_key(id) {
            let c = e.entries[id];
            assert(c.wf() && c.size == t.lim);
            assert(c.refreshed(now).wf());
        }
    }
}

proof fn lemma_in_window(t: TableView, id: IdentityView, times: Seq<u64>, k: int)
    requires
        table_wf(t),
        !t.entries.contains_key(id),
        1 <= k <= times.len(),
        forall|j: int| 0 <= j < times.len() ==> times[0] <= #[trigger] times[j] < times[0] + WINDOW_MS,
    ensures
        table_wf(after_requests(t, id, times.take(k))),
        after_requests(t, id, times.take(k)).lim == t.lim,
        after_requests(t, id, times.take(k)).entries.contains_key(id),
        after_requests(t, id, times.take(k)).entries[id] == (DurationCount {
            start: times[0],
            remain: if k <= t.lim { (t.lim - k) as usize } else { 0usize },
            size: t.lim as usize,
        }),
    decreases k,
{
    let prev = times.take(k - 1);
    assert(times.take(k).drop_last() =~= prev);
    assert(times.take(k).last() == times[k - 1]);
    assert(after_requests(t, id, times.take(k)) == table_step(after_requests(t, id, prev), id, times[k - 1]).1);
    if k == 1 {
        assert(prev =~= Seq::<u64>::empty());
        assert(!evicted(t, times[0]).entries.contains_key(id));
        lemma_step_wf(t, id, times[0]);
    } else {
        lemma_in_window(t, id, times, k - 1);
        let a = after_requests(t, id, prev);
        let now = times[k - 1];
        assert(times[0] <= now < times[0] + WINDOW_MS);
        assert(!stale_at(a.entries[id].start as int, now as int));
        assert(evicted(a, now).entries.contains_key(id));
        lemma_step_wf(a, id, now);
    }
}

/// Within one window, a new caller of a table with quota `q` is let through
/// on each of its first `q` requests and refused on the next one.
pub proof fn quota_conservation(t: TableView, id: IdentityView, times: Seq<u64>)
    requires
        table_wf(t),
        !t.entries.contains_key(id),
        times.len() == t.lim + 1,
        forall|j: int| 0 <= j < times.len() ==> times[0] <= #[trigger] times[j] < times[0] + WINDOW_MS,
    ensures
        forall|k: int| 0 <= k < t.lim ==> nth_outcome(t, id, times, k) == StoreProcessResult::Continue,
        nth_outcome(t, id, times, t.lim as int) == StoreProcessResult::RateLimitExceeded,
{
    assert forall|k: int| 0 <= k < t.lim implies nth_outcome(t, id, times, k) == StoreProcessResult::Continue by {
        if k == 0 {
            assert(times.take(0) =~= Seq::<u64>::empty());
            assert(!evicted(t, times[0]).entries.contains_key(id));
        } else {
            lemma_in_window(t, id, times, k);
            let a = after_requests(t, id, times.take(k));
            assert(times[0] <= times[k] < times[0] + WINDOW_MS);
            assert(evicted(a, times[k]).entries.contains_key(id));
        }
    }
    let q = t.lim as int;
    lemma_in_window(t, id, times, q);
    let a = after_requests(t, id, times.take(q));
    assert(times[0] <= times[q] < times[0] + WINDOW_MS);
    assert(evicted(a, times[q]).entries.contains_key(id));
}

/// Once a caller's window has ended, its next request is let through and
/// starts a new window with the full quota less that request.
pub proof fn window_rollover(t: TableView, id: IdentityView, now: u64)
    requires
        table_wf(t),
        t.entries.contains_key(id),
        now >= t.entries[id].start + WINDOW_MS,
    ensures
        table_step(t, id, now).0 == StoreProcessResult::Continue,
        table_step(t, id, now).1.entries[id] == fresh_counter(t.lim, now),
{
}

/// A caller whose counter is stale is removed by the sweep, and its next
/// request is handled as a first contact.
pub proof fn stale_eviction(t: TableView, id: IdentityView, now: u64)
    requires
        table_wf(t),
        t.entries.contains_key(id),
        stale_at(t.entries[id].start as int, now as int),
    ensures
        !evicted(t, now).entries.contains_key(id),
        table_step(t, id, now) == admitted(evicted(t, now), id, now),
        table_step(t, id, now).0 == StoreProcessResult::Continue,
        table_step(t, id, now).1.entries[id] == fresh_counter(t.lim, now),
{
}

/// A path with a route is decided by the route's table alone; its backend
/// table, if any, is left as it was.
pub proof fn route_governs(s: StoreView, path: Seq<char>, id: IdentityView, now: u64)
    requires
        s.routes.contains_key(path),
    ensures
        store_step(s, path, id, now).0 == table_step(s.routes[path], id, now).0,
        store_step(s, path, id, now).1 == (StoreView {
            routes: s.routes.insert(path, table_step(s.routes[path], id, now).1),
            backends: s.backends,
        }),
{
}

/// A route's own quota governs its path: with a quota of one, the second
/// request of a new caller within the window is refused, and the backend
/// table of the same path is left untouched.
pub proof fn route_precedence(s: StoreView, path: Seq<char>, id: IdentityView, now1: u64, now2: u64)
    requires
        s.routes.contains_key(path),
        table_wf(s.routes[path]),
        s.routes[path].lim == 1,
        !s.routes[path].entries.contains_key(id),
        now1 <= now2 < now1 + WINDOW_MS,
    ensures
        store_step(s, path, id, now1).0 == StoreProcessResult::Continue,
        store_step(store_step(s, path, id, now1).1, path, id, now2).0
            == StoreProcessResult::RateLimitExceeded,
        store_step(store_step(s, path, id, now1).1, path, id, now2).1.backends == s.backends,
{
    let t1 = table_step(s.routes[path], id, now1).1;
    assert(!evicted(s.routes[path], now1).entries.contains_key(id));
    assert(t1.entries[id] == fresh_counter(1, now1));
    assert(evicted(t1, now2).entries.contains_key(id));
}

/// A path with no route but a backend is decided by the backend's table alone.
pub proof fn backend_fallback(s: StoreView, path: Seq<char>, id: IdentityView, now: u64)
    requires
        !s.routes.contains_key(path),
        s.backends.contains_key(path),
    ensures
        store_step(s, path, id, now).0 == table_step(s.backends[path], id, now).0,
        store_step(s, path, id, now).1 == (StoreView {
            routes: s.routes,
            backends: s.backends.insert(path, table_step(s.backends[path], id, now).1),
        }),
{
}

/// A path with neither a route nor a backend is never found, and changes nothing.
pub proof fn unmatched_path(s: StoreView, path: Seq<char>, id: IdentityView, now: u64)
    requires
        !s.routes.contains_key(path),
        !s.backends.contains_key(path),
    ensures
        store_step(s, path, id, now) == (StoreProcessResult::NotFound, s),
{
}

/// A request of caller `a` does not change what a later request of another
/// caller `b` to the same table gets, nor `b`'s counter after it.
pub proof fn caller_isolation(t: TableView, a: IdentityView, b: IdentityView, now1: u64, now2: u64)
    requires
        table_wf(t),
        a != b,
        now1 <= now2,
    ensures
        table_step(table_step(t, a, now1).1, b, now2).0 == table_step(t, b, now2).0,
        table_step(table_step(t, a, now1).1, b, now2).1.entries[b] == table_step(t, b, now2).1.entries[b],
{
    let t1 = table_step(t, a, now1).1;
    let e1 = evicted(t1, now2);
    let e0 = evicted(t, now2);
    assert(t1.lim == t.lim);
    assert(e1.entries.contains_key(b) == e0.entries.contains_key(b));
    if e0.entries.contains_key(b) {
        assert(e1.entries[b] == e0.entries[b]);
    }
}

/// A request for one path leaves every other path's tables, and the set of
/// configured paths, as they were.
pub proof fn path_isolation(s: StoreView, path: Seq<char>, id: IdentityView, now: u64)
    ensures
        store_step(s, path, id, now).1.routes.remove(path) == s.routes.remove(path),
        store_step(s, path, id, now).1.backends.remove(path) == s.backends.remove(path),
        store_step(s, path, id, now).1.routes.dom() == s.routes.dom(),
        store_step(s, path, id, now).1.backends.dom() == s.backends.dom(),
{
    let s2 = store_step(s, path, id, now).1;
    assert(s2.routes.remove(path) =~= s.routes.remove(path));
    assert(s2.backends.remove(path) =~= s.backends.remove(path));
    assert(s2.routes.dom() =~= s.routes.dom());
    assert(s2.backends.dom() =~= s.backends.dom());
}

} // verus!
