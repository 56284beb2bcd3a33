//! What the evictions after a return take, over the whole run: with queues
//! in return order, `recycle` drops the connections returned earliest of
//! all, earliest first, each from the head of its queue.
use vstd::prelude::*;

use crate::pool::{
    evict_n, evict_one, excess, index_of, lemma_evict_one, lemma_eviction_takes_oldest, model_ok,
    oldest_upto, push_conn, queues_ordered, returned_by, total_of, PoolModel, PooledConn,
};

verus! {

/// The connection the next eviction takes: the head picked by `oldest_upto`.
pub open spec fn next_evicted<C>(m: PoolModel<C>) -> PooledConn<C> {
    m[oldest_upto(m, m.len())].1[0]
}

/// No pooled connection was returned before `t`.
pub open spec fn returned_from<C>(m: PoolModel<C>, t: u64) -> bool {
    forall|i: int, k: int|
        0 <= i < m.len() && 0 <= k < m[i].1.len() ==> t <= #[trigger] m[i].1[k].last_used
}

proof fn lemma_evict_keeps_lower_bound<C>(m: PoolModel<C>, t: u64)
    requires
        model_ok(m),
        m.len() > 0,
        returned_from(m, t),
    ensures
        returned_from(evict_one(m), t),
{
    crate::pool::lemma_oldest_upto(m, m.len());
    let i = oldest_upto(m, m.len());
    let q = m[i].1.drop_first();
    let r = evict_one(m);
    if q.len() == 0 {
        assert forall|j: int, k: int| 0 <= j < r.len() && 0 <= k < r[j].1.len() implies t
            <= #[trigger] r[j].1[k].last_used by {
            let j2 = if j < i { j } else { j + 1 };
            assert(r[j] == m[j2]);
        }
    } else {
        assert forall|j: int, k: int| 0 <= j < r.len() && 0 <= k < r[j].1.len() implies t
            <= #[trigger] r[j].1[k].last_used by {
            if j == i {
                assert(r[j].1[k] == m[i].1[k + 1]);
            }
        }
    }
}

proof fn lemma_evict_n_shape<C>(e: PoolModel<C>, n: nat)
    requires
        model_ok(e),
        queues_ordered(e),
        n <= total_of(e),
    ensures
        model_ok(evict_n(e, n)),
        queues_ordered(evict_n(e, n)),
        total_of(evict_n(e, n)) == total_of(e) - n,
    decreases n,
{
    if n > 0 {
        lemma_evict_n_shape(e, (n - 1) as nat);
        let m = evict_n(e, (n - 1) as nat);
        if m.len() == 0 {
            assert(total_of(m) == 0);
        }
        lemma_evict_one(m);
    }
}

/// With queues in return order, the `d` evictions of a pool `e` (as many as
/// `recycle` makes past the cap) lower the count by `d` and take the `d`
/// connections returned earliest: each one taken was returned no later than
/// any connection that stays, and no later than any taken after it.
pub proof fn lemma_evictions_take_earliest<C>(e: PoolModel<C>, d: nat)
    requires
        model_ok(e),
        queues_ordered(e),
        d <= total_of(e),
    ensures
        model_ok(evict_n(e, d)),
        total_of(evict_n(e, d)) == total_of(e) - d,
        forall|j: nat|
            j < d ==> returned_from(evict_n(e, d), #[trigger] next_evicted(evict_n(e, j)).last_used),
        forall|j: nat, k: nat|
            j < k < d ==> #[trigger] next_evicted(evict_n(e, j)).last_used <= #[trigger] next_evicted(
                evict_n(e, k),
            ).last_used,
    decreases d,
{
    lemma_evict_n_shape(e, d);
    if d > 0 {
        let p = (d - 1) as nat;
        lemma_evictions_take_earliest(e, p);
        let m = evict_n(e, p);
        lemma_evict_n_shape(e, p);
        if m.len() == 0 {
            assert(total_of(m) == 0);
        }
        lemma_eviction_takes_oldest(m);
        crate::pool::lemma_oldest_upto(m, m.len());
        let i = oldest_upto(m, m.len());
        let t = next_evicted(m).last_used;
        assert(returned_from(m, t));
        lemma_evict_keeps_lower_bound(m, t);
        assert(evict_n(e, d) == evict_one(m));
        assert forall|j: nat| j < d implies returned_from(
            evict_n(e, d),
            #[trigger] next_evicted(evict_n(e, j)).last_used,
        ) by {
            if j < p {
                lemma_evict_keeps_lower_bound(m, next_evicted(evict_n(e, j)).last_used);
            }
        }
        assert forall|j: nat, k: nat| j < k < d implies #[trigger] next_evicted(
            evict_n(e, j),
        ).last_used <= #[trigger] next_evicted(evict_n(e, k)).last_used by {
            if k == p {
                assert(m[i].1.len() > 0);
                assert(next_evicted(evict_n(e, j)).last_used <= m[i].1[0].last_used);
            }
        }
    }
}

proof fn lemma_push_conn_ordered<C>(m: PoolModel<C>, addr: Seq<u8>, c: C, now: u64)
    requires
        model_ok(m),
        queues_ordered(m),
        returned_by(m, now),
    ensures
        model_ok(push_conn(m, addr, PooledConn { conn: c, last_used: now })),
        queues_ordered(push_conn(m, addr, PooledConn { conn: c, last_used: now })),
{
    let x = PooledConn { conn: c, last_used: now };
    let r = push_conn(m, addr, x);
    match index_of(m, addr) {
        Some(i) => {
            assert(0 <= i < m.len() && m[i].0 == addr);
            assert forall|a: int, b: int| 0 <= a < b < r.len() implies #[trigger] r[a].0 != #[trigger] r[b].0 by {
                assert(r[a].0 == m[a].0);
                assert(r[b].0 == m[b].0);
            }
            assert forall|a: int| 0 <= a < r.len() implies #[trigger] r[a].1.len() > 0 by {
                if a != i {
                    assert(r[a] == m[a]);
                }
            }
            assert forall|j: int, a: int, b: int|
                0 <= j < r.len() && 0 <= a < b < r[j].1.len() implies #[trigger] r[j].1[a].last_used
                <= #[trigger] r[j].1[b].last_used by {
                if j == i && b == r[j].1.len() - 1 {
                    assert(r[j].1[a] == m[j].1[a]);
                } else if j == i {
                    assert(r[j].1[a] == m[j].1[a]);
                    assert(r[j].1[b] == m[j].1[b]);
                }
            }
        },
        None => {
            assert forall|a: int, b: int| 0 <= a < b < r.len() implies #[trigger] r[a].0 != #[trigger] r[b].0 by {
                if b == r.len() - 1 {
                    assert(r[a].0 == m[a].0);
                    assert(!(0 <= a < m.len() && m[a].0 == addr));
                }
            }
        },
    }
}

/// What `recycle` does, read through its contract: when the queues are in
/// return order and no connection was returned after `now`, the returned
/// connection joins its queue and the evictions past the cap take the
/// connections returned earliest, earliest first.
pub proof fn lemma_recycle_evicts_earliest<C>(m: PoolModel<C>, addr: Seq<u8>, c: C, now: u64, cap: nat)
    requires
        model_ok(m),
        queues_ordered(m),
        returned_by(m, now),
    ensures
        ({
            let e = push_conn(m, addr, PooledConn { conn: c, last_used: now });
            let d = excess(e, cap);
            &&& total_of(evict_n(e, d)) == total_of(e) - d
            &&& forall|j: nat|
                j < d ==> returned_from(evict_n(e, d), #[trigger] next_evicted(evict_n(e, j)).last_used)
            &&& forall|j: nat, k: nat|
                j < k < d ==> #[trigger] next_evicted(evict_n(e, j)).last_used
                    <= #[trigger] next_evicted(evict_n(e, k)).last_used
        }),
{
    lemma_push_conn_ordered(m, addr, c, now);
    let e = push_conn(m, addr, PooledConn { conn: c, last_used: now });
    lemma_evictions_take_earliest(e, excess(e, cap));
}

} // verus!
