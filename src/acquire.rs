//! Taking a connection from the pool when candidates may fail their
//! liveness probe: the probe decision, and what repeated `get` calls whose
//! candidates are dropped do to the pool.
use vstd::prelude::*;

use crate::pool::{
    freshest_live, index_of, lemma_index_of, lemma_total_remove, lemma_total_update, model_ok,
    set_queue, take_idle, total_of, PoolModel, PooledConn,
};

verus! {

/// Connections queued for `addr`.
pub open spec fn queue_len<C>(m: PoolModel<C>, addr: Seq<u8>) -> nat {
    match index_of(m, addr) {
        Some(i) => m[i].1.len(),
        None => 0,
    }
}

/// The pool after `n` calls of `get` for `addr` at clock reading `now`,
/// each handing out a candidate that is then dropped.
pub open spec fn take_idle_n<C>(m: PoolModel<C>, addr: Seq<u8>, now: u64, limit: u64, n: nat) -> PoolModel<C>
    decreases n,
{
    if n == 0 {
        m
    } else {
        take_idle(take_idle_n(m, addr, now, limit, (n - 1) as nat), addr, now, limit).0
    }
}

/// Whether a pooled candidate passes its liveness probe: the peek saw at
/// least one byte. `Some(0)` is a peer that closed; `None` is a probe that
/// failed or ran out of time.
pub fn probe_keeps(peeked: Option<usize>) -> (r: bool)
    ensures
        r == (peeked is Some && peeked->Some_0 > 0),
{
    match peeked {
        Some(n) => n > 0,
        None => false,
    }
}

proof fn lemma_freshest_live_range<C>(q: Seq<PooledConn<C>>, now: u64, limit: u64)
    ensures
        freshest_live(q, now, limit) matches Some(k) ==> 0 <= k < q.len(),
    decreases q.len(),
{
    if q.len() > 0 {
        lemma_freshest_live_range(q.drop_last(), now, limit);
    }
}

/// Replacing a queue keeps the pool well formed and moves the count by the
/// change in that queue's length.
proof fn lemma_set_queue<C>(m: PoolModel<C>, i: int, q: Seq<PooledConn<C>>)
    requires
        model_ok(m),
        0 <= i < m.len(),
    ensures
        model_ok(set_queue(m, i, q)),
        total_of(set_queue(m, i, q)) == total_of(m) - m[i].1.len() + q.len(),
        queue_len(set_queue(m, i, q), m[i].0) == q.len(),
{
    let a = m[i].0;
    if q.len() == 0 {
        lemma_total_remove(m, i);
        let r = m.remove(i);
        assert forall|x: int, y: int| 0 <= x < y < r.len() implies #[trigger] r[x].0 != #[trigger] r[y].0 by {
            let x2 = if x < i { x } else { x + 1 };
            let y2 = if y < i { y } else { y + 1 };
            assert(r[x] == m[x2]);
            assert(r[y] == m[y2]);
        }
        assert forall|x: int| 0 <= x < r.len() implies #[trigger] r[x].1.len() > 0 by {
            let x2 = if x < i { x } else { x + 1 };
            assert(r[x] == m[x2]);
        }
        assert forall|x: int| 0 <= x < r.len() implies #[trigger] r[x].0 != a by {
            let x2 = if x < i { x } else { x + 1 };
            assert(r[x] == m[x2]);
        }
    } else {
        lemma_total_update(m, i, (a, q));
        let r = m.update(i, (a, q));
        assert forall|x: int, y: int| 0 <= x < y < r.len() implies #[trigger] r[x].0 != #[trigger] r[y].0 by {
            assert(r[x].0 == m[x].0);
            assert(r[y].0 == m[y].0);
        }
        assert forall|x: int| 0 <= x < r.len() implies #[trigger] r[x].1.len() > 0 by {
            if x != i {
                assert(r[x] == m[x]);
            }
        }
        lemma_index_of(r, a, i);
    }
}

/// One `get` keeps the pool well formed, shortens the queue of `addr` when
/// there is one (and changes nothing otherwise), and lowers the count by
/// exactly what left that queue.
proof fn lemma_take_idle_shrinks<C>(m: PoolModel<C>, addr: Seq<u8>, now: u64, limit: u64)
    requires
        model_ok(m),
    ensures
        model_ok(take_idle(m, addr, now, limit).0),
        queue_len(m, addr) == 0 ==> take_idle(m, addr, now, limit).0 == m
            && take_idle(m, addr, now, limit).1 is None,
        queue_len(m, addr) > 0 ==> queue_len(take_idle(m, addr, now, limit).0, addr) < queue_len(
            m,
            addr,
        ),
        total_of(take_idle(m, addr, now, limit).0) + queue_len(m, addr) == total_of(m) + queue_len(
            take_idle(m, addr, now, limit).0,
            addr,
        ),
{
    match index_of(m, addr) {
        None => {},
        Some(i) => {
            assert(0 <= i < m.len() && m[i].0 == addr);
            lemma_freshest_live_range(m[i].1, now, limit);
            match freshest_live(m[i].1, now, limit) {
                Some(k) => {
                    lemma_set_queue(m, i, m[i].1.subrange(0, k));
                },
                None => {
                    lemma_set_queue(m, i, Seq::empty());
                },
            }
        },
    }
}

/// When every candidate that `get` hands out for `addr` fails its liveness
/// probe and is dropped, as many calls as `addr` had queued connections
/// leave it with none: the next call hands out nothing, so a new connection
/// is made, and the count has fallen by exactly that queue's length.
pub proof fn lemma_failed_probes_drain<C>(m: PoolModel<C>, addr: Seq<u8>, now: u64, limit: u64)
    requires
        model_ok(m),
    ensures
        model_ok(take_idle_n(m, addr, now, limit, queue_len(m, addr))),
        queue_len(take_idle_n(m, addr, now, limit, queue_len(m, addr)), addr) == 0,
        take_idle(take_idle_n(m, addr, now, limit, queue_len(m, addr)), addr, now, limit).1 is None,
        total_of(take_idle_n(m, addr, now, limit, queue_len(m, addr))) == total_of(m) - queue_len(
            m,
            addr,
        ),
{
    lemma_drain_steps(m, addr, now, limit, queue_len(m, addr));
    let d = take_idle_n(m, addr, now, limit, queue_len(m, addr));
    lemma_take_idle_shrinks(d, addr, now, limit);
}

proof fn lemma_drain_steps<C>(m: PoolModel<C>, addr: Seq<u8>, now: u64, limit: u64, n: nat)
    requires
        model_ok(m),
    ensures
        model_ok(take_idle_n(m, addr, now, limit, n)),
        queue_len(take_idle_n(m, addr, now, limit, n), addr) + n <= queue_len(m, addr)
            || queue_len(take_idle_n(m, addr, now, limit, n), addr) == 0,
        total_of(take_idle_n(m, addr, now, limit, n)) + queue_len(m, addr) == total_of(m)
            + queue_len(take_idle_n(m, addr, now, limit, n), addr),
    decreases n,
{
    if n > 0 {
        lemma_drain_steps(m, addr, now, limit, (n - 1) as nat);
        let p = take_idle_n(m, addr, now, limit, (n - 1) as nat);
        lemma_take_idle_shrinks(p, addr, now, limit);
    }
}

} // verus!
