//! The upstream connection pool's bookkeeping: idle connections queued per
//! upstream address (oldest returned at the head), a count kept equal to the
//! number of queued connections, reuse of the freshest connection that has
//! not been idle too long, and eviction of the oldest head when the count
//! passes the cap. Time is a millisecond clock reading supplied by the
//! caller; the connection type is left open.
use vstd::prelude::*;

use vstd::string::StringSliceAdditionalSpecFns;

use crate::bytes::{bytes_eq, push_all};
use crate::config::PoolConfig;

verus! {

/// An idle connection and the clock reading at which it was returned.
pub struct PooledConn<C> {
    pub conn: C,
    pub last_used: u64,
}

struct AddrQueue<C> {
    addr: Vec<u8>,
    conns: Vec<PooledConn<C>>,
}

/// The pool as a sequence of (address, queue) pairs, in the order the
/// addresses were first seen.
pub type PoolModel<C> = Seq<(Seq<u8>, Seq<PooledConn<C>>)>;

/// Number of connections over all queues.
pub open spec fn total_of<C>(m: PoolModel<C>) -> nat
    decreases m.len(),
{
    if m.len() == 0 {
        0
    } else {
        total_of(m.drop_last()) + m.last().1.len()
    }
}

/// Addresses are distinct and no queue is empty.
pub open spec fn model_ok<C>(m: PoolModel<C>) -> bool {
    &&& forall|i: int, j: int| 0 <= i < j < m.len() ==> #[trigger] m[i].0 != #[trigger] m[j].0
    &&& forall|i: int| 0 <= i < m.len() ==> #[trigger] m[i].1.len() > 0
}

/// Position of the queue for `addr`.
pub open spec fn index_of<C>(m: PoolModel<C>, addr: Seq<u8>) -> Option<int> {
    if exists|i: int| 0 <= i < m.len() && #[trigger] m[i].0 == addr {
        Some(choose|i: int| 0 <= i < m.len() && #[trigger] m[i].0 == addr)
    } else {
        None
    }
}

/// Replaces queue `i`, dropping the address when the queue is empty.
pub open spec fn set_queue<C>(m: PoolModel<C>, i: int, q: Seq<PooledConn<C>>) -> PoolModel<C> {
    if q.len() == 0 {
        m.remove(i)
    } else {
        m.update(i, (m[i].0, q))
    }
}

/// A connection returned at `last_used` has been idle too long at `now`.
pub open spec fn expired<C>(c: PooledConn<C>, now: u64, limit: u64) -> bool {
    now - c.last_used > limit
}

/// Position of the most recently returned connection of `q` that has not
/// been idle too long.
pub open spec fn freshest_live<C>(q: Seq<PooledConn<C>>, now: u64, limit: u64) -> Option<int>
    decreases q.len(),
{
    if q.len() == 0 {
        None
    } else if !expired(q.last(), now, limit) {
        Some(q.len() - 1)
    } else {
        freshest_live(q.drop_last(), now, limit)
    }
}

/// What taking an idle connection for `addr` does: connections after the
/// freshest live one (all expired) are dropped, and that one is handed out.
pub open spec fn take_idle<C>(m: PoolModel<C>, addr: Seq<u8>, now: u64, limit: u64) -> (
    PoolModel<C>,
    Option<C>,
) {
    match index_of(m, addr) {
        None => (m, None),
        Some(i) => match freshest_live(m[i].1, now, limit) {
            Some(k) => (set_queue(m, i, m[i].1.subrange(0, k)), Some(m[i].1[k].conn)),
            None => (set_queue(m, i, Seq::empty()), None),
        },
    }
}

/// Appends a returned connection to the tail of its address's queue.
pub open spec fn push_conn<C>(m: PoolModel<C>, addr: Seq<u8>, e: PooledConn<C>) -> PoolModel<C> {
    match index_of(m, addr) {
        Some(i) => m.update(i, (addr, m[i].1.push(e))),
        None => m.push((addr, seq![e])),
    }
}

/// Among the first `n` queues, the first whose head was returned earliest;
/// `-1` when all of them are empty.
pub open spec fn oldest_upto<C>(m: PoolModel<C>, n: nat) -> int
    decreases n,
{
    if n == 0 {
        -1
    } else {
        let k = oldest_upto(m, (n - 1) as nat);
        let j = n - 1;
        if m[j].1.len() > 0 && (k < 0 || m[j].1[0].last_used < m[k].1[0].last_used) {
            j
        } else {
            k
        }
    }
}

/// Drops the head of the queue that `oldest_upto` picks over all queues.
pub open spec fn evict_one<C>(m: PoolModel<C>) -> PoolModel<C> {
    let i = oldest_upto(m, m.len());
    if i < 0 {
        m
    } else {
        set_queue(m, i, m[i].1.drop_first())
    }
}

/// `n` evictions in a row.
pub open spec fn evict_n<C>(m: PoolModel<C>, n: nat) -> PoolModel<C>
    decreases n,
{
    if n == 0 {
        m
    } else {
        evict_one(evict_n(m, (n - 1) as nat))
    }
}

/// How many connections past `cap` a pool of `m` holds.
pub open spec fn excess<C>(m: PoolModel<C>, cap: nat) -> nat {
    if total_of(m) > cap {
        (total_of(m) - cap) as nat
    } else {
        0
    }
}

/// Within each queue, return times never decrease from head to tail.
pub open spec fn queues_ordered<C>(m: PoolModel<C>) -> bool {
    forall|i: int, a: int, b: int|
        0 <= i < m.len() && 0 <= a < b < m[i].1.len() ==> #[trigger] m[i].1[a].last_used
            <= #[trigger] m[i].1[b].last_used
}

/// No connection was returned after `now`.
pub open spec fn returned_by<C>(m: PoolModel<C>, now: u64) -> bool {
    forall|i: int, k: int| 0 <= i < m.len() && 0 <= k < m[i].1.len() ==> #[trigger] m[i].1[k].last_used <= now
}

pub proof fn lemma_total_update<C>(m: PoolModel<C>, i: int, x: (Seq<u8>, Seq<PooledConn<C>>))
    requires
        0 <= i < m.len(),
    ensures
        total_of(m.update(i, x)) == total_of(m) - m[i].1.len() + x.1.len(),
    decreases m.len(),
{
    if i < m.len() - 1 {
        lemma_total_update(m.drop_last(), i, x);
        assert(m.update(i, x).drop_last() =~= m.drop_last().update(i, x));
    } else {
        assert(m.update(i, x).drop_last() =~= m.drop_last());
    }
}

pub proof fn lemma_total_remove<C>(m: PoolModel<C>, i: int)
    requires
        0 <= i < m.len(),
    ensures
        total_of(m.remove(i)) == total_of(m) - m[i].1.len(),
    decreases m.len(),
{
    if i < m.len() - 1 {
        lemma_total_remove(m.drop_last(), i);
        assert(m.remove(i).drop_last() =~= m.drop_last().remove(i));
    } else {
        assert(m.remove(i) =~= m.drop_last());
    }
}

pub proof fn lemma_total_push<C>(m: PoolModel<C>, x: (Seq<u8>, Seq<PooledConn<C>>))
    ensures
        total_of(m.push(x)) == total_of(m) + x.1.len(),
{
    assert(m.push(x).drop_last() =~= m);
}

pub proof fn lemma_index_of<C>(m: PoolModel<C>, addr: Seq<u8>, i: int)
    requires
        model_ok(m),
        0 <= i < m.len(),
        m[i].0 == addr,
    ensures
        index_of(m, addr) == Some(i),
{
    let k = choose|k: int| 0 <= k < m.len() && #[trigger] m[k].0 == addr;
    if k < i {
        assert(m[k].0 != m[i].0);
    } else if i < k {
        assert(m[i].0 != m[k].0);
    }
}

/// With no empty queue among the first `n`, the pick is one of them and its
/// head is no later than any of their heads.
pub proof fn lemma_oldest_upto<C>(m: PoolModel<C>, n: nat)
    requires
        n <= m.len(),
        forall|j: int| 0 <= j < n ==> #[trigger] m[j].1.len() > 0,
    ensures
        n > 0 ==> 0 <= oldest_upto(m, n) < n,
        n == 0 ==> oldest_upto(m, n) == -1,
        forall|j: int|
            0 <= j < n ==> m[oldest_upto(m, n)].1[0].last_used <= #[trigger] m[j].1[0].last_used,
    decreases n,
{
    if n > 0 {
        lemma_oldest_upto(m, (n - 1) as nat);
    }
}

pub proof fn lemma_evict_one<C>(m: PoolModel<C>)
    requires
        model_ok(m),
        m.len() > 0,
    ensures
        model_ok(evict_one(m)),
        total_of(evict_one(m)) == total_of(m) - 1,
        queues_ordered(m) ==> queues_ordered(evict_one(m)),
        forall|now: u64| returned_by(m, now) ==> returned_by(evict_one(m), now),
{
    lemma_oldest_upto(m, m.len());
    let i = oldest_upto(m, m.len());
    let q = m[i].1.drop_first();
    if q.len() == 0 {
        lemma_total_remove(m, i);
        let r = m.remove(i);
        assert forall|a: int, b: int| 0 <= a < b < r.len() implies #[trigger] r[a].0 != #[trigger] r[b].0 by {
            let a2 = if a < i { a } else { a + 1 };
            let b2 = if b < i { b } else { b + 1 };
            assert(r[a] == m[a2]);
            assert(r[b] == m[b2]);
        }
        assert forall|a: int| 0 <= a < r.len() implies #[trigger] r[a].1.len() > 0 by {
            let a2 = if a < i { a } else { a + 1 };
            assert(r[a] == m[a2]);
        }
        if queues_ordered(m) {
            assert forall|j: int, a: int, b: int|
                0 <= j < r.len() && 0 <= a < b < r[j].1.len() implies #[trigger] r[j].1[a].last_used
                <= #[trigger] r[j].1[b].last_used by {
                let j2 = if j < i { j } else { j + 1 };
                assert(r[j] == m[j2]);
            }
        }
        assert forall|now: u64| returned_by(m, now) implies returned_by(r, now) by {
            assert forall|j: int, k: int| 0 <= j < r.len() && 0 <= k < r[j].1.len() implies #[trigger] r[j].1[k].last_used <= now by {
                let j2 = if j < i { j } else { j + 1 };
                assert(r[j] == m[j2]);
            }
        }
    } else {
        lemma_total_update(m, i, (m[i].0, q));
        let r = m.update(i, (m[i].0, q));
        assert forall|a: int, b: int| 0 <= a < b < r.len() implies #[trigger] r[a].0 != #[trigger] r[b].0 by {
            assert(r[a].0 == m[a].0);
            assert(r[b].0 == m[b].0);
        }
        if queues_ordered(m) {
            assert forall|j: int, a: int, b: int|
                0 <= j < r.len() && 0 <= a < b < r[j].1.len() implies #[trigger] r[j].1[a].last_used
                <= #[trigger] r[j].1[b].last_used by {
                if j == i {
                    assert(r[j].1[a] == m[i].1[a + 1]);
                    assert(r[j].1[b] == m[i].1[b + 1]);
                }
            }
        }
        assert forall|now: u64| returned_by(m, now) implies returned_by(r, now) by {
            assert forall|j: int, k: int| 0 <= j < r.len() && 0 <= k < r[j].1.len() implies #[trigger] r[j].1[k].last_used <= now by {
                if j == i {
                    assert(r[j].1[k] == m[i].1[k + 1]);
                }
            }
        }
    }
}

/// Eviction takes the connection that was returned first of all pooled
/// connections, provided each queue is in return order (as it is when the
/// clock handed to `recycle` never goes back).
pub proof fn lemma_eviction_takes_oldest<C>(m: PoolModel<C>)
    requires
        model_ok(m),
        queues_ordered(m),
        m.len() > 0,
    ensures
        0 <= oldest_upto(m, m.len()) < m.len(),
        evict_one(m) == set_queue(
            m,
            oldest_upto(m, m.len()),
            m[oldest_upto(m, m.len())].1.drop_first(),
        ),
        forall|j: int, k: int|
            0 <= j < m.len() && 0 <= k < m[j].1.len() ==> m[oldest_upto(m, m.len())].1[0].last_used
                <= #[trigger] m[j].1[k].last_used,
{
    lemma_oldest_upto(m, m.len());
    let i = oldest_upto(m, m.len());
    assert forall|j: int, k: int| 0 <= j < m.len() && 0 <= k < m[j].1.len() implies m[i].1[0].last_used
        <= #[trigger] m[j].1[k].last_used by {
        assert(m[i].1[0].last_used <= m[j].1[0].last_used);
        if k > 0 {
            assert(m[j].1[0].last_used <= m[j].1[k].last_used);
        }
    }
}

/// Idle upstream connections, keyed by address.
pub struct ConnectionPool<C> {
    queues: Vec<AddrQueue<C>>,
    total: usize,
    max_size: usize,
    max_idle_ms: u64,
}

impl<C> ConnectionPool<C> {
    /// The queued connections.
    pub closed spec fn model(&self) -> PoolModel<C> {
        self.queues@.map_values(|q: AddrQueue<C>| (q.addr@, q.conns@))
    }

    /// The connection count the pool keeps.
    pub closed spec fn count(&self) -> nat {
        self.total as nat
    }

    /// Most connections kept after a return.
    pub closed spec fn capacity(&self) -> nat {
        self.max_size as nat
    }

    /// Milliseconds a connection may stay idle.
    pub closed spec fn idle_limit(&self) -> u64 {
        self.max_idle_ms
    }

    /// The count equals the number of queued connections, never exceeds the
    /// cap, and the queues are well formed.
    pub open spec fn wf(&self) -> bool {
        &&& model_ok(self.model())
        &&& self.count() == total_of(self.model())
        &&& self.count() <= self.capacity()
        &&& self.capacity() < usize::MAX
    }

    /// An empty pool. A cap of `usize::MAX` is kept as `usize::MAX - 1`, and
    /// an idle time whose milliseconds do not fit in a `u64` never expires.
    pub fn new_with_config(config: &PoolConfig) -> (r: ConnectionPool<C>)
        ensures
            r.wf(),
            r.model() == Seq::<(Seq<u8>, Seq<PooledConn<C>>)>::empty(),
            r.capacity() == if config.max_size == usize::MAX {
                (usize::MAX - 1) as nat
            } else {
                config.max_size as nat
            },
            r.idle_limit() == if config.max_idle_secs * 1000 <= u64::MAX {
                (config.max_idle_secs * 1000) as u64
            } else {
                u64::MAX
            },
    {
        let max_size = if config.max_size == usize::MAX {
            usize::MAX - 1
        } else {
            config.max_size
        };
        let max_idle_ms = if config.max_idle_secs > u64::MAX / 1000 {
            u64::MAX
        } else {
            config.max_idle_secs * 1000
        };
        let r = ConnectionPool { queues: Vec::new(), total: 0, max_size, max_idle_ms };
        assert(r.model() =~= Seq::<(Seq<u8>, Seq<PooledConn<C>>)>::empty());
        r
    }

    /// Number of idle connections held.
    pub fn total(&self) -> (r: usize)
        ensures
            r == self.count(),
    {
        self.total
    }

    /// The cap on idle connections.
    pub fn max_size(&self) -> (r: usize)
        ensures
            r == self.capacity(),
    {
        self.max_size
    }

    fn find_queue(&self, key: &[u8]) -> (r: Option<usize>)
        requires
            model_ok(self.model()),
        ensures
            match r {
                Some(i) => index_of(self.model(), key@) == Some(i as int) && i < self.queues@.len(),
                None => index_of(self.model(), key@) is None,
            },
    {
        let mut j: usize = 0;
        while j < self.queues.len()
            invariant
                j <= self.queues@.len(),
                model_ok(self.model()),
                forall|k: int| 0 <= k < j ==> #[trigger] self.model()[k].0 != key@,
            decreases self.queues@.len() - j,
        {
            if bytes_eq(self.queues[j].addr.as_slice(), key) {
                proof {
                    lemma_index_of(self.model(), key@, j as int);
                }
                return Some(j);
            }
            assert(self.model()[j as int].0 == self.queues@[j as int].addr@);
            j = j + 1;
        }
        assert(!exists|i: int| 0 <= i < self.model().len() && #[trigger] self.model()[i].0 == key@);
        None
    }

    /// Takes the most recently returned idle connection for `addr` that has
    /// not been idle longer than the limit at clock reading `now`, dropping
    /// the expired ones met on the way. `None` means a new connection must
    /// be made. The caller probes what it gets and calls again when the
    /// probe finds the peer gone; what was handed out has left the pool.
    pub fn get(&mut self, addr: &str, now: u64) -> (r: Option<C>)
        requires
            old(self).wf(),
        ensures
            final(self).wf(),
            final(self).capacity() == old(self).capacity(),
            final(self).idle_limit() == old(self).idle_limit(),
            (final(self).model(), r) == take_idle(
                old(self).model(),
                addr.spec_bytes(),
                now,
                old(self).idle_limit(),
            ),
    {
        let ghost m0 = self.model();
        let key = addr.as_bytes();
        let idx = match self.find_queue(key) {
            Some(i) => i,
            None => {
                return None;
            },
        };
        let mut q = self.queues.remove(idx);
        proof {
            assert(self.model() =~= m0.remove(idx as int));
            lemma_total_remove(m0, idx as int);
        }
        let ghost q0 = q.conns@;
        let ghost limit = self.max_idle_ms;
        let mut result: Option<C> = None;
        loop
            invariant_except_break
                result is None,
                freshest_live(q0, now, limit) == freshest_live(q.conns@, now, limit),
            invariant
                q.addr@ == key@,
                q0 == m0[idx as int].1,
                q.conns@ == q0.subrange(0, q.conns@.len() as int),
                self.model() == m0.remove(idx as int),
                limit == self.max_idle_ms,
                self.total as nat == total_of(self.model()) + q.conns@.len(),
                q.conns@.len() <= q0.len(),
                self.max_size == old(self).max_size,
                self.max_idle_ms == old(self).max_idle_ms,
                self.total <= old(self).total,
            ensures
                self.model() == m0.remove(idx as int),
                self.total as nat == total_of(self.model()) + q.conns@.len(),
                q.conns@ == q0.subrange(0, q.conns@.len() as int),
                q.addr@ == key@,
                match freshest_live(q0, now, limit) {
                    Some(k) => result == Some(q0[k].conn) && q.conns@.len() == k,
                    None => result is None && q.conns@.len() == 0,
                },
            decreases q.conns@.len(),
        {
            let ghost before = q.conns@;
            match q.conns.pop() {
                None => {
                    break;
                },
                Some(c) => {
                    self.total = self.total - 1;
                    assert(q.conns@ =~= q0.subrange(0, q.conns@.len() as int));
                    assert(before.drop_last() =~= q.conns@);
                    let idle = if now > c.last_used {
                        now - c.last_used
                    } else {
                        0
                    };
                    if idle <= self.max_idle_ms {
                        result = Some(c.conn);
                        break;
                    }
                },
            }
        }
        let len = q.conns.len();
        if len > 0 {
            let ghost rem = self.queues@;
            let ghost qv = (q.addr@, q.conns@);
            self.queues.insert(idx, q);
            proof {
                assert(m0[idx as int].0 == key@);
                let target = m0.update(idx as int, (m0[idx as int].0, q0.subrange(0, len as int)));
                let mm = self.model();
                assert(mm.len() == target.len());
                assert forall|j: int| 0 <= j < mm.len() implies mm[j] == target[j] by {
                    if j < idx {
                        assert(self.queues@[j] == rem[j]);
                        assert(m0.remove(idx as int)[j] == m0[j]);
                    } else if j > idx {
                        assert(self.queues@[j] == rem[j - 1]);
                        assert(m0.remove(idx as int)[j - 1] == m0[j]);
                    } else {
                        assert(mm[j] == qv);
                    }
                }
                assert(mm =~= target);
                lemma_total_update(m0, idx as int, (m0[idx as int].0, q0.subrange(0, len as int)));
                let r = self.model();
                assert forall|a: int, b: int| 0 <= a < b < r.len() implies #[trigger] r[a].0 != #[trigger] r[b].0 by {
                    assert(r[a].0 == m0[a].0);
                    assert(r[b].0 == m0[b].0);
                }
            }
        } else {
            proof {
                let r = self.model();
                assert forall|a: int, b: int| 0 <= a < b < r.len() implies #[trigger] r[a].0 != #[trigger] r[b].0 by {
                    let a2 = if a < idx { a } else { a + 1 };
                    let b2 = if b < idx { b } else { b + 1 };
                    assert(r[a] == m0[a2]);
                    assert(r[b] == m0[b2]);
                }
                assert forall|a: int| 0 <= a < r.len() implies #[trigger] r[a].1.len() > 0 by {
                    let a2 = if a < idx { a } else { a + 1 };
                    assert(r[a] == m0[a2]);
                }
                assert(q0.subrange(0, 0) =~= Seq::<PooledConn<C>>::empty());
            }
        }
        result
    }

    /// Drops the head of the queue whose head was returned earliest.
    fn evict_oldest(&mut self)
        requires
            model_ok(old(self).model()),
            old(self).total as nat == total_of(old(self).model()),
            old(self).total > 0,
        ensures
            final(self).model() == evict_one(old(self).model()),
            model_ok(final(self).model()),
            final(self).total == old(self).total - 1,
            final(self).max_size == old(self).max_size,
            final(self).max_idle_ms == old(self).max_idle_ms,
    {
        let ghost m0 = self.model();
        proof {
            if m0.len() == 0 {
                assert(total_of(m0) == 0);
            }
            lemma_evict_one(m0);
            lemma_oldest_upto(m0, m0.len());
        }
        let mut best: usize = 0;
        let mut found = false;
        let mut j: usize = 0;
        while j < self.queues.len()
            invariant
                j <= self.queues@.len(),
                self.model() == m0,
                model_ok(m0),
                found ==> best < j && best as int == oldest_upto(m0, j as nat),
                !found ==> oldest_upto(m0, j as nat) == -1 && j == 0,
            decreases self.queues@.len() - j,
        {
            let q = &self.queues[j];
            assert(m0[j as int].1 == q.conns@);
            assert(m0[j as int].1.len() > 0);
            if !found || q.conns[0].last_used < self.queues[best].conns[0].last_used {
                best = j;
                found = true;
            }
            j = j + 1;
        }
        let mut q = self.queues.remove(best);
        q.conns.remove(0);
        self.total = self.total - 1;
        if q.conns.len() > 0 {
            self.queues.insert(best, q);
            assert(self.model() =~= evict_one(m0));
        } else {
            assert(self.model() =~= evict_one(m0));
        }
    }

    /// Returns a connection for `addr` at clock reading `now`: it joins the
    /// tail of that address's queue, then the oldest heads are evicted while
    /// the pool holds more than its cap.
    pub fn recycle(&mut self, addr: &str, conn: C, now: u64)
        requires
            old(self).wf(),
        ensures
            final(self).wf(),
            final(self).capacity() == old(self).capacity(),
            final(self).idle_limit() == old(self).idle_limit(),
            final(self).model() == evict_n(
                push_conn(old(self).model(), addr.spec_bytes(), PooledConn { conn, last_used: now }),
                excess(
                    push_conn(old(self).model(), addr.spec_bytes(), PooledConn { conn, last_used: now }),
                    old(self).capacity(),
                ),
            ),
            queues_ordered(old(self).model()) && returned_by(old(self).model(), now) ==> queues_ordered(
                final(self).model(),
            ),
    {
        let ghost m0 = self.model();
        let key = addr.as_bytes();
        let ghost entry_g = PooledConn { conn, last_used: now };
        let entry = PooledConn { conn, last_used: now };
        match self.find_queue(key) {
            Some(i) => {
                let mut q = self.queues.remove(i);
                q.conns.push(entry);
                self.queues.insert(i, q);
                proof {
                    let x = (key@, m0[i as int].1.push(entry_g));
                    assert(self.model() =~= m0.update(i as int, x));
                    lemma_total_update(m0, i as int, x);
                    let r = self.model();
                    assert forall|a: int, b: int| 0 <= a < b < r.len() implies #[trigger] r[a].0 != #[trigger] r[b].0 by {
                        assert(r[a].0 == m0[a].0);
                        assert(r[b].0 == m0[b].0);
                    }
                    if queues_ordered(m0) && returned_by(m0, now) {
                        assert forall|j: int, a: int, b: int|
                            0 <= j < r.len() && 0 <= a < b < r[j].1.len() implies #[trigger] r[j].1[a].last_used
                            <= #[trigger] r[j].1[b].last_used by {
                            if j == i && b == r[j].1.len() - 1 {
                                assert(r[j].1[a] == m0[j].1[a]);
                            }
                        }
                    }
                }
            },
            None => {
                let mut a: Vec<u8> = Vec::new();
                push_all(&mut a, key);
                let mut conns: Vec<PooledConn<C>> = Vec::new();
                conns.push(entry);
                self.queues.push(AddrQueue { addr: a, conns });
                proof {
                    let x = (key@, seq![entry_g]);
                    assert(self.model() =~= m0.push(x));
                    lemma_total_push(m0, x);
                    let r = self.model();
                    assert forall|a: int, b: int| 0 <= a < b < r.len() implies #[trigger] r[a].0 != #[trigger] r[b].0 by {
                        if b == r.len() - 1 {
                            assert(r[a].0 == m0[a].0);
                        }
                    }
                }
            },
        }
        let ghost pushed = self.model();
        assert(pushed == push_conn(m0, addr.spec_bytes(), entry_g));
        self.total = self.total + 1;
        let ghost mut k: nat = 0;
        while self.total > self.max_size
            invariant
                model_ok(self.model()),
                self.total as nat == total_of(self.model()),
                self.model() == evict_n(pushed, k),
                self.total as nat == total_of(pushed) - k,
                k <= excess(pushed, self.max_size as nat),
                self.max_size < usize::MAX,
                self.max_size == old(self).max_size,
                self.max_idle_ms == old(self).max_idle_ms,
                queues_ordered(m0) && returned_by(m0, now) ==> queues_ordered(self.model())
                    && returned_by(self.model(), now),
            decreases self.total,
        {
            proof {
                if self.model().len() == 0 {
                    assert(total_of(self.model()) == 0);
                }
                lemma_evict_one(self.model());
            }
            self.evict_oldest();
            proof {
                k = k + 1;
            }
        }
    }
}

/// Whatever sequence of `get` and `recycle` calls led to a pool, its count
/// equals the number of connections queued over all addresses and is at
/// most its cap.
pub proof fn lemma_pool_count<C>(pool: &ConnectionPool<C>)
    requires
        pool.wf(),
    ensures
        pool.count() == total_of(pool.model()),
        pool.count() <= pool.capacity(),
{
}

} // verus!
