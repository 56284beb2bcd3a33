use edge_relay::acquire::probe_keeps;
use edge_relay::config::PoolConfig;
use edge_relay::http::parse_response_info;
use edge_relay::pool::ConnectionPool;
use edge_relay::relay::{may_reuse, BodyOutcome};

fn config(max_size: usize, max_idle_secs: u64) -> PoolConfig {
    PoolConfig { max_size, max_idle_secs, probe_timeout_ms: 200 }
}

#[test]
fn empty_pool_has_nothing_to_reuse() {
    let mut pool: ConnectionPool<u32> = ConnectionPool::new_with_config(&config(4, 60));
    assert_eq!(pool.get("127.0.0.1:9000", 0), None);
    assert_eq!(pool.total(), 0);
}

#[test]
fn freshest_connection_reused_first() {
    let mut pool: ConnectionPool<u32> = ConnectionPool::new_with_config(&config(4, 60));
    pool.recycle("a:1", 1, 100);
    pool.recycle("a:1", 2, 200);
    pool.recycle("b:2", 3, 300);
    assert_eq!(pool.total(), 3);
    assert_eq!(pool.get("a:1", 400), Some(2));
    assert_eq!(pool.get("a:1", 400), Some(1));
    assert_eq!(pool.get("a:1", 400), None);
    assert_eq!(pool.total(), 1);
    assert_eq!(pool.get("b:2", 400), Some(3));
    assert_eq!(pool.total(), 0);
}

#[test]
fn handed_out_connection_never_returned_twice() {
    let mut pool: ConnectionPool<u32> = ConnectionPool::new_with_config(&config(4, 60));
    pool.recycle("a:1", 7, 0);
    assert_eq!(pool.get("a:1", 10), Some(7));
    // The probe found the peer gone: the connection is dropped, so the next
    // attempt finds nothing and a new connection must be made.
    assert_eq!(pool.get("a:1", 10), None);
}

#[test]
fn expired_connections_dropped() {
    let mut pool: ConnectionPool<u32> = ConnectionPool::new_with_config(&config(4, 1));
    pool.recycle("a:1", 1, 0);
    pool.recycle("a:1", 2, 500);
    assert_eq!(pool.get("a:1", 1500), Some(2));
    assert_eq!(pool.total(), 1);
    assert_eq!(pool.get("a:1", 1001), None);
    assert_eq!(pool.total(), 0);
}

#[test]
fn idle_limit_is_inclusive() {
    let mut pool: ConnectionPool<u32> = ConnectionPool::new_with_config(&config(4, 1));
    pool.recycle("a:1", 1, 0);
    assert_eq!(pool.get("a:1", 1000), Some(1));
}

#[test]
fn expired_tail_skipped_for_older_live_entry() {
    let mut pool: ConnectionPool<u32> = ConnectionPool::new_with_config(&config(4, 1));
    pool.recycle("a:1", 1, 5000);
    pool.recycle("a:1", 2, 0);
    assert_eq!(pool.get("a:1", 5500), Some(1));
    assert_eq!(pool.total(), 0);
}

#[test]
fn eviction_takes_globally_oldest() {
    let mut pool: ConnectionPool<u32> = ConnectionPool::new_with_config(&config(2, 60));
    pool.recycle("a:1", 1, 100);
    pool.recycle("b:2", 2, 200);
    pool.recycle("b:2", 3, 300);
    assert_eq!(pool.total(), 2);
    assert_eq!(pool.get("a:1", 400), None);
    assert_eq!(pool.get("b:2", 400), Some(3));
    assert_eq!(pool.get("b:2", 400), Some(2));
}

#[test]
fn eviction_between_two_addresses() {
    let mut pool: ConnectionPool<u32> = ConnectionPool::new_with_config(&config(2, 60));
    pool.recycle("b:2", 20, 200);
    pool.recycle("a:1", 10, 100);
    pool.recycle("c:3", 30, 300);
    assert_eq!(pool.total(), 2);
    assert_eq!(pool.get("a:1", 400), None);
    assert_eq!(pool.get("b:2", 400), Some(20));
    assert_eq!(pool.get("c:3", 400), Some(30));
}

#[test]
fn total_never_exceeds_cap() {
    let mut pool: ConnectionPool<u32> = ConnectionPool::new_with_config(&config(3, 60));
    for i in 0..10u32 {
        let addr = if i % 2 == 0 { "a:1" } else { "b:2" };
        pool.recycle(addr, i, i as u64);
        assert!(pool.total() <= 3);
    }
    assert_eq!(pool.total(), 3);
    let mut found = 0;
    while pool.get("a:1", 20).is_some() {
        found += 1;
    }
    while pool.get("b:2", 20).is_some() {
        found += 1;
    }
    assert_eq!(found, 3);
    assert_eq!(pool.total(), 0);
}

#[test]
fn zero_cap_keeps_nothing() {
    let mut pool: ConnectionPool<u32> = ConnectionPool::new_with_config(&config(0, 60));
    pool.recycle("a:1", 1, 0);
    assert_eq!(pool.total(), 0);
    assert_eq!(pool.get("a:1", 0), None);
}

#[test]
fn largest_cap_is_kept_one_below() {
    let pool: ConnectionPool<u32> = ConnectionPool::new_with_config(&config(usize::MAX, 60));
    assert_eq!(pool.max_size(), usize::MAX - 1);
}

#[test]
fn closed_response_connection_not_reused() {
    let mut pool: ConnectionPool<u32> = ConnectionPool::new_with_config(&config(4, 60));
    let info = parse_response_info(b"HTTP/1.1 200 OK\r\nConnection: close\r\nContent-Length: 0\r\n\r\n");
    if may_reuse(BodyOutcome::Done, &info) {
        pool.recycle("a:1", 1, 0);
    }
    assert_eq!(pool.get("a:1", 0), None);
    let info = parse_response_info(b"HTTP/1.1 200 OK\r\nContent-Length: 0\r\n\r\n");
    if may_reuse(BodyOutcome::Done, &info) {
        pool.recycle("a:1", 2, 0);
    }
    assert_eq!(pool.get("a:1", 0), Some(2));
}

#[test]
fn probe_keeps_only_live_peers() {
    assert!(probe_keeps(Some(1)));
    assert!(probe_keeps(Some(4096)));
    assert!(!probe_keeps(Some(0)));
    assert!(!probe_keeps(None));
}

#[test]
fn failed_probes_drain_queue_then_connect_new() {
    let mut pool: ConnectionPool<u32> = ConnectionPool::new_with_config(&config(8, 60));
    pool.recycle("a:1", 1, 0);
    pool.recycle("a:1", 2, 1);
    pool.recycle("a:1", 3, 2);
    pool.recycle("b:2", 9, 3);
    let mut handed = Vec::new();
    while let Some(c) = pool.get("a:1", 10) {
        // Every peer has closed: the probe saw zero bytes.
        assert!(!probe_keeps(Some(0)));
        handed.push(c);
    }
    assert_eq!(handed, vec![3, 2, 1]);
    assert_eq!(pool.total(), 1);
    assert_eq!(pool.get("b:2", 10), Some(9));
}
