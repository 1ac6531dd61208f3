use sipx_transport::addr::{IpAddress, SocketAddress};
use sipx_transport::error::Error;
use sipx_transport::target::{ConnectionKey, TransportKind};
use sipx_transport::tcp::{same_key, Origin, Pool, PoolConfig};

fn tcp(last: u8) -> ConnectionKey {
    ConnectionKey::new(SocketAddress::new(IpAddress::V4([192, 0, 2, last]), 5060), TransportKind::Tcp)
}

fn config(max: usize) -> PoolConfig {
    PoolConfig {
        max_connections: max,
        idle_timeout_nanos: 1_000,
        reuse_inbound_for_outbound: false,
    }
}

#[test]
fn stale_close_generation_cannot_remove_or_fail_its_live_replacement() {
    let mut pool = Pool::new(config(4));
    let first = pool.register(tcp(1), Origin::Outbound, 0, 0).expect("room");
    assert!(first.start_now);
    let second = pool.register(tcp(1), Origin::Outbound, 1, 1).expect("room");
    assert_ne!(first.id, second.id, "a replacement is a new generation");
    let retired = second.retired.expect("the first generation was retired");
    assert_eq!(retired.id, first.id);

    assert!(pool.remove(&tcp(1), first.id), "the retired generation's close is expected once");
    assert_eq!(pool.generation(&tcp(1)), Some(second.id), "the replacement still routes");
    assert!(!pool.remove(&tcp(1), first.id), "and only once");
    assert!(pool.holds(&tcp(1)));
    assert!(pool.remove(&tcp(1), second.id));
    assert!(!pool.holds(&tcp(1)));
}

#[test]
fn same_key_replacement_at_capacity_does_not_evict_an_unrelated_connection() {
    let mut pool = Pool::new(config(2));
    let a = pool.register(tcp(1), Origin::Outbound, 0, 0).expect("room");
    let b = pool.register(tcp(2), Origin::Outbound, 1, 1).expect("room");
    let a2 = pool.register(tcp(1), Origin::Outbound, 2, 2).expect("room");
    assert_eq!(a2.retired.map(|g| g.id), Some(a.id), "only the key being replaced is retired");
    assert_eq!(pool.generation(&tcp(2)), Some(b.id), "B is untouched");
    assert!(!a2.start_now, "two tasks are still live, so the replacement waits");
    assert!(pool.activate_pending(2).is_empty(), "still no room");
    let started = pool.activate_pending(1);
    assert_eq!(started.len(), 1);
    assert_eq!(started[0].id, a2.id);
}

#[test]
fn capacity_eviction_takes_the_least_recently_used() {
    let mut pool = Pool::new(config(2));
    pool.register(tcp(1), Origin::Outbound, 10, 0).expect("room");
    pool.register(tcp(2), Origin::Outbound, 20, 1).expect("room");
    pool.touch(&tcp(1), 30);
    let c = pool.register(tcp(3), Origin::Outbound, 40, 2).expect("room");
    let victim = c.retired.expect("one was evicted");
    assert!(same_key(&victim.key, &tcp(2)), "2 was used longest ago");
    assert!(pool.holds(&tcp(1)));
    assert!(pool.holds(&tcp(3)));
    assert!(!pool.holds(&tcp(2)));
}

#[test]
fn idle_connections_are_evicted() {
    let mut pool = Pool::new(config(4));
    pool.register(tcp(1), Origin::Outbound, 0, 0).expect("room");
    pool.register(tcp(2), Origin::Outbound, 500, 1).expect("room");
    let evicted = pool.evict_idle(1_200);
    assert_eq!(evicted.len(), 1);
    assert!(same_key(&evicted[0].key, &tcp(1)));
    assert!(pool.holds(&tcp(2)));
    assert!(pool.evict_idle(1_500).is_empty(), "exactly the timeout is not longer than it");
}

#[test]
fn a_pending_generation_retired_before_it_starts_never_starts() {
    let mut pool = Pool::new(config(1));
    let a = pool.register(tcp(1), Origin::Outbound, 0, 0).expect("room");
    let b = pool.register(tcp(2), Origin::Outbound, 1, 1).expect("room");
    assert_eq!(b.retired.map(|g| g.id), Some(a.id));
    assert!(!b.start_now);
    let retired = pool.retire(&tcp(2)).expect("held");
    assert_eq!(retired.id, b.id);
    assert!(pool.activate_pending(0).is_empty(), "nothing left to start");
}

#[test]
fn an_inbound_connection_is_reused_only_when_configured() {
    let mut pool = Pool::new(config(4));
    pool.register(tcp(1), Origin::Inbound, 0, 0).expect("room");
    assert!(!pool.is_reusable(&tcp(1), true));
    let mut allowing = Pool::new(PoolConfig {
        reuse_inbound_for_outbound: true,
        ..config(4)
    });
    allowing.register(tcp(1), Origin::Inbound, 0, 0).expect("room");
    assert!(allowing.is_reusable(&tcp(1), true));
    assert!(!allowing.is_reusable(&tcp(1), false), "not once its writer has closed");
    assert!(!allowing.is_reusable(&tcp(2), true), "nothing held");
}

#[test]
fn a_pool_that_can_hold_nothing_refuses() {
    let mut pool = Pool::new(config(0));
    assert!(matches!(
        pool.register(tcp(1), Origin::Outbound, 0, 0),
        Err(Error::ConnectionCapacity { max: 0 })
    ));
}

#[test]
fn shutdown_forgets_everything() {
    let mut pool = Pool::new(config(4));
    pool.register(tcp(1), Origin::Outbound, 0, 0).expect("room");
    pool.shutdown();
    assert!(!pool.holds(&tcp(1)));
}
