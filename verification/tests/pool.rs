use burst_pool::BurstPool;
use burst_pool::Work;

#[test]
fn bench_pool() {
    let n = 10;
    let mut pool: BurstPool<u32> = BurstPool::new();
    for i in 0..n {
        assert_eq!(pool.spawn(), i);
    }
    let mut seen = vec![0u32; n];
    for round in 0..100 {
        for _ in 0..n {
            pool.send(round);
        }
        for w in 0..n {
            assert_eq!(pool.take(w), Work::Run(round));
            seen[w] += 1;
            assert_eq!(pool.take(w), Work::Park);
        }
    }
    assert_eq!(seen, vec![100u32; 10]);
    pool.shutdown();
    for w in 0..n {
        assert_eq!(pool.take(w), Work::Exit);
    }
}

#[test]
fn new_pool_is_empty() {
    let pool: BurstPool<u8> = BurstPool::new();
    assert_eq!(pool.workers(), 0);
    assert_eq!(pool.next_thread(), 0);
    assert!(!pool.is_closed());
}

#[test]
fn send_goes_round() {
    let mut pool: BurstPool<&str> = BurstPool::new();
    pool.spawn();
    pool.spawn();
    pool.spawn();
    assert_eq!(pool.send("a"), 0);
    assert_eq!(pool.send("b"), 1);
    assert_eq!(pool.send("c"), 2);
    assert_eq!(pool.send("d"), 0);
    assert_eq!(pool.next_thread(), 1);
    assert_eq!(pool.take(0), Work::Run("a"));
    assert_eq!(pool.take(0), Work::Run("d"));
    assert_eq!(pool.take(0), Work::Park);
    assert_eq!(pool.take(2), Work::Run("c"));
    assert_eq!(pool.take(1), Work::Run("b"));
}

#[test]
fn a_worker_spawned_later_joins_the_round() {
    let mut pool: BurstPool<u8> = BurstPool::new();
    pool.spawn();
    assert_eq!(pool.send(1), 0);
    assert_eq!(pool.next_thread(), 0);
    assert_eq!(pool.spawn(), 1);
    assert_eq!(pool.send(2), 0);
    assert_eq!(pool.send(3), 1);
    assert_eq!(pool.take(1), Work::Run(3));
}

#[test]
fn shutdown_lets_workers_drain_then_exit() {
    let mut pool: BurstPool<u8> = BurstPool::new();
    pool.spawn();
    pool.send(1);
    pool.send(2);
    pool.shutdown();
    assert!(pool.is_closed());
    assert_eq!(pool.take(0), Work::Run(1));
    assert_eq!(pool.take(0), Work::Run(2));
    assert_eq!(pool.take(0), Work::Exit);
    assert_eq!(pool.take(0), Work::Exit);
}
