use cadagent::memory::{ObjectPool, PoolStats};

#[test]
fn object_pool_starts_with_defaults() {
    let pool = ObjectPool::<i32>::new(10);
    assert_eq!(pool.available_count(), 10);
    assert_eq!(pool.stats().total_allocations, 0);
    let d = ObjectPool::<u8>::default();
    assert_eq!(d.available_count(), 16);
}

#[test]
fn object_pool_acquire_release_counts() {
    let mut pool = ObjectPool::<i32>::new(5);
    let obj = pool.acquire();
    assert_eq!(obj, 0);
    assert_eq!(pool.stats().active_objects, 1);
    assert_eq!(pool.available_count(), 4);
    pool.release(obj);
    assert_eq!(pool.stats().active_objects, 0);
    assert_eq!(pool.stats().total_releases, 1);
    assert_eq!(pool.available_count(), 5);
}

#[test]
fn object_pool_hits_and_misses() {
    let mut pool = ObjectPool::<i32>::new(2);
    let _a = pool.acquire();
    let _b = pool.acquire();
    let _c = pool.acquire();
    let stats: &PoolStats = pool.stats();
    assert_eq!(stats.pool_hits, 2);
    assert_eq!(stats.pool_misses, 1);
    assert_eq!(stats.total_allocations, 1);
    assert_eq!(stats.peak_active_objects, 3);
}

#[test]
fn object_pool_keeps_at_most_max_size() {
    let mut pool = ObjectPool::<i32>::with_max_size(0, 2);
    pool.release(7);
    pool.release(8);
    pool.release(9);
    assert_eq!(pool.available_count(), 2);
    assert_eq!(pool.acquire(), 7);
    assert_eq!(pool.acquire(), 8);
    assert_eq!(pool.acquire(), 0);
}

#[test]
fn object_pool_acquire_with_initializer() {
    let mut pool = ObjectPool::<i32>::with_max_size(0, 4);
    assert_eq!(pool.acquire_with(|| 42), 42);
    pool.release(5);
    assert_eq!(pool.acquire_with(|| 42), 5);
}

#[test]
fn object_pool_clear_shrink_reserve() {
    let mut pool = ObjectPool::<i32>::new(3);
    pool.reserve(10);
    assert_eq!(pool.available_count(), 3);
    pool.shrink_to_fit();
    assert_eq!(pool.available_count(), 3);
    pool.clear();
    assert_eq!(pool.available_count(), 0);
}

#[test]
fn release_without_acquire_keeps_active_at_zero() {
    let mut pool = ObjectPool::<i32>::new(0);
    pool.release(1);
    assert_eq!(pool.stats().active_objects, 0);
}
