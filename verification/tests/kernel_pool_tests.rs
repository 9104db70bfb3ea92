use nockchain::kernel_pool::{CheckoutStep, KernelPool, KernelPoolConfig, PoolError, PoolStats, PooledKernel};

fn pool_with(min_size: usize, max_size: usize) -> KernelPool<u32> {
    let config = KernelPoolConfig { min_size, max_size, ..Default::default() };
    let mut pool = KernelPool::new(config);
    for i in 0..min_size {
        pool.add_initial(PooledKernel::new(i as u32, 0));
    }
    pool
}

fn checkout(pool: &mut KernelPool<u32>, now: u128, fresh: u32) -> PooledKernel<u32> {
    let k = match pool.begin_checkout(now) {
        CheckoutStep::Reuse(k) => k,
        CheckoutStep::Create => {
            pool.record_created();
            PooledKernel::new(fresh, now)
        }
    };
    pool.finish_checkout(k)
}

#[test]
fn test_kernel_pool_creation() {
    let pool = pool_with(2, 4);
    let stats = pool.stats();
    assert_eq!(stats.current_pool_size, 2);
    assert_eq!(stats.total_created, 2);
}

#[test]
fn test_kernel_checkout_checkin() {
    let mut pool = pool_with(1, 2);
    let kernel = checkout(&mut pool, 10, 99);
    let stats = pool.stats();
    assert_eq!(stats.total_checkouts, 1);
    assert_eq!(stats.current_pool_size, 0);

    pool.checkin(kernel, 20);
    let stats = pool.stats();
    assert_eq!(stats.total_checkins, 1);
    assert_eq!(stats.current_pool_size, 1);
}

#[test]
fn checkin_after_use_is_counted_once() {
    let mut pool = pool_with(1, 2);
    {
        let kernel = checkout(&mut pool, 0, 99);
        pool.checkin(kernel, 0);
    }
    assert_eq!(pool.stats().total_checkins, 1);
}

#[test]
fn default_config_values() {
    let c = KernelPoolConfig::default();
    assert_eq!(c.min_size, 4);
    assert_eq!(c.max_size, 8);
    assert_eq!(c.max_kernel_age, 300_000_000_000);
    assert_eq!(c.max_kernel_usage, 100);
    assert_eq!(c.checkout_timeout, 10_000_000_000);
    assert_eq!(
        PoolStats::default(),
        PoolStats { total_checkouts: 0, total_checkins: 0, total_created: 0, total_refreshed: 0, current_pool_size: 0 }
    );
}

#[test]
fn checkout_reuses_front_kernel_and_counts_use() {
    let mut pool = pool_with(2, 4);
    let k = checkout(&mut pool, 5, 99);
    assert_eq!(k.kernel, 0);
    assert_eq!(k.usage_count, 1);
    assert_eq!(pool.len(), 1);
    assert_eq!(pool.stats().total_created, 2);
}

#[test]
fn empty_pool_creates_a_kernel() {
    let mut pool = pool_with(0, 4);
    let k = checkout(&mut pool, 7, 99);
    assert_eq!(k.kernel, 99);
    assert_eq!(k.created_at, 7);
    assert_eq!(k.usage_count, 1);
    let s = pool.stats();
    assert_eq!(s.total_created, 1);
    assert_eq!(s.total_refreshed, 0);
}

#[test]
fn stale_kernel_is_refreshed_on_checkout() {
    let mut pool = pool_with(1, 4);
    let age = pool.config().max_kernel_age;
    let k = checkout(&mut pool, age + 1, 99);
    assert_eq!(k.kernel, 99);
    let s = pool.stats();
    assert_eq!(s.total_refreshed, 1);
    assert_eq!(s.total_created, 2);
    assert_eq!(s.current_pool_size, 0);
}

#[test]
fn worn_out_kernel_is_discarded_on_checkin() {
    let mut pool = pool_with(0, 4);
    let mut k = PooledKernel::new(1u32, 0);
    k.usage_count = 101;
    assert!(k.should_refresh(0, 300_000_000_000, 100));
    pool.checkin(k, 0);
    assert_eq!(pool.len(), 0);
    assert_eq!(pool.stats().total_checkins, 1);
}

#[test]
fn full_pool_discards_returned_kernel() {
    let mut pool = pool_with(2, 2);
    pool.checkin(PooledKernel::new(7u32, 0), 0);
    assert_eq!(pool.len(), 2);
}

#[test]
fn refresh_all_recounts() {
    let mut pool = pool_with(3, 4);
    pool.begin_refresh();
    assert_eq!(pool.len(), 0);
    for i in 0..3u32 {
        pool.add_refreshed(PooledKernel::new(10 + i, 50));
    }
    pool.finish_refresh();
    let s = pool.stats();
    assert_eq!(s.total_refreshed, 3);
    assert_eq!(s.current_pool_size, 3);
}

#[test]
fn reset_counts_a_use() {
    let mut k = PooledKernel::new(0u8, 3);
    assert!(k.reset().is_ok());
    assert_eq!(k.usage_count, 1);
    assert_eq!(k.created_at, 3);
    assert!(!k.should_refresh(3, 0, 1));
    assert!(k.should_refresh(5, 1, 1));
    assert!(!k.should_refresh(0, 0, 1));
}

#[test]
fn checked_out_kernels_are_counted_up_to_max_size() {
    let mut pool = pool_with(2, 2);
    assert_eq!(pool.outstanding(), 0);
    assert!(pool.can_checkout());
    let a = checkout(&mut pool, 0, 90);
    let b = checkout(&mut pool, 0, 91);
    assert_eq!(pool.outstanding(), 2);
    assert!(!pool.can_checkout());
    pool.checkin(a, 0);
    assert_eq!(pool.outstanding(), 1);
    assert!(pool.can_checkout());
    pool.checkin(b, 0);
    pool.checkin(PooledKernel::new(5u32, 0), 0);
    assert_eq!(pool.outstanding(), 0);
}

#[test]
fn kernels_to_add_fills_to_min_size() {
    let config = KernelPoolConfig { min_size: 3, max_size: 4, ..Default::default() };
    let mut pool: KernelPool<u32> = KernelPool::new(config);
    assert_eq!(pool.kernels_to_add(), 3);
    pool.add_initial(PooledKernel::new(0, 0));
    assert_eq!(pool.kernels_to_add(), 2);
    pool.add_initial(PooledKernel::new(1, 0));
    pool.add_initial(PooledKernel::new(2, 0));
    pool.add_initial(PooledKernel::new(3, 0));
    assert_eq!(pool.kernels_to_add(), 0);
}

#[test]
fn ages_compare_at_nanosecond_precision() {
    let k = PooledKernel::new(0u8, 1_000);
    assert!(!k.should_refresh(1_500, 500, 10));
    assert!(k.should_refresh(1_501, 500, 10));
}

#[test]
fn error_texts() {
    assert_eq!(PoolError::Timeout.message(), "Timeout waiting for available kernel");
    assert_eq!(PoolError::Semaphore.message(), "Semaphore error: semaphore closed");
    assert_eq!(PoolError::KernelLoad.message(), "Could not load mining kernel");
}
