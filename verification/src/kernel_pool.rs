//! The bookkeeping of a pool of reusable mining kernels: which kernel a checkout
//! hands out, when a kernel is too old or too used to keep, what a checkin keeps, and
//! the pool's statistics, and how many kernels are out. Times and durations are
//! nanoseconds (a `u128` holds every `Duration` exactly), on a clock of the caller's
//! choice.
use std::collections::VecDeque;
use vstd::prelude::*;

verus! {

/// Configuration for the kernel pool.
#[derive(Debug, Clone, Copy, PartialEq, Eq, Structural)]
pub struct KernelPoolConfig {
    /// Minimum number of kernels to keep in pool.
    pub min_size: usize,
    /// Maximum number of kernels to keep in pool.
    pub max_size: usize,
    /// Maximum age before refreshing a kernel, in nanoseconds.
    pub max_kernel_age: u128,
    /// Maximum usage count before refreshing a kernel.
    pub max_kernel_usage: u64,
    /// Timeout when waiting for an available kernel, in nanoseconds.
    pub checkout_timeout: u128,
}

impl Default for KernelPoolConfig {
    /// Four to eight kernels, refreshed after five minutes or a hundred uses, with a
    /// ten-second checkout timeout.
    fn default() -> (r: Self)
        ensures
            r == (KernelPoolConfig {
                min_size: 4,
                max_size: 8,
                max_kernel_age: 300_000_000_000,
                max_kernel_usage: 100,
                checkout_timeout: 10_000_000_000,
            }),
    {
        KernelPoolConfig {
            min_size: 4,
            max_size: 8,
            max_kernel_age: 300_000_000_000,
            max_kernel_usage: 100,
            checkout_timeout: 10_000_000_000,
        }
    }
}

/// Counters of the pool's activity.
#[derive(Debug, Clone, Copy, PartialEq, Eq, Structural)]
pub struct PoolStats {
    pub total_checkouts: u64,
    pub total_checkins: u64,
    pub total_created: u64,
    pub total_refreshed: u64,
    pub current_pool_size: usize,
}

impl Default for PoolStats {
    /// All counters zero.
    fn default() -> (r: Self)
        ensures
            r == (PoolStats {
                total_checkouts: 0,
                total_checkins: 0,
                total_created: 0,
                total_refreshed: 0,
                current_pool_size: 0,
            }),
    {
        PoolStats { total_checkouts: 0, total_checkins: 0, total_created: 0, total_refreshed: 0, current_pool_size: 0 }
    }
}

/// A pool's errors.
#[derive(Debug, PartialEq, Eq, Structural)]
pub enum PoolError {
    /// No kernel became available within the checkout timeout.
    Timeout,
    /// The pool's semaphore was closed.
    Semaphore,
    /// A kernel could not be created.
    KernelLoad,
}

/// The text of each error: the timeout's and the closed semaphore's as the pool
/// reports them; a failed load gives its cause, which the loader knows, after this.
pub open spec fn pool_error_message(e: PoolError) -> Seq<char> {
    match e {
        PoolError::Timeout => "Timeout waiting for available kernel"@,
        PoolError::Semaphore => "Semaphore error: semaphore closed"@,
        PoolError::KernelLoad => "Could not load mining kernel"@,
    }
}

impl PoolError {
    /// The text of the error.
    pub fn message(&self) -> (r: String)
        ensures
            r@ == pool_error_message(*self),
    {
        match self {
            PoolError::Timeout => "Timeout waiting for available kernel".to_owned(),
            PoolError::Semaphore => "Semaphore error: semaphore closed".to_owned(),
            PoolError::KernelLoad => "Could not load mining kernel".to_owned(),
        }
    }
}

/// A reusable kernel with the time it was created and the number of times it was
/// handed out.
#[derive(Debug)]
pub struct PooledKernel<K> {
    pub kernel: K,
    pub created_at: u128,
    pub usage_count: u64,
}

/// The age of a kernel at time `now`: zero when `now` is before its creation.
pub open spec fn age(created_at: u128, now: u128) -> nat {
    if now >= created_at {
        (now - created_at) as nat
    } else {
        0
    }
}

/// Whether a kernel must be replaced: it is older than `max_age` or was used more
/// than `max_usage` times.
pub open spec fn needs_refresh(created_at: u128, usage_count: u64, now: u128, max_age: u128, max_usage: u64) -> bool {
    age(created_at, now) > max_age || usage_count > max_usage
}

impl<K> PooledKernel<K> {
    /// A kernel created at `now`, not yet used.
    pub fn new(kernel: K, now: u128) -> (r: Self)
        ensures
            r.kernel == kernel,
            r.created_at == now,
            r.usage_count == 0,
    {
        PooledKernel { kernel, created_at: now, usage_count: 0 }
    }

    /// Readies the kernel for another use, counting the use.
    pub fn reset(&mut self) -> (r: Result<(), PoolError>)
        requires
            old(self).usage_count < u64::MAX,
        ensures
            r is Ok,
            final(self).usage_count == old(self).usage_count + 1,
            final(self).created_at == old(self).created_at,
            final(self).kernel == old(self).kernel,
    {
        self.usage_count = self.usage_count + 1;
        Ok(())
    }

    /// Whether the kernel should be replaced (due to age or usage) at time `now`.
    pub fn should_refresh(&self, now: u128, max_age: u128, max_usage: u64) -> (r: bool)
        ensures
            r == needs_refresh(self.created_at, self.usage_count, now, max_age, max_usage),
    {
        let elapsed = if now >= self.created_at {
            now - self.created_at
        } else {
            0
        };
        elapsed > max_age || self.usage_count > max_usage
    }
}

/// What a checkout does after taking the front of the pool.
pub enum CheckoutStep<K> {
    /// Hand out this kernel, which is fit for use.
    Reuse(PooledKernel<K>),
    /// Create a new kernel: the pool was empty, or its front kernel was stale and is
    /// dropped.
    Create,
}

/// Whether no counter of `b` is below the same counter of `a`.
pub open spec fn counters_grow(a: PoolStats, b: PoolStats) -> bool {
    &&& a.total_checkouts <= b.total_checkouts
    &&& a.total_checkins <= b.total_checkins
    &&& a.total_created <= b.total_created
    &&& a.total_refreshed <= b.total_refreshed
}

/// The counters never go down: over any sequence of steps, each of which keeps them
/// from going down, they end no lower than they began.
pub proof fn lemma_counters_grow_trans(a: PoolStats, b: PoolStats, c: PoolStats)
    requires
        counters_grow(a, b),
        counters_grow(b, c),
    ensures
        counters_grow(a, c),
{
}

/// Over a run of pool states, each step of which keeps the counters from going
/// down, the last state's counters are no lower than the first's.
pub proof fn lemma_counters_grow_seq(states: Seq<PoolStats>)
    requires
        states.len() >= 1,
        forall|i: int| 0 <= i < states.len() - 1 ==> counters_grow(#[trigger] states[i], states[i + 1]),
    ensures
        counters_grow(states[0], states.last()),
    decreases states.len(),
{
    if states.len() > 1 {
        let init = states.drop_last();
        assert forall|i: int| 0 <= i < init.len() - 1 implies counters_grow(#[trigger] init[i], init[i + 1]) by {
            assert(init[i] == states[i] && init[i + 1] == states[i + 1]);
        }
        lemma_counters_grow_seq(init);
        assert(counters_grow(states[states.len() - 2], states[states.len() - 1]));
    }
}

/// A pool of kernels, handed out from the front and returned to the back, with the
/// number of kernels that are checked out.
pub struct KernelPool<K> {
    pool: VecDeque<PooledKernel<K>>,
    config: KernelPoolConfig,
    stats: PoolStats,
    outstanding: usize,
}

impl<K> KernelPool<K> {
    /// The kernels in the pool, front first.
    pub closed spec fn kernels(&self) -> Seq<PooledKernel<K>> {
        self.pool@
    }

    /// The pool's configuration.
    pub closed spec fn config_spec(&self) -> KernelPoolConfig {
        self.config
    }

    /// The pool's counters, as stored.
    pub closed spec fn stats_spec(&self) -> PoolStats {
        self.stats
    }

    /// The number of kernels checked out and not yet returned.
    pub closed spec fn outstanding_spec(&self) -> nat {
        self.outstanding as nat
    }

    /// Whether the pool holds no more than `max_size` kernels.
    pub open spec fn within_max(&self) -> bool {
        self.kernels().len() <= self.config_spec().max_size
    }

    /// An empty pool with zero counters.
    pub fn new(config: KernelPoolConfig) -> (r: Self)
        ensures
            r.kernels() == Seq::<PooledKernel<K>>::empty(),
            r.config_spec() == config,
            r.stats_spec() == (PoolStats {
                total_checkouts: 0,
                total_checkins: 0,
                total_created: 0,
                total_refreshed: 0,
                current_pool_size: 0,
            }),
            r.outstanding_spec() == 0,
    {
        KernelPool { pool: VecDeque::new(), config, stats: PoolStats::default(), outstanding: 0 }
    }

    /// The number of kernels checked out and not yet returned.
    pub fn outstanding(&self) -> (r: usize)
        ensures
            r == self.outstanding_spec(),
    {
        self.outstanding
    }

    /// Whether a checkout may proceed: fewer than `max_size` kernels are out.
    pub fn can_checkout(&self) -> (r: bool)
        ensures
            r == (self.outstanding_spec() < self.config_spec().max_size),
    {
        self.outstanding < self.config.max_size
    }

    /// How many kernels to add to bring the pool up to `min_size`.
    pub fn kernels_to_add(&self) -> (r: usize)
        ensures
            r == if self.kernels().len() < self.config_spec().min_size {
                self.config_spec().min_size - self.kernels().len()
            } else {
                0
            },
    {
        if self.pool.len() < self.config.min_size {
            self.config.min_size - self.pool.len()
        } else {
            0
        }
    }

    /// The pool's configuration.
    pub fn config(&self) -> (r: KernelPoolConfig)
        ensures
            r == self.config_spec(),
    {
        self.config
    }

    /// The number of kernels in the pool.
    pub fn len(&self) -> (r: usize)
        ensures
            r == self.kernels().len(),
    {
        self.pool.len()
    }

    /// Adds one of the kernels the pool starts with, counting it as created.
    pub fn add_initial(&mut self, kernel: PooledKernel<K>)
        requires
            old(self).stats_spec().total_created < u64::MAX,
            old(self).stats_spec().current_pool_size < usize::MAX,
        ensures
            final(self).kernels() == old(self).kernels().push(kernel),
            final(self).config_spec() == old(self).config_spec(),
            final(self).stats_spec() == (PoolStats {
                total_created: (old(self).stats_spec().total_created + 1) as u64,
                current_pool_size: (old(self).stats_spec().current_pool_size + 1) as usize,
                ..old(self).stats_spec()
            }),
            final(self).outstanding_spec() == old(self).outstanding_spec(),
            counters_grow(old(self).stats_spec(), final(self).stats_spec()),
    {
        self.pool.push_back(kernel);
        self.stats.total_created = self.stats.total_created + 1;
        self.stats.current_pool_size = self.stats.current_pool_size + 1;
    }

    /// Takes the front kernel for a checkout at time `now`: it is handed out if fit
    /// for use; otherwise (and when the pool is empty) a new kernel must be created,
    /// and a stale front kernel is dropped and counted as refreshed.
    pub fn begin_checkout(&mut self, now: u128) -> (r: CheckoutStep<K>)
        requires
            old(self).stats_spec().total_refreshed < u64::MAX,
        ensures
            final(self).config_spec() == old(self).config_spec(),
            final(self).outstanding_spec() == old(self).outstanding_spec(),
            counters_grow(old(self).stats_spec(), final(self).stats_spec()),
            old(self).within_max() ==> final(self).within_max(),
            old(self).kernels().len() == 0 ==> r is Create && final(self).kernels() == old(self).kernels()
                && final(self).stats_spec() == old(self).stats_spec(),
            old(self).kernels().len() > 0 ==> {
                let k = old(self).kernels()[0];
                let c = old(self).config_spec();
                &&& final(self).kernels() == old(self).kernels().drop_first()
                &&& if needs_refresh(k.created_at, k.usage_count, now, c.max_kernel_age, c.max_kernel_usage) {
                    &&& r is Create
                    &&& final(self).stats_spec() == (PoolStats {
                        total_refreshed: (old(self).stats_spec().total_refreshed + 1) as u64,
                        ..old(self).stats_spec()
                    })
                } else {
                    &&& r matches CheckoutStep::Reuse(x) && x == k
                    &&& final(self).stats_spec() == old(self).stats_spec()
                }
            },
    {
        match self.pool.pop_front() {
            None => CheckoutStep::Create,
            Some(k) => {
                if k.should_refresh(now, self.config.max_kernel_age, self.config.max_kernel_usage) {
                    self.stats.total_refreshed = self.stats.total_refreshed + 1;
                    CheckoutStep::Create
                } else {
                    CheckoutStep::Reuse(k)
                }
            },
        }
    }

    /// Counts a kernel created for a checkout.
    pub fn record_created(&mut self)
        requires
            old(self).stats_spec().total_created < u64::MAX,
        ensures
            final(self).kernels() == old(self).kernels(),
            final(self).config_spec() == old(self).config_spec(),
            final(self).stats_spec() == (PoolStats {
                total_created: (old(self).stats_spec().total_created + 1) as u64,
                ..old(self).stats_spec()
            }),
            final(self).outstanding_spec() == old(self).outstanding_spec(),
            counters_grow(old(self).stats_spec(), final(self).stats_spec()),
    {
        self.stats.total_created = self.stats.total_created + 1;
    }

    /// Completes a checkout, which is allowed only while fewer than `max_size` kernels
    /// are out: the kernel is reset (one more use), counted as out, the checkout is
    /// counted and the pool size recorded.
    pub fn finish_checkout(&mut self, kernel: PooledKernel<K>) -> (r: PooledKernel<K>)
        requires
            kernel.usage_count < u64::MAX,
            old(self).stats_spec().total_checkouts < u64::MAX,
            old(self).outstanding_spec() < old(self).config_spec().max_size,
        ensures
            r.kernel == kernel.kernel,
            r.created_at == kernel.created_at,
            r.usage_count == kernel.usage_count + 1,
            final(self).kernels() == old(self).kernels(),
            final(self).config_spec() == old(self).config_spec(),
            final(self).stats_spec() == (PoolStats {
                total_checkouts: (old(self).stats_spec().total_checkouts + 1) as u64,
                current_pool_size: old(self).kernels().len() as usize,
                ..old(self).stats_spec()
            }),
            final(self).outstanding_spec() == old(self).outstanding_spec() + 1,
            final(self).outstanding_spec() <= final(self).config_spec().max_size,
            counters_grow(old(self).stats_spec(), final(self).stats_spec()),
    {
        let mut kernel = kernel;
        let _ = kernel.reset();
        self.outstanding = self.outstanding + 1;
        self.stats.total_checkouts = self.stats.total_checkouts + 1;
        self.stats.current_pool_size = self.pool.len();
        kernel
    }

    /// Returns a kernel to the pool at time `now`: it is kept, at the back, only if
    /// it is still fit for use and the pool holds fewer than `max_size` kernels; the
    /// checkin is counted, the kernel no longer counts as out, and the pool size is
    /// recorded. A pool that held at most `max_size` kernels still does.
    pub fn checkin(&mut self, kernel: PooledKernel<K>, now: u128)
        requires
            old(self).stats_spec().total_checkins < u64::MAX,
        ensures
            final(self).config_spec() == old(self).config_spec(),
            ({
                let c = old(self).config_spec();
                let keep = !needs_refresh(kernel.created_at, kernel.usage_count, now, c.max_kernel_age, c.max_kernel_usage)
                    && old(self).kernels().len() < c.max_size;
                final(self).kernels() == if keep {
                    old(self).kernels().push(kernel)
                } else {
                    old(self).kernels()
                }
            }),
            final(self).stats_spec() == (PoolStats {
                total_checkins: (old(self).stats_spec().total_checkins + 1) as u64,
                current_pool_size: final(self).kernels().len() as usize,
                ..old(self).stats_spec()
            }),
            final(self).outstanding_spec() == if old(self).outstanding_spec() > 0 {
                (old(self).outstanding_spec() - 1) as nat
            } else {
                0
            },
            counters_grow(old(self).stats_spec(), final(self).stats_spec()),
            old(self).within_max() ==> final(self).within_max(),
    {
        if self.outstanding > 0 {
            self.outstanding = self.outstanding - 1;
        }
        if !kernel.should_refresh(now, self.config.max_kernel_age, self.config.max_kernel_usage) {
            if self.pool.len() < self.config.max_size {
                self.pool.push_back(kernel);
            }
        }
        self.stats.total_checkins = self.stats.total_checkins + 1;
        self.stats.current_pool_size = self.pool.len();
    }

    /// The pool's counters, with the current number of kernels in the pool.
    pub fn stats(&self) -> (r: PoolStats)
        ensures
            r == (PoolStats { current_pool_size: self.kernels().len() as usize, ..self.stats_spec() }),
    {
        PoolStats { current_pool_size: self.pool.len(), ..self.stats }
    }

    /// Starts a refresh of all kernels: the pool is emptied.
    pub fn begin_refresh(&mut self)
        ensures
            final(self).kernels() == Seq::<PooledKernel<K>>::empty(),
            final(self).config_spec() == old(self).config_spec(),
            final(self).stats_spec() == old(self).stats_spec(),
            final(self).outstanding_spec() == old(self).outstanding_spec(),
    {
        self.pool.clear();
    }

    /// Adds a fresh kernel during a refresh.
    pub fn add_refreshed(&mut self, kernel: PooledKernel<K>)
        ensures
            final(self).kernels() == old(self).kernels().push(kernel),
            final(self).config_spec() == old(self).config_spec(),
            final(self).stats_spec() == old(self).stats_spec(),
            final(self).outstanding_spec() == old(self).outstanding_spec(),
    {
        self.pool.push_back(kernel);
    }

    /// Completes a refresh: `min_size` kernels count as refreshed, and the pool size
    /// is recorded as `min_size`.
    pub fn finish_refresh(&mut self)
        requires
            old(self).stats_spec().total_refreshed + old(self).config_spec().min_size <= u64::MAX,
        ensures
            final(self).kernels() == old(self).kernels(),
            final(self).config_spec() == old(self).config_spec(),
            final(self).stats_spec() == (PoolStats {
                total_refreshed: (old(self).stats_spec().total_refreshed + old(self).config_spec().min_size) as u64,
                current_pool_size: old(self).config_spec().min_size,
                ..old(self).stats_spec()
            }),
            final(self).outstanding_spec() == old(self).outstanding_spec(),
            counters_grow(old(self).stats_spec(), final(self).stats_spec()),
    {
        self.stats.total_refreshed = self.stats.total_refreshed + self.config.min_size as u64;
        self.stats.current_pool_size = self.config.min_size;
    }
}

} // verus!
