//! Object pool for reusable values, with acquisition statistics.

use std::collections::VecDeque;
use std::marker::PhantomData;
use vstd::prelude::*;

verus! {

/// `VecDeque::shrink_to_fit`: gives back unused capacity. The std
/// documentation states that only the capacity changes, so the contents are
/// claimed unchanged.
#[verifier::external_body]
fn shrink_deque<T>(d: &mut VecDeque<T>)
    ensures
        final(d)@ == old(d)@,
{
    d.shrink_to_fit();
}

/// Counters of a pool.
#[derive(Debug, Clone)]
pub struct PoolStats {
    /// Acquisitions so far.
    pub total_acquisitions: usize,
    /// Releases so far.
    pub total_releases: usize,
    /// Values created because the pool was empty.
    pub total_allocations: usize,
    /// Values acquired and not released.
    pub active_objects: usize,
    /// Highest number of active values seen.
    pub peak_active_objects: usize,
    /// Acquisitions served from the pool.
    pub pool_hits: usize,
    /// Acquisitions that had to create a value.
    pub pool_misses: usize,
}

impl Default for PoolStats {
    fn default() -> (s: PoolStats)
        ensures
            s == PoolStats::zero(),
    {
        PoolStats {
            total_acquisitions: 0,
            total_releases: 0,
            total_allocations: 0,
            active_objects: 0,
            peak_active_objects: 0,
            pool_hits: 0,
            pool_misses: 0,
        }
    }
}

impl PoolStats {
    /// All counters at zero.
    pub open spec fn zero() -> PoolStats {
        PoolStats {
            total_acquisitions: 0,
            total_releases: 0,
            total_allocations: 0,
            active_objects: 0,
            peak_active_objects: 0,
            pool_hits: 0,
            pool_misses: 0,
        }
    }

    /// How the counters relate: every acquisition is a hit or a miss, every
    /// miss creates a value, and the active count never exceeds its peak,
    /// which never exceeds the acquisitions.
    pub open spec fn consistent(self) -> bool {
        &&& self.pool_hits + self.pool_misses == self.total_acquisitions
        &&& self.total_allocations == self.pool_misses
        &&& self.active_objects <= self.peak_active_objects
        &&& self.peak_active_objects <= self.total_acquisitions
    }

    /// The counters after one acquisition, served from the pool (`hit`) or
    /// not.
    pub open spec fn after_acquire(self, hit: bool) -> PoolStats {
        let active = (self.active_objects + 1) as usize;
        PoolStats {
            total_acquisitions: (self.total_acquisitions + 1) as usize,
            pool_hits: if hit {
                (self.pool_hits + 1) as usize
            } else {
                self.pool_hits
            },
            pool_misses: if hit {
                self.pool_misses
            } else {
                (self.pool_misses + 1) as usize
            },
            total_allocations: if hit {
                self.total_allocations
            } else {
                (self.total_allocations + 1) as usize
            },
            active_objects: active,
            peak_active_objects: if active > self.peak_active_objects {
                active
            } else {
                self.peak_active_objects
            },
            ..self
        }
    }

    /// The counters after one release.
    pub open spec fn after_release(self) -> PoolStats {
        PoolStats {
            total_releases: (self.total_releases + 1) as usize,
            active_objects: if self.active_objects > 0 {
                (self.active_objects - 1) as usize
            } else {
                0
            },
            ..self
        }
    }
}

/// Abstract state of a pool: the values waiting to be reused, in order,
/// the bound on how many are kept, and the counters.
pub struct PoolView<T> {
    pub available: Seq<T>,
    pub max_size: usize,
    pub stats: PoolStats,
}

/// A pool of reusable values: acquiring takes the oldest waiting value or
/// creates a default one; releasing keeps the value for reuse while fewer
/// than `max_size` are waiting.
pub struct ObjectPool<T: Default + Clone> {
    available: VecDeque<T>,
    max_size: usize,
    stats: PoolStats,
    _marker: PhantomData<T>,
}

impl<T: Default + Clone> View for ObjectPool<T> {
    type V = PoolView<T>;

    closed spec fn view(&self) -> PoolView<T> {
        PoolView { available: self.available@, max_size: self.max_size, stats: self.stats }
    }
}

impl<T: Default + Clone> ObjectPool<T> {
    /// The pool's invariant: its counters are consistent.
    pub open spec fn well_formed(&self) -> bool {
        self@.stats.consistent()
    }

    /// A pool holding `initial_capacity` default values, with no bound on
    /// how many released values it keeps.
    pub fn new(initial_capacity: usize) -> (p: Self)
        ensures
            p.well_formed(),
            p@.available.len() == initial_capacity,
            forall|k: int| 0 <= k < initial_capacity ==> call_ensures(T::default, (), #[trigger] p@.available[k]),
            p@.max_size == usize::MAX,
            p@.stats == PoolStats::zero(),
    {
        Self::with_max_size(initial_capacity, usize::MAX)
    }

    /// A pool holding `initial_capacity` default values that keeps at most
    /// `max_size` released values.
    pub fn with_max_size(initial_capacity: usize, max_size: usize) -> (p: Self)
        ensures
            p.well_formed(),
            p@.available.len() == initial_capacity,
            forall|k: int| 0 <= k < initial_capacity ==> call_ensures(T::default, (), #[trigger] p@.available[k]),
            p@.max_size == max_size,
            p@.stats == PoolStats::zero(),
    {
        let mut pool = ObjectPool {
            available: VecDeque::with_capacity(initial_capacity),
            max_size,
            stats: PoolStats::default(),
            _marker: PhantomData,
        };
        let mut k: usize = 0;
        while k < initial_capacity
            invariant
                k <= initial_capacity,
                pool@.available.len() == k,
                forall|m: int| 0 <= m < k ==> call_ensures(T::default, (), #[trigger] pool@.available[m]),
                pool@.max_size == max_size,
                pool@.stats == PoolStats::zero(),
            decreases initial_capacity - k,
        {
            pool.available.push_back(T::default());
            k = k + 1;
        }
        pool
    }

    /// Takes the oldest waiting value, or creates a default one when none is
    /// waiting.
    pub fn acquire(&mut self) -> (r: T)
        requires
            old(self).well_formed(),
            old(self)@.stats.total_acquisitions < usize::MAX,
        ensures
            final(self).well_formed(),
            final(self)@.max_size == old(self)@.max_size,
            old(self)@.available.len() > 0 ==> r == old(self)@.available[0] && final(self)@.available
                == old(self)@.available.drop_first(),
            old(self)@.available.len() == 0 ==> call_ensures(T::default, (), r) && final(self)@.available
                == old(self)@.available,
            final(self)@.stats == old(self)@.stats.after_acquire(old(self)@.available.len() > 0),
    {
        self.stats.total_acquisitions += 1;
        if let Some(obj) = self.available.pop_front() {
            self.stats.pool_hits += 1;
            self.stats.active_objects += 1;
            if self.stats.active_objects > self.stats.peak_active_objects {
                self.stats.peak_active_objects = self.stats.active_objects;
            }
            proof {
                assert(self.available@ =~= old(self)@.available.drop_first());
            }
            obj
        } else {
            self.stats.pool_misses += 1;
            self.stats.total_allocations += 1;
            self.stats.active_objects += 1;
            if self.stats.active_objects > self.stats.peak_active_objects {
                self.stats.peak_active_objects = self.stats.active_objects;
            }
            T::default()
        }
    }

    /// Takes the oldest waiting value, or creates one with `init` when none
    /// is waiting.
    pub fn acquire_with<F: FnOnce() -> T>(&mut self, init: F) -> (r: T)
        requires
            old(self).well_formed(),
            old(self)@.stats.total_acquisitions < usize::MAX,
            call_requires(init, ()),
        ensures
            final(self).well_formed(),
            final(self)@.max_size == old(self)@.max_size,
            old(self)@.available.len() > 0 ==> r == old(self)@.available[0] && final(self)@.available
                == old(self)@.available.drop_first(),
            old(self)@.available.len() == 0 ==> call_ensures(init, (), r) && final(self)@.available
                == old(self)@.available,
            final(self)@.stats == old(self)@.stats.after_acquire(old(self)@.available.len() > 0),
    {
        self.stats.total_acquisitions += 1;
        let obj = if let Some(available) = self.available.pop_front() {
            self.stats.pool_hits += 1;
            proof {
                assert(self.available@ =~= old(self)@.available.drop_first());
            }
            available
        } else {
            self.stats.pool_misses += 1;
            self.stats.total_allocations += 1;
            init()
        };
        self.stats.active_objects += 1;
        if self.stats.active_objects > self.stats.peak_active_objects {
            self.stats.peak_active_objects = self.stats.active_objects;
        }
        obj
    }

    /// Returns a value to the pool; it is kept for reuse while fewer than
    /// `max_size` values are waiting, and dropped otherwise.
    pub fn release(&mut self, obj: T)
        requires
            old(self).well_formed(),
            old(self)@.stats.total_releases < usize::MAX,
        ensures
            final(self).well_formed(),
            final(self)@.max_size == old(self)@.max_size,
            final(self)@.available == if old(self)@.available.len() < old(self)@.max_size {
                old(self)@.available.push(obj)
            } else {
                old(self)@.available
            },
            final(self)@.stats == old(self)@.stats.after_release(),
    {
        let mut obj = obj;
        self.reset_object(&mut obj);
        if self.available.len() < self.max_size {
            self.available.push_back(obj);
        }
        self.stats.total_releases += 1;
        self.stats.active_objects = self.stats.active_objects.saturating_sub(1);
    }

    /// Prepares a released value for reuse; values are kept as they are.
    fn reset_object(&self, obj: &mut T)
        ensures
            *final(obj) == *old(obj),
    {
    }

    /// Number of values waiting to be reused.
    pub fn available_count(&self) -> (r: usize)
        ensures
            r == self@.available.len(),
    {
        self.available.len()
    }

    /// The counters.
    pub fn stats(&self) -> (r: &PoolStats)
        ensures
            *r == self@.stats,
    {
        &self.stats
    }

    /// Drops every waiting value.
    pub fn clear(&mut self)
        ensures
            final(self)@.available.len() == 0,
            final(self)@.max_size == old(self)@.max_size,
            final(self)@.stats == old(self)@.stats,
    {
        self.available.clear();
    }

    /// Gives back memory not needed for the waiting values.
    pub fn shrink_to_fit(&mut self)
        ensures
            final(self)@ == old(self)@,
    {
        shrink_deque(&mut self.available);
    }

    /// Makes room for `additional` more waiting values.
    pub fn reserve(&mut self, additional: usize)
        ensures
            final(self)@ == old(self)@,
    {
        self.available.reserve(additional);
    }
}

impl<T: Default + Clone> Default for ObjectPool<T> {
    fn default() -> (p: Self)
        ensures
            p.well_formed(),
            p@.available.len() == 16,
            p@.max_size == usize::MAX,
            p@.stats == PoolStats::zero(),
    {
        Self::new(16)
    }
}

} // verus!
