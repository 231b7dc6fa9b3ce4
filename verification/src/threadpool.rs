//! Worker-pool configuration. A pool has a fixed, positive number of
//! workers; requesting a pool of zero workers is a configuration error.
//! The operating-system threads that drain a pool's job queue live outside
//! the verified engine, which dispatches jobs in phase order.

use vstd::prelude::*;

verus! {

/// A validated worker-pool configuration of a fixed, positive size.
pub struct ThreadPool {
    size: usize,
}

impl ThreadPool {
    /// The number of workers in the pool.
    pub closed spec fn size_spec(&self) -> int {
        self.size as int
    }

    /// Create a pool of exactly `size` workers. A pool with zero workers
    /// cannot make progress on any job, so `size == 0` is rejected.
    pub fn new(size: usize) -> (r: Result<ThreadPool, ()>)
        ensures
            r is Err <==> size == 0,
            r matches Ok(p) ==> p.size_spec() == size,
    {
        if size == 0 {
            return Err(());
        }
        Ok(ThreadPool { size })
    }

    /// The worker count the pool was built with.
    pub fn size(&self) -> (n: usize)
        ensures
            n == self.size_spec(),
    {
        self.size
    }
}

} // verus!
