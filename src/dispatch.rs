//! How accepted connections and worker threads are spread: connections go to
//! the workers round-robin, and each worker has a processing unit of its own
//! after the one that accepts connections.
use vstd::prelude::*;

verus! {

/// The processing unit that accepts connections.
pub const ACCEPT_UNIT: usize = 0;

/// Hands out worker indices round-robin.
pub struct Dispatcher {
    next: usize,
    num_workers: usize,
}

impl Dispatcher {
    /// Connections dispatched so far, modulo the word size.
    pub closed spec fn counter(&self) -> nat {
        self.next as nat
    }

    /// The number of workers.
    pub closed spec fn workers(&self) -> nat {
        self.num_workers as nat
    }

    /// A dispatcher over `num_workers` workers that starts at the first.
    pub fn new(num_workers: usize) -> (r: Dispatcher)
        requires
            num_workers > 0,
        ensures
            r.counter() == 0,
            r.workers() == num_workers,
    {
        Dispatcher { next: 0, num_workers }
    }

    /// The worker that takes the next connection: the count of connections
    /// dispatched so far, modulo the number of workers.
    pub fn next_worker(&mut self) -> (r: usize)
        requires
            old(self).workers() > 0,
        ensures
            r == old(self).counter() % old(self).workers(),
            r < old(self).workers(),
            final(self).workers() == old(self).workers(),
            old(self).counter() < usize::MAX ==> final(self).counter() == old(self).counter() + 1,
            old(self).counter() == usize::MAX ==> final(self).counter() == 0,
    {
        let r = self.next % self.num_workers;
        self.next = self.next.wrapping_add(1);
        r
    }
}

/// The processing unit of worker `worker`: the one after the accepting unit
/// and the units of the workers before it, capped at the last unit.
pub fn processing_unit_for_worker(worker: usize, num_units: usize) -> (r: usize)
    requires
        num_units > 0,
    ensures
        r == if worker + 1 < num_units {
            worker + 1
        } else {
            num_units - 1
        },
        r < num_units,
{
    if worker < num_units - 1 {
        worker + 1
    } else {
        num_units - 1
    }
}

} // verus!
