//! A pool that deals work out to its workers in turn.
//!
//! Each worker has a queue of its own, without bound. A send puts the value
//! into the queue of the worker whose turn it is and moves on to the next
//! worker. A worker takes from its own queue only.
use crate::model::ring;
use std::collections::VecDeque;
use vstd::prelude::*;

verus! {

/// What a pool holds at one instant.
pub struct PoolView<T> {
    /// Each worker's queue, oldest value first.
    pub queues: Seq<Seq<T>>,
    /// The worker whose turn it is.
    pub next: nat,
    /// Whether the pool has been shut down.
    pub closed: bool,
}

impl<T> PoolView<T> {
    /// The pool without a worker.
    pub open spec fn empty() -> PoolView<T> {
        PoolView { queues: Seq::empty(), next: 0, closed: false }
    }

    /// The pool with one more worker, whose queue is empty.
    pub open spec fn spawn(self) -> PoolView<T> {
        PoolView { queues: self.queues.push(Seq::empty()), ..self }
    }

    /// The pool after a send: the value is the newest in the queue of the
    /// worker whose turn it was, and the turn passes to the next worker.
    pub open spec fn send(self, x: T) -> PoolView<T> {
        PoolView {
            queues: self.queues.update(self.next as int, self.queues[self.next as int].push(x)),
            next: ring(self.next as int, 1, self.queues.len() as int) as nat,
            ..self
        }
    }

    /// What a worker finds when it looks into its queue.
    pub open spec fn work(self, worker: int) -> Work<T> {
        if self.queues[worker].len() > 0 {
            Work::Run(self.queues[worker][0])
        } else if self.closed {
            Work::Exit
        } else {
            Work::Park
        }
    }

    /// The pool after a worker has looked into its queue: the oldest value,
    /// if there was one, is gone from it.
    pub open spec fn take(self, worker: int) -> PoolView<T> {
        if self.queues[worker].len() > 0 {
            PoolView {
                queues: self.queues.update(
                    worker,
                    self.queues[worker].subrange(1, self.queues[worker].len() as int),
                ),
                ..self
            }
        } else {
            self
        }
    }
}

/// What a worker does next.
#[derive(Debug, PartialEq)]
pub enum Work<T> {
    /// Run the closure on this value, then look again.
    Run(T),
    /// The queue is empty: sleep until woken, then look again.
    Park,
    /// The queue is empty and the pool is shut down: leave.
    Exit,
}

/// A pool optimised for bursts of activity.
pub struct BurstPool<T> {
    threads: Vec<VecDeque<T>>,
    next_thread: usize,
    closed: bool,
}

impl<T> View for BurstPool<T> {
    type V = PoolView<T>;

    closed spec fn view(&self) -> PoolView<T> {
        PoolView {
            queues: Seq::new(self.threads@.len(), |i: int| self.threads@[i]@),
            next: self.next_thread as nat,
            closed: self.closed,
        }
    }
}

impl<T> BurstPool<T> {
    /// The turn is some worker's, or nobody's while there is no worker.
    pub open spec fn wf(&self) -> bool {
        self@.next == 0 || self@.next < self@.queues.len()
    }

    /// Create a new empty pool.
    pub fn new() -> (pool: BurstPool<T>)
        ensures
            pool.wf(),
            pool@ == PoolView::<T>::empty(),
    {
        let pool = BurstPool { threads: Vec::new(), next_thread: 0, closed: false };
        assert(pool@.queues =~= Seq::empty());
        pool
    }

    /// Add a worker to the pool. Returns the worker's number: the caller
    /// starts the thread that takes this worker's values.
    pub fn spawn(&mut self) -> (worker: usize)
        requires
            old(self).wf(),
        ensures
            final(self).wf(),
            final(self)@ == old(self)@.spawn(),
            worker == old(self)@.queues.len(),
    {
        let worker = self.threads.len();
        self.threads.push(VecDeque::new());
        assert(self@.queues =~= old(self)@.spawn().queues);
        worker
    }

    /// Send a value to be processed by one of the workers: the one whose
    /// turn it is. Returns that worker's number, for the caller to wake it.
    /// There must be a worker, and the pool must not be shut down.
    pub fn send(&mut self, x: T) -> (worker: usize)
        requires
            old(self).wf(),
            old(self)@.queues.len() > 0,
            !old(self)@.closed,
        ensures
            final(self).wf(),
            final(self)@ == old(self)@.send(x),
            worker == old(self)@.next,
    {
        let n = self.threads.len();
        let worker = self.next_thread;
        self.threads[worker].push_back(x);
        self.next_thread = (worker + 1) % n;
        assert(self@.queues =~= old(self)@.send(x).queues);
        worker
    }

    /// One look of a worker into its queue.
    pub fn take(&mut self, worker: usize) -> (work: Work<T>)
        requires
            old(self).wf(),
            worker < old(self)@.queues.len(),
        ensures
            final(self).wf(),
            final(self)@ == old(self)@.take(worker as int),
            work == old(self)@.work(worker as int),
    {
        let got = self.threads[worker].pop_front();
        match got {
            Some(x) => {
                assert(self@.queues =~= old(self)@.take(worker as int).queues);
                Work::Run(x)
            },
            None => {
                assert(self@.queues =~= old(self)@.queues);
                if self.closed {
                    Work::Exit
                } else {
                    Work::Park
                }
            },
        }
    }

    /// Signal all the workers to leave, each once its queue is empty.
    pub fn shutdown(&mut self)
        requires
            old(self).wf(),
        ensures
            final(self).wf(),
            final(self)@ == (PoolView { closed: true, ..old(self)@ }),
    {
        self.closed = true;
    }

    /// How many workers the pool has.
    pub fn workers(&self) -> (n: usize)
        ensures
            n == self@.queues.len(),
    {
        self.threads.len()
    }

    /// The worker whose turn it is.
    pub fn next_thread(&self) -> (next: usize)
        ensures
            next == self@.next,
    {
        self.next_thread
    }

    /// Whether the pool has been shut down.
    pub fn is_closed(&self) -> (closed: bool)
        ensures
            closed == self@.closed,
    {
        self.closed
    }
}

} // verus!
