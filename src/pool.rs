//! Worker pools: the interface the server spawns jobs through, and the
//! bookkeeping that keeps a pool at full strength when jobs panic. The
//! threads and the job queue are the caller's.
use vstd::prelude::*;
use crate::error::Result;

verus! {

/// A pool of workers that runs submitted jobs.
pub trait ThreadPool {
    /// A pool of `threads` workers.
    fn new(threads: usize) -> Result<Self> where Self: Sized;

    /// Queues `job` for a worker.
    fn spawn<F>(&self, job: F) where F: FnOnce() + Send + 'static;
}

/// What a worker took from the job queue.
#[derive(Debug, Clone, Copy, PartialEq, Eq)]
pub enum Received {
    /// A job to run.
    Job,
    /// The pool is shutting down.
    Terminate,
    /// The queue is gone.
    Closed,
}

/// What a worker does next.
#[derive(Debug, Clone, Copy, PartialEq, Eq)]
pub enum WorkerAction {
    RunJob,
    Exit,
}

/// A worker runs jobs and leaves its loop on anything else.
pub fn next_action(r: Received) -> (a: WorkerAction)
    ensures
        a == (if r == Received::Job {
            WorkerAction::RunJob
        } else {
            WorkerAction::Exit
        }),
{
    match r {
        Received::Job => WorkerAction::RunJob,
        _ => WorkerAction::Exit,
    }
}

/// The counts of a pool: its size, its live workers, whether it is
/// shutting down.
pub struct PoolBook {
    size: usize,
    live: usize,
    shut: bool,
}

pub ghost struct PoolView {
    pub size: nat,
    pub live: nat,
    pub shut: bool,
}

/// A worker left its loop, `panicked` when it unwound out of a job: a
/// worker that panicked is always replaced, so the count stays; one that
/// left on its own (told to terminate, or the queue gone) is not.
pub open spec fn exited(p: PoolView, panicked: bool) -> PoolView {
    if panicked {
        p
    } else {
        PoolView { live: (p.live - 1) as nat, ..p }
    }
}

/// The pool after workers leave, one per entry of `exits`.
pub open spec fn exited_all(p: PoolView, exits: Seq<bool>) -> PoolView
    decreases exits.len(),
{
    if exits.len() == 0 {
        p
    } else {
        exited(exited_all(p, exits.drop_last()), exits.last())
    }
}

/// However many workers panic out of their jobs, a pool keeps all of its
/// workers, shutting down or not, so a job queued afterwards still finds one.
pub proof fn lemma_panics_keep_workers(p: PoolView, exits: Seq<bool>)
    requires
        p.live == p.size,
        p.size > 0,
        forall|i: int| 0 <= i < exits.len() ==> #[trigger] exits[i],
    ensures
        exited_all(p, exits) == p,
        exited_all(p, exits).live > 0,
    decreases exits.len(),
{
    if exits.len() > 0 {
        lemma_panics_keep_workers(p, exits.drop_last());
        assert(exits.last());
    }
}

impl View for PoolBook {
    type V = PoolView;

    closed spec fn view(&self) -> PoolView {
        PoolView { size: self.size as nat, live: self.live as nat, shut: self.shut }
    }
}

impl PoolBook {
    /// A running pool of `size` workers, all live.
    pub fn new(size: usize) -> (r: PoolBook)
        ensures
            r@ == (PoolView { size: size as nat, live: size as nat, shut: false }),
    {
        PoolBook { size, live: size, shut: false }
    }

    /// Records that a worker left its loop; returns whether to start a
    /// replacement wired to the same queue.
    pub fn worker_exited(&mut self, panicked: bool) -> (respawn: bool)
        requires
            old(self)@.live > 0,
        ensures
            respawn == panicked,
            panicked ==> final(self)@ == old(self)@,
            final(self)@ == exited(old(self)@, panicked),
    {
        if panicked {
            true
        } else {
            self.live = self.live - 1;
            false
        }
    }

    /// Starts shutting down; returns how many terminate messages to queue,
    /// one per worker.
    pub fn shutdown(&mut self) -> (n: usize)
        ensures
            n == old(self)@.size,
            final(self)@ == (PoolView { shut: true, ..old(self)@ }),
    {
        self.shut = true;
        self.size
    }

    /// The live workers.
    pub fn live(&self) -> (n: usize)
        ensures
            n == self@.live,
    {
        self.live
    }
}

} // verus!
