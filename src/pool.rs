//! Bookkeeping of a resizable worker pool: the live worker count, bounded by
//! a ceiling, and the shared FIFO queue of jobs that workers take from.
//! Running the workers themselves is left to the caller: each `Execute` job
//! taken is run, each `Shutdown` job taken ends one worker.
use vstd::prelude::*;

use std::collections::VecDeque;

use crate::text::{decimal, push_decimal};

verus! {

/// The most workers a pool holds.
pub const MAX_WORKERS: usize = 256;

/// A queue entry: work to run, or the order for one worker to stop.
pub enum Job<F> {
    Execute(F),
    Shutdown,
}

impl<F> Job<F> {
    pub fn new(handler: F) -> (r: Job<F>)
        ensures
            r == Job::Execute(handler),
    {
        Job::Execute(handler)
    }

    pub fn shrink() -> (r: Job<F>)
        ensures
            r is Shutdown,
    {
        Job::Shutdown
    }
}

/// The count after growing `size` workers by `by`, capped at the ceiling.
pub open spec fn grown(size: nat, by: nat) -> nat {
    if by <= MAX_WORKERS - size {
        size + by
    } else {
        MAX_WORKERS as nat
    }
}

/// The count after shrinking `size` workers by `by`, keeping at least one.
pub open spec fn shrunk(size: nat, by: nat) -> nat {
    if by <= size - 1 {
        (size - by) as nat
    } else {
        1
    }
}

/// The status message `Now at <n>/256 threads`.
pub open spec fn status_text(n: nat) -> Seq<char> {
    "Now at "@ + decimal(n) + "/256 threads"@
}

fn status(n: usize) -> (r: String)
    ensures
        r@ == status_text(n as nat),
{
    let mut r = String::from_str("Now at ");
    push_decimal(&mut r, n);
    r.append("/256 threads");
    r
}

pub struct Pool<F> {
    size: usize,
    queue: VecDeque<Job<F>>,
}

impl<F> Pool<F> {
    pub closed spec fn spec_size(&self) -> nat {
        self.size as nat
    }

    /// The jobs waiting, oldest first.
    pub closed spec fn spec_queue(&self) -> Seq<Job<F>> {
        self.queue@
    }

    /// At least one worker and at most the ceiling.
    pub open spec fn wf(&self) -> bool {
        1 <= self.spec_size() <= MAX_WORKERS
    }

    /// A pool of `size` workers (at most the ceiling) and no jobs.
    pub fn new(size: usize) -> (r: Pool<F>)
        requires
            size >= 1,
        ensures
            r.wf(),
            r.spec_size() == grown(0, size as nat),
            r.spec_queue() == Seq::<Job<F>>::empty(),
    {
        let size = if size <= MAX_WORKERS {
            size
        } else {
            MAX_WORKERS
        };
        Pool { size, queue: VecDeque::new() }
    }

    pub fn size(&self) -> (r: usize)
        ensures
            r == self.spec_size(),
    {
        self.size
    }

    /// Adds up to `by` workers, as many as the ceiling allows, and reports the
    /// new count.
    pub fn grow(&mut self, by: usize) -> (r: String)
        requires
            old(self).wf(),
        ensures
            final(self).wf(),
            final(self).spec_size() == grown(old(self).spec_size(), by as nat),
            final(self).spec_queue() == old(self).spec_queue(),
            r@ == status_text(final(self).spec_size()),
    {
        let limit = MAX_WORKERS - self.size;
        let by = if by <= limit {
            by
        } else {
            limit
        };
        self.size = self.size + by;
        status(self.size)
    }

    /// Retires up to `by` workers, keeping at least one: one `Shutdown` job is
    /// queued for each. Reports the new count.
    pub fn shrink(&mut self, by: usize) -> (r: String)
        requires
            old(self).wf(),
        ensures
            final(self).wf(),
            final(self).spec_size() == shrunk(old(self).spec_size(), by as nat),
            final(self).spec_queue() == old(self).spec_queue() + Seq::new(
                (old(self).spec_size() - final(self).spec_size()) as nat,
                |i: int| Job::<F>::Shutdown,
            ),
            r@ == status_text(final(self).spec_size()),
    {
        let limit = self.size - 1;
        let by = if by <= limit {
            by
        } else {
            limit
        };
        let ghost q0 = self.queue@;
        let mut i: usize = 0;
        while i < by
            invariant
                i <= by,
                self.size == old(self).size,
                q0 == old(self).queue@,
                self.queue@ == q0 + Seq::new(i as nat, |j: int| Job::<F>::Shutdown),
            decreases by - i,
        {
            self.queue.push_back(Job::shrink());
            i = i + 1;
            assert(self.queue@ =~= q0 + Seq::new(i as nat, |j: int| Job::<F>::Shutdown));
        }
        self.size = self.size - by;
        status(self.size)
    }

    /// Queues `handler` behind every job already waiting.
    pub fn exec(&mut self, handler: F)
        requires
            old(self).wf(),
        ensures
            final(self).wf(),
            final(self).spec_size() == old(self).spec_size(),
            final(self).spec_queue() == old(self).spec_queue().push(Job::Execute(handler)),
    {
        self.queue.push_back(Job::new(handler));
    }

    /// Takes the oldest waiting job, if any.
    pub fn next_job(&mut self) -> (r: Option<Job<F>>)
        requires
            old(self).wf(),
        ensures
            final(self).wf(),
            final(self).spec_size() == old(self).spec_size(),
            old(self).spec_queue().len() == 0 ==> r is None && final(self).spec_queue()
                == old(self).spec_queue(),
            old(self).spec_queue().len() > 0 ==> r == Some(old(self).spec_queue()[0])
                && final(self).spec_queue() == old(self).spec_queue().drop_first(),
    {
        self.queue.pop_front()
    }
}

/// Resizing keeps the count within bounds: growing never passes the ceiling
/// and adds exactly what was asked when there is room; shrinking never reaches
/// zero and, asked for at least all but one worker, leaves exactly one.
pub proof fn lemma_resize_bounds(size: nat, by: nat)
    requires
        1 <= size <= MAX_WORKERS,
    ensures
        size <= grown(size, by) <= MAX_WORKERS,
        size + by <= MAX_WORKERS ==> grown(size, by) == size + by,
        size + by >= MAX_WORKERS ==> grown(size, by) == MAX_WORKERS,
        1 <= shrunk(size, by) <= size,
        by + 1 >= size ==> shrunk(size, by) == 1,
{
}

} // verus!
