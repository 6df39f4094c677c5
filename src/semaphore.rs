//! Counting semaphores with a FIFO queue of blocked threads.
use vstd::prelude::*;

verus! {

/// State of a semaphore.
pub struct SemaphoreInner {
    /// Units left; when negative, the number of blocked threads.
    pub count: isize,
    /// Blocked threads, longest waiting first.
    pub wait_queue: Vec<usize>,
}

/// A counting semaphore.
pub struct Semaphore {
    pub inner: SemaphoreInner,
}

impl Semaphore {
    pub open spec fn count(&self) -> int {
        self.inner.count as int
    }

    pub open spec fn waiters(&self) -> Seq<usize> {
        self.inner.wait_queue@
    }

    /// One thread waits for each unit that the count is below zero.
    pub open spec fn wf(&self) -> bool {
        self.waiters().len() == if self.count() < 0 {
            -self.count()
        } else {
            0
        }
    }

    /// A semaphore holding `res_count` units, nobody waiting.
    pub fn new(res_count: usize) -> (s: Semaphore)
        requires
            res_count <= isize::MAX,
        ensures
            s.wf(),
            s.count() == res_count,
            s.waiters() == Seq::<usize>::empty(),
    {
        Semaphore { inner: SemaphoreInner { count: res_count as isize, wait_queue: Vec::new() } }
    }

    /// Gives back one unit. Where threads wait, the unit goes to the longest
    /// waiting one, which is returned.
    pub fn up(&mut self) -> (woken: Option<usize>)
        requires
            old(self).wf(),
            old(self).count() < isize::MAX,
        ensures
            final(self).wf(),
            final(self).count() == old(self).count() + 1,
            old(self).count() < 0 ==> {
                &&& woken == Some(old(self).waiters()[0])
                &&& final(self).waiters() == old(self).waiters().drop_first()
            },
            old(self).count() >= 0 ==> woken is None && final(self).waiters() == old(
                self,
            ).waiters(),
    {
        self.inner.count = self.inner.count + 1;
        if self.inner.count <= 0 {
            let t = self.inner.wait_queue.remove(0);
            proof {
                assert(self.inner.wait_queue@ =~= old(self).inner.wait_queue@.drop_first());
            }
            Some(t)
        } else {
            None
        }
    }

    /// Thread `tid` takes one unit. It gets it at once when one is left;
    /// otherwise it joins the back of the queue.
    pub fn down(&mut self, tid: usize) -> (acquired: bool)
        requires
            old(self).wf(),
            old(self).count() > isize::MIN,
        ensures
            final(self).wf(),
            final(self).count() == old(self).count() - 1,
            acquired == (old(self).count() > 0),
            final(self).waiters() == if acquired {
                old(self).waiters()
            } else {
                old(self).waiters().push(tid)
            },
    {
        self.inner.count = self.inner.count - 1;
        if self.inner.count < 0 {
            self.inner.wait_queue.push(tid);
            false
        } else {
            true
        }
    }
}

} // verus!
