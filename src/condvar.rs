//! Condition variables.
use vstd::prelude::*;

verus! {

/// A condition variable: a FIFO queue of blocked threads, each with the lock it
/// gave up to wait and must take again before it goes on.
pub struct Condvar {
    /// `(thread, lock)` pairs, longest waiting first.
    pub wait_queue: Vec<(usize, usize)>,
}

impl Condvar {
    pub open spec fn waiters(&self) -> Seq<(usize, usize)> {
        self.wait_queue@
    }

    /// A condition variable nobody waits on.
    pub fn new() -> (c: Condvar)
        ensures
            c.waiters() == Seq::<(usize, usize)>::empty(),
    {
        Condvar { wait_queue: Vec::new() }
    }

    /// Removes and returns the longest waiting thread with its lock, if any.
    pub fn signal(&mut self) -> (woken: Option<(usize, usize)>)
        ensures
            old(self).waiters().len() > 0 ==> {
                &&& woken == Some(old(self).waiters()[0])
                &&& final(self).waiters() == old(self).waiters().drop_first()
            },
            old(self).waiters().len() == 0 ==> woken is None && final(self).waiters() == old(
                self,
            ).waiters(),
    {
        if self.wait_queue.len() > 0 {
            let w = self.wait_queue.remove(0);
            proof {
                assert(self.wait_queue@ =~= old(self).wait_queue@.drop_first());
            }
            Some(w)
        } else {
            None
        }
    }

    /// Thread `tid`, having given up lock `mutex_id`, joins the back of the queue.
    pub fn wait(&mut self, tid: usize, mutex_id: usize)
        ensures
            final(self).waiters() == old(self).waiters().push((tid, mutex_id)),
    {
        self.wait_queue.push((tid, mutex_id));
    }
}

} // verus!
