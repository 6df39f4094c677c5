//! Mutual exclusion locks: one that spins and one that queues its waiters.
use vstd::prelude::*;

verus! {

/// A lock held by at most one thread at a time.
pub trait Mutex {
    /// Some thread holds the lock.
    spec fn is_locked(&self) -> bool;

    /// Threads blocked on the lock, longest waiting first.
    spec fn waiters(&self) -> Seq<usize>;

    /// Waiters poll the lock instead of queueing on it.
    spec fn spins(&self) -> bool;

    /// Thread `tid` asks for the lock. It is granted when the lock is free.
    /// Otherwise a queueing lock puts `tid` at the back of its queue, and a
    /// spinning lock leaves `tid` to try again later.
    fn lock(&mut self, tid: usize) -> (acquired: bool)
        ensures
            acquired == !old(self).is_locked(),
            final(self).is_locked(),
            final(self).spins() == old(self).spins(),
            final(self).waiters() == if acquired || old(self).spins() {
                old(self).waiters()
            } else {
                old(self).waiters().push(tid)
            },
    ;

    /// Releases the lock. Where a thread waits for it, ownership passes
    /// directly to the longest waiting one, which is returned, and the lock
    /// stays locked.
    fn unlock(&mut self) -> (woken: Option<usize>)
        requires
            old(self).is_locked(),
        ensures
            final(self).spins() == old(self).spins(),
            old(self).waiters().len() > 0 ==> {
                &&& woken == Some(old(self).waiters()[0])
                &&& final(self).is_locked()
                &&& final(self).waiters() == old(self).waiters().drop_first()
            },
            old(self).waiters().len() == 0 ==> {
                &&& woken is None
                &&& !final(self).is_locked()
                &&& final(self).waiters() == old(self).waiters()
            },
    ;
}

/// A lock whose waiters yield and poll it again.
pub struct MutexSpin {
    pub locked: bool,
}

impl MutexSpin {
    /// An unlocked spin lock.
    pub fn new() -> (m: MutexSpin)
        ensures
            !m.is_locked(),
            m.waiters() == Seq::<usize>::empty(),
    {
        MutexSpin { locked: false }
    }
}

impl Mutex for MutexSpin {
    open spec fn is_locked(&self) -> bool {
        self.locked
    }

    open spec fn waiters(&self) -> Seq<usize> {
        Seq::empty()
    }

    open spec fn spins(&self) -> bool {
        true
    }

    fn lock(&mut self, tid: usize) -> (acquired: bool) {
        if self.locked {
            false
        } else {
            self.locked = true;
            true
        }
    }

    fn unlock(&mut self) -> (woken: Option<usize>) {
        self.locked = false;
        None
    }
}

/// State of a queueing lock.
pub struct MutexBlockingInner {
    pub locked: bool,
    /// Blocked threads, longest waiting first.
    pub wait_queue: Vec<usize>,
}

/// A lock whose waiters block in FIFO order until ownership is handed to them.
pub struct MutexBlocking {
    pub inner: MutexBlockingInner,
}

impl MutexBlocking {
    /// An unlocked queueing lock with nobody waiting.
    pub fn new() -> (m: MutexBlocking)
        ensures
            !m.is_locked(),
            m.waiters() == Seq::<usize>::empty(),
    {
        MutexBlocking { inner: MutexBlockingInner { locked: false, wait_queue: Vec::new() } }
    }
}

impl Mutex for MutexBlocking {
    open spec fn is_locked(&self) -> bool {
        self.inner.locked
    }

    open spec fn waiters(&self) -> Seq<usize> {
        self.inner.wait_queue@
    }

    open spec fn spins(&self) -> bool {
        false
    }

    fn lock(&mut self, tid: usize) -> (acquired: bool) {
        if self.inner.locked {
            self.inner.wait_queue.push(tid);
            false
        } else {
            self.inner.locked = true;
            true
        }
    }

    fn unlock(&mut self) -> (woken: Option<usize>) {
        if self.inner.wait_queue.len() > 0 {
            let t = self.inner.wait_queue.remove(0);
            proof {
                assert(self.inner.wait_queue@ =~= old(self).inner.wait_queue@.drop_first());
            }
            Some(t)
        } else {
            self.inner.locked = false;
            None
        }
    }
}

/// Either kind of lock, as a process keeps it.
pub enum AnyMutex {
    Spin(MutexSpin),
    Blocking(MutexBlocking),
}

impl Mutex for AnyMutex {
    open spec fn is_locked(&self) -> bool {
        match self {
            AnyMutex::Spin(m) => m.is_locked(),
            AnyMutex::Blocking(m) => m.is_locked(),
        }
    }

    open spec fn waiters(&self) -> Seq<usize> {
        match self {
            AnyMutex::Spin(m) => m.waiters(),
            AnyMutex::Blocking(m) => m.waiters(),
        }
    }

    open spec fn spins(&self) -> bool {
        self is Spin
    }

    fn lock(&mut self, tid: usize) -> (acquired: bool) {
        match self {
            AnyMutex::Spin(m) => m.lock(tid),
            AnyMutex::Blocking(m) => m.lock(tid),
        }
    }

    fn unlock(&mut self) -> (woken: Option<usize>) {
        match self {
            AnyMutex::Spin(m) => m.unlock(),
            AnyMutex::Blocking(m) => m.unlock(),
        }
    }
}

impl AnyMutex {
    /// Whether the lock is held.
    pub fn locked(&self) -> (r: bool)
        ensures
            r == self.is_locked(),
    {
        match self {
            AnyMutex::Spin(m) => m.locked,
            AnyMutex::Blocking(m) => m.inner.locked,
        }
    }
}

} // verus!
