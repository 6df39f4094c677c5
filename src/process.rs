//! A process's synchronization state: its threads, its locks, semaphores and
//! condition variables, the ledgers of both resource classes, and the
//! deadlock detector over them.
use crate::banker::{banker_is_safe, column_total, is_safe, rows};
use crate::condvar::Condvar;
use crate::ledger::Ledger;
use crate::mutex::{AnyMutex, Mutex};
use crate::semaphore::Semaphore;
use vstd::prelude::*;

verus! {

/// Where a thread stands with the scheduler.
#[derive(Clone, Copy, Debug)]
pub enum TaskStatus {
    /// Runnable.
    Ready,
    /// Off the ready set until some release or signal re-queues it.
    Blocked,
    /// Runnable, but polls the spin lock with this id before it goes on.
    Spinning(usize),
    /// Woken by a condition variable: runnable, but takes the lock with this
    /// id again before its wait returns.
    Relocking(usize),
    /// Off the ready set until the timer passes this instant, in milliseconds.
    Sleeping(usize),
}

/// A column total is at most another where each cell is at most its
/// counterpart.
pub proof fn lemma_total_le(a: Seq<Seq<usize>>, b: Seq<Seq<usize>>, j: int, k: int, n: int)
    requires
        forall|i: int| 0 <= i < n ==> a[i][j] <= b[i][k],
    ensures
        column_total(a, j, n) <= column_total(b, k, n),
    decreases n,
{
    if n > 0 {
        lemma_total_le(a, b, j, k, n - 1);
    }
}

/// The part of a process that its threads share and change.
pub struct ProcessControlBlockInner {
    /// One slot per thread id; `None` once the thread is gone.
    pub tasks: Vec<Option<TaskStatus>>,
    /// One slot per file descriptor; `true` where it is open.
    pub fd_table: Vec<bool>,
    pub mutex_list: Vec<Option<AnyMutex>>,
    pub semaphore_list: Vec<Option<Semaphore>>,
    pub condvar_list: Vec<Option<Condvar>>,
    /// Ledger of the locks, one unit each.
    pub mutex_ledger: Ledger,
    /// Ledger of the semaphores.
    pub semaphore_ledger: Ledger,
    /// Acquiring calls are checked by the deadlock detector.
    pub enable_deadlock: bool,
}

/// A process.
pub struct ProcessControlBlock {
    pub pid: usize,
    pub inner: ProcessControlBlockInner,
}

impl ProcessControlBlockInner {
    /// Thread `tid` exists and is runnable: it is the thread making a call.
    pub open spec fn is_running(&self, tid: int) -> bool {
        0 <= tid < self.tasks.len() && self.tasks@[tid] == Some(TaskStatus::Ready)
    }

    pub open spec fn valid_mutex(&self, id: int) -> bool {
        0 <= id < self.mutex_list.len() && self.mutex_list@[id] is Some
    }

    pub open spec fn valid_semaphore(&self, id: int) -> bool {
        0 <= id < self.semaphore_list.len() && self.semaphore_list@[id] is Some
    }

    pub open spec fn valid_condvar(&self, id: int) -> bool {
        0 <= id < self.condvar_list.len() && self.condvar_list@[id] is Some
    }

    pub open spec fn mutex_of(&self, id: int) -> AnyMutex {
        self.mutex_list@[id]->Some_0
    }

    pub open spec fn semaphore_of(&self, id: int) -> Semaphore {
        self.semaphore_list@[id]->Some_0
    }

    pub open spec fn condvar_of(&self, id: int) -> Condvar {
        self.condvar_list@[id]->Some_0
    }

    /// Lock `m` has one unit, available exactly when the lock is free, and
    /// queues only threads of this process.
    pub open spec fn mutex_ok(&self, m: int) -> bool {
        self.valid_mutex(m) ==> {
            &&& self.mutex_ledger.capacity@[m] == 1
            &&& self.mutex_ledger.available@[m] == if self.mutex_of(m).is_locked() {
                0usize
            } else {
                1usize
            }
            &&& forall|k: int|
                0 <= k < self.mutex_of(m).waiters().len() ==> #[trigger] self.mutex_of(
                    m,
                ).waiters()[k] < self.tasks.len()
        }
    }

    /// Semaphore `s` has as many units available as its count is above zero,
    /// and queues only threads of this process.
    pub open spec fn semaphore_ok(&self, s: int) -> bool {
        self.valid_semaphore(s) ==> {
            &&& self.semaphore_of(s).wf()
            &&& self.semaphore_ledger.available@[s] == if self.semaphore_of(s).count() > 0 {
                self.semaphore_of(s).count()
            } else {
                0
            }
            &&& forall|k: int|
                0 <= k < self.semaphore_of(s).waiters().len() ==> #[trigger] self.semaphore_of(
                    s,
                ).waiters()[k] < self.tasks.len()
        }
    }

    /// Condition variable `c` queues threads of this process, each with a lock
    /// of this process.
    pub open spec fn condvar_ok(&self, c: int) -> bool {
        self.valid_condvar(c) ==> forall|k: int|
            0 <= k < self.condvar_of(c).waiters().len() ==> {
                &&& #[trigger] self.condvar_of(c).waiters()[k].0 < self.tasks.len()
                &&& self.valid_mutex(self.condvar_of(c).waiters()[k].1 as int)
            }
    }

    /// A spinning or relocking thread waits for a lock of this process.
    pub open spec fn task_ok(&self, t: int) -> bool {
        match self.tasks@[t] {
            Some(TaskStatus::Spinning(m)) => self.valid_mutex(m as int),
            Some(TaskStatus::Relocking(m)) => self.valid_mutex(m as int),
            _ => true,
        }
    }

    /// The process's invariant.
    pub open spec fn wf(&self) -> bool {
        &&& self.mutex_ledger.wf()
        &&& self.semaphore_ledger.wf()
        &&& self.mutex_ledger.threads() == self.tasks.len()
        &&& self.semaphore_ledger.threads() == self.tasks.len()
        &&& self.mutex_ledger.resources() == self.mutex_list.len()
        &&& self.semaphore_ledger.resources() == self.semaphore_list.len()
        &&& forall|m: int| 0 <= m < self.mutex_list.len() ==> #[trigger] self.mutex_ok(m)
        &&& forall|s: int| 0 <= s < self.semaphore_list.len() ==> #[trigger] self.semaphore_ok(s)
        &&& forall|c: int| 0 <= c < self.condvar_list.len() ==> #[trigger] self.condvar_ok(c)
        &&& forall|t: int| 0 <= t < self.tasks.len() ==> #[trigger] self.task_ok(t)
    }

    /// Units available of every resource, locks first, then semaphores.
    pub open spec fn combined_available(&self) -> Seq<usize> {
        self.mutex_ledger.available@ + self.semaphore_ledger.available@
    }

    /// Units held by each live thread of every resource, locks first.
    pub open spec fn combined_allocation(&self) -> Seq<Seq<usize>> {
        self.combined_need(self.mutex_ledger.alloc_rows(), self.semaphore_ledger.alloc_rows())
    }

    /// Units of every resource, locks first: for each live thread its row of
    /// `mtab` followed by its row of `stab`; an emptied slot counts as a thread
    /// that holds and needs nothing.
    pub open spec fn combined_need(
        &self,
        mtab: Seq<Seq<usize>>,
        stab: Seq<Seq<usize>>,
    ) -> Seq<Seq<usize>> {
        Seq::new(
            self.tasks.len() as nat,
            |i: int|
                if self.tasks@[i] is Some {
                    mtab[i] + stab[i]
                } else {
                    Seq::new((self.mutex_list.len() + self.semaphore_list.len()) as nat, |j: int| 0usize)
                },
        )
    }

    /// The state, with these needs, is safe over both resource classes together.
    pub open spec fn safe_with(&self, mneed: Seq<Seq<usize>>, sneed: Seq<Seq<usize>>) -> bool {
        is_safe(
            self.combined_available(),
            self.combined_allocation(),
            self.combined_need(mneed, sneed),
        )
    }

    /// The current state is safe.
    pub open spec fn is_safe_state(&self) -> bool {
        self.safe_with(self.mutex_ledger.need_rows(), self.semaphore_ledger.need_rows())
    }

    /// Number of thread slots.
    pub fn thread_count(&self) -> (n: usize)
        ensures
            n == self.tasks.len(),
    {
        self.tasks.len()
    }

    /// The status of thread `tid`.
    pub fn get_task(&self, tid: usize) -> (s: TaskStatus)
        requires
            tid < self.tasks.len(),
            self.tasks@[tid as int] is Some,
        ensures
            Some(s) == self.tasks@[tid as int],
    {
        match self.tasks[tid] {
            Some(s) => s,
            None => TaskStatus::Ready,
        }
    }

    /// Whether `tid` names a runnable thread of this process.
    pub fn running(&self, tid: usize) -> (r: bool)
        ensures
            r == self.is_running(tid as int),
    {
        if tid < self.tasks.len() {
            match self.tasks[tid] {
                Some(TaskStatus::Ready) => true,
                _ => false,
            }
        } else {
            false
        }
    }

    fn concat(a: &Vec<usize>, b: &Vec<usize>) -> (r: Vec<usize>)
        ensures
            r@ == a@ + b@,
    {
        let mut r: Vec<usize> = Vec::new();
        let mut i: usize = 0;
        while i < a.len()
            invariant
                i <= a.len(),
                r@ == a@.take(i as int),
            decreases a.len() - i,
        {
            r.push(a[i]);
            i = i + 1;
            assert(r@ =~= a@.take(i as int));
        }
        let mut k: usize = 0;
        while k < b.len()
            invariant
                i == a.len(),
                k <= b.len(),
                r@ == a@ + b@.take(k as int),
            decreases b.len() - k,
        {
            r.push(b[k]);
            k = k + 1;
            assert(r@ =~= a@ + b@.take(k as int));
        }
        assert(b@.take(b.len() as int) =~= b@);
        r
    }

    /// Row `i` of `a` followed by row `i` of `b` where slot `i` of `tasks`
    /// holds a thread, and `w` zeros where it is empty.
    fn concat_rows(
        a: &Vec<Vec<usize>>,
        b: &Vec<Vec<usize>>,
        tasks: &Vec<Option<TaskStatus>>,
        w: usize,
    ) -> (r: Vec<Vec<usize>>)
        requires
            a.len() == b.len(),
            a.len() == tasks.len(),
        ensures
            rows(r@) == Seq::new(
                a.len() as nat,
                |i: int|
                    if tasks@[i] is Some {
                        rows(a@)[i] + rows(b@)[i]
                    } else {
                        Seq::new(w as nat, |j: int| 0usize)
                    },
            ),
    {
        let mut r: Vec<Vec<usize>> = Vec::new();
        let mut i: usize = 0;
        while i < a.len()
            invariant
                a.len() == b.len(),
                a.len() == tasks.len(),
                i <= a.len(),
                r.len() == i,
                forall|q: int|
                    0 <= q < i ==> #[trigger] r@[q]@ == if tasks@[q] is Some {
                        a@[q]@ + b@[q]@
                    } else {
                        Seq::new(w as nat, |j: int| 0usize)
                    },
            decreases a.len() - i,
        {
            if tasks[i].is_some() {
                let row = ProcessControlBlockInner::concat(&a[i], &b[i]);
                r.push(row);
            } else {
                let row = Ledger::zero_row(w);
                proof {
                    assert(row@ =~= Seq::new(w as nat, |j: int| 0usize));
                }
                r.push(row);
            }
            i = i + 1;
        }
        assert(rows(r@) =~= Seq::new(
            a.len() as nat,
            |i: int|
                if tasks@[i] is Some {
                    rows(a@)[i] + rows(b@)[i]
                } else {
                    Seq::new(w as nat, |j: int| 0usize)
                },
        ));
        r
    }

    /// The deadlock detector: whether the current state is unsafe, judged by
    /// the Banker's algorithm over locks and semaphores together and over the
    /// live threads.
    pub fn deadlock_detect(&self) -> (r: bool)
        requires
            self.wf(),
        ensures
            r == !self.is_safe_state(),
    {
        let ml = &self.mutex_ledger;
        let sl = &self.semaphore_ledger;
        let avail = ProcessControlBlockInner::concat(&ml.available, &sl.available);
        let w = avail.len();
        let alloc = ProcessControlBlockInner::concat_rows(&ml.allocation, &sl.allocation, &self.tasks, w);
        let need = ProcessControlBlockInner::concat_rows(&ml.need, &sl.need, &self.tasks, w);
        let ghost n = self.tasks.len() as int;
        let ghost m1 = ml.resources();
        proof {
            assert(rows(alloc@) =~= self.combined_allocation());
            assert(rows(need@) =~= self.combined_need(ml.need_rows(), sl.need_rows()));
            assert forall|i: int| 0 <= i < n implies #[trigger] rows(alloc@)[i].len() == avail.len()
                && rows(need@)[i].len() == avail.len() by {
                assert(ml.alloc_rows()[i].len() == m1);
                assert(sl.alloc_rows()[i].len() == sl.resources());
                assert(ml.need_rows()[i].len() == m1);
                assert(sl.need_rows()[i].len() == sl.resources());
            }
            assert forall|i: int| 0 <= i < n implies #[trigger] rows(need@)[i].len() == avail.len() by {
                assert(rows(alloc@)[i].len() == avail.len());
            }
            assert forall|j: int| 0 <= j < avail.len() implies avail@[j] + #[trigger] column_total(
                rows(alloc@),
                j,
                alloc.len() as int,
            ) <= usize::MAX by {
                if j < m1 {
                    assert(ml.available@[j] + ml.held(j) == ml.capacity@[j]);
                    lemma_total_le(rows(alloc@), ml.alloc_rows(), j, j, n);
                } else {
                    assert(sl.available@[j - m1] + sl.held(j - m1) == sl.capacity@[j - m1]);
                    lemma_total_le(rows(alloc@), sl.alloc_rows(), j, j - m1, n);
                }
            }
        }
        !banker_is_safe(&avail, &alloc, &need)
    }
}


/// Asks lock `id` of `list` for thread `tid`.
fn lock_slot(list: &mut Vec<Option<AnyMutex>>, id: usize, tid: usize) -> (acquired: bool)
    requires
        id < old(list).len(),
        old(list)@[id as int] is Some,
    ensures
        final(list).len() == old(list).len(),
        final(list)@[id as int] is Some,
        final(list)@ == old(list)@.update(id as int, final(list)@[id as int]),
        ({
            let m0 = old(list)@[id as int]->Some_0;
            let m1 = final(list)@[id as int]->Some_0;
            &&& acquired == !m0.is_locked()
            &&& m1.is_locked()
            &&& m1.spins() == m0.spins()
            &&& m1.waiters() == if acquired || m0.spins() {
                m0.waiters()
            } else {
                m0.waiters().push(tid)
            }
        }),
{
    match &mut list[id] {
        Some(m) => m.lock(tid),
        None => false,
    }
}

/// Releases lock `id` of `list`; returns the waiter it passes to, if any.
fn unlock_slot(list: &mut Vec<Option<AnyMutex>>, id: usize) -> (woken: Option<usize>)
    requires
        id < old(list).len(),
        old(list)@[id as int] is Some,
        old(list)@[id as int]->Some_0.is_locked(),
    ensures
        final(list).len() == old(list).len(),
        final(list)@[id as int] is Some,
        final(list)@ == old(list)@.update(id as int, final(list)@[id as int]),
        ({
            let m0 = old(list)@[id as int]->Some_0;
            let m1 = final(list)@[id as int]->Some_0;
            &&& m1.spins() == m0.spins()
            &&& m0.waiters().len() > 0 ==> {
                &&& woken == Some(m0.waiters()[0])
                &&& m1.is_locked()
                &&& m1.waiters() == m0.waiters().drop_first()
            }
            &&& m0.waiters().len() == 0 ==> {
                &&& woken is None
                &&& !m1.is_locked()
                &&& m1.waiters() == m0.waiters()
            }
        }),
{
    match &mut list[id] {
        Some(m) => m.unlock(),
        None => None,
    }
}

impl ProcessControlBlockInner {
    /// Every part of the process but the locks and their ledger and the
    /// threads' statuses reads the same in `self` and `o`.
    pub open spec fn same_but_mutexes(&self, o: &Self) -> bool {
        &&& o.fd_table == self.fd_table
        &&& o.semaphore_list == self.semaphore_list
        &&& o.condvar_list == self.condvar_list
        &&& o.semaphore_ledger == self.semaphore_ledger
        &&& o.enable_deadlock == self.enable_deadlock
        &&& o.tasks.len() == self.tasks.len()
        &&& o.mutex_list.len() == self.mutex_list.len()
    }

    /// Lock `id` is the only lock that differs between `self` and `o`.
    pub open spec fn only_mutex_changed(&self, o: &Self, id: int) -> bool {
        &&& o.valid_mutex(id)
        &&& o.mutex_list@ == self.mutex_list@.update(id, o.mutex_list@[id])
        &&& o.mutex_of(id).spins() == self.mutex_of(id).spins()
    }

    /// `o` is `self` after thread `tid` asked for lock `id`: granted and
    /// recorded in the ledger when the lock was free; otherwise the thread
    /// spins on a spin lock, or blocks at the back of the queue of a
    /// queueing lock.
    pub open spec fn acquired(&self, o: &Self, tid: int, id: int) -> bool {
        let m0 = self.mutex_of(id);
        let m1 = o.mutex_of(id);
        &&& self.same_but_mutexes(o)
        &&& self.only_mutex_changed(o, id)
        &&& m1.is_locked()
        &&& if !m0.is_locked() {
            &&& m1.waiters() == m0.waiters()
            &&& self.mutex_ledger.committed(&o.mutex_ledger, tid, id)
            &&& o.tasks@ == self.tasks@.update(tid, Some(TaskStatus::Ready))
        } else if m0.spins() {
            &&& m1.waiters() == m0.waiters()
            &&& o.mutex_ledger == self.mutex_ledger
            &&& o.tasks@ == self.tasks@.update(tid, Some(TaskStatus::Spinning(id as usize)))
        } else {
            &&& m1.waiters() == m0.waiters().push(tid as usize)
            &&& o.mutex_ledger == self.mutex_ledger
            &&& o.tasks@ == self.tasks@.update(tid, Some(TaskStatus::Blocked))
        }
    }

    /// `o` is `self` after thread `tid` released lock `id`: the unit goes back
    /// to the ledger, then passes to the longest waiting thread, which becomes
    /// runnable; with nobody waiting the lock is free.
    pub open spec fn unlocked(&self, o: &Self, tid: int, id: int) -> bool {
        let m0 = self.mutex_of(id);
        let m1 = o.mutex_of(id);
        &&& self.same_but_mutexes(o)
        &&& self.only_mutex_changed(o, id)
        &&& exists|mid: Ledger|
            {
                &&& #[trigger] self.mutex_ledger.released(&mid, tid, id)
                &&& if m0.waiters().len() > 0 {
                    &&& m1.is_locked()
                    &&& m1.waiters() == m0.waiters().drop_first()
                    &&& mid.committed(&o.mutex_ledger, m0.waiters()[0] as int, id)
                    &&& o.tasks@ == self.tasks@.update(
                        m0.waiters()[0] as int,
                        Some(TaskStatus::Ready),
                    )
                } else {
                    &&& !m1.is_locked()
                    &&& m1.waiters() == m0.waiters()
                    &&& mid.same(&o.mutex_ledger)
                    &&& o.tasks@ == self.tasks@
                }
            }
    }

    /// Thread `tid` asks for lock `id`, whose request the ledger already
    /// records where it is to be recorded.
    pub fn acquire_mutex(&mut self, tid: usize, id: usize)
        requires
            old(self).wf(),
            tid < old(self).tasks.len(),
            old(self).valid_mutex(id as int),
        ensures
            final(self).wf(),
            old(self).acquired(final(self), tid as int, id as int),
    {
        let ghost s0 = *self;
        proof {
            assert(self.mutex_ok(id as int));
        }
        let acquired = lock_slot(&mut self.mutex_list, id, tid);
        if acquired {
            self.mutex_ledger.commit(tid, id);
            self.tasks.set(tid, Some(TaskStatus::Ready));
        } else {
            let spins = match &self.mutex_list[id] {
                Some(AnyMutex::Spin(_)) => true,
                _ => false,
            };
            if spins {
                self.tasks.set(tid, Some(TaskStatus::Spinning(id)));
            } else {
                self.tasks.set(tid, Some(TaskStatus::Blocked));
            }
        }
        proof {
            self.lemma_wf_after_mutex_change(&s0, id as int);
        }
    }

    /// Thread `tid`, which holds lock `id`, releases it.
    pub fn release_mutex(&mut self, tid: usize, id: usize)
        requires
            old(self).wf(),
            tid < old(self).tasks.len(),
            old(self).valid_mutex(id as int),
            old(self).mutex_ledger.alloc_rows()[tid as int][id as int] > 0,
        ensures
            final(self).wf(),
            old(self).unlocked(final(self), tid as int, id as int),
    {
        let ghost s0 = *self;
        proof {
            assert(self.mutex_ok(id as int));
            assert(self.mutex_ledger.available@[id as int] + self.mutex_ledger.held(id as int)
                == self.mutex_ledger.capacity@[id as int]);
            crate::ledger::lemma_total_bounds(
                self.mutex_ledger.alloc_rows(),
                tid as int,
                id as int,
                self.mutex_ledger.threads(),
            );
        }
        self.mutex_ledger.release(tid, id);
        let ghost mid = self.mutex_ledger;
        let woken = unlock_slot(&mut self.mutex_list, id);
        match woken {
            Some(w) => {
                proof {
                    let m0 = s0.mutex_of(id as int);
                    assert(m0.waiters()[0] < s0.tasks.len());
                }
                self.mutex_ledger.commit(w, id);
                self.tasks.set(w, Some(TaskStatus::Ready));
            },
            None => {},
        }
        proof {
            assert(s0.mutex_ledger.released(&mid, tid as int, id as int));
            let m1 = self.mutex_of(id as int);
            assert forall|k: int| 0 <= k < m1.waiters().len() implies #[trigger] m1.waiters()[k]
                < self.tasks.len() by {
                assert(m1.waiters()[k] == s0.mutex_of(id as int).waiters()[k + 1]);
            }
            self.lemma_wf_after_mutex_change(&s0, id as int);
        }
    }

    /// The invariant survives a change of lock `id`, its ledger and the
    /// threads' statuses that keeps lock `id` consistent with its ledger.
    proof fn lemma_wf_after_mutex_change(&self, s0: &Self, id: int)
        requires
            s0.wf(),
            s0.same_but_mutexes(self),
            s0.only_mutex_changed(self, id),
            self.mutex_ledger.wf(),
            self.mutex_ledger.threads() == self.tasks.len(),
            self.mutex_ledger.resources() == self.mutex_list.len(),
            forall|m: int|
                0 <= m < self.mutex_list.len() && m != id ==> self.mutex_ledger.capacity@[m]
                    == s0.mutex_ledger.capacity@[m] && self.mutex_ledger.available@[m]
                    == s0.mutex_ledger.available@[m],
            self.mutex_ok(id),
            forall|t: int|
                0 <= t < self.tasks.len() ==> self.tasks@[t] == s0.tasks@[t] || self.tasks@[t]
                    == Some(TaskStatus::Ready) || self.tasks@[t] == Some(TaskStatus::Blocked)
                    || self.tasks@[t] == Some(TaskStatus::Spinning(id as usize)),
        ensures
            self.wf(),
    {
        assert forall|m: int| 0 <= m < self.mutex_list.len() implies #[trigger] self.mutex_ok(
            m,
        ) by {
            if m != id {
                assert(s0.mutex_ok(m));
                assert(self.mutex_list@[m] == s0.mutex_list@[m]);
            }
        }
        assert forall|s: int| 0 <= s < self.semaphore_list.len() implies #[trigger] self.semaphore_ok(
            s,
        ) by {
            assert(s0.semaphore_ok(s));
        }
        assert forall|c: int| 0 <= c < self.condvar_list.len() implies #[trigger] self.condvar_ok(
            c,
        ) by {
            assert(s0.condvar_ok(c));
            if self.valid_condvar(c) {
                assert forall|k: int| 0 <= k < self.condvar_of(c).waiters().len() implies {
                    &&& #[trigger] self.condvar_of(c).waiters()[k].0 < self.tasks.len()
                    &&& self.valid_mutex(self.condvar_of(c).waiters()[k].1 as int)
                } by {
                    let m = self.condvar_of(c).waiters()[k].1 as int;
                    assert(self.condvar_of(c) == s0.condvar_of(c));
                    assert(s0.condvar_of(c).waiters()[k].0 < s0.tasks.len());
                    assert(s0.valid_mutex(m));
                    if m != id {
                        assert(self.mutex_list@[m] == s0.mutex_list@[m]);
                    }
                }
            }
        }
        assert forall|t: int| 0 <= t < self.tasks.len() implies #[trigger] self.task_ok(t) by {
            assert(s0.task_ok(t));
            if let Some(TaskStatus::Spinning(m)) = self.tasks@[t] {
                if m as int != id {
                    assert(self.mutex_list@[m as int] == s0.mutex_list@[m as int]);
                }
            }
            if let Some(TaskStatus::Relocking(m)) = self.tasks@[t] {
                if m as int != id {
                    assert(self.mutex_list@[m as int] == s0.mutex_list@[m as int]);
                }
            }
        }
    }
}


/// Takes a unit of semaphore `id` of `list` for thread `tid`.
fn down_slot(list: &mut Vec<Option<Semaphore>>, id: usize, tid: usize) -> (acquired: bool)
    requires
        id < old(list).len(),
        old(list)@[id as int] is Some,
        old(list)@[id as int]->Some_0.wf(),
        old(list)@[id as int]->Some_0.count() > isize::MIN,
    ensures
        final(list).len() == old(list).len(),
        final(list)@[id as int] is Some,
        final(list)@ == old(list)@.update(id as int, final(list)@[id as int]),
        ({
            let s0 = old(list)@[id as int]->Some_0;
            let s1 = final(list)@[id as int]->Some_0;
            &&& s1.wf()
            &&& s1.count() == s0.count() - 1
            &&& acquired == (s0.count() > 0)
            &&& s1.waiters() == if acquired {
                s0.waiters()
            } else {
                s0.waiters().push(tid)
            }
        }),
{
    match &mut list[id] {
        Some(s) => s.down(tid),
        None => false,
    }
}

/// Gives back a unit of semaphore `id` of `list`; returns the waiter it goes to.
fn up_slot(list: &mut Vec<Option<Semaphore>>, id: usize) -> (woken: Option<usize>)
    requires
        id < old(list).len(),
        old(list)@[id as int] is Some,
        old(list)@[id as int]->Some_0.wf(),
        old(list)@[id as int]->Some_0.count() < isize::MAX,
    ensures
        final(list).len() == old(list).len(),
        final(list)@[id as int] is Some,
        final(list)@ == old(list)@.update(id as int, final(list)@[id as int]),
        ({
            let s0 = old(list)@[id as int]->Some_0;
            let s1 = final(list)@[id as int]->Some_0;
            &&& s1.wf()
            &&& s1.count() == s0.count() + 1
            &&& s0.count() < 0 ==> {
                &&& woken == Some(s0.waiters()[0])
                &&& s1.waiters() == s0.waiters().drop_first()
            }
            &&& s0.count() >= 0 ==> woken is None && s1.waiters() == s0.waiters()
        }),
{
    match &mut list[id] {
        Some(s) => s.up(),
        None => None,
    }
}

impl ProcessControlBlockInner {
    /// Every part of the process but the semaphores and their ledger and the
    /// threads' statuses reads the same in `self` and `o`.
    pub open spec fn same_but_semaphores(&self, o: &Self) -> bool {
        &&& o.fd_table == self.fd_table
        &&& o.mutex_list == self.mutex_list
        &&& o.condvar_list == self.condvar_list
        &&& o.mutex_ledger == self.mutex_ledger
        &&& o.enable_deadlock == self.enable_deadlock
        &&& o.tasks.len() == self.tasks.len()
        &&& o.semaphore_list.len() == self.semaphore_list.len()
    }

    /// Semaphore `id` is the only semaphore that differs between `self` and `o`.
    pub open spec fn only_semaphore_changed(&self, o: &Self, id: int) -> bool {
        &&& o.valid_semaphore(id)
        &&& o.semaphore_list@ == self.semaphore_list@.update(id, o.semaphore_list@[id])
    }

    /// `o` is `self` after thread `tid` took a unit of semaphore `id`: at once
    /// and recorded in the ledger when one was left; otherwise the thread
    /// blocks at the back of the queue.
    pub open spec fn downed(&self, o: &Self, tid: int, id: int) -> bool {
        let s0 = self.semaphore_of(id);
        let s1 = o.semaphore_of(id);
        &&& self.same_but_semaphores(o)
        &&& self.only_semaphore_changed(o, id)
        &&& s1.count() == s0.count() - 1
        &&& if s0.count() > 0 {
            &&& s1.waiters() == s0.waiters()
            &&& self.semaphore_ledger.committed(&o.semaphore_ledger, tid, id)
            &&& o.tasks@ == self.tasks@.update(tid, Some(TaskStatus::Ready))
        } else {
            &&& s1.waiters() == s0.waiters().push(tid as usize)
            &&& o.semaphore_ledger == self.semaphore_ledger
            &&& o.tasks@ == self.tasks@.update(tid, Some(TaskStatus::Blocked))
        }
    }

    /// `o` is `self` after thread `tid` gave back a unit of semaphore `id`: the
    /// unit goes back to the ledger, then to the longest waiting thread, which
    /// becomes runnable.
    pub open spec fn upped(&self, o: &Self, tid: int, id: int) -> bool {
        let s0 = self.semaphore_of(id);
        let s1 = o.semaphore_of(id);
        &&& self.same_but_semaphores(o)
        &&& self.only_semaphore_changed(o, id)
        &&& s1.count() == s0.count() + 1
        &&& exists|mid: Ledger|
            {
                &&& #[trigger] self.semaphore_ledger.released(&mid, tid, id)
                &&& if s0.count() < 0 {
                    &&& s1.waiters() == s0.waiters().drop_first()
                    &&& mid.committed(&o.semaphore_ledger, s0.waiters()[0] as int, id)
                    &&& o.tasks@ == self.tasks@.update(
                        s0.waiters()[0] as int,
                        Some(TaskStatus::Ready),
                    )
                } else {
                    &&& s1.waiters() == s0.waiters()
                    &&& mid.same(&o.semaphore_ledger)
                    &&& o.tasks@ == self.tasks@
                }
            }
    }

    /// Thread `tid` takes a unit of semaphore `id`, whose request the ledger
    /// already records.
    pub fn acquire_semaphore(&mut self, tid: usize, id: usize)
        requires
            old(self).wf(),
            tid < old(self).tasks.len(),
            old(self).valid_semaphore(id as int),
            old(self).semaphore_of(id as int).count() > isize::MIN,
        ensures
            final(self).wf(),
            old(self).downed(final(self), tid as int, id as int),
    {
        let ghost s0 = *self;
        proof {
            assert(self.semaphore_ok(id as int));
        }
        let acquired = down_slot(&mut self.semaphore_list, id, tid);
        if acquired {
            self.semaphore_ledger.commit(tid, id);
            self.tasks.set(tid, Some(TaskStatus::Ready));
        } else {
            self.tasks.set(tid, Some(TaskStatus::Blocked));
        }
        proof {
            let w = self.semaphore_of(id as int).waiters();
            assert forall|k: int| 0 <= k < w.len() implies #[trigger] w[k] < self.tasks.len() by {
                if k < s0.semaphore_of(id as int).waiters().len() {
                    assert(w[k] == s0.semaphore_of(id as int).waiters()[k]);
                }
            }
            self.lemma_wf_after_semaphore_change(&s0, id as int);
        }
    }

    /// Thread `tid` gives back a unit of semaphore `id`.
    pub fn release_semaphore(&mut self, tid: usize, id: usize)
        requires
            old(self).wf(),
            tid < old(self).tasks.len(),
            old(self).valid_semaphore(id as int),
            old(self).semaphore_of(id as int).count() < isize::MAX,
            old(self).semaphore_ledger.alloc_rows()[tid as int][id as int] == 0
                ==> old(self).semaphore_ledger.capacity@[id as int] < usize::MAX,
        ensures
            final(self).wf(),
            old(self).upped(final(self), tid as int, id as int),
    {
        let ghost s0 = *self;
        proof {
            assert(self.semaphore_ok(id as int));
        }
        self.semaphore_ledger.release(tid, id);
        let ghost mid = self.semaphore_ledger;
        let woken = up_slot(&mut self.semaphore_list, id);
        match woken {
            Some(w) => {
                proof {
                    assert(s0.semaphore_of(id as int).waiters()[0] < s0.tasks.len());
                }
                self.semaphore_ledger.commit(w, id);
                self.tasks.set(w, Some(TaskStatus::Ready));
            },
            None => {},
        }
        proof {
            assert(s0.semaphore_ledger.released(&mid, tid as int, id as int));
            let w1 = self.semaphore_of(id as int).waiters();
            assert forall|k: int| 0 <= k < w1.len() implies #[trigger] w1[k] < self.tasks.len() by {
                assert(w1[k] == s0.semaphore_of(id as int).waiters()[k + 1]);
            }
            self.lemma_wf_after_semaphore_change(&s0, id as int);
        }
    }

    proof fn lemma_wf_after_semaphore_change(&self, s0: &Self, id: int)
        requires
            s0.wf(),
            s0.same_but_semaphores(self),
            s0.only_semaphore_changed(self, id),
            self.semaphore_ledger.wf(),
            self.semaphore_ledger.threads() == self.tasks.len(),
            self.semaphore_ledger.resources() == self.semaphore_list.len(),
            forall|m: int|
                0 <= m < self.semaphore_list.len() && m != id
                    ==> self.semaphore_ledger.available@[m] == s0.semaphore_ledger.available@[m],
            self.semaphore_ok(id),
            forall|t: int|
                0 <= t < self.tasks.len() ==> self.tasks@[t] == s0.tasks@[t] || self.tasks@[t]
                    == Some(TaskStatus::Ready) || self.tasks@[t] == Some(TaskStatus::Blocked),
        ensures
            self.wf(),
    {
        assert forall|m: int| 0 <= m < self.mutex_list.len() implies #[trigger] self.mutex_ok(
            m,
        ) by {
            assert(s0.mutex_ok(m));
        }
        assert forall|s: int| 0 <= s < self.semaphore_list.len() implies #[trigger] self.semaphore_ok(
            s,
        ) by {
            if s != id {
                assert(s0.semaphore_ok(s));
                assert(self.semaphore_list@[s] == s0.semaphore_list@[s]);
            }
        }
        assert forall|c: int| 0 <= c < self.condvar_list.len() implies #[trigger] self.condvar_ok(
            c,
        ) by {
            assert(s0.condvar_ok(c));
            if self.valid_condvar(c) {
                assert forall|k: int| 0 <= k < self.condvar_of(c).waiters().len() implies {
                    &&& #[trigger] self.condvar_of(c).waiters()[k].0 < self.tasks.len()
                    &&& self.valid_mutex(self.condvar_of(c).waiters()[k].1 as int)
                } by {
                    assert(s0.condvar_of(c).waiters()[k].0 < s0.tasks.len());
                }
            }
        }
        assert forall|t: int| 0 <= t < self.tasks.len() implies #[trigger] self.task_ok(t) by {
            assert(s0.task_ok(t));
        }
    }
}


/// The first empty slot of `v`, if any.
pub fn first_free<T>(v: &Vec<Option<T>>) -> (r: Option<usize>)
    ensures
        r matches Some(i) ==> i < v.len() && v@[i as int] is None && forall|j: int|
            0 <= j < i ==> v@[j] is Some,
        r is None ==> forall|j: int| 0 <= j < v.len() ==> v@[j] is Some,
{
    let mut i: usize = 0;
    while i < v.len()
        invariant
            i <= v.len(),
            forall|j: int| 0 <= j < i ==> v@[j] is Some,
        decreases v.len() - i,
    {
        if v[i].is_none() {
            return Some(i);
        }
        i = i + 1;
    }
    None
}

impl ProcessControlBlockInner {
    /// The invariant holds after the ledgers changed only in their need tables.
    pub proof fn lemma_wf_need_change(&self, s0: &Self)
        requires
            s0.wf(),
            self.mutex_ledger.wf(),
            self.semaphore_ledger.wf(),
            self.mutex_ledger.available@ == s0.mutex_ledger.available@,
            self.mutex_ledger.capacity@ == s0.mutex_ledger.capacity@,
            self.mutex_ledger.threads() == s0.mutex_ledger.threads(),
            self.semaphore_ledger.available@ == s0.semaphore_ledger.available@,
            self.semaphore_ledger.capacity@ == s0.semaphore_ledger.capacity@,
            self.semaphore_ledger.threads() == s0.semaphore_ledger.threads(),
            self.tasks == s0.tasks,
            self.mutex_list == s0.mutex_list,
            self.semaphore_list == s0.semaphore_list,
            self.condvar_list == s0.condvar_list,
        ensures
            self.wf(),
    {
        assert forall|m: int| 0 <= m < self.mutex_list.len() implies #[trigger] self.mutex_ok(
            m,
        ) by {
            assert(s0.mutex_ok(m));
        }
        assert forall|s: int| 0 <= s < self.semaphore_list.len() implies #[trigger] self.semaphore_ok(
            s,
        ) by {
            assert(s0.semaphore_ok(s));
        }
        assert forall|c: int| 0 <= c < self.condvar_list.len() implies #[trigger] self.condvar_ok(
            c,
        ) by {
            assert(s0.condvar_ok(c));
            if self.valid_condvar(c) {
                assert forall|k: int| 0 <= k < self.condvar_of(c).waiters().len() implies {
                    &&& #[trigger] self.condvar_of(c).waiters()[k].0 < self.tasks.len()
                    &&& self.valid_mutex(self.condvar_of(c).waiters()[k].1 as int)
                } by {
                    assert(s0.condvar_of(c).waiters()[k].0 < s0.tasks.len());
                }
            }
        }
        assert forall|t: int| 0 <= t < self.tasks.len() implies #[trigger] self.task_ok(t) by {
            assert(s0.task_ok(t));
        }
    }

    /// Adds a runnable thread that holds and needs nothing; returns its id.
    pub fn alloc_tid(&mut self) -> (tid: usize)
        requires
            old(self).wf(),
        ensures
            final(self).wf(),
            tid == old(self).tasks.len(),
            final(self).tasks@ == old(self).tasks@.push(Some(TaskStatus::Ready)),
            final(self).mutex_list == old(self).mutex_list,
            final(self).semaphore_list == old(self).semaphore_list,
            final(self).condvar_list == old(self).condvar_list,
            final(self).enable_deadlock == old(self).enable_deadlock,
            final(self).fd_table == old(self).fd_table,
            final(self).mutex_ledger.available@ == old(self).mutex_ledger.available@,
            final(self).mutex_ledger.capacity@ == old(self).mutex_ledger.capacity@,
            final(self).mutex_ledger.alloc_rows() == old(self).mutex_ledger.alloc_rows().push(
                Seq::new(old(self).mutex_list.len() as nat, |j: int| 0usize),
            ),
            final(self).mutex_ledger.need_rows() == old(self).mutex_ledger.need_rows().push(
                Seq::new(old(self).mutex_list.len() as nat, |j: int| 0usize),
            ),
            final(self).semaphore_ledger.available@ == old(self).semaphore_ledger.available@,
            final(self).semaphore_ledger.capacity@ == old(self).semaphore_ledger.capacity@,
            final(self).semaphore_ledger.alloc_rows() == old(
                self,
            ).semaphore_ledger.alloc_rows().push(
                Seq::new(old(self).semaphore_list.len() as nat, |j: int| 0usize),
            ),
            final(self).semaphore_ledger.need_rows() == old(self).semaphore_ledger.need_rows().push(
                Seq::new(old(self).semaphore_list.len() as nat, |j: int| 0usize),
            ),
    {
        let ghost s0 = *self;
        let tid = self.tasks.len();
        self.mutex_ledger.add_thread();
        self.semaphore_ledger.add_thread();
        self.tasks.push(Some(TaskStatus::Ready));
        proof {
            assert forall|m: int| 0 <= m < self.mutex_list.len() implies #[trigger] self.mutex_ok(
                m,
            ) by {
                assert(s0.mutex_ok(m));
            }
            assert forall|s: int|
                0 <= s < self.semaphore_list.len() implies #[trigger] self.semaphore_ok(s) by {
                assert(s0.semaphore_ok(s));
            }
            assert forall|c: int| 0 <= c < self.condvar_list.len() implies #[trigger] self.condvar_ok(
                c,
            ) by {
                assert(s0.condvar_ok(c));
                if self.valid_condvar(c) {
                    assert forall|k: int| 0 <= k < self.condvar_of(c).waiters().len() implies {
                        &&& #[trigger] self.condvar_of(c).waiters()[k].0 < self.tasks.len()
                        &&& self.valid_mutex(self.condvar_of(c).waiters()[k].1 as int)
                    } by {
                        assert(s0.condvar_of(c).waiters()[k].0 < s0.tasks.len());
                    }
                }
            }
            assert forall|t: int| 0 <= t < self.tasks.len() implies #[trigger] self.task_ok(t) by {
                if t < s0.tasks.len() {
                    assert(s0.task_ok(t));
                }
            }
        }
        tid
    }

    /// Thread `tid` holds and requests no unit of any resource, and waits in
    /// no queue.
    pub open spec fn holds_and_awaits_nothing(&self, tid: int) -> bool {
        &&& forall|r: int|
            0 <= r < self.mutex_list.len() ==> #[trigger] self.mutex_ledger.alloc_rows()[tid][r]
                == 0 && self.mutex_ledger.need_rows()[tid][r] == 0
        &&& forall|r: int|
            0 <= r < self.semaphore_list.len() ==> #[trigger] self.semaphore_ledger.alloc_rows()[tid][r]
                == 0 && self.semaphore_ledger.need_rows()[tid][r] == 0
        &&& forall|m: int|
            #[trigger] self.valid_mutex(m) ==> !self.mutex_of(m).waiters().contains(tid as usize)
        &&& forall|s: int|
            #[trigger] self.valid_semaphore(s) ==> !self.semaphore_of(s).waiters().contains(
                tid as usize,
            )
        &&& forall|c: int, k: int|
            self.valid_condvar(c) && 0 <= k < self.condvar_of(c).waiters().len()
                ==> #[trigger] self.condvar_of(c).waiters()[k].0 != tid
    }

    /// Thread `tid`, which holds, requests and waits for nothing, is gone: its
    /// slot is emptied, and its rows in the ledgers stay all zero.
    pub fn dealloc_tid(&mut self, tid: usize)
        requires
            old(self).wf(),
            old(self).is_running(tid as int),
            old(self).holds_and_awaits_nothing(tid as int),
        ensures
            final(self).wf(),
            final(self).tasks@ == old(self).tasks@.update(tid as int, None),
            final(self).fd_table == old(self).fd_table,
            final(self).enable_deadlock == old(self).enable_deadlock,
            final(self).mutex_list == old(self).mutex_list,
            final(self).semaphore_list == old(self).semaphore_list,
            final(self).condvar_list == old(self).condvar_list,
            final(self).mutex_ledger == old(self).mutex_ledger,
            final(self).semaphore_ledger == old(self).semaphore_ledger,
    {
        let ghost s0 = *self;
        self.tasks.set(tid, None);
        proof {
            assert forall|m: int| 0 <= m < self.mutex_list.len() implies #[trigger] self.mutex_ok(
                m,
            ) by {
                assert(s0.mutex_ok(m));
            }
            assert forall|s: int|
                0 <= s < self.semaphore_list.len() implies #[trigger] self.semaphore_ok(s) by {
                assert(s0.semaphore_ok(s));
            }
            assert forall|c: int| 0 <= c < self.condvar_list.len() implies #[trigger] self.condvar_ok(
                c,
            ) by {
                assert(s0.condvar_ok(c));
                if self.valid_condvar(c) {
                    assert forall|k: int| 0 <= k < self.condvar_of(c).waiters().len() implies {
                        &&& #[trigger] self.condvar_of(c).waiters()[k].0 < self.tasks.len()
                        &&& self.valid_mutex(self.condvar_of(c).waiters()[k].1 as int)
                    } by {
                        assert(s0.condvar_of(c).waiters()[k].0 < s0.tasks.len());
                    }
                }
            }
            assert forall|t: int| 0 <= t < self.tasks.len() implies #[trigger] self.task_ok(t) by {
                assert(s0.task_ok(t));
            }
        }
    }

    /// The first free file descriptor, adding a slot when every one is open.
    pub fn alloc_fd(&mut self) -> (fd: usize)
        ensures
            fd < final(self).fd_table.len(),
            !final(self).fd_table@[fd as int],
            forall|j: int| 0 <= j < fd ==> final(self).fd_table@[j],
            fd <= old(self).fd_table.len(),
            forall|j: int| 0 <= j < fd ==> old(self).fd_table@[j],
            fd < old(self).fd_table.len() ==> !old(self).fd_table@[fd as int]
                && final(self).fd_table@ == old(self).fd_table@,
            fd == old(self).fd_table.len() ==> final(self).fd_table@ == old(
                self,
            ).fd_table@.push(false),
            final(self).tasks == old(self).tasks,
            final(self).mutex_list == old(self).mutex_list,
            final(self).semaphore_list == old(self).semaphore_list,
            final(self).condvar_list == old(self).condvar_list,
            final(self).mutex_ledger == old(self).mutex_ledger,
            final(self).semaphore_ledger == old(self).semaphore_ledger,
            final(self).enable_deadlock == old(self).enable_deadlock,
    {
        let mut i: usize = 0;
        while i < self.fd_table.len()
            invariant
                *self == *old(self),
                i <= self.fd_table.len(),
                forall|j: int| 0 <= j < i ==> self.fd_table@[j],
            decreases self.fd_table.len() - i,
        {
            if !self.fd_table[i] {
                return i;
            }
            i = i + 1;
        }
        self.fd_table.push(false);
        self.fd_table.len() - 1
    }
}

impl ProcessControlBlock {
    /// A process with one runnable main thread, id 0, and no resources.
    pub fn new(pid: usize) -> (p: ProcessControlBlock)
        ensures
            p.pid == pid,
            p.inner.wf(),
            p.inner.tasks@ == seq![Some(TaskStatus::Ready)],
            p.inner.mutex_list@.len() == 0,
            p.inner.semaphore_list@.len() == 0,
            p.inner.condvar_list@.len() == 0,
            p.inner.fd_table@ == seq![true, true, true],
            !p.inner.enable_deadlock,
    {
        let mut tasks: Vec<Option<TaskStatus>> = Vec::new();
        tasks.push(Some(TaskStatus::Ready));
        let inner = ProcessControlBlockInner {
            tasks,
            fd_table: vec![true, true, true],
            mutex_list: Vec::new(),
            semaphore_list: Vec::new(),
            condvar_list: Vec::new(),
            mutex_ledger: Ledger::new(1),
            semaphore_ledger: Ledger::new(1),
            enable_deadlock: false,
        };
        proof {
            assert(inner.tasks@ =~= seq![Some(TaskStatus::Ready)]);
            assert(inner.fd_table@ =~= seq![true, true, true]);
            assert forall|t: int| 0 <= t < inner.tasks.len() implies #[trigger] inner.task_ok(t) by {
                assert(inner.tasks@[t] == Some(TaskStatus::Ready));
            }
        }
        ProcessControlBlock { pid, inner }
    }

    /// The process id.
    pub fn getpid(&self) -> (pid: usize)
        ensures
            pid == self.pid,
    {
        self.pid
    }

    /// Exclusive access to the process's shared state.
    pub fn inner_exclusive_access(&mut self) -> (inner: &mut ProcessControlBlockInner)
        ensures
            *inner == old(self).inner,
            final(self).pid == old(self).pid,
            final(self).inner == *final(inner),
    {
        &mut self.inner
    }
}


/// Removes the longest waiter of condition variable `id` of `list`.
fn signal_slot(list: &mut Vec<Option<Condvar>>, id: usize) -> (woken: Option<(usize, usize)>)
    requires
        id < old(list).len(),
        old(list)@[id as int] is Some,
    ensures
        final(list).len() == old(list).len(),
        final(list)@[id as int] is Some,
        final(list)@ == old(list)@.update(id as int, final(list)@[id as int]),
        ({
            let c0 = old(list)@[id as int]->Some_0;
            let c1 = final(list)@[id as int]->Some_0;
            &&& c0.waiters().len() > 0 ==> {
                &&& woken == Some(c0.waiters()[0])
                &&& c1.waiters() == c0.waiters().drop_first()
            }
            &&& c0.waiters().len() == 0 ==> woken is None && c1.waiters() == c0.waiters()
        }),
{
    match &mut list[id] {
        Some(c) => c.signal(),
        None => None,
    }
}

/// Puts thread `tid`, waiting to take lock `mutex_id` again, on condition
/// variable `id` of `list`.
fn wait_slot(list: &mut Vec<Option<Condvar>>, id: usize, tid: usize, mutex_id: usize)
    requires
        id < old(list).len(),
        old(list)@[id as int] is Some,
    ensures
        final(list).len() == old(list).len(),
        final(list)@[id as int] is Some,
        final(list)@ == old(list)@.update(id as int, final(list)@[id as int]),
        final(list)@[id as int]->Some_0.waiters() == old(list)@[id as int]->Some_0.waiters().push(
            (tid, mutex_id),
        ),
{
    match &mut list[id] {
        Some(c) => c.wait(tid, mutex_id),
        None => {},
    }
}

/// `id` is the first empty slot of `before`, or one past its end where every
/// slot is taken; `after` fills that slot and keeps every other one.
pub open spec fn claims_slot<T>(before: Seq<Option<T>>, after: Seq<Option<T>>, id: int) -> bool {
    &&& 0 <= id <= before.len()
    &&& id < before.len() ==> before[id] is None
    &&& forall|j: int| 0 <= j < id ==> before[j] is Some
    &&& after.len() == if id < before.len() {
        before.len()
    } else {
        before.len() + 1
    }
    &&& after[id] is Some
    &&& forall|j: int| 0 <= j < before.len() && j != id ==> after[j] == before[j]
}

impl ProcessControlBlockInner {
    /// Every part of the process but the condition variables and the threads'
    /// statuses reads the same in `self` and `o`.
    pub open spec fn same_but_condvars(&self, o: &Self) -> bool {
        &&& o.fd_table == self.fd_table
        &&& o.mutex_list == self.mutex_list
        &&& o.semaphore_list == self.semaphore_list
        &&& o.mutex_ledger == self.mutex_ledger
        &&& o.semaphore_ledger == self.semaphore_ledger
        &&& o.enable_deadlock == self.enable_deadlock
        &&& o.tasks.len() == self.tasks.len()
        &&& o.condvar_list.len() == self.condvar_list.len()
    }

    /// Condition variable `id` is the only one that differs between `self` and `o`.
    pub open spec fn only_condvar_changed(&self, o: &Self, id: int) -> bool {
        &&& o.valid_condvar(id)
        &&& o.condvar_list@ == self.condvar_list@.update(id, o.condvar_list@[id])
    }

    proof fn lemma_wf_after_condvar_change(&self, s0: &Self, id: int)
        requires
            s0.wf(),
            s0.same_but_condvars(self),
            s0.only_condvar_changed(self, id),
            self.condvar_ok(id),
            forall|t: int|
                0 <= t < self.tasks.len() ==> self.tasks@[t] == s0.tasks@[t] || self.task_ok(t),
        ensures
            self.wf(),
    {
        assert forall|m: int| 0 <= m < self.mutex_list.len() implies #[trigger] self.mutex_ok(
            m,
        ) by {
            assert(s0.mutex_ok(m));
        }
        assert forall|s: int| 0 <= s < self.semaphore_list.len() implies #[trigger] self.semaphore_ok(
            s,
        ) by {
            assert(s0.semaphore_ok(s));
        }
        assert forall|c: int| 0 <= c < self.condvar_list.len() implies #[trigger] self.condvar_ok(
            c,
        ) by {
            if c != id {
                assert(s0.condvar_ok(c));
                assert(self.condvar_list@[c] == s0.condvar_list@[c]);
                if self.valid_condvar(c) {
                    assert forall|k: int| 0 <= k < self.condvar_of(c).waiters().len() implies {
                        &&& #[trigger] self.condvar_of(c).waiters()[k].0 < self.tasks.len()
                        &&& self.valid_mutex(self.condvar_of(c).waiters()[k].1 as int)
                    } by {
                        assert(s0.condvar_of(c).waiters()[k].0 < s0.tasks.len());
                    }
                }
            }
        }
        assert forall|t: int| 0 <= t < self.tasks.len() implies #[trigger] self.task_ok(t) by {
            assert(s0.task_ok(t));
        }
    }

    /// Wakes the longest waiter of condition variable `id`, if any: it
    /// leaves the queue and becomes runnable, to take its lock again when it
    /// runs. No lock and no ledger is touched.
    pub fn signal_condvar(&mut self, id: usize)
        requires
            old(self).wf(),
            old(self).valid_condvar(id as int),
        ensures
            final(self).wf(),
            old(self).same_but_condvars(final(self)),
            old(self).only_condvar_changed(final(self), id as int),
            old(self).condvar_of(id as int).waiters().len() == 0 ==> {
                &&& final(self).tasks == old(self).tasks
                &&& final(self).condvar_of(id as int).waiters() == old(self).condvar_of(
                    id as int,
                ).waiters()
            },
            old(self).condvar_of(id as int).waiters().len() > 0 ==> {
                let w = old(self).condvar_of(id as int).waiters()[0];
                &&& final(self).condvar_of(id as int).waiters() == old(self).condvar_of(
                    id as int,
                ).waiters().drop_first()
                &&& final(self).tasks@ == old(self).tasks@.update(
                    w.0 as int,
                    Some(TaskStatus::Relocking(w.1)),
                )
            },
    {
        let ghost s0 = *self;
        proof {
            assert(self.condvar_ok(id as int));
        }
        let woken = signal_slot(&mut self.condvar_list, id);
        match woken {
            Some((w, m)) => {
                proof {
                    assert(s0.condvar_of(id as int).waiters()[0].0 < s0.tasks.len());
                }
                self.tasks.set(w, Some(TaskStatus::Relocking(m)));
            },
            None => {},
        }
        proof {
            let w1 = self.condvar_of(id as int).waiters();
            assert forall|k: int| 0 <= k < w1.len() implies {
                &&& #[trigger] w1[k].0 < self.tasks.len()
                &&& self.valid_mutex(w1[k].1 as int)
            } by {
                assert(w1[k] == s0.condvar_of(id as int).waiters()[k + 1]);
                assert(s0.condvar_of(id as int).waiters()[k + 1].0 < s0.tasks.len());
            }
            self.lemma_wf_after_condvar_change(&s0, id as int);
        }
    }

    /// Thread `tid`, holding lock `mutex_id`, releases it and blocks on
    /// condition variable `id`, to take the lock again once signalled.
    pub fn wait_condvar(&mut self, tid: usize, id: usize, mutex_id: usize)
        requires
            old(self).wf(),
            old(self).valid_condvar(id as int),
            old(self).valid_mutex(mutex_id as int),
            tid < old(self).tasks.len(),
            old(self).mutex_ledger.alloc_rows()[tid as int][mutex_id as int] > 0,
        ensures
            final(self).wf(),
            exists|q: Self|
                {
                    &&& #[trigger] old(self).unlocked(&q, tid as int, mutex_id as int)
                    &&& q.same_but_condvars(final(self))
                    &&& q.only_condvar_changed(final(self), id as int)
                    &&& final(self).condvar_of(id as int).waiters() == q.condvar_of(
                        id as int,
                    ).waiters().push((tid, mutex_id))
                    &&& final(self).tasks@ == q.tasks@.update(
                        tid as int,
                        Some(TaskStatus::Blocked),
                    )
                },
    {
        self.release_mutex(tid, mutex_id);
        let ghost q = *self;
        proof {
            assert(self.condvar_ok(id as int));
        }
        wait_slot(&mut self.condvar_list, id, tid, mutex_id);
        self.tasks.set(tid, Some(TaskStatus::Blocked));
        proof {
            let w1 = self.condvar_of(id as int).waiters();
            assert forall|k: int| 0 <= k < w1.len() implies {
                &&& #[trigger] w1[k].0 < self.tasks.len()
                &&& self.valid_mutex(w1[k].1 as int)
            } by {
                if k < w1.len() - 1 {
                    assert(w1[k] == q.condvar_of(id as int).waiters()[k]);
                    assert(q.condvar_of(id as int).waiters()[k].0 < q.tasks.len());
                }
            }
            self.lemma_wf_after_condvar_change(&q, id as int);
            assert(old(self).unlocked(&q, tid as int, mutex_id as int));
        }
    }
}

} // verus!
