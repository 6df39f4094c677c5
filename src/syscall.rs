//! The synchronization calls a thread makes: each resolves its ids, keeps the
//! ledgers, consults the deadlock detector where enabled, and hands the work
//! to the primitive. Every call returns 0 on success, -1 when the calling
//! context has no runnable thread, and -0xDEAD when the deadlock detector
//! refuses the request.
use crate::condvar::Condvar;
use crate::ledger::Ledger;
use crate::mutex::{AnyMutex, Mutex, MutexBlocking, MutexSpin};
use crate::process::{claims_slot, first_free, ProcessControlBlockInner, TaskStatus};
use crate::semaphore::Semaphore;
use vstd::prelude::*;

verus! {

/// What a call refused by the deadlock detector returns.
pub const DEADLOCK_REFUSED: isize = -0xDEAD;

/// What a call without a runnable calling thread returns.
pub const NO_THREAD: isize = -1;

/// The need table of `l` once thread `t` asks for one more unit of resource `r`.
pub open spec fn need_after_request(l: Ledger, t: int, r: int) -> Seq<Seq<usize>> {
    l.need_rows().update(t, l.need_rows()[t].update(r, (l.need_rows()[t][r] + 1) as usize))
}

/// The detector is on and would find the state unsafe once thread `tid` asks
/// for lock `id`.
pub open spec fn mutex_request_refused(p: ProcessControlBlockInner, tid: int, id: int) -> bool {
    p.enable_deadlock && !p.safe_with(
        need_after_request(p.mutex_ledger, tid, id),
        p.semaphore_ledger.need_rows(),
    )
}

/// The detector is on and would find the state unsafe once thread `tid` asks
/// for a unit of semaphore `id`.
pub open spec fn semaphore_request_refused(p: ProcessControlBlockInner, tid: int, id: int) -> bool {
    p.enable_deadlock && !p.safe_with(
        p.mutex_ledger.need_rows(),
        need_after_request(p.semaphore_ledger, tid, id),
    )
}

/// `o` reads as `p` in every part, its ledgers in every table.
pub open spec fn unchanged(p: ProcessControlBlockInner, o: ProcessControlBlockInner) -> bool {
    &&& o.tasks == p.tasks
    &&& o.fd_table == p.fd_table
    &&& o.mutex_list == p.mutex_list
    &&& o.semaphore_list == p.semaphore_list
    &&& o.condvar_list == p.condvar_list
    &&& o.enable_deadlock == p.enable_deadlock
    &&& o.mutex_ledger.same(&p.mutex_ledger)
    &&& o.semaphore_ledger.same(&p.semaphore_ledger)
}

/// `q` is `p` with its lock ledger replaced by `l`.
pub open spec fn with_mutex_ledger(
    p: ProcessControlBlockInner,
    q: ProcessControlBlockInner,
    l: Ledger,
) -> bool {
    &&& q.tasks == p.tasks
    &&& q.fd_table == p.fd_table
    &&& q.mutex_list == p.mutex_list
    &&& q.semaphore_list == p.semaphore_list
    &&& q.condvar_list == p.condvar_list
    &&& q.enable_deadlock == p.enable_deadlock
    &&& q.semaphore_ledger == p.semaphore_ledger
    &&& q.mutex_ledger == l
}

/// `q` is `p` with its semaphore ledger replaced by `l`.
pub open spec fn with_semaphore_ledger(
    p: ProcessControlBlockInner,
    q: ProcessControlBlockInner,
    l: Ledger,
) -> bool {
    &&& q.tasks == p.tasks
    &&& q.fd_table == p.fd_table
    &&& q.mutex_list == p.mutex_list
    &&& q.semaphore_list == p.semaphore_list
    &&& q.condvar_list == p.condvar_list
    &&& q.enable_deadlock == p.enable_deadlock
    &&& q.mutex_ledger == p.mutex_ledger
    &&& q.semaphore_ledger == l
}

/// Puts the calling thread to sleep for `ms` milliseconds from `now_ms`, the
/// current time; the deadline saturates at the largest instant.
pub fn sys_sleep(p: &mut ProcessControlBlockInner, tid: usize, now_ms: usize, ms: usize) -> (r:
    isize)
    requires
        old(p).wf(),
        old(p).is_running(tid as int),
    ensures
        final(p).wf(),
        r == 0,
        final(p).tasks@ == old(p).tasks@.update(
            tid as int,
            Some(
                TaskStatus::Sleeping(
                    if now_ms + ms <= usize::MAX {
                        (now_ms + ms) as usize
                    } else {
                        usize::MAX
                    },
                ),
            ),
        ),
        final(p).mutex_list == old(p).mutex_list,
        final(p).semaphore_list == old(p).semaphore_list,
        final(p).condvar_list == old(p).condvar_list,
        final(p).mutex_ledger == old(p).mutex_ledger,
        final(p).semaphore_ledger == old(p).semaphore_ledger,
        final(p).enable_deadlock == old(p).enable_deadlock,
        final(p).fd_table == old(p).fd_table,
{
    let expire = if ms <= usize::MAX - now_ms {
        now_ms + ms
    } else {
        usize::MAX
    };
    let ghost s0 = *p;
    p.tasks.set(tid, Some(TaskStatus::Sleeping(expire)));
    proof {
        lemma_wf_status_change(&s0, p);
    }
    0
}

/// Makes runnable every sleeping thread whose deadline is at or before `now_ms`.
pub fn wake_sleepers(p: &mut ProcessControlBlockInner, now_ms: usize)
    requires
        old(p).wf(),
    ensures
        final(p).wf(),
        final(p).tasks.len() == old(p).tasks.len(),
        forall|t: int|
            0 <= t < old(p).tasks.len() ==> #[trigger] final(p).tasks@[t] == match old(p).tasks@[t] {
                Some(TaskStatus::Sleeping(d)) => if d <= now_ms {
                    Some(TaskStatus::Ready)
                } else {
                    old(p).tasks@[t]
                },
                other => other,
            },
        final(p).mutex_list == old(p).mutex_list,
        final(p).semaphore_list == old(p).semaphore_list,
        final(p).condvar_list == old(p).condvar_list,
        final(p).mutex_ledger == old(p).mutex_ledger,
        final(p).semaphore_ledger == old(p).semaphore_ledger,
        final(p).enable_deadlock == old(p).enable_deadlock,
        final(p).fd_table == old(p).fd_table,
{
    let ghost s0 = *p;
    let mut i: usize = 0;
    while i < p.tasks.len()
        invariant
            p.wf(),
            i <= p.tasks.len(),
            p.tasks.len() == s0.tasks.len(),
            p.mutex_list == s0.mutex_list,
            p.semaphore_list == s0.semaphore_list,
            p.condvar_list == s0.condvar_list,
            p.mutex_ledger == s0.mutex_ledger,
            p.semaphore_ledger == s0.semaphore_ledger,
            p.enable_deadlock == s0.enable_deadlock,
            p.fd_table == s0.fd_table,
            forall|t: int|
                0 <= t < i ==> #[trigger] p.tasks@[t] == match s0.tasks@[t] {
                    Some(TaskStatus::Sleeping(d)) => if d <= now_ms {
                        Some(TaskStatus::Ready)
                    } else {
                        s0.tasks@[t]
                    },
                    other => other,
                },
            forall|t: int| i <= t < p.tasks.len() ==> #[trigger] p.tasks@[t] == s0.tasks@[t],
        decreases s0.tasks.len() - i,
    {
        match p.tasks[i] {
            Some(TaskStatus::Sleeping(d)) => {
                if d <= now_ms {
                    let ghost s1 = *p;
                    p.tasks.set(i, Some(TaskStatus::Ready));
                    proof {
                        lemma_wf_status_change(&s1, p);
                    }
                }
            },
            _ => {},
        }
        i = i + 1;
    }
}

/// The invariant survives a change of one thread's status to one that waits
/// for no lock.
proof fn lemma_wf_status_change(s0: &ProcessControlBlockInner, s1: &ProcessControlBlockInner)
    requires
        s0.wf(),
        s1.tasks.len() == s0.tasks.len(),
        forall|t: int|
            0 <= t < s1.tasks.len() ==> s1.tasks@[t] == s0.tasks@[t] || (!(s1.tasks@[t] matches Some(
                TaskStatus::Spinning(_),
            )) && !(s1.tasks@[t] matches Some(TaskStatus::Relocking(_)))),
        s1.mutex_list == s0.mutex_list,
        s1.semaphore_list == s0.semaphore_list,
        s1.condvar_list == s0.condvar_list,
        s1.mutex_ledger == s0.mutex_ledger,
        s1.semaphore_ledger == s0.semaphore_ledger,
    ensures
        s1.wf(),
{
    assert forall|m: int| 0 <= m < s1.mutex_list.len() implies #[trigger] s1.mutex_ok(m) by {
        assert(s0.mutex_ok(m));
    }
    assert forall|s: int| 0 <= s < s1.semaphore_list.len() implies #[trigger] s1.semaphore_ok(
        s,
    ) by {
        assert(s0.semaphore_ok(s));
    }
    assert forall|c: int| 0 <= c < s1.condvar_list.len() implies #[trigger] s1.condvar_ok(c) by {
        assert(s0.condvar_ok(c));
        if s1.valid_condvar(c) {
            assert forall|k: int| 0 <= k < s1.condvar_of(c).waiters().len() implies {
                &&& #[trigger] s1.condvar_of(c).waiters()[k].0 < s1.tasks.len()
                &&& s1.valid_mutex(s1.condvar_of(c).waiters()[k].1 as int)
            } by {
                assert(s0.condvar_of(c).waiters()[k].0 < s0.tasks.len());
            }
        }
    }
    assert forall|t: int| 0 <= t < s1.tasks.len() implies #[trigger] s1.task_ok(t) by {
        assert(s0.task_ok(t));
    }
}

/// Turns deadlock detection on (1) or off (0); any other value is refused
/// with -1 and changes nothing.
pub fn sys_enable_deadlock_detect(p: &mut ProcessControlBlockInner, enabled: usize) -> (r: isize)
    requires
        old(p).wf(),
    ensures
        final(p).wf(),
        enabled == 1 ==> r == 0 && final(p).enable_deadlock,
        enabled == 0 ==> r == 0 && !final(p).enable_deadlock,
        enabled > 1 ==> r == -1 && final(p).enable_deadlock == old(p).enable_deadlock,
        final(p).tasks == old(p).tasks,
        final(p).fd_table == old(p).fd_table,
        final(p).mutex_list == old(p).mutex_list,
        final(p).semaphore_list == old(p).semaphore_list,
        final(p).condvar_list == old(p).condvar_list,
        final(p).mutex_ledger == old(p).mutex_ledger,
        final(p).semaphore_ledger == old(p).semaphore_ledger,
{
    let ghost s0 = *p;
    let r: isize = if enabled == 1 {
        p.enable_deadlock = true;
        0
    } else if enabled == 0 {
        p.enable_deadlock = false;
        0
    } else {
        -1
    };
    proof {
        lemma_wf_status_change(&s0, p);
    }
    r
}


/// Thread `tid` asks for lock `mutex_id`. The request is recorded in the
/// ledger; with detection on, a request that would make the state unsafe is
/// withdrawn and refused. Otherwise the lock is granted when free, and the
/// thread spins on a held spin lock or blocks on a held queueing lock.
pub fn sys_mutex_lock(p: &mut ProcessControlBlockInner, tid: usize, mutex_id: usize) -> (r: isize)
    requires
        old(p).wf(),
        old(p).valid_mutex(mutex_id as int),
        old(p).is_running(tid as int) ==> old(p).mutex_ledger.need_rows()[tid as int][mutex_id as int]
            < usize::MAX,
    ensures
        final(p).wf(),
        !old(p).is_running(tid as int) ==> r == NO_THREAD && *final(p) == *old(p),
        old(p).is_running(tid as int) && mutex_request_refused(*old(p), tid as int, mutex_id as int)
            ==> r == DEADLOCK_REFUSED && unchanged(*old(p), *final(p)),
        old(p).is_running(tid as int) && !mutex_request_refused(
            *old(p),
            tid as int,
            mutex_id as int,
        ) ==> r == 0 && exists|q: ProcessControlBlockInner|
            {
                &&& old(p).mutex_ledger.reserved(&q.mutex_ledger, tid as int, mutex_id as int)
                &&& with_mutex_ledger(*old(p), q, q.mutex_ledger)
                &&& #[trigger] q.acquired(final(p), tid as int, mutex_id as int)
            },
{
    if !p.running(tid) {
        return NO_THREAD;
    }
    let ghost s0 = *p;
    p.mutex_ledger.reserve(tid, mutex_id);
    proof {
        p.lemma_wf_need_change(&s0);
    }
    if p.enable_deadlock && p.deadlock_detect() {
        let ghost s1 = p.mutex_ledger;
        p.mutex_ledger.cancel(tid, mutex_id);
        proof {
            let a0 = s0.mutex_ledger.alloc_rows();
            let n0 = s0.mutex_ledger.need_rows();
            assert(a0[tid as int].update(mutex_id as int, a0[tid as int][mutex_id as int]) =~= a0[tid as int]);
            assert(n0[tid as int].update(mutex_id as int, n0[tid as int][mutex_id as int]) =~= n0[tid as int]);
            let n1 = s1.need_rows();
            assert(n1[tid as int] == n0[tid as int].update(mutex_id as int, (n0[tid as int][mutex_id as int] + 1) as usize));
            assert(n1[tid as int].update(mutex_id as int, n0[tid as int][mutex_id as int]) =~= n0[tid as int]);
            let a1 = s1.alloc_rows();
            assert(a1 =~= a0);
            assert(p.mutex_ledger.alloc_rows() =~= a0);
            assert(p.mutex_ledger.need_rows() =~= n0);
            p.lemma_wf_need_change(&s0);
        }
        return DEADLOCK_REFUSED;
    }
    proof {
        assert(p.mutex_ledger.need_rows() == need_after_request(s0.mutex_ledger, tid as int, mutex_id as int));
        assert(p.combined_available() == s0.combined_available());
        let a0 = s0.mutex_ledger.alloc_rows();
        assert(a0[tid as int].update(mutex_id as int, a0[tid as int][mutex_id as int]) =~= a0[tid as int]);
        assert(p.mutex_ledger.alloc_rows() =~= a0);
        assert(p.combined_allocation() =~= s0.combined_allocation());
    }
    let ghost q = *p;
    p.acquire_mutex(tid, mutex_id);
    proof {
        assert(q.acquired(p, tid as int, mutex_id as int));
    }
    0
}

/// Thread `tid`, which holds lock `mutex_id`, releases it; ownership passes
/// to the longest waiting thread, if any.
pub fn sys_mutex_unlock(p: &mut ProcessControlBlockInner, tid: usize, mutex_id: usize) -> (r: isize)
    requires
        old(p).wf(),
        old(p).valid_mutex(mutex_id as int),
        tid < old(p).tasks.len(),
        old(p).mutex_ledger.alloc_rows()[tid as int][mutex_id as int] > 0,
    ensures
        final(p).wf(),
        r == 0,
        old(p).unlocked(final(p), tid as int, mutex_id as int),
{
    p.release_mutex(tid, mutex_id);
    0
}

/// A spinning thread `tid` polls its lock again, and takes it when free.
/// Returns whether it did.
pub fn poll_spin(p: &mut ProcessControlBlockInner, tid: usize) -> (acquired: bool)
    requires
        old(p).wf(),
        tid < old(p).tasks.len(),
        old(p).tasks@[tid as int] matches Some(TaskStatus::Spinning(_)),
    ensures
        final(p).wf(),
        old(p).tasks@[tid as int] matches Some(TaskStatus::Spinning(m)) && {
            &&& acquired == !old(p).mutex_of(m as int).is_locked()
            &&& old(p).acquired(final(p), tid as int, m as int)
        },
{
    let m = match p.tasks[tid] {
        Some(TaskStatus::Spinning(m)) => m,
        _ => 0,
    };
    proof {
        assert(p.task_ok(tid as int));
    }
    let free = match &p.mutex_list[m] {
        Some(mx) => !mx.locked(),
        None => false,
    };
    p.acquire_mutex(tid, m);
    free
}

/// Thread `tid` asks for a unit of semaphore `sem_id`. The request is
/// recorded in the ledger; with detection on, a request that would make the
/// state unsafe is withdrawn and refused. Otherwise the unit is granted when
/// one is left, and the thread blocks when none is.
pub fn sys_semaphore_down(p: &mut ProcessControlBlockInner, tid: usize, sem_id: usize) -> (r: isize)
    requires
        old(p).wf(),
        old(p).valid_semaphore(sem_id as int),
        old(p).semaphore_of(sem_id as int).count() > isize::MIN,
        old(p).is_running(tid as int) ==> old(p).semaphore_ledger.need_rows()[tid as int][sem_id as int]
            < usize::MAX,
    ensures
        final(p).wf(),
        !old(p).is_running(tid as int) ==> r == NO_THREAD && *final(p) == *old(p),
        old(p).is_running(tid as int) && semaphore_request_refused(*old(p), tid as int, sem_id as int)
            ==> r == DEADLOCK_REFUSED && unchanged(*old(p), *final(p)),
        old(p).is_running(tid as int) && !semaphore_request_refused(
            *old(p),
            tid as int,
            sem_id as int,
        ) ==> r == 0 && exists|q: ProcessControlBlockInner|
            {
                &&& old(p).semaphore_ledger.reserved(&q.semaphore_ledger, tid as int, sem_id as int)
                &&& with_semaphore_ledger(*old(p), q, q.semaphore_ledger)
                &&& #[trigger] q.downed(final(p), tid as int, sem_id as int)
            },
{
    if !p.running(tid) {
        return NO_THREAD;
    }
    let ghost s0 = *p;
    p.semaphore_ledger.reserve(tid, sem_id);
    proof {
        p.lemma_wf_need_change(&s0);
    }
    if p.enable_deadlock && p.deadlock_detect() {
        let ghost s1 = p.semaphore_ledger;
        p.semaphore_ledger.cancel(tid, sem_id);
        proof {
            let a0 = s0.semaphore_ledger.alloc_rows();
            let n0 = s0.semaphore_ledger.need_rows();
            assert(a0[tid as int].update(sem_id as int, a0[tid as int][sem_id as int]) =~= a0[tid as int]);
            assert(n0[tid as int].update(sem_id as int, n0[tid as int][sem_id as int]) =~= n0[tid as int]);
            let n1 = s1.need_rows();
            assert(n1[tid as int] == n0[tid as int].update(sem_id as int, (n0[tid as int][sem_id as int] + 1) as usize));
            assert(n1[tid as int].update(sem_id as int, n0[tid as int][sem_id as int]) =~= n0[tid as int]);
            let a1 = s1.alloc_rows();
            assert(a1 =~= a0);
            assert(p.semaphore_ledger.alloc_rows() =~= a0);
            assert(p.semaphore_ledger.need_rows() =~= n0);
            p.lemma_wf_need_change(&s0);
        }
        return DEADLOCK_REFUSED;
    }
    proof {
        assert(p.semaphore_ledger.need_rows() == need_after_request(s0.semaphore_ledger, tid as int, sem_id as int));
        assert(p.combined_available() == s0.combined_available());
        let a0 = s0.semaphore_ledger.alloc_rows();
        assert(a0[tid as int].update(sem_id as int, a0[tid as int][sem_id as int]) =~= a0[tid as int]);
        assert(p.semaphore_ledger.alloc_rows() =~= a0);
        assert(p.combined_allocation() =~= s0.combined_allocation());
    }
    let ghost q = *p;
    p.acquire_semaphore(tid, sem_id);
    proof {
        assert(q.downed(p, tid as int, sem_id as int));
    }
    0
}

/// Thread `tid` gives back a unit of semaphore `sem_id`; it goes to the
/// longest waiting thread, if any.
pub fn sys_semaphore_up(p: &mut ProcessControlBlockInner, tid: usize, sem_id: usize) -> (r: isize)
    requires
        old(p).wf(),
        old(p).valid_semaphore(sem_id as int),
        tid < old(p).tasks.len(),
        old(p).semaphore_of(sem_id as int).count() < isize::MAX,
        old(p).semaphore_ledger.alloc_rows()[tid as int][sem_id as int] == 0
            ==> old(p).semaphore_ledger.capacity@[sem_id as int] < usize::MAX,
    ensures
        final(p).wf(),
        r == 0,
        old(p).upped(final(p), tid as int, sem_id as int),
{
    p.release_semaphore(tid, sem_id);
    0
}

/// Wakes the longest waiter of condition variable `condvar_id`, if any: it
/// leaves the queue and becomes runnable, to take its lock again when it runs
/// (`resume_relock`). No lock, wait queue of a lock or ledger entry changes.
pub fn sys_condvar_signal(p: &mut ProcessControlBlockInner, condvar_id: usize) -> (r: isize)
    requires
        old(p).wf(),
        old(p).valid_condvar(condvar_id as int),
    ensures
        final(p).wf(),
        r == 0,
        final(p).mutex_list == old(p).mutex_list,
        final(p).mutex_ledger == old(p).mutex_ledger,
        final(p).semaphore_ledger == old(p).semaphore_ledger,
        old(p).same_but_condvars(final(p)),
        old(p).only_condvar_changed(final(p), condvar_id as int),
        old(p).condvar_of(condvar_id as int).waiters().len() == 0 ==> {
            &&& final(p).tasks == old(p).tasks
            &&& final(p).condvar_of(condvar_id as int).waiters() == old(p).condvar_of(
                condvar_id as int,
            ).waiters()
        },
        old(p).condvar_of(condvar_id as int).waiters().len() > 0 ==> {
            let w = old(p).condvar_of(condvar_id as int).waiters()[0];
            &&& final(p).condvar_of(condvar_id as int).waiters() == old(p).condvar_of(
                condvar_id as int,
            ).waiters().drop_first()
            &&& final(p).tasks@ == old(p).tasks@.update(
                w.0 as int,
                Some(TaskStatus::Relocking(w.1)),
            )
        },
{
    p.signal_condvar(condvar_id);
    0
}

/// A thread `tid` woken by a condition variable runs again and asks for the
/// lock it gave up: it takes it when free, and otherwise spins on it or queues
/// for it, as for any request of that lock. Returns whether it took it.
pub fn resume_relock(p: &mut ProcessControlBlockInner, tid: usize) -> (acquired: bool)
    requires
        old(p).wf(),
        tid < old(p).tasks.len(),
        old(p).tasks@[tid as int] matches Some(TaskStatus::Relocking(_)),
    ensures
        final(p).wf(),
        old(p).tasks@[tid as int] matches Some(TaskStatus::Relocking(m)) && {
            &&& acquired == !old(p).mutex_of(m as int).is_locked()
            &&& old(p).acquired(final(p), tid as int, m as int)
        },
{
    let m = match p.tasks[tid] {
        Some(TaskStatus::Relocking(m)) => m,
        _ => 0,
    };
    proof {
        assert(p.task_ok(tid as int));
    }
    let free = match &p.mutex_list[m] {
        Some(mx) => !mx.locked(),
        None => false,
    };
    p.acquire_mutex(tid, m);
    free
}

/// Thread `tid`, holding lock `mutex_id`, releases it and blocks on condition
/// variable `condvar_id`; once signalled it takes the lock again before it
/// goes on.
pub fn sys_condvar_wait(
    p: &mut ProcessControlBlockInner,
    tid: usize,
    condvar_id: usize,
    mutex_id: usize,
) -> (r: isize)
    requires
        old(p).wf(),
        old(p).valid_condvar(condvar_id as int),
        old(p).valid_mutex(mutex_id as int),
        tid < old(p).tasks.len(),
        old(p).mutex_ledger.alloc_rows()[tid as int][mutex_id as int] > 0,
    ensures
        final(p).wf(),
        r == 0,
        exists|q: ProcessControlBlockInner|
            {
                &&& #[trigger] old(p).unlocked(&q, tid as int, mutex_id as int)
                &&& q.same_but_condvars(final(p))
                &&& q.only_condvar_changed(final(p), condvar_id as int)
                &&& final(p).condvar_of(condvar_id as int).waiters() == q.condvar_of(
                    condvar_id as int,
                ).waiters().push((tid, mutex_id))
                &&& final(p).tasks@ == q.tasks@.update(tid as int, Some(TaskStatus::Blocked))
            },
{
    p.wait_condvar(tid, condvar_id, mutex_id);
    0
}


/// The invariant survives filling lock slot `id` with a free lock whose
/// ledger column is fresh.
proof fn lemma_wf_mutex_created(s0: &ProcessControlBlockInner, s1: &ProcessControlBlockInner, id: int)
    requires
        s0.wf(),
        claims_slot(s0.mutex_list@, s1.mutex_list@, id),
        s1.mutex_ledger.wf(),
        s1.mutex_ledger.threads() == s1.tasks.len(),
        s1.mutex_ledger.resources() == s1.mutex_list.len(),
        forall|j: int|
            0 <= j < s0.mutex_list.len() && j != id ==> s1.mutex_ledger.available@[j]
                == s0.mutex_ledger.available@[j] && s1.mutex_ledger.capacity@[j]
                == s0.mutex_ledger.capacity@[j],
        s1.mutex_ok(id),
        s1.tasks == s0.tasks,
        s1.semaphore_list == s0.semaphore_list,
        s1.condvar_list == s0.condvar_list,
        s1.semaphore_ledger == s0.semaphore_ledger,
    ensures
        s1.wf(),
{
    assert forall|m: int| 0 <= m < s1.mutex_list.len() implies #[trigger] s1.mutex_ok(m) by {
        if m != id {
            assert(s0.mutex_ok(m));
            assert(s1.mutex_list@[m] == s0.mutex_list@[m]);
        }
    }
    assert forall|s: int| 0 <= s < s1.semaphore_list.len() implies #[trigger] s1.semaphore_ok(
        s,
    ) by {
        assert(s0.semaphore_ok(s));
    }
    assert forall|c: int| 0 <= c < s1.condvar_list.len() implies #[trigger] s1.condvar_ok(c) by {
        assert(s0.condvar_ok(c));
        if s1.valid_condvar(c) {
            assert forall|k: int| 0 <= k < s1.condvar_of(c).waiters().len() implies {
                &&& #[trigger] s1.condvar_of(c).waiters()[k].0 < s1.tasks.len()
                &&& s1.valid_mutex(s1.condvar_of(c).waiters()[k].1 as int)
            } by {
                assert(s0.condvar_of(c).waiters()[k].0 < s0.tasks.len());
                let m = s0.condvar_of(c).waiters()[k].1 as int;
                assert(s1.mutex_list@[m] == s0.mutex_list@[m]);
            }
        }
    }
    assert forall|t: int| 0 <= t < s1.tasks.len() implies #[trigger] s1.task_ok(t) by {
        assert(s0.task_ok(t));
        if let Some(TaskStatus::Spinning(m)) = s1.tasks@[t] {
            assert(s1.mutex_list@[m as int] == s0.mutex_list@[m as int]);
        }
    }
}

/// Creates a lock, queueing when `blocking` and spinning otherwise, in the
/// first empty slot or else a new one, with a fresh ledger column of one
/// available unit. Returns its id.
pub fn sys_mutex_create(p: &mut ProcessControlBlockInner, blocking: bool) -> (r: isize)
    requires
        old(p).wf(),
        old(p).mutex_list.len() < isize::MAX,
    ensures
        final(p).wf(),
        r >= 0,
        claims_slot(old(p).mutex_list@, final(p).mutex_list@, r as int),
        !final(p).mutex_of(r as int).is_locked(),
        final(p).mutex_of(r as int).waiters().len() == 0,
        final(p).mutex_of(r as int).spins() == !blocking,
        final(p).mutex_ledger.available@[r as int] == 1,
        final(p).mutex_ledger.capacity@[r as int] == 1,
        forall|t: int|
            0 <= t < final(p).tasks.len() ==> #[trigger] final(p).mutex_ledger.alloc_rows()[t][r as int]
                == 0,
        forall|t: int|
            0 <= t < final(p).tasks.len() ==> #[trigger] final(p).mutex_ledger.need_rows()[t][r as int]
                == 0,
        forall|t: int, j: int|
            0 <= t < old(p).tasks.len() && 0 <= j < old(p).mutex_list.len() && j != r ==> {
                &&& #[trigger] final(p).mutex_ledger.alloc_rows()[t][j] == old(p).mutex_ledger.alloc_rows()[t][j]
                &&& final(p).mutex_ledger.need_rows()[t][j] == old(p).mutex_ledger.need_rows()[t][j]
            },
        forall|j: int|
            0 <= j < old(p).mutex_list.len() && j != r ==> #[trigger] final(p).mutex_ledger.available@[j] == old(p).mutex_ledger.available@[j],
        final(p).tasks == old(p).tasks,
        final(p).semaphore_list == old(p).semaphore_list,
        final(p).condvar_list == old(p).condvar_list,
        final(p).semaphore_ledger == old(p).semaphore_ledger,
        final(p).enable_deadlock == old(p).enable_deadlock,
        final(p).fd_table == old(p).fd_table,
{
    let ghost s0 = *p;
    let m = if blocking {
        AnyMutex::Blocking(MutexBlocking::new())
    } else {
        AnyMutex::Spin(MutexSpin::new())
    };
    let id = match first_free(&p.mutex_list) {
        Some(id) => {
            p.mutex_list.set(id, Some(m));
            p.mutex_ledger.reset_resource(id, 1);
            id
        },
        None => {
            p.mutex_list.push(Some(m));
            p.mutex_ledger.add_resource(1)
        },
    };
    proof {
        assert(p.mutex_list@[id as int] == Some(m));
        lemma_wf_mutex_created(&s0, p, id as int);
    }
    id as isize
}

/// The invariant survives filling semaphore slot `id` with a semaphore whose
/// count matches its fresh ledger column.
proof fn lemma_wf_semaphore_created(
    s0: &ProcessControlBlockInner,
    s1: &ProcessControlBlockInner,
    id: int,
)
    requires
        s0.wf(),
        claims_slot(s0.semaphore_list@, s1.semaphore_list@, id),
        s1.semaphore_ledger.wf(),
        s1.semaphore_ledger.threads() == s1.tasks.len(),
        s1.semaphore_ledger.resources() == s1.semaphore_list.len(),
        forall|j: int|
            0 <= j < s0.semaphore_list.len() && j != id ==> s1.semaphore_ledger.available@[j]
                == s0.semaphore_ledger.available@[j],
        s1.semaphore_ok(id),
        s1.tasks == s0.tasks,
        s1.mutex_list == s0.mutex_list,
        s1.condvar_list == s0.condvar_list,
        s1.mutex_ledger == s0.mutex_ledger,
    ensures
        s1.wf(),
{
    assert forall|m: int| 0 <= m < s1.mutex_list.len() implies #[trigger] s1.mutex_ok(m) by {
        assert(s0.mutex_ok(m));
    }
    assert forall|s: int| 0 <= s < s1.semaphore_list.len() implies #[trigger] s1.semaphore_ok(
        s,
    ) by {
        if s != id {
            assert(s0.semaphore_ok(s));
            assert(s1.semaphore_list@[s] == s0.semaphore_list@[s]);
        }
    }
    assert forall|c: int| 0 <= c < s1.condvar_list.len() implies #[trigger] s1.condvar_ok(c) by {
        assert(s0.condvar_ok(c));
        if s1.valid_condvar(c) {
            assert forall|k: int| 0 <= k < s1.condvar_of(c).waiters().len() implies {
                &&& #[trigger] s1.condvar_of(c).waiters()[k].0 < s1.tasks.len()
                &&& s1.valid_mutex(s1.condvar_of(c).waiters()[k].1 as int)
            } by {
                assert(s0.condvar_of(c).waiters()[k].0 < s0.tasks.len());
            }
        }
    }
    assert forall|t: int| 0 <= t < s1.tasks.len() implies #[trigger] s1.task_ok(t) by {
        assert(s0.task_ok(t));
    }
}

/// Creates a semaphore holding `res_count` units, in the first empty slot or
/// else a new one, with a fresh ledger column of `res_count` available
/// units. Returns its id.
pub fn sys_semaphore_create(p: &mut ProcessControlBlockInner, res_count: usize) -> (r: isize)
    requires
        old(p).wf(),
        old(p).semaphore_list.len() < isize::MAX,
        res_count <= isize::MAX,
    ensures
        final(p).wf(),
        r >= 0,
        claims_slot(old(p).semaphore_list@, final(p).semaphore_list@, r as int),
        final(p).semaphore_of(r as int).count() == res_count,
        final(p).semaphore_of(r as int).waiters().len() == 0,
        final(p).semaphore_ledger.available@[r as int] == res_count,
        final(p).semaphore_ledger.capacity@[r as int] == res_count,
        forall|t: int|
            0 <= t < final(p).tasks.len() ==> #[trigger] final(p).semaphore_ledger.alloc_rows()[t][r as int]
                == 0,
        forall|t: int|
            0 <= t < final(p).tasks.len() ==> #[trigger] final(p).semaphore_ledger.need_rows()[t][r as int]
                == 0,
        forall|t: int, j: int|
            0 <= t < old(p).tasks.len() && 0 <= j < old(p).semaphore_list.len() && j != r ==> {
                &&& #[trigger] final(p).semaphore_ledger.alloc_rows()[t][j] == old(p).semaphore_ledger.alloc_rows()[t][j]
                &&& final(p).semaphore_ledger.need_rows()[t][j] == old(p).semaphore_ledger.need_rows()[t][j]
            },
        forall|j: int|
            0 <= j < old(p).semaphore_list.len() && j != r ==> #[trigger] final(p).semaphore_ledger.available@[j] == old(p).semaphore_ledger.available@[j],
        final(p).tasks == old(p).tasks,
        final(p).mutex_list == old(p).mutex_list,
        final(p).condvar_list == old(p).condvar_list,
        final(p).mutex_ledger == old(p).mutex_ledger,
        final(p).enable_deadlock == old(p).enable_deadlock,
        final(p).fd_table == old(p).fd_table,
{
    let ghost s0 = *p;
    let sem = Semaphore::new(res_count);
    let id = match first_free(&p.semaphore_list) {
        Some(id) => {
            p.semaphore_list.set(id, Some(sem));
            p.semaphore_ledger.reset_resource(id, res_count);
            id
        },
        None => {
            p.semaphore_list.push(Some(sem));
            p.semaphore_ledger.add_resource(res_count)
        },
    };
    proof {
        assert(p.semaphore_list@[id as int] == Some(sem));
        lemma_wf_semaphore_created(&s0, p, id as int);
    }
    id as isize
}

/// Creates a condition variable in the first empty slot or else a new one.
/// Returns its id.
pub fn sys_condvar_create(p: &mut ProcessControlBlockInner, _arg: usize) -> (r: isize)
    requires
        old(p).wf(),
        old(p).condvar_list.len() < isize::MAX,
    ensures
        final(p).wf(),
        r >= 0,
        claims_slot(old(p).condvar_list@, final(p).condvar_list@, r as int),
        final(p).condvar_of(r as int).waiters().len() == 0,
        final(p).tasks == old(p).tasks,
        final(p).mutex_list == old(p).mutex_list,
        final(p).semaphore_list == old(p).semaphore_list,
        final(p).mutex_ledger == old(p).mutex_ledger,
        final(p).semaphore_ledger == old(p).semaphore_ledger,
        final(p).enable_deadlock == old(p).enable_deadlock,
        final(p).fd_table == old(p).fd_table,
{
    let ghost s0 = *p;
    let c = Condvar::new();
    let id = match first_free(&p.condvar_list) {
        Some(id) => {
            p.condvar_list.set(id, Some(c));
            id
        },
        None => {
            p.condvar_list.push(Some(c));
            p.condvar_list.len() - 1
        },
    };
    proof {
        assert(p.condvar_list@[id as int] == Some(c));
        assert forall|m: int| 0 <= m < p.mutex_list.len() implies #[trigger] p.mutex_ok(m) by {
            assert(s0.mutex_ok(m));
        }
        assert forall|s: int| 0 <= s < p.semaphore_list.len() implies #[trigger] p.semaphore_ok(
            s,
        ) by {
            assert(s0.semaphore_ok(s));
        }
        assert forall|k: int| 0 <= k < p.condvar_list.len() implies #[trigger] p.condvar_ok(k) by {
            if k == id {
                assert(p.condvar_of(k).waiters().len() == 0);
            } else {
                assert(s0.condvar_ok(k));
                assert(p.condvar_list@[k] == s0.condvar_list@[k]);
                if p.valid_condvar(k) {
                    assert forall|w: int| 0 <= w < p.condvar_of(k).waiters().len() implies {
                        &&& #[trigger] p.condvar_of(k).waiters()[w].0 < p.tasks.len()
                        &&& p.valid_mutex(p.condvar_of(k).waiters()[w].1 as int)
                    } by {
                        assert(s0.condvar_of(k).waiters()[w].0 < s0.tasks.len());
                    }
                }
            }
        }
        assert forall|t: int| 0 <= t < p.tasks.len() implies #[trigger] p.task_ok(t) by {
            assert(s0.task_ok(t));
        }
    }
    id as isize
}

} // verus!
