//! Properties that hold across calls of the synchronization gateway.
use crate::ledger::Ledger;
use crate::mutex::Mutex;
use crate::process::{claims_slot, ProcessControlBlockInner, TaskStatus};
use vstd::prelude::*;

verus! {

/// A created resource gets an id that no live resource has, and every live
/// resource keeps its id and its instance: ids are unique at any instant and
/// an id is reused only once its slot is empty.
pub proof fn law_created_id_is_fresh<T>(before: Seq<Option<T>>, after: Seq<Option<T>>, id: int)
    requires
        claims_slot(before, after, id),
    ensures
        id < before.len() ==> before[id] is None,
        after[id] is Some,
        forall|j: int| 0 <= j < before.len() && before[j] is Some ==> j != id && after[j] == before[j],
{
}

/// Every unit of every resource is either available or held by exactly one
/// thread: for each resource, what is available plus what all threads hold is
/// its capacity; a lock's capacity is one.
pub proof fn law_units_conserved(p: ProcessControlBlockInner)
    requires
        p.wf(),
    ensures
        forall|r: int|
            0 <= r < p.mutex_list.len() ==> p.mutex_ledger.available@[r] + #[trigger] p.mutex_ledger.held(r)
                == p.mutex_ledger.capacity@[r],
        forall|r: int|
            0 <= r < p.semaphore_list.len() ==> p.semaphore_ledger.available@[r]
                + #[trigger] p.semaphore_ledger.held(r) == p.semaphore_ledger.capacity@[r],
        forall|r: int| #[trigger] p.valid_mutex(r) ==> p.mutex_ledger.capacity@[r] == 1,
{
    assert forall|r: int| #[trigger] p.valid_mutex(r) implies p.mutex_ledger.capacity@[r] == 1 by {
        assert(p.mutex_ok(r));
    }
}

/// A thread that asks for a held queueing lock is blocked; when the holder
/// unlocks it, the thread becomes runnable and holds the lock, with one more
/// unit in its allocation.
pub proof fn law_blocked_until_unlock(
    p: ProcessControlBlockInner,
    q: ProcessControlBlockInner,
    r: ProcessControlBlockInner,
    holder: int,
    waiter: int,
    id: int,
)
    requires
        p.wf(),
        p.valid_mutex(id),
        !p.mutex_of(id).spins(),
        p.mutex_of(id).is_locked(),
        p.mutex_of(id).waiters().len() == 0,
        0 <= waiter < p.tasks.len(),
        0 <= holder < p.tasks.len(),
        holder != waiter,
        p.acquired(&q, waiter, id),
        q.unlocked(&r, holder, id),
    ensures
        q.tasks@[waiter] == Some(TaskStatus::Blocked),
        q.mutex_ledger.alloc_rows()[waiter][id] == p.mutex_ledger.alloc_rows()[waiter][id],
        r.tasks@[waiter] == Some(TaskStatus::Ready),
        r.mutex_of(id).is_locked(),
        r.mutex_ledger.alloc_rows()[waiter][id] == q.mutex_ledger.alloc_rows()[waiter][id] + 1,
{
    assert(q.mutex_of(id).waiters() =~= seq![waiter as usize]);
    let mid = choose|mid: Ledger| #[trigger] q.mutex_ledger.released(&mid, holder, id) && {
        &&& r.mutex_of(id).is_locked()
        &&& mid.committed(&r.mutex_ledger, q.mutex_of(id).waiters()[0] as int, id)
        &&& r.tasks@ == q.tasks@.update(q.mutex_of(id).waiters()[0] as int, Some(TaskStatus::Ready))
    };
    assert(q.mutex_ledger == p.mutex_ledger);
    assert(p.mutex_ok(id));
    assert(p.mutex_ledger.available@[id] + p.mutex_ledger.held(id) == p.mutex_ledger.capacity@[id]);
    crate::ledger::lemma_total_bounds(p.mutex_ledger.alloc_rows(), waiter, id, p.mutex_ledger.threads());
    assert(p.mutex_ledger.alloc_rows()[waiter].len() == p.mutex_list.len());
    assert(mid.alloc_rows()[waiter] == q.mutex_ledger.alloc_rows()[waiter]);
}

/// Queueing locks hand over in FIFO order: of two threads queued one after
/// the other, two unlocks wake the first, then the second.
pub proof fn law_fifo_handoff(
    p: ProcessControlBlockInner,
    q: ProcessControlBlockInner,
    r: ProcessControlBlockInner,
    t1: int,
    t2: int,
    id: int,
)
    requires
        p.wf(),
        p.valid_mutex(id),
        p.mutex_of(id).waiters().len() >= 2,
        p.unlocked(&q, t1, id),
        q.unlocked(&r, t2, id),
    ensures
        q.tasks@ == p.tasks@.update(p.mutex_of(id).waiters()[0] as int, Some(TaskStatus::Ready)),
        r.tasks@ == q.tasks@.update(p.mutex_of(id).waiters()[1] as int, Some(TaskStatus::Ready)),
        r.mutex_of(id).waiters() == p.mutex_of(id).waiters().subrange(
            2,
            p.mutex_of(id).waiters().len() as int,
        ),
{
    assert(q.mutex_of(id).waiters() == p.mutex_of(id).waiters().drop_first());
    assert(r.mutex_of(id).waiters() =~= p.mutex_of(id).waiters().subrange(
        2,
        p.mutex_of(id).waiters().len() as int,
    ));
}

/// A semaphore grants a unit at once exactly while its count is above zero,
/// and every request lowers the count by one: created with `N` units, the
/// first `N` requests are granted at once and the next one blocks until a
/// unit is given back.
pub proof fn law_semaphore_grants_while_units_left(
    p: ProcessControlBlockInner,
    q: ProcessControlBlockInner,
    tid: int,
    id: int,
)
    requires
        p.wf(),
        p.valid_semaphore(id),
        0 <= tid < p.tasks.len(),
        p.downed(&q, tid, id),
    ensures
        q.semaphore_of(id).count() == p.semaphore_of(id).count() - 1,
        p.semaphore_of(id).count() > 0 ==> q.tasks@[tid] == Some(TaskStatus::Ready)
            && q.semaphore_ledger.alloc_rows()[tid][id] == p.semaphore_ledger.alloc_rows()[tid][id]
            + 1,
        p.semaphore_of(id).count() <= 0 ==> q.tasks@[tid] == Some(TaskStatus::Blocked)
            && q.semaphore_of(id).waiters().last() == tid,
{
    assert(p.semaphore_ledger.alloc_rows()[tid].len() == p.semaphore_list.len());
    assert(p.semaphore_ok(id));
    assert(p.semaphore_ledger.available@[id] + p.semaphore_ledger.held(id) == p.semaphore_ledger.capacity@[id]);
    crate::ledger::lemma_total_bounds(p.semaphore_ledger.alloc_rows(), tid, id, p.semaphore_ledger.threads());
}

/// A thread waiting on a condition variable has given up its lock: it holds
/// no unit of it, and it waits at the back of the queue for the lock it is to
/// take again. (A holder never queues for its own lock.)
pub proof fn law_condvar_wait_releases(
    p: ProcessControlBlockInner,
    q: ProcessControlBlockInner,
    o: ProcessControlBlockInner,
    tid: int,
    cid: int,
    mid: int,
)
    requires
        p.wf(),
        p.valid_mutex(mid),
        0 <= tid < p.tasks.len(),
        p.mutex_ledger.alloc_rows()[tid][mid] > 0,
        forall|k: int| 0 <= k < p.mutex_of(mid).waiters().len() ==> p.mutex_of(mid).waiters()[k] != tid,
        p.unlocked(&q, tid, mid),
        q.same_but_condvars(&o),
        q.only_condvar_changed(&o, cid),
        o.condvar_of(cid).waiters() == q.condvar_of(cid).waiters().push((tid as usize, mid as usize)),
        o.tasks@ == q.tasks@.update(tid, Some(TaskStatus::Blocked)),
    ensures
        o.mutex_ledger.alloc_rows()[tid][mid] == 0,
        o.condvar_of(cid).waiters().last() == (tid as usize, mid as usize),
        o.tasks@[tid] == Some(TaskStatus::Blocked),
{
    assert(p.mutex_ok(mid));
    assert(p.mutex_ledger.available@[mid] + p.mutex_ledger.held(mid) == p.mutex_ledger.capacity@[mid]);
    crate::ledger::lemma_total_bounds(p.mutex_ledger.alloc_rows(), tid, mid, p.mutex_ledger.threads());
    let w = p.mutex_of(mid).waiters();
    let l = choose|l: Ledger| #[trigger] p.mutex_ledger.released(&l, tid, mid) && if w.len() > 0 {
        &&& q.mutex_of(mid).is_locked()
        &&& q.mutex_of(mid).waiters() == w.drop_first()
        &&& l.committed(&q.mutex_ledger, w[0] as int, mid)
        &&& q.tasks@ == p.tasks@.update(w[0] as int, Some(TaskStatus::Ready))
    } else {
        &&& !q.mutex_of(mid).is_locked()
        &&& q.mutex_of(mid).waiters() == w
        &&& l.same(&q.mutex_ledger)
        &&& q.tasks@ == p.tasks@
    };
    assert(l.alloc_rows()[tid][mid] == 0);
    if w.len() > 0 {
        assert(w[0] != tid);
    }
}

/// A thread woken by a condition variable takes its lock again exactly once
/// when it runs: where the lock is free it is runnable and holds one more unit
/// of it; otherwise it waits for the lock as any requester does.
pub proof fn law_relock_takes_the_lock_once(
    p: ProcessControlBlockInner,
    q: ProcessControlBlockInner,
    tid: int,
    m: int,
)
    requires
        p.wf(),
        0 <= tid < p.tasks.len(),
        p.tasks@[tid] == Some(TaskStatus::Relocking(m as usize)),
        p.acquired(&q, tid, m),
    ensures
        !p.mutex_of(m).is_locked() ==> q.tasks@[tid] == Some(TaskStatus::Ready)
            && q.mutex_ledger.alloc_rows()[tid][m] == p.mutex_ledger.alloc_rows()[tid][m] + 1,
        p.mutex_of(m).is_locked() ==> q.mutex_ledger == p.mutex_ledger && q.tasks@[tid] != Some(
            TaskStatus::Ready,
        ),
{
    assert(p.task_ok(tid));
    assert(p.mutex_ok(m));
    assert(p.mutex_ledger.alloc_rows()[tid].len() == p.mutex_list.len());
    assert(p.mutex_ledger.available@[m] + p.mutex_ledger.held(m) == p.mutex_ledger.capacity@[m]);
    crate::ledger::lemma_total_bounds(p.mutex_ledger.alloc_rows(), tid, m, p.mutex_ledger.threads());
}

} // verus!
