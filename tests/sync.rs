use os8::banker::banker_is_safe;
use os8::process::{ProcessControlBlock, ProcessControlBlockInner, TaskStatus};
use os8::semaphore::Semaphore;
use os8::syscall::{
    poll_spin, resume_relock, sys_condvar_create, sys_condvar_signal, sys_condvar_wait,
    sys_enable_deadlock_detect, sys_mutex_create, sys_mutex_lock, sys_mutex_unlock,
    sys_semaphore_create, sys_semaphore_down, sys_semaphore_up, sys_sleep, wake_sleepers,
    DEADLOCK_REFUSED, NO_THREAD,
};

fn process_with_threads(n: usize) -> ProcessControlBlockInner {
    let mut p = ProcessControlBlock::new(7).inner;
    while p.thread_count() < n {
        p.alloc_tid();
    }
    p
}

fn is_ready(p: &ProcessControlBlockInner, tid: usize) -> bool {
    matches!(p.get_task(tid), TaskStatus::Ready)
}

fn is_blocked(p: &ProcessControlBlockInner, tid: usize) -> bool {
    matches!(p.get_task(tid), TaskStatus::Blocked)
}

#[test]
fn new_process_has_one_ready_thread() {
    let mut pcb = ProcessControlBlock::new(42);
    assert_eq!(pcb.getpid(), 42);
    let inner = pcb.inner_exclusive_access();
    assert_eq!(inner.thread_count(), 1);
    assert!(is_ready(inner, 0));
    assert!(!inner.enable_deadlock);
}

#[test]
fn alloc_tid_adds_zero_rows() {
    let mut p = process_with_threads(1);
    let m = sys_mutex_create(&mut p, true) as usize;
    let s = sys_semaphore_create(&mut p, 2) as usize;
    assert_eq!(p.alloc_tid(), 1);
    assert_eq!(p.alloc_tid(), 2);
    assert_eq!(p.mutex_ledger.allocation.len(), 3);
    assert_eq!(p.mutex_ledger.need.len(), 3);
    assert_eq!(p.semaphore_ledger.allocation[2], vec![0]);
    assert_eq!(p.mutex_ledger.need[2][m], 0);
    assert_eq!(p.semaphore_ledger.available[s], 2);
    p.dealloc_tid(2);
    assert_eq!(p.thread_count(), 3);
    assert_eq!(sys_mutex_lock(&mut p, 2, m), NO_THREAD);
}

#[test]
fn ids_fill_slots_in_order() {
    let mut p = process_with_threads(1);
    assert_eq!(sys_mutex_create(&mut p, true), 0);
    assert_eq!(sys_mutex_create(&mut p, false), 1);
    assert_eq!(sys_mutex_create(&mut p, true), 2);
    assert_eq!(sys_semaphore_create(&mut p, 3), 0);
    assert_eq!(sys_semaphore_create(&mut p, 0), 1);
    assert_eq!(sys_condvar_create(&mut p, 0), 0);
    assert_eq!(sys_condvar_create(&mut p, 0), 1);
    assert_eq!(p.mutex_ledger.available, vec![1, 1, 1]);
    assert_eq!(p.mutex_ledger.capacity, vec![1, 1, 1]);
    assert_eq!(p.semaphore_ledger.available, vec![3, 0]);
}

#[test]
fn empty_slot_is_reused_with_a_fresh_column() {
    let mut p = process_with_threads(2);
    sys_mutex_create(&mut p, true);
    sys_mutex_create(&mut p, true);
    p.mutex_list[0] = None;
    assert_eq!(sys_mutex_create(&mut p, true), 0);
    assert_eq!(sys_mutex_create(&mut p, true), 2);
    assert_eq!(p.mutex_ledger.available, vec![1, 1, 1]);
}

#[test]
fn free_mutex_is_granted_at_once() {
    let mut p = process_with_threads(1);
    let m = sys_mutex_create(&mut p, true) as usize;
    assert_eq!(sys_mutex_lock(&mut p, 0, m), 0);
    assert!(is_ready(&p, 0));
    assert_eq!(p.mutex_ledger.allocation[0][m], 1);
    assert_eq!(p.mutex_ledger.available[m], 0);
    assert_eq!(p.mutex_ledger.need[0][m], 0);
    assert_eq!(sys_mutex_unlock(&mut p, 0, m), 0);
    assert_eq!(p.mutex_ledger.allocation[0][m], 0);
    assert_eq!(p.mutex_ledger.available[m], 1);
}

#[test]
fn blocked_until_holder_unlocks() {
    let mut p = process_with_threads(2);
    let m = sys_mutex_create(&mut p, true) as usize;
    assert_eq!(sys_mutex_lock(&mut p, 0, m), 0);
    assert_eq!(sys_mutex_lock(&mut p, 1, m), 0);
    assert!(is_blocked(&p, 1));
    assert_eq!(p.mutex_ledger.need[1][m], 1);
    assert_eq!(p.mutex_ledger.allocation[1][m], 0);
    assert_eq!(sys_mutex_unlock(&mut p, 0, m), 0);
    assert!(is_ready(&p, 1));
    assert_eq!(p.mutex_ledger.allocation[1][m], 1);
    assert_eq!(p.mutex_ledger.allocation[0][m], 0);
    assert_eq!(p.mutex_ledger.need[1][m], 0);
    assert_eq!(p.mutex_ledger.available[m], 0);
    assert!(p.mutex_list[m].as_ref().unwrap().locked());
    assert_eq!(sys_mutex_unlock(&mut p, 1, m), 0);
    assert!(!p.mutex_list[m].as_ref().unwrap().locked());
    assert_eq!(p.mutex_ledger.available[m], 1);
}

#[test]
fn waiters_are_woken_in_fifo_order() {
    let mut p = process_with_threads(3);
    let m = sys_mutex_create(&mut p, true) as usize;
    sys_mutex_lock(&mut p, 0, m);
    sys_mutex_lock(&mut p, 1, m);
    sys_mutex_lock(&mut p, 2, m);
    assert!(is_blocked(&p, 1) && is_blocked(&p, 2));
    sys_mutex_unlock(&mut p, 0, m);
    assert!(is_ready(&p, 1));
    assert!(is_blocked(&p, 2));
    sys_mutex_unlock(&mut p, 1, m);
    assert!(is_ready(&p, 2));
    assert_eq!(p.mutex_ledger.allocation[2][m], 1);
}

#[test]
fn semaphore_waiters_are_woken_in_fifo_order() {
    let mut p = process_with_threads(3);
    let s = sys_semaphore_create(&mut p, 1) as usize;
    sys_semaphore_down(&mut p, 0, s);
    sys_semaphore_down(&mut p, 1, s);
    sys_semaphore_down(&mut p, 2, s);
    assert!(is_blocked(&p, 1) && is_blocked(&p, 2));
    sys_semaphore_up(&mut p, 0, s);
    assert!(is_ready(&p, 1) && is_blocked(&p, 2));
    sys_semaphore_up(&mut p, 1, s);
    assert!(is_ready(&p, 2));
    assert_eq!(p.semaphore_ledger.allocation[2][s], 1);
}

#[test]
fn semaphore_grants_exactly_its_capacity() {
    let mut p = process_with_threads(4);
    let s = sys_semaphore_create(&mut p, 3) as usize;
    for t in 0..3 {
        assert_eq!(sys_semaphore_down(&mut p, t, s), 0);
        assert!(is_ready(&p, t));
        assert_eq!(p.semaphore_ledger.allocation[t][s], 1);
    }
    assert_eq!(p.semaphore_ledger.available[s], 0);
    assert_eq!(sys_semaphore_down(&mut p, 3, s), 0);
    assert!(is_blocked(&p, 3));
    assert_eq!(p.semaphore_list[s].as_ref().unwrap().inner.count, -1);
    assert_eq!(sys_semaphore_up(&mut p, 0, s), 0);
    assert!(is_ready(&p, 3));
    assert_eq!(p.semaphore_ledger.allocation[3][s], 1);
    assert_eq!(p.semaphore_ledger.allocation[0][s], 0);
    assert_eq!(p.semaphore_ledger.available[s], 0);
    assert_eq!(p.semaphore_list[s].as_ref().unwrap().inner.count, 0);
}

#[test]
fn semaphore_up_without_a_unit_adds_one() {
    let mut p = process_with_threads(2);
    let s = sys_semaphore_create(&mut p, 0) as usize;
    assert_eq!(sys_semaphore_down(&mut p, 1, s), 0);
    assert!(is_blocked(&p, 1));
    assert_eq!(sys_semaphore_up(&mut p, 0, s), 0);
    assert!(is_ready(&p, 1));
    assert_eq!(p.semaphore_ledger.capacity[s], 1);
    assert_eq!(p.semaphore_ledger.allocation[1][s], 1);
    assert_eq!(p.semaphore_ledger.available[s], 0);
}

#[test]
fn circular_wait_is_refused() {
    let mut p = process_with_threads(2);
    assert_eq!(sys_enable_deadlock_detect(&mut p, 1), 0);
    let m1 = sys_mutex_create(&mut p, true) as usize;
    let m2 = sys_mutex_create(&mut p, true) as usize;
    assert_eq!(sys_mutex_lock(&mut p, 0, m1), 0);
    assert_eq!(sys_mutex_lock(&mut p, 1, m2), 0);
    assert_eq!(sys_mutex_lock(&mut p, 0, m2), 0);
    assert!(is_blocked(&p, 0));
    assert_eq!(sys_mutex_lock(&mut p, 1, m1), DEADLOCK_REFUSED);
    assert_eq!(DEADLOCK_REFUSED, -0xDEAD);
    assert!(is_ready(&p, 1));
    assert_eq!(p.mutex_ledger.need[1][m1], 0);
    assert_eq!(p.mutex_ledger.allocation[1][m1], 0);
    assert_eq!(p.mutex_ledger.available[m1], 0);
    assert!(!p.deadlock_detect());
}

#[test]
fn ordered_semaphore_requests_are_granted() {
    let mut p = process_with_threads(2);
    sys_enable_deadlock_detect(&mut p, 1);
    let s1 = sys_semaphore_create(&mut p, 2) as usize;
    let s2 = sys_semaphore_create(&mut p, 2) as usize;
    for t in 0..2 {
        assert_eq!(sys_semaphore_down(&mut p, t, s1), 0);
        assert_eq!(sys_semaphore_down(&mut p, t, s2), 0);
        assert!(is_ready(&p, t));
    }
    assert_eq!(p.semaphore_ledger.available, vec![0, 0]);
    assert_eq!(p.semaphore_ledger.allocation, vec![vec![1, 1], vec![1, 1]]);
}

#[test]
fn circular_wait_without_detection_gets_stuck() {
    let mut p = process_with_threads(2);
    let m1 = sys_mutex_create(&mut p, true) as usize;
    let m2 = sys_mutex_create(&mut p, true) as usize;
    sys_mutex_lock(&mut p, 0, m1);
    sys_mutex_lock(&mut p, 1, m2);
    assert_eq!(sys_mutex_lock(&mut p, 0, m2), 0);
    assert_eq!(sys_mutex_lock(&mut p, 1, m1), 0);
    assert!(is_blocked(&p, 0) && is_blocked(&p, 1));
    assert!(p.deadlock_detect());
    assert_eq!(sys_mutex_lock(&mut p, 0, m1), NO_THREAD);
}

#[test]
fn mixed_classes_deadlock_is_refused() {
    let mut p = process_with_threads(2);
    sys_enable_deadlock_detect(&mut p, 1);
    let m = sys_mutex_create(&mut p, true) as usize;
    let s = sys_semaphore_create(&mut p, 1) as usize;
    assert_eq!(sys_mutex_lock(&mut p, 0, m), 0);
    assert_eq!(sys_semaphore_down(&mut p, 1, s), 0);
    assert_eq!(sys_semaphore_down(&mut p, 0, s), 0);
    assert!(is_blocked(&p, 0));
    assert_eq!(sys_mutex_lock(&mut p, 1, m), DEADLOCK_REFUSED);
    assert_eq!(p.mutex_ledger.need[1][m], 0);
}

#[test]
fn condvar_wait_releases_and_reacquires_once() {
    let mut p = process_with_threads(2);
    let m = sys_mutex_create(&mut p, true) as usize;
    let c = sys_condvar_create(&mut p, 0) as usize;
    sys_mutex_lock(&mut p, 0, m);
    assert_eq!(sys_condvar_wait(&mut p, 0, c, m), 0);
    assert!(is_blocked(&p, 0));
    assert_eq!(p.mutex_ledger.allocation[0][m], 0);
    assert!(!p.mutex_list[m].as_ref().unwrap().locked());
    assert_eq!(sys_condvar_signal(&mut p, c), 0);
    assert!(matches!(p.get_task(0), TaskStatus::Relocking(id) if id == m));
    assert!(!p.mutex_list[m].as_ref().unwrap().locked());
    assert_eq!(p.mutex_ledger.allocation[0][m], 0);
    assert_eq!(p.mutex_ledger.available[m], 1);
    assert_eq!(sys_condvar_signal(&mut p, c), 0);
    assert!(resume_relock(&mut p, 0));
    assert!(is_ready(&p, 0));
    assert_eq!(p.mutex_ledger.allocation[0][m], 1);
    assert_eq!(p.mutex_ledger.available[m], 0);
}

#[test]
fn condvar_signal_leaves_the_mutex_alone() {
    let mut p = process_with_threads(3);
    let m = sys_mutex_create(&mut p, true) as usize;
    let c = sys_condvar_create(&mut p, 0) as usize;
    sys_mutex_lock(&mut p, 0, m);
    sys_condvar_wait(&mut p, 0, c, m);
    sys_mutex_lock(&mut p, 1, m);
    sys_mutex_lock(&mut p, 2, m);
    let before = p.mutex_ledger.allocation.clone();
    assert_eq!(sys_condvar_signal(&mut p, c), 0);
    assert_eq!(p.mutex_ledger.allocation, before);
    assert!(p.mutex_list[m].as_ref().unwrap().locked());
    assert!(is_blocked(&p, 2));
    assert!(p.condvar_list[c].as_ref().unwrap().wait_queue.is_empty());
}

#[test]
fn condvar_waiter_queues_for_a_held_mutex() {
    let mut p = process_with_threads(2);
    let m = sys_mutex_create(&mut p, true) as usize;
    let c = sys_condvar_create(&mut p, 0) as usize;
    sys_mutex_lock(&mut p, 0, m);
    sys_condvar_wait(&mut p, 0, c, m);
    assert_eq!(sys_mutex_lock(&mut p, 1, m), 0);
    assert_eq!(sys_condvar_signal(&mut p, c), 0);
    assert!(!resume_relock(&mut p, 0));
    assert!(is_blocked(&p, 0));
    assert_eq!(p.mutex_ledger.allocation[0][m], 0);
    sys_mutex_unlock(&mut p, 1, m);
    assert!(is_ready(&p, 0));
    assert_eq!(p.mutex_ledger.allocation[0][m], 1);
}

#[test]
fn spin_lock_waiter_polls() {
    let mut p = process_with_threads(2);
    let m = sys_mutex_create(&mut p, false) as usize;
    sys_mutex_lock(&mut p, 0, m);
    assert_eq!(sys_mutex_lock(&mut p, 1, m), 0);
    assert!(matches!(p.get_task(1), TaskStatus::Spinning(id) if id == m));
    assert!(!poll_spin(&mut p, 1));
    sys_mutex_unlock(&mut p, 0, m);
    assert!(poll_spin(&mut p, 1));
    assert!(is_ready(&p, 1));
    assert_eq!(p.mutex_ledger.allocation[1][m], 1);
    assert_eq!(p.mutex_ledger.need[1][m], 0);
}

#[test]
fn enable_deadlock_detect_takes_zero_or_one() {
    let mut p = process_with_threads(1);
    assert_eq!(sys_enable_deadlock_detect(&mut p, 1), 0);
    assert!(p.enable_deadlock);
    assert_eq!(sys_enable_deadlock_detect(&mut p, 2), -1);
    assert!(p.enable_deadlock);
    assert_eq!(sys_enable_deadlock_detect(&mut p, 0), 0);
    assert!(!p.enable_deadlock);
}

#[test]
fn calls_without_a_running_thread_fail() {
    let mut p = process_with_threads(1);
    let m = sys_mutex_create(&mut p, true) as usize;
    let s = sys_semaphore_create(&mut p, 1) as usize;
    assert_eq!(sys_mutex_lock(&mut p, 5, m), -1);
    assert_eq!(sys_semaphore_down(&mut p, 5, s), -1);
    assert_eq!(p.mutex_ledger.need[0][m], 0);
}

#[test]
fn sleeping_thread_wakes_at_deadline() {
    let mut p = process_with_threads(2);
    assert_eq!(sys_sleep(&mut p, 1, 100, 50), 0);
    assert!(matches!(p.get_task(1), TaskStatus::Sleeping(150)));
    wake_sleepers(&mut p, 149);
    assert!(matches!(p.get_task(1), TaskStatus::Sleeping(150)));
    wake_sleepers(&mut p, 150);
    assert!(is_ready(&p, 1));
    sys_sleep(&mut p, 1, usize::MAX - 1, 10);
    assert!(matches!(p.get_task(1), TaskStatus::Sleeping(usize::MAX)));
}

#[test]
fn alloc_fd_takes_first_free_slot() {
    let mut p = process_with_threads(1);
    assert_eq!(p.fd_table, vec![true, true, true]);
    assert_eq!(p.alloc_fd(), 3);
    assert_eq!(p.fd_table.len(), 4);
    p.fd_table[3] = true;
    p.fd_table[1] = false;
    assert_eq!(p.alloc_fd(), 1);
    assert_eq!(p.fd_table.len(), 4);
}

#[test]
fn banker_textbook_state_is_safe() {
    let avail = vec![3, 3, 2];
    let alloc = vec![vec![0, 1, 0], vec![2, 0, 0], vec![3, 0, 2], vec![2, 1, 1], vec![0, 0, 2]];
    let need = vec![vec![7, 4, 3], vec![1, 2, 2], vec![6, 0, 0], vec![0, 1, 1], vec![4, 3, 1]];
    assert!(banker_is_safe(&avail, &alloc, &need));
}

#[test]
fn banker_unsafe_state() {
    let avail = vec![0, 0];
    let alloc = vec![vec![1, 0], vec![0, 1]];
    let need = vec![vec![0, 1], vec![1, 0]];
    assert!(!banker_is_safe(&avail, &alloc, &need));
    let need_ok = vec![vec![0, 0], vec![1, 0]];
    assert!(banker_is_safe(&avail, &alloc, &need_ok));
    assert!(banker_is_safe(&vec![], &vec![], &vec![]));
}

#[test]
fn semaphore_primitive_counts() {
    let mut s = Semaphore::new(1);
    assert!(s.down(4));
    assert!(!s.down(5));
    assert_eq!(s.inner.wait_queue, vec![5]);
    assert_eq!(s.up(), Some(5));
    assert_eq!(s.up(), None);
    assert_eq!(s.inner.count, 1);
}
