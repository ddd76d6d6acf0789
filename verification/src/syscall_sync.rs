//! Synchronization-object syscalls as verified decision functions over the
//! task model. Creating an object picks the first free slot of its list (or
//! grows the list); locking, unlocking and signalling validate the slot and
//! leave the actual blocking, waking and timing to the external scheduler,
//! which performs the returned decision.

use vstd::prelude::*;
use vstd::pervasive::VecAdditionalExecFns;
use crate::task::{TaskState, MutexKind, Semaphore, CondvarHandle};

verus! {

/// The result code a denied lock or down request returns when the deadlock
/// detector refuses the allocation.
pub const DEADLOCK_RC: isize = -0xdead;

/// Decide a sleep request: the timer deadline is now plus the requested
/// milliseconds, and the caller blocks until then; the syscall itself
/// reports success.
pub fn sys_sleep(now_ms: usize, ms: usize) -> (r: (usize, isize))
    requires
        now_ms + ms <= usize::MAX,
    ensures
        r.0 == now_ms + ms,
        r.1 == 0,
{
    (now_ms + ms, 0)
}

/// Create a mutex of the requested kind in the first free slot of the
/// mutex list, growing the list if none is free; returns the slot index.
pub fn sys_mutex_create(task: &mut TaskState, blocking: bool) -> (r: isize)
    requires
        old(task).mutex_list@.len() < 0x1000_0000,
    ensures
        r >= 0,
        final(task).pid == old(task).pid,
        final(task).status == old(task).status,
        final(task).fd_table@ == old(task).fd_table@,
        final(task).children@ == old(task).children@,
        final(task).semaphore_list@ == old(task).semaphore_list@,
        final(task).condvar_list@ == old(task).condvar_list@,
        ({
            let kind = if blocking {
                MutexKind::Blocking
            } else {
                MutexKind::Spin
            };
            ||| {
                &&& 0 <= r < old(task).mutex_list@.len()
                &&& old(task).mutex_list@[r as int] is None
                &&& forall|j: int| 0 <= j < r ==> (#[trigger] old(task).mutex_list@[j]) is Some
                &&& final(task).mutex_list@ == old(task).mutex_list@.update(r as int, Some(kind))
            }
            ||| {
                &&& r == old(task).mutex_list@.len()
                &&& forall|j: int|
                    0 <= j < old(task).mutex_list@.len() ==> (#[trigger] old(
                        task,
                    ).mutex_list@[j]) is Some
                &&& final(task).mutex_list@ == old(task).mutex_list@.push(Some(kind))
            }
        }),
{
    let kind = if blocking {
        MutexKind::Blocking
    } else {
        MutexKind::Spin
    };
    let n = task.mutex_list.len();
    let mut i: usize = 0;
    while i < n
        invariant
            i <= n,
            n < 0x1000_0000usize,
            n == task.mutex_list@.len(),
            *task == *old(task),
            kind == (if blocking {
                MutexKind::Blocking
            } else {
                MutexKind::Spin
            }),
            forall|j: int| 0 <= j < i ==> (#[trigger] task.mutex_list@[j]) is Some,
        decreases n - i,
    {
        let free = match task.mutex_list[i] {
            None => true,
            Some(_) => false,
        };
        if free {
            task.mutex_list.set(i, Some(kind));
            proof {
                assert(i < 0x1000_0000usize);
            }
            return i as isize;
        }
        i = i + 1;
    }
    task.mutex_list.push(Some(kind));
    proof {
        assert(n < 0x1000_0000usize);
    }
    n as isize
}

/// Decide a lock request: the mutex slot must be occupied, and the deadlock
/// detector's verdict (computed externally) decides between proceeding to
/// the blocking lock and refusing with the deadlock code.
pub fn sys_mutex_lock(task: &TaskState, mutex_id: usize, grant: bool) -> (r: isize)
    ensures
        r == if !(mutex_id < task.mutex_list@.len() && task.mutex_list@[mutex_id as int]
            is Some) {
            -1isize
        } else if !grant {
            DEADLOCK_RC
        } else {
            0isize
        },
{
    if mutex_id >= task.mutex_list.len() {
        return -1;
    }
    let occupied = match task.mutex_list[mutex_id] {
        Some(_) => true,
        None => false,
    };
    if !occupied {
        return -1;
    }
    if !grant {
        return DEADLOCK_RC;
    }
    0
}

/// Decide an unlock request: the mutex slot must be occupied; the wake-up
/// itself is the external scheduler's work.
pub fn sys_mutex_unlock(task: &TaskState, mutex_id: usize) -> (r: isize)
    ensures
        r == if mutex_id < task.mutex_list@.len() && task.mutex_list@[mutex_id as int] is Some {
            0isize
        } else {
            -1isize
        },
{
    if mutex_id >= task.mutex_list.len() {
        return -1;
    }
    let occupied = match task.mutex_list[mutex_id] {
        Some(_) => true,
        None => false,
    };
    if occupied {
        0
    } else {
        -1
    }
}

/// Create a semaphore with the given resource count in the first free slot
/// of the semaphore list, growing the list if none is free; returns the
/// slot index.
pub fn sys_semaphore_create(task: &mut TaskState, res_count: usize) -> (r: isize)
    requires
        old(task).semaphore_list@.len() < 0x1000_0000,
        res_count <= i64::MAX,
    ensures
        r >= 0,
        final(task).pid == old(task).pid,
        final(task).status == old(task).status,
        final(task).fd_table@ == old(task).fd_table@,
        final(task).children@ == old(task).children@,
        final(task).mutex_list@ == old(task).mutex_list@,
        final(task).condvar_list@ == old(task).condvar_list@,
        ({
            let sem = Semaphore { count: res_count as i64 };
            ||| {
                &&& 0 <= r < old(task).semaphore_list@.len()
                &&& old(task).semaphore_list@[r as int] is None
                &&& forall|j: int|
                    0 <= j < r ==> (#[trigger] old(task).semaphore_list@[j]) is Some
                &&& final(task).semaphore_list@ == old(task).semaphore_list@.update(
                    r as int,
                    Some(sem),
                )
            }
            ||| {
                &&& r == old(task).semaphore_list@.len()
                &&& forall|j: int|
                    0 <= j < old(task).semaphore_list@.len() ==> (#[trigger] old(
                        task,
                    ).semaphore_list@[j]) is Some
                &&& final(task).semaphore_list@ == old(task).semaphore_list@.push(Some(sem))
            }
        }),
{
    let sem = Semaphore { count: res_count as i64 };
    let n = task.semaphore_list.len();
    let mut i: usize = 0;
    while i < n
        invariant
            i <= n,
            n < 0x1000_0000usize,
            n == task.semaphore_list@.len(),
            *task == *old(task),
            res_count <= i64::MAX,
            sem == (Semaphore { count: res_count as i64 }),
            forall|j: int| 0 <= j < i ==> (#[trigger] task.semaphore_list@[j]) is Some,
        decreases n - i,
    {
        let free = match task.semaphore_list[i] {
            None => true,
            Some(_) => false,
        };
        if free {
            task.semaphore_list.set(i, Some(sem));
            proof {
                assert(i < 0x1000_0000usize);
            }
            return i as isize;
        }
        i = i + 1;
    }
    task.semaphore_list.push(Some(sem));
    proof {
        assert(n < 0x1000_0000usize);
    }
    n as isize
}

/// Decide an up (release) request: the slot must be occupied; the count
/// rises by one and the external scheduler wakes a waiter if any.
pub fn sys_semaphore_up(task: &mut TaskState, sem_id: usize) -> (r: isize)
    requires
        sem_id < old(task).semaphore_list@.len() && old(task).semaphore_list@[sem_id as int]
            is Some ==> old(task).semaphore_list@[sem_id as int]->0.count < i64::MAX,
    ensures
        final(task).pid == old(task).pid,
        final(task).status == old(task).status,
        final(task).fd_table@ == old(task).fd_table@,
        final(task).children@ == old(task).children@,
        final(task).mutex_list@ == old(task).mutex_list@,
        final(task).condvar_list@ == old(task).condvar_list@,
        if sem_id < old(task).semaphore_list@.len() && old(task).semaphore_list@[sem_id as int]
            is Some {
            &&& r == 0
            &&& final(task).semaphore_list@ == old(task).semaphore_list@.update(
                sem_id as int,
                Some(
                    Semaphore {
                        count: (old(task).semaphore_list@[sem_id as int]->0.count + 1) as i64,
                    },
                ),
            )
        } else {
            &&& r == -1
            &&& final(task).semaphore_list@ == old(task).semaphore_list@
        },
{
    if sem_id >= task.semaphore_list.len() {
        return -1;
    }
    let cur = match task.semaphore_list[sem_id] {
        Some(s) => s,
        None => {
            return -1;
        },
    };
    task.semaphore_list.set(sem_id, Some(Semaphore { count: cur.count + 1 }));
    0
}

/// Decide a down (acquire) request: the slot must be occupied and the
/// deadlock detector's verdict (computed externally) may refuse it; else
/// the count falls by one and the caller blocks externally when it went
/// negative.
pub fn sys_semaphore_down(task: &mut TaskState, sem_id: usize, grant: bool) -> (r: isize)
    requires
        sem_id < old(task).semaphore_list@.len() && old(task).semaphore_list@[sem_id as int]
            is Some ==> old(task).semaphore_list@[sem_id as int]->0.count > i64::MIN,
    ensures
        final(task).pid == old(task).pid,
        final(task).status == old(task).status,
        final(task).fd_table@ == old(task).fd_table@,
        final(task).children@ == old(task).children@,
        final(task).mutex_list@ == old(task).mutex_list@,
        final(task).condvar_list@ == old(task).condvar_list@,
        if !(sem_id < old(task).semaphore_list@.len() && old(task).semaphore_list@[sem_id as int]
            is Some) {
            &&& r == -1
            &&& final(task).semaphore_list@ == old(task).semaphore_list@
        } else if !grant {
            &&& r == DEADLOCK_RC
            &&& final(task).semaphore_list@ == old(task).semaphore_list@
        } else {
            &&& r == 0
            &&& final(task).semaphore_list@ == old(task).semaphore_list@.update(
                sem_id as int,
                Some(
                    Semaphore {
                        count: (old(task).semaphore_list@[sem_id as int]->0.count - 1) as i64,
                    },
                ),
            )
        },
{
    if sem_id >= task.semaphore_list.len() {
        return -1;
    }
    let cur = match task.semaphore_list[sem_id] {
        Some(s) => s,
        None => {
            return -1;
        },
    };
    if !grant {
        return DEADLOCK_RC;
    }
    task.semaphore_list.set(sem_id, Some(Semaphore { count: cur.count - 1 }));
    0
}

/// Create a condition variable in the first free slot of the condvar list,
/// growing the list if none is free; returns the slot index.
pub fn sys_condvar_create(task: &mut TaskState) -> (r: isize)
    requires
        old(task).condvar_list@.len() < 0x1000_0000,
    ensures
        r >= 0,
        final(task).pid == old(task).pid,
        final(task).status == old(task).status,
        final(task).fd_table@ == old(task).fd_table@,
        final(task).children@ == old(task).children@,
        final(task).mutex_list@ == old(task).mutex_list@,
        final(task).semaphore_list@ == old(task).semaphore_list@,
        ({
            ||| {
                &&& 0 <= r < old(task).condvar_list@.len()
                &&& old(task).condvar_list@[r as int] is None
                &&& forall|j: int| 0 <= j < r ==> (#[trigger] old(task).condvar_list@[j]) is Some
                &&& final(task).condvar_list@ == old(task).condvar_list@.update(
                    r as int,
                    Some(CondvarHandle {  }),
                )
            }
            ||| {
                &&& r == old(task).condvar_list@.len()
                &&& forall|j: int|
                    0 <= j < old(task).condvar_list@.len() ==> (#[trigger] old(
                        task,
                    ).condvar_list@[j]) is Some
                &&& final(task).condvar_list@ == old(task).condvar_list@.push(
                    Some(CondvarHandle {  }),
                )
            }
        }),
{
    let n = task.condvar_list.len();
    let mut i: usize = 0;
    while i < n
        invariant
            i <= n,
            n < 0x1000_0000usize,
            n == task.condvar_list@.len(),
            *task == *old(task),
            forall|j: int| 0 <= j < i ==> (#[trigger] task.condvar_list@[j]) is Some,
        decreases n - i,
    {
        let free = match task.condvar_list[i] {
            None => true,
            Some(_) => false,
        };
        if free {
            task.condvar_list.set(i, Some(CondvarHandle {  }));
            proof {
                assert(i < 0x1000_0000usize);
            }
            return i as isize;
        }
        i = i + 1;
    }
    task.condvar_list.push(Some(CondvarHandle {  }));
    proof {
        assert(n < 0x1000_0000usize);
    }
    n as isize
}

/// Decide a signal request: the condvar slot must be occupied; the wake-up
/// itself is external.
pub fn sys_condvar_signal(task: &TaskState, condvar_id: usize) -> (r: isize)
    ensures
        r == if condvar_id < task.condvar_list@.len() && task.condvar_list@[condvar_id as int]
            is Some {
            0isize
        } else {
            -1isize
        },
{
    if condvar_id >= task.condvar_list.len() {
        return -1;
    }
    let occupied = match task.condvar_list[condvar_id] {
        Some(_) => true,
        None => false,
    };
    if occupied {
        0
    } else {
        -1
    }
}

/// Decide a wait request: both the condvar and the mutex slot must be
/// occupied; releasing the mutex, blocking and re-acquiring are external.
pub fn sys_condvar_wait(task: &TaskState, condvar_id: usize, mutex_id: usize) -> (r: isize)
    ensures
        r == if condvar_id < task.condvar_list@.len() && task.condvar_list@[condvar_id as int]
            is Some && mutex_id < task.mutex_list@.len() && task.mutex_list@[mutex_id as int]
            is Some {
            0isize
        } else {
            -1isize
        },
{
    if condvar_id >= task.condvar_list.len() {
        return -1;
    }
    let cv_ok = match task.condvar_list[condvar_id] {
        Some(_) => true,
        None => false,
    };
    if !cv_ok {
        return -1;
    }
    if mutex_id >= task.mutex_list.len() {
        return -1;
    }
    let mx_ok = match task.mutex_list[mutex_id] {
        Some(_) => true,
        None => false,
    };
    if mx_ok {
        0
    } else {
        -1
    }
}

/// Deadlock detection is not offered: the request is always refused, as the
/// syscall reports.
pub fn sys_enable_deadlock_detect(enabled: usize) -> (r: isize)
    ensures
        r == -1,
{
    let _ = enabled;
    -1
}

} // verus!
