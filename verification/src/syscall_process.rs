//! Process-management syscalls as verified decision functions: exit, yield,
//! pid, fork bookkeeping, waitpid, the time and task-info marshalling into
//! user memory, and the mmap/munmap entry points. Scheduling itself and the
//! program loader are external; the contracts say exactly what each call
//! decides and which user bytes it stores.

use vstd::prelude::*;
use crate::address::VA_LIMIT;
use crate::frame_allocator::byte_of_word;
use crate::memory_set::Kernel;
use crate::page_table::{cover_lo, cover_hi, is_mapped, leaf_pte, pte_flags_of, prot_perm_bits,
PTE_V};
use crate::syscall_fs::copy_to_current_user;
use crate::task::{TaskState, TaskStatus, ChildProc, MAX_SYSCALL_NUM};

verus! {

/// Wall-clock time split into seconds and microseconds.
#[derive(Clone, Copy, PartialEq, Eq, Structural, Debug)]
pub struct TimeVal {
    pub sec: usize,
    pub usec: usize,
}

/// Task information reported to user space.
pub struct TaskInfo {
    /// Task status in its life cycle.
    pub status: TaskStatus,
    /// How often each syscall was called by the task.
    pub syscall_times: [u32; MAX_SYSCALL_NUM],
    /// Total running time of the task in milliseconds.
    pub time: usize,
}

/// The single byte a task status is encoded as on the wire to user space.
pub open spec fn status_code(s: TaskStatus) -> u8 {
    match s {
        TaskStatus::Ready => 0u8,
        TaskStatus::Running => 1u8,
        TaskStatus::Blocked => 2u8,
        TaskStatus::Zombie => 3u8,
    }
}

/// Append the eight little-endian bytes of `x`.
pub fn push_u64_le(out: &mut Vec<u8>, x: u64)
    ensures
        final(out)@.len() == old(out)@.len() + 8,
        forall|j: int| 0 <= j < old(out)@.len() ==> #[trigger] final(out)@[j] == old(out)@[j],
        forall|j: int|
            old(out)@.len() <= j < old(out)@.len() + 8 ==> #[trigger] final(out)@[j]
                == byte_of_word(x, (j - old(out)@.len()) as u64),
{
    let ghost n0 = out@.len();
    let mut j: u64 = 0;
    while j < 8
        invariant
            j <= 8,
            out@.len() == n0 + j,
            forall|i: int| 0 <= i < n0 ==> #[trigger] out@[i] == old(out)@[i],
            forall|i: int|
                n0 <= i < n0 + j ==> #[trigger] out@[i] == byte_of_word(x, (i - n0) as u64),
        decreases 8 - j,
    {
        out.push(((x >> (j * 8)) & 0xff) as u8);
        j = j + 1;
    }
}

/// Append the four little-endian bytes of `x`.
pub fn push_u32_le(out: &mut Vec<u8>, x: u32)
    ensures
        final(out)@.len() == old(out)@.len() + 4,
        forall|j: int| 0 <= j < old(out)@.len() ==> #[trigger] final(out)@[j] == old(out)@[j],
        forall|j: int|
            old(out)@.len() <= j < old(out)@.len() + 4 ==> #[trigger] final(out)@[j]
                == byte_of_word(x as u64, (j - old(out)@.len()) as u64),
{
    let ghost n0 = out@.len();
    let mut j: u64 = 0;
    while j < 4
        invariant
            j <= 4,
            out@.len() == n0 + j,
            forall|i: int| 0 <= i < n0 ==> #[trigger] out@[i] == old(out)@[i],
            forall|i: int|
                n0 <= i < n0 + j ==> #[trigger] out@[i] == byte_of_word(x as u64, (i - n0) as u64),
        decreases 4 - j,
    {
        proof {
            assert(((x as u64) >> (j * 8)) & 0xff == ((x >> ((j * 8) as u32)) as u64) & 0xff)
                by (bit_vector)
                requires
                    j < 4,
            ;
        }
        out.push(((x >> ((j * 8) as u32)) & 0xff) as u8);
        j = j + 1;
    }
}

/// Mark the current task exited with the given code; the scheduler then
/// runs another task and this call never returns to user mode.
pub fn sys_exit(task: &mut TaskState, exit_code: i32)
    ensures
        final(task).status == TaskStatus::Zombie,
        final(task).exit_code == exit_code,
        final(task).pid == old(task).pid,
        final(task).fd_table@ == old(task).fd_table@,
        final(task).children@ == old(task).children@,
        final(task).mutex_list@ == old(task).mutex_list@,
        final(task).semaphore_list@ == old(task).semaphore_list@,
        final(task).condvar_list@ == old(task).condvar_list@,
{
    task.status = TaskStatus::Zombie;
    task.exit_code = exit_code;
}

/// The current task gives up the processor: it goes back to ready and the
/// call reports success.
pub fn sys_yield(task: &mut TaskState) -> (r: isize)
    ensures
        r == 0,
        final(task).status == TaskStatus::Ready,
        final(task).pid == old(task).pid,
        final(task).exit_code == old(task).exit_code,
        final(task).fd_table@ == old(task).fd_table@,
        final(task).children@ == old(task).children@,
        final(task).mutex_list@ == old(task).mutex_list@,
        final(task).semaphore_list@ == old(task).semaphore_list@,
        final(task).condvar_list@ == old(task).condvar_list@,
{
    task.status = TaskStatus::Ready;
    0
}

/// Report the current task's process id.
pub fn sys_getpid(task: &TaskState) -> (r: isize)
    requires
        task.pid <= isize::MAX,
    ensures
        r == task.pid,
{
    task.pid as isize
}

/// Record a fork: the externally created child (with its externally chosen
/// pid) joins the children list, and the parent is handed the child's pid.
pub fn sys_fork(task: &mut TaskState, new_pid: usize) -> (r: isize)
    requires
        new_pid <= isize::MAX,
    ensures
        r == new_pid,
        final(task).children@ == old(task).children@.push(
            ChildProc { pid: new_pid, is_zombie: false, exit_code: 0 },
        ),
        final(task).pid == old(task).pid,
        final(task).status == old(task).status,
        final(task).fd_table@ == old(task).fd_table@,
        final(task).mutex_list@ == old(task).mutex_list@,
        final(task).semaphore_list@ == old(task).semaphore_list@,
        final(task).condvar_list@ == old(task).condvar_list@,
{
    task.children.push(ChildProc { pid: new_pid, is_zombie: false, exit_code: 0 });
    new_pid as isize
}

/// Whether a child is selected by a waitpid argument: -1 selects any child,
/// a non-negative value selects the child with that pid.
pub open spec fn child_matches(c: ChildProc, pid: isize) -> bool {
    pid == -1 || (pid >= 0 && c.pid == pid as usize)
}

/// Decide a waitpid request. If no child is selected the result is -1; if
/// one is selected but none of the selected ones has exited yet, -2. Else
/// the first selected zombie child is reaped: it leaves the children list,
/// its exit code is stored through the page table at `exit_code_ptr` (four
/// little-endian bytes), and its pid is returned — unless that store hits
/// an unmapped page, in which case the child is still reaped but the call
/// reports -1 with no byte written.
pub fn sys_waitpid(k: &mut Kernel, task: &mut TaskState, pid: isize, exit_code_ptr: usize) -> (r:
    isize)
    requires
        old(k).wf(),
        forall|i: int|
            0 <= i < old(task).children@.len() ==> (#[trigger] old(task).children@[i]).pid
                <= isize::MAX,
    ensures
        final(k).wf(),
        final(k).active_token == old(k).active_token,
        final(task).pid == old(task).pid,
        final(task).status == old(task).status,
        final(task).exit_code == old(task).exit_code,
        final(task).fd_table@ == old(task).fd_table@,
        final(task).mutex_list@ == old(task).mutex_list@,
        final(task).semaphore_list@ == old(task).semaphore_list@,
        final(task).condvar_list@ == old(task).condvar_list@,
        (forall|i: int|
            0 <= i < old(task).children@.len() ==> !child_matches(
                #[trigger] old(task).children@[i],
                pid,
            )) ==> r == -1 && final(task).children@ == old(task).children@ && *final(k) == *old(
            k,
        ),
        ((exists|i: int|
            0 <= i < old(task).children@.len() && child_matches(
                #[trigger] old(task).children@[i],
                pid,
            )) && (forall|i: int|
            0 <= i < old(task).children@.len() ==> !(child_matches(
                #[trigger] old(task).children@[i],
                pid,
            ) && old(task).children@[i].is_zombie))) ==> r == -2 && final(task).children@ == old(
            task,
        ).children@ && *final(k) == *old(k),
        forall|i: int|
            (0 <= i < old(task).children@.len() && child_matches(
                #[trigger] old(task).children@[i],
                pid,
            ) && old(task).children@[i].is_zombie && (forall|j: int|
                0 <= j < i ==> !(child_matches(#[trigger] old(task).children@[j], pid) && old(
                    task,
                ).children@[j].is_zombie))) ==> {
                &&& final(task).children@ == old(task).children@.remove(i)
                &&& ((exit_code_ptr + 4 <= VA_LIMIT && (forall|va: u64|
                    (exit_code_ptr as u64) <= va < (exit_code_ptr as u64) + 4 ==> (
                    #[trigger] old(k).user_byte(va)) is Some)) ==> r == old(
                    task,
                ).children@[i].pid && (forall|j: u64|
                    j < 4 ==> #[trigger] final(k).user_byte(((exit_code_ptr + j) as u64)) == Some(
                        byte_of_word((old(task).children@[i].exit_code as u32) as u64, j),
                    )))
                &&& (!(exit_code_ptr + 4 <= VA_LIMIT && (forall|va: u64|
                    (exit_code_ptr as u64) <= va < (exit_code_ptr as u64) + 4 ==> (
                    #[trigger] old(k).user_byte(va)) is Some)) ==> r == -1 && *final(k) == *old(
                    k,
                ))
            },
{
    let n = task.children.len();
    let mut any_match: bool = false;
    let mut found_idx: usize = 0;
    let mut found: bool = false;
    let mut i: usize = 0;
    while i < n
        invariant
            i <= n,
            n == task.children@.len(),
            *task == *old(task),
            any_match == exists|j: int|
                0 <= j < i && child_matches(#[trigger] task.children@[j], pid),
            found ==> found_idx < i && child_matches(task.children@[found_idx as int], pid)
                && task.children@[found_idx as int].is_zombie && (forall|j: int|
                0 <= j < found_idx ==> !(child_matches(#[trigger] task.children@[j], pid)
                    && task.children@[j].is_zombie)),
            !found ==> forall|j: int|
                0 <= j < i ==> !(child_matches(#[trigger] task.children@[j], pid)
                    && task.children@[j].is_zombie),
        decreases n - i,
    {
        let c = task.children[i];
        let m: bool = if pid == -1 {
            true
        } else if pid >= 0 {
            c.pid == pid as usize
        } else {
            false
        };
        proof {
            assert(m == child_matches(c, pid));
        }
        if m {
            if !any_match {
                any_match = true;
            }
            proof {
                assert(child_matches(task.children@[i as int], pid));
            }
            if !found && c.is_zombie {
                found = true;
                found_idx = i;
            }
        }
        i = i + 1;
    }
    if !found {
        if any_match {
            return -2;
        }
        return -1;
    }
    let c = task.children[found_idx];
    task.children.remove(found_idx);
    let xu: u32 = c.exit_code as u32;
    let mut data: Vec<u8> = Vec::new();
    push_u32_le(&mut data, xu);
    let rr = copy_to_current_user(k, exit_code_ptr, &data);
    if rr < 0 {
        return -1;
    }
    c.pid as isize
}

/// Store the current time, split into seconds and microseconds, at the
/// user address `ts` as two 64-bit little-endian fields. The microsecond
/// count `us` itself comes from the external clock; this call decides the
/// split and performs the cross-space store, failing with no side effect
/// if any touched page is unmapped.
pub fn sys_get_time(k: &mut Kernel, ts: usize, us: usize) -> (r: isize)
    requires
        old(k).wf(),
    ensures
        final(k).wf(),
        final(k).active_token == old(k).active_token,
        r == 0 || r == -1,
        (r == 0) <==> (ts + 16 <= VA_LIMIT && (forall|va: u64|
            (ts as u64) <= va < (ts as u64) + 16 ==> (#[trigger] old(k).user_byte(va)) is Some)),
        r == -1 ==> *final(k) == *old(k),
        r == 0 ==> {
            &&& forall|j: u64|
                j < 8 ==> #[trigger] final(k).user_byte(((ts + j) as u64)) == Some(
                    byte_of_word((us / 1000000) as u64, j),
                )
            &&& forall|j: u64|
                j < 8 ==> #[trigger] final(k).user_byte(((ts + 8 + j) as u64)) == Some(
                    byte_of_word((us % 1000000) as u64, j),
                )
            &&& forall|va: u64|
                va < VA_LIMIT && !((ts as u64) <= va < (ts as u64) + 16)
                    ==> #[trigger] final(k).user_byte(va) == old(k).user_byte(va)
        },
{
    let time = TimeVal { sec: us / 1000000, usec: us % 1000000 };
    let mut data: Vec<u8> = Vec::new();
    push_u64_le(&mut data, time.sec as u64);
    push_u64_le(&mut data, time.usec as u64);
    let r = copy_to_current_user(k, ts, &data);
    if r < 0 {
        -1
    } else {
        proof {
            assert forall|j: u64| j < 8 implies #[trigger] k.user_byte(((ts + j) as u64)) == Some(
                byte_of_word((us / 1000000) as u64, j),
            ) by {
                assert(data@[j as int] == byte_of_word((us / 1000000) as u64, j));
                assert(k.user_byte((ts + j as int) as u64) == Some(data@[j as int]));
            }
            assert forall|j: u64| j < 8 implies #[trigger] k.user_byte(((ts + 8 + j) as u64))
                == Some(byte_of_word((us % 1000000) as u64, j)) by {
                assert(data@[8 + j as int] == byte_of_word((us % 1000000) as u64, j));
                assert(k.user_byte((ts + (8 + j as int)) as u64) == Some(data@[8 + j as int]));
            }
        }
        0
    }
}

/// Store a task-information record at the user address `ti`: one status
/// byte, then the 500 syscall counters as 32-bit little-endian fields, then
/// the running time as a 64-bit little-endian field — 2009 bytes in all.
/// Fails with no side effect if any touched page is unmapped.
pub fn sys_task_info(k: &mut Kernel, ti: usize, info: &TaskInfo) -> (r: isize)
    requires
        old(k).wf(),
    ensures
        final(k).wf(),
        final(k).active_token == old(k).active_token,
        r == 0 || r == -1,
        (r == 0) <==> (ti + 2009 <= VA_LIMIT && (forall|va: u64|
            (ti as u64) <= va < (ti as u64) + 2009 ==> (#[trigger] old(k).user_byte(
                va,
            )) is Some)),
        r == -1 ==> *final(k) == *old(k),
        r == 0 ==> {
            &&& final(k).user_byte(ti as u64) == Some(status_code(info.status))
            &&& forall|i: int, j: u64|
                0 <= i < 500 && j < 4 ==> #[trigger] final(k).user_byte(
                    ((ti + 1 + 4 * i + j) as u64),
                ) == Some(byte_of_word(info.syscall_times@[i] as u64, j))
            &&& forall|j: u64|
                j < 8 ==> #[trigger] final(k).user_byte(((ti + 2001 + j) as u64)) == Some(
                    byte_of_word(info.time as u64, j),
                )
        },
{
    let mut data: Vec<u8> = Vec::new();
    let code: u8 = match info.status {
        TaskStatus::Ready => 0,
        TaskStatus::Running => 1,
        TaskStatus::Blocked => 2,
        TaskStatus::Zombie => 3,
    };
    data.push(code);
    let mut i: usize = 0;
    while i < 500
        invariant
            i <= 500,
            data@.len() == 1 + 4 * i,
            data@[0] == status_code(info.status),
            forall|i2: int, j: u64|
                0 <= i2 < i && j < 4 ==> #[trigger] data@[1 + 4 * i2 + j] == byte_of_word(
                    info.syscall_times@[i2] as u64,
                    j,
                ),
        decreases 500 - i,
    {
        let x = info.syscall_times[i];
        push_u32_le(&mut data, x);
        i = i + 1;
    }
    push_u64_le(&mut data, info.time as u64);
    let r = copy_to_current_user(k, ti, &data);
    if r < 0 {
        -1
    } else {
        proof {
            assert(k.user_byte(((ti + 0) as u64)) == Some(data@[0]));
            assert(k.user_byte(ti as u64) == Some(data@[0]));
            assert forall|i2: int, j: u64|
                0 <= i2 < 500 && j < 4 implies #[trigger] k.user_byte(((ti + 1 + 4 * i2 + j) as u64)) == Some(byte_of_word(info.syscall_times@[i2] as u64, j)) by {
                assert(data@[1 + 4 * i2 + j] == byte_of_word(info.syscall_times@[i2] as u64, j));
                assert(k.user_byte((ti + (1 + 4 * i2 + j)) as u64) == Some(
                    data@[1 + 4 * i2 + j],
                ));
            }
            assert forall|j: u64| j < 8 implies #[trigger] k.user_byte(((ti + 2001 + j) as u64))
                == Some(byte_of_word(info.time as u64, j)) by {
                assert(data@[2001 + j as int] == byte_of_word(info.time as u64, j));
                assert(k.user_byte((ti + (2001 + j as int)) as u64) == Some(
                    data@[2001 + j as int],
                ));
            }
        }
        0
    }
}

/// The mmap syscall: validate and apply the request against the current
/// task's address space; 0 on success, a negative value on failure, with
/// no side effect on failure.
pub fn sys_mmap(k: &mut Kernel, start: usize, len: usize, prot: usize) -> (r: isize)
    requires
        old(k).wf(),
        (0 < prot < 8 && (start as int) % 4096 == 0) ==> (1 <= len && start + len <= VA_LIMIT),
        (0 < prot < 8 && (start as int) % 4096 == 0 && (forall|u: u64|
            cover_lo(start) <= u <= cover_hi(start, len) ==> !is_mapped(
                old(k).arena,
                old(k).root(),
                u,
            ))) ==> old(k).arena.free_count() >= 3 * (cover_hi(start, len) - cover_lo(start) + 1),
    ensures
        r == 0 || r == -1,
        (r == 0) <==> (0 < prot < 8 && (start as int) % 4096 == 0 && (forall|u: u64|
            cover_lo(start) <= u <= cover_hi(start, len) ==> !is_mapped(
                old(k).arena,
                old(k).root(),
                u,
            ))),
        r == -1 ==> *final(k) == *old(k),
        r == 0 ==> {
            &&& final(k).wf()
            &&& final(k).active_token == old(k).active_token
            &&& forall|u: u64|
                cover_lo(start) <= u <= cover_hi(start, len) ==> #[trigger] is_mapped(
                    final(k).arena,
                    old(k).root(),
                    u,
                ) && pte_flags_of(leaf_pte(final(k).arena, old(k).root(), u)) == (prot_perm_bits(
                    prot,
                ) | PTE_V)
            &&& forall|va: u64|
                (start as u64) <= va < (start as u64) + (len as u64)
                    ==> #[trigger] final(k).user_byte(va) == Some(0u8)
        },
{
    crate::mmap_many(k, start, len, prot)
}

/// The munmap syscall: unmap the covered pages of the current task's
/// address space in ascending order; 0 on success, a negative value on
/// failure (with the documented partial effect on the pages before the
/// failing one).
pub fn sys_munmap(k: &mut Kernel, start: usize, len: usize) -> (r: isize)
    requires
        old(k).wf(),
        1 <= len,
        start + len <= VA_LIMIT,
    ensures
        r == 0 || r == -1,
        final(k).wf(),
        final(k).active_token == old(k).active_token,
        (r == 0) <==> (forall|u: u64|
            cover_lo(start) <= u <= cover_hi(start, len) ==> #[trigger] is_mapped(
                old(k).arena,
                old(k).root(),
                u,
            )),
        r == 0 ==> forall|u: u64|
            cover_lo(start) <= u <= cover_hi(start, len) ==> !(#[trigger] is_mapped(
                final(k).arena,
                old(k).root(),
                u,
            )),
{
    crate::munmap_many(k, start, len)
}

/// Decide an exec request: resolving the path and loading the image are
/// the external loader's work; the syscall reports success exactly when
/// the image was found.
pub fn sys_exec(found: bool) -> (r: isize)
    ensures
        r == if found {
            0isize
        } else {
            -1isize
        },
{
    if found {
        0
    } else {
        -1
    }
}

/// Decide an sbrk request: growing or shrinking the data segment is the
/// address-space owner's work; given its verdict, the syscall reports the
/// previous break or failure.
pub fn sys_sbrk(old_brk: Option<usize>) -> (r: isize)
    requires
        old_brk is Some ==> old_brk->0 <= isize::MAX,
    ensures
        r == match old_brk {
            Some(b) => b as isize,
            None => -1isize,
        },
{
    match old_brk {
        Some(b) => b as isize,
        None => -1,
    }
}

/// Record a spawn: if the external loader resolved the path, the newly
/// created child (with its externally chosen pid) joins the children list
/// and its pid is returned; otherwise the call fails and nothing changes.
pub fn sys_spawn(task: &mut TaskState, found: bool, new_pid: usize) -> (r: isize)
    requires
        new_pid <= isize::MAX,
    ensures
        final(task).pid == old(task).pid,
        final(task).status == old(task).status,
        final(task).fd_table@ == old(task).fd_table@,
        final(task).mutex_list@ == old(task).mutex_list@,
        final(task).semaphore_list@ == old(task).semaphore_list@,
        final(task).condvar_list@ == old(task).condvar_list@,
        !found ==> r == -1 && final(task).children@ == old(task).children@,
        found ==> r == new_pid && final(task).children@ == old(task).children@.push(
            ChildProc { pid: new_pid, is_zombie: false, exit_code: 0 },
        ),
{
    if !found {
        return -1;
    }
    task.children.push(ChildProc { pid: new_pid, is_zombie: false, exit_code: 0 });
    new_pid as isize
}

/// Set the current task's scheduling priority; values below 2 are refused.
pub fn sys_set_priority(task: &mut TaskState, prio: isize) -> (r: isize)
    ensures
        final(task).pid == old(task).pid,
        final(task).status == old(task).status,
        final(task).fd_table@ == old(task).fd_table@,
        final(task).children@ == old(task).children@,
        if prio <= 1 {
            r == -1 && final(task).priority == old(task).priority
        } else {
            r == prio && final(task).priority == prio
        },
{
    if prio <= 1 {
        return -1;
    }
    task.priority = prio;
    prio
}

} // verus!
