//! The model of the current task that the syscall decision layer works on:
//! its identity, status, exit code, file-descriptor table, children, and
//! per-process synchronization-object lists. Scheduling, blocking and the
//! file store themselves are external collaborators; this state is what the
//! syscalls decide over.

use vstd::prelude::*;

verus! {

/// Upper bound of the syscall-counter table a task carries.
pub const MAX_SYSCALL_NUM: usize = 500;

/// Where a task stands in its life cycle.
#[derive(Clone, Copy, PartialEq, Eq, Structural, Debug)]
pub enum TaskStatus {
    Ready,
    Running,
    Blocked,
    Zombie,
}

/// An open file as the syscall layer sees it: its access mode.
#[derive(Clone, Copy, PartialEq, Eq, Structural, Debug)]
pub struct FileHandle {
    pub readable: bool,
    pub writable: bool,
}

/// A child process as the parent sees it.
#[derive(Clone, Copy, PartialEq, Eq, Structural, Debug)]
pub struct ChildProc {
    pub pid: usize,
    pub is_zombie: bool,
    pub exit_code: i32,
}

/// Which kind of mutex a slot holds.
#[derive(Clone, Copy, PartialEq, Eq, Structural, Debug)]
pub enum MutexKind {
    Spin,
    Blocking,
}

/// A counting semaphore's bookkeeping value.
#[derive(Clone, Copy, PartialEq, Eq, Structural, Debug)]
pub struct Semaphore {
    pub count: i64,
}

/// A condition variable slot; the wait queue itself is external.
#[derive(Clone, Copy, PartialEq, Eq, Structural, Debug)]
pub struct CondvarHandle {}

/// The syscall-visible state of the current task.
pub struct TaskState {
    pub pid: usize,
    pub status: TaskStatus,
    pub exit_code: i32,
    pub fd_table: Vec<Option<FileHandle>>,
    pub children: Vec<ChildProc>,
    pub mutex_list: Vec<Option<MutexKind>>,
    pub semaphore_list: Vec<Option<Semaphore>>,
    pub condvar_list: Vec<Option<CondvarHandle>>,
    pub priority: isize,
}

impl TaskState {
    /// A fresh running task with the given identity and empty tables.
    pub fn new(pid: usize) -> (t: TaskState)
        ensures
            t.pid == pid,
            t.status == TaskStatus::Running,
            t.exit_code == 0,
            t.fd_table@.len() == 0,
            t.children@.len() == 0,
            t.mutex_list@.len() == 0,
            t.semaphore_list@.len() == 0,
            t.condvar_list@.len() == 0,
            t.priority == 16isize,
    {
        TaskState {
            pid,
            status: TaskStatus::Running,
            exit_code: 0,
            fd_table: Vec::new(),
            children: Vec::new(),
            mutex_list: Vec::new(),
            semaphore_list: Vec::new(),
            condvar_list: Vec::new(),
            priority: 16,
        }
    }
}

} // verus!
