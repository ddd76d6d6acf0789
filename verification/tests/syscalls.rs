use sv39_vm::init;
use sv39_vm::mmap_many;
use sv39_vm::page_table::read_user_bytes;
use sv39_vm::syscall_fs::{sys_write, sys_read, sys_open, sys_close, sys_fstat, sys_linkat,
    sys_unlinkat, copy_to_current_user, copy_from_current_user, Stat, StatMode};
use sv39_vm::syscall_process::{sys_exit, sys_yield, sys_getpid, sys_fork, sys_waitpid,
    sys_get_time, sys_task_info, sys_mmap, sys_munmap, sys_set_priority, sys_exec, sys_sbrk,
    sys_spawn, TaskInfo, TimeVal};
use sv39_vm::syscall_sync::{sys_sleep, sys_mutex_create, sys_mutex_lock, sys_mutex_unlock,
    sys_semaphore_create, sys_semaphore_up, sys_semaphore_down, sys_condvar_create,
    sys_condvar_signal, sys_condvar_wait, sys_enable_deadlock_detect, DEADLOCK_RC};
use sv39_vm::task::{TaskState, TaskStatus};

#[test]
fn mutex_create_reuses_lowest_free_slot() {
    let mut t = TaskState::new(1);
    assert_eq!(sys_mutex_create(&mut t, false), 0);
    assert_eq!(sys_mutex_create(&mut t, true), 1);
    assert_eq!(sys_mutex_create(&mut t, true), 2);
    // locking and unlocking work on occupied slots only
    assert_eq!(sys_mutex_lock(&t, 1, true), 0);
    assert_eq!(sys_mutex_lock(&t, 1, false), DEADLOCK_RC);
    assert_eq!(sys_mutex_lock(&t, 9, true), -1);
    assert_eq!(sys_mutex_unlock(&t, 2), 0);
    assert_eq!(sys_mutex_unlock(&t, 9), -1);
}

#[test]
fn semaphore_counts() {
    let mut t = TaskState::new(1);
    assert_eq!(sys_semaphore_create(&mut t, 2), 0);
    assert_eq!(sys_semaphore_create(&mut t, 0), 1);
    assert_eq!(sys_semaphore_down(&mut t, 0, true), 0);
    assert_eq!(sys_semaphore_down(&mut t, 0, true), 0);
    assert_eq!(sys_semaphore_down(&mut t, 0, false), DEADLOCK_RC);
    assert_eq!(sys_semaphore_up(&mut t, 0), 0);
    assert_eq!(t.semaphore_list[0].unwrap().count, 1);
    assert_eq!(sys_semaphore_up(&mut t, 7), -1);
    assert_eq!(sys_semaphore_down(&mut t, 7, true), -1);
}

#[test]
fn condvar_slots_and_checks() {
    let mut t = TaskState::new(1);
    assert_eq!(sys_condvar_create(&mut t), 0);
    assert_eq!(sys_condvar_create(&mut t), 1);
    assert_eq!(sys_condvar_signal(&t, 1), 0);
    assert_eq!(sys_condvar_signal(&t, 2), -1);
    // waiting needs both the condvar and the mutex to exist
    assert_eq!(sys_condvar_wait(&t, 0, 0), -1);
    assert_eq!(sys_mutex_create(&mut t, true), 0);
    assert_eq!(sys_condvar_wait(&t, 0, 0), 0);
}

#[test]
fn sleep_computes_deadline() {
    let (expire, r) = sys_sleep(1000, 250);
    assert_eq!(expire, 1250);
    assert_eq!(r, 0);
}

#[test]
fn deadlock_detect_not_offered() {
    assert_eq!(sys_enable_deadlock_detect(1), -1);
    assert_eq!(sys_enable_deadlock_detect(0), -1);
}

#[test]
fn exit_yield_getpid_priority() {
    let mut t = TaskState::new(42);
    assert_eq!(sys_getpid(&t), 42);
    assert_eq!(sys_yield(&mut t), 0);
    assert!(matches!(t.status, TaskStatus::Ready));
    assert_eq!(sys_set_priority(&mut t, 1), -1);
    assert_eq!(sys_set_priority(&mut t, 5), 5);
    assert_eq!(t.priority, 5);
    sys_exit(&mut t, 7);
    assert!(matches!(t.status, TaskStatus::Zombie));
    assert_eq!(t.exit_code, 7);
}

#[test]
fn fork_and_waitpid() {
    let mut k = init(64);
    assert_eq!(mmap_many(&mut k, 0x1000, 0x1000, 3), 0);
    let mut t = TaskState::new(1);
    // no child at all: -1
    assert_eq!(sys_waitpid(&mut k, &mut t, -1, 0x1000), -1);
    assert_eq!(sys_fork(&mut t, 5), 5);
    assert_eq!(sys_fork(&mut t, 6), 6);
    // children exist but none has exited: -2
    assert_eq!(sys_waitpid(&mut k, &mut t, -1, 0x1000), -2);
    assert_eq!(sys_waitpid(&mut k, &mut t, 6, 0x1000), -2);
    // a pid that is no child: -1
    assert_eq!(sys_waitpid(&mut k, &mut t, 9, 0x1000), -1);
    // reap child 6 with exit code -3
    t.children[1].is_zombie = true;
    t.children[1].exit_code = -3;
    assert_eq!(sys_waitpid(&mut k, &mut t, 6, 0x1000), 6);
    assert_eq!(t.children.len(), 1);
    let tok = k.token();
    let bytes = read_user_bytes(&k, tok, 0x1000, 4).unwrap();
    assert_eq!(bytes, (-3i32 as u32).to_le_bytes().to_vec());
    // the store faults on an unmapped pointer: child is reaped, call fails
    t.children[0].is_zombie = true;
    assert_eq!(sys_waitpid(&mut k, &mut t, -1, 0x7000), -1);
    assert_eq!(t.children.len(), 0);
}

#[test]
fn open_close_write_read() {
    let mut k = init(64);
    assert_eq!(mmap_many(&mut k, 0x1000, 0x1000, 3), 0);
    let mut t = TaskState::new(1);
    assert_eq!(sys_open(&mut t, false, true, true), -1);
    assert_eq!(sys_open(&mut t, true, true, false), 0);
    assert_eq!(sys_open(&mut t, true, true, true), 1);
    assert_eq!(sys_close(&mut t, 0), 0);
    assert_eq!(sys_close(&mut t, 0), -1);
    assert_eq!(sys_open(&mut t, true, false, true), 0);
    // fd 0 is write-only now, fd 1 is read-write
    let incoming = vec![9u8, 8, 7];
    assert_eq!(sys_read(&mut k, &t, 0, 0x1000, 8, &incoming), -1);
    assert_eq!(sys_read(&mut k, &t, 1, 0x1000, 8, &incoming), 3);
    let tok = k.token();
    assert_eq!(read_user_bytes(&k, tok, 0x1000, 3).unwrap(), incoming);
    let gathered = sys_write(&k, &t, 0, 0x1000, 3).unwrap();
    assert_eq!(gathered, incoming);
    // reading through an unreadable fd, or an unmapped buffer, fails
    assert!(sys_write(&k, &t, 1, 0x1000, 3).is_some());
    assert!(sys_write(&k, &t, 7, 0x1000, 3).is_none());
    assert!(sys_write(&k, &t, 0, 0x5000, 3).is_none());
}

#[test]
fn copy_helpers_round_trip() {
    let mut k = init(64);
    assert_eq!(mmap_many(&mut k, 0x3000, 0x1000, 3), 0);
    let data = vec![1u8, 2, 3, 4, 5];
    assert_eq!(copy_to_current_user(&mut k, 0x3100, &data), 5);
    assert_eq!(copy_from_current_user(&k, 0x3100, 5).unwrap(), data);
    assert_eq!(copy_to_current_user(&mut k, 0x9000, &data), -1);
    assert!(copy_from_current_user(&k, 0x9000, 5).is_none());
}

#[test]
fn get_time_marshalling() {
    let mut k = init(64);
    assert_eq!(mmap_many(&mut k, 0x2000, 0x1000, 3), 0);
    let tv = TimeVal { sec: 1, usec: 234567 };
    assert_eq!(tv.sec, 1);
    let us: usize = 1_234_567;
    assert_eq!(sys_get_time(&mut k, 0x2000, us), 0);
    let tok = k.token();
    let bytes = read_user_bytes(&k, tok, 0x2000, 16).unwrap();
    assert_eq!(&bytes[0..8], &1u64.to_le_bytes());
    assert_eq!(&bytes[8..16], &234567u64.to_le_bytes());
    // unmapped destination: rejected, nothing stored
    assert_eq!(sys_get_time(&mut k, 0x6000, us), -1);
    // a destination straddling the end of the mapped page is rejected too
    assert_eq!(sys_get_time(&mut k, 0x2ff8, us), -1);
}

#[test]
fn task_info_marshalling() {
    let mut k = init(64);
    assert_eq!(mmap_many(&mut k, 0x2000, 0x1000, 3), 0);
    let mut times = [0u32; 500];
    times[0] = 11;
    times[64] = 0x01020304;
    let info = TaskInfo { status: TaskStatus::Running, syscall_times: times, time: 777 };
    assert_eq!(sys_task_info(&mut k, 0x2000, &info), 0);
    let tok = k.token();
    let bytes = read_user_bytes(&k, tok, 0x2000, 2009).unwrap();
    assert_eq!(bytes[0], 1);
    assert_eq!(&bytes[1..5], &11u32.to_le_bytes());
    assert_eq!(&bytes[1 + 4 * 64..1 + 4 * 64 + 4], &0x01020304u32.to_le_bytes());
    assert_eq!(&bytes[2001..2009], &777u64.to_le_bytes());
}

#[test]
fn fstat_marshalling() {
    let mut k = init(64);
    assert_eq!(mmap_many(&mut k, 0x2000, 0x1000, 3), 0);
    let mut t = TaskState::new(1);
    let st = Stat { dev: 0, ino: 42, mode: StatMode::File, nlink: 3 };
    // no such descriptor yet
    assert_eq!(sys_fstat(&mut k, &t, 0, 0x2000, &st), -1);
    assert_eq!(sys_open(&mut t, true, true, false), 0);
    assert_eq!(sys_fstat(&mut k, &t, 0, 0x2000, &st), 0);
    let tok = k.token();
    let bytes = read_user_bytes(&k, tok, 0x2000, 80).unwrap();
    assert_eq!(&bytes[0..8], &0u64.to_le_bytes());
    assert_eq!(&bytes[8..16], &42u64.to_le_bytes());
    assert_eq!(&bytes[16..20], &0o100000u32.to_le_bytes());
    assert_eq!(&bytes[20..24], &3u32.to_le_bytes());
    assert!(bytes[24..80].iter().all(|b| *b == 0));
    // unmapped destination: rejected
    assert_eq!(sys_fstat(&mut k, &t, 0, 0x6000, &st), -1);
}

#[test]
fn linkat_unlinkat_spawn_decisions() {
    assert_eq!(sys_linkat(true, false, true), -1);
    assert_eq!(sys_linkat(false, true, true), -1);
    assert_eq!(sys_linkat(false, false, false), -1);
    assert_eq!(sys_linkat(false, false, true), 0);
    assert_eq!(sys_unlinkat(true), 0);
    assert_eq!(sys_unlinkat(false), -1);
    let mut t = TaskState::new(1);
    assert_eq!(sys_spawn(&mut t, false, 9), -1);
    assert_eq!(t.children.len(), 0);
    assert_eq!(sys_spawn(&mut t, true, 9), 9);
    assert_eq!(t.children.len(), 1);
    assert_eq!(t.children[0].pid, 9);
    assert!(!t.children[0].is_zombie);
}

#[test]
fn exec_and_sbrk_decisions() {
    assert_eq!(sys_exec(true), 0);
    assert_eq!(sys_exec(false), -1);
    assert_eq!(sys_sbrk(Some(0x8000)), 0x8000);
    assert_eq!(sys_sbrk(None), -1);
}

#[test]
fn mmap_munmap_syscalls() {
    let mut k = init(64);
    assert_eq!(sys_mmap(&mut k, 0x1000, 0x1000, 3), 0);
    assert_eq!(sys_mmap(&mut k, 0x1000, 0x1000, 3), -1);
    assert_eq!(sys_munmap(&mut k, 0x1000, 0x1000), 0);
    assert_eq!(sys_munmap(&mut k, 0x1000, 0x1000), -1);
}
