//! File-descriptor syscalls and cross-space copy helpers as verified
//! decision functions. The file store itself is an external collaborator:
//! `sys_write` hands back the marshalled user bytes for it, `sys_read`
//! takes the bytes it produced, and `sys_open` takes its verdict on the
//! path; this layer decides descriptor validity and does every user-memory
//! transfer through the page table.

use vstd::prelude::*;
use crate::address::VA_LIMIT;
use crate::frame_allocator::byte_of_word;
use crate::memory_set::Kernel;
use crate::page_table::{read_user_bytes, write_user_bytes};
use crate::syscall_process::{push_u64_le, push_u32_le};
use crate::task::{TaskState, FileHandle};

verus! {

/// Decide a write request: the descriptor must exist and be writable, and
/// the whole user buffer must be mapped; on success the buffer's bytes are
/// gathered and returned for the external file to consume. `None` stands
/// for the syscall's negative result.
pub fn sys_write(k: &Kernel, task: &TaskState, fd: usize, buf: usize, len: usize) -> (r: Option<
    Vec<u8>,
>)
    requires
        k.wf(),
    ensures
        r is Some <==> (fd < task.fd_table@.len() && task.fd_table@[fd as int] is Some
            && task.fd_table@[fd as int]->0.writable && buf + len <= VA_LIMIT && (forall|va: u64|
            (buf as u64) <= va < (buf as u64) + (len as u64) ==> (#[trigger] k.user_byte(
                va,
            )) is Some)),
        match r {
            Some(bs) => {
                &&& bs@.len() == len
                &&& forall|i: int|
                    0 <= i < len ==> Some(#[trigger] bs@[i]) == k.user_byte((buf + i) as u64)
            },
            None => true,
        },
{
    if fd >= task.fd_table.len() {
        return None;
    }
    let file = match task.fd_table[fd] {
        Some(f) => f,
        None => {
            return None;
        },
    };
    if !file.writable {
        return None;
    }
    if (len as u64) > 0x80_0000_0000u64 || (buf as u64) > 0x80_0000_0000u64 - (len as u64) {
        return None;
    }
    read_user_bytes(k, k.token(), buf, len)
}

/// Decide a read request: the descriptor must exist and be readable; the
/// bytes the external file produced (never more than asked for) are stored
/// into the user buffer, whose pages must all be mapped. Returns the number
/// of bytes stored, or a negative result.
pub fn sys_read(k: &mut Kernel, task: &TaskState, fd: usize, buf: usize, len: usize, incoming: &Vec<
    u8,
>) -> (r: isize)
    requires
        old(k).wf(),
        incoming@.len() <= len,
        incoming@.len() <= isize::MAX,
    ensures
        final(k).wf(),
        final(k).active_token == old(k).active_token,
        r == incoming@.len() || r == -1,
        (r >= 0) <==> (fd < task.fd_table@.len() && task.fd_table@[fd as int] is Some
            && task.fd_table@[fd as int]->0.readable && buf + incoming@.len() <= VA_LIMIT && (
        forall|va: u64|
            (buf as u64) <= va < (buf as u64) + incoming@.len() ==> (#[trigger] old(k).user_byte(
                va,
            )) is Some)),
        r == -1 ==> *final(k) == *old(k),
        r >= 0 ==> {
            &&& forall|i: int|
                0 <= i < incoming@.len() ==> #[trigger] final(k).user_byte((buf + i) as u64)
                    == Some(incoming@[i])
            &&& forall|va: u64|
                va < VA_LIMIT && !((buf as u64) <= va < (buf as u64) + incoming@.len())
                    ==> #[trigger] final(k).user_byte(va) == old(k).user_byte(va)
        },
{
    if fd >= task.fd_table.len() {
        return -1;
    }
    let file = match task.fd_table[fd] {
        Some(f) => f,
        None => {
            return -1;
        },
    };
    if !file.readable {
        return -1;
    }
    let m = incoming.len();
    if (m as u64) > 0x80_0000_0000u64 || (buf as u64) > 0x80_0000_0000u64 - (m as u64) {
        return -1;
    }
    let token = k.token();
    if write_user_bytes(k, token, buf, incoming) {
        m as isize
    } else {
        -1
    }
}

/// Decide an open request: the external file layer reports whether the path
/// resolved and with which access mode; on success the handle is placed in
/// the lowest free descriptor slot (growing the table if none is free) and
/// that descriptor is returned.
pub fn sys_open(task: &mut TaskState, found: bool, readable: bool, writable: bool) -> (r: isize)
    requires
        old(task).fd_table@.len() < 0x1000_0000,
    ensures
        final(task).pid == old(task).pid,
        final(task).status == old(task).status,
        final(task).children@ == old(task).children@,
        final(task).mutex_list@ == old(task).mutex_list@,
        final(task).semaphore_list@ == old(task).semaphore_list@,
        final(task).condvar_list@ == old(task).condvar_list@,
        !found ==> r == -1 && final(task).fd_table@ == old(task).fd_table@,
        found ==> r >= 0 && ({
            let h = FileHandle { readable, writable };
            ||| {
                &&& 0 <= r < old(task).fd_table@.len()
                &&& old(task).fd_table@[r as int] is None
                &&& forall|j: int| 0 <= j < r ==> (#[trigger] old(task).fd_table@[j]) is Some
                &&& final(task).fd_table@ == old(task).fd_table@.update(r as int, Some(h))
            }
            ||| {
                &&& r == old(task).fd_table@.len()
                &&& forall|j: int|
                    0 <= j < old(task).fd_table@.len() ==> (#[trigger] old(
                        task,
                    ).fd_table@[j]) is Some
                &&& final(task).fd_table@ == old(task).fd_table@.push(Some(h))
            }
        }),
{
    if !found {
        return -1;
    }
    let h = FileHandle { readable, writable };
    let n = task.fd_table.len();
    let mut i: usize = 0;
    while i < n
        invariant
            i <= n,
            n < 0x1000_0000usize,
            n == task.fd_table@.len(),
            *task == *old(task),
            found,
            h == (FileHandle { readable, writable }),
            forall|j: int| 0 <= j < i ==> (#[trigger] task.fd_table@[j]) is Some,
        decreases n - i,
    {
        let free = match task.fd_table[i] {
            None => true,
            Some(_) => false,
        };
        if free {
            task.fd_table.set(i, Some(h));
            proof {
                assert(i < 0x1000_0000usize);
            }
            return i as isize;
        }
        i = i + 1;
    }
    task.fd_table.push(Some(h));
    proof {
        assert(n < 0x1000_0000usize);
    }
    n as isize
}

/// Close a descriptor: its slot must exist and be occupied; the slot is
/// emptied and may be reused by a later open.
pub fn sys_close(task: &mut TaskState, fd: usize) -> (r: isize)
    ensures
        final(task).pid == old(task).pid,
        final(task).status == old(task).status,
        final(task).children@ == old(task).children@,
        final(task).mutex_list@ == old(task).mutex_list@,
        final(task).semaphore_list@ == old(task).semaphore_list@,
        final(task).condvar_list@ == old(task).condvar_list@,
        if fd < old(task).fd_table@.len() && old(task).fd_table@[fd as int] is Some {
            &&& r == 0
            &&& final(task).fd_table@ == old(task).fd_table@.update(fd as int, None)
        } else {
            &&& r == -1
            &&& final(task).fd_table@ == old(task).fd_table@
        },
{
    if fd >= task.fd_table.len() {
        return -1;
    }
    let occupied = match task.fd_table[fd] {
        Some(_) => true,
        None => false,
    };
    if !occupied {
        return -1;
    }
    task.fd_table.set(fd, None);
    0
}

/// Store a kernel byte buffer into the current user space at `dst`,
/// through the page table; returns the byte count, or a negative result if
/// any touched page is unmapped (then nothing was written).
pub fn copy_to_current_user(k: &mut Kernel, dst: usize, data: &Vec<u8>) -> (r: isize)
    requires
        old(k).wf(),
        data@.len() <= isize::MAX,
    ensures
        final(k).wf(),
        final(k).active_token == old(k).active_token,
        r == data@.len() || r == -1,
        (r >= 0) <==> (dst + data@.len() <= VA_LIMIT && (forall|va: u64|
            (dst as u64) <= va < (dst as u64) + data@.len() ==> (#[trigger] old(k).user_byte(
                va,
            )) is Some)),
        r == -1 ==> *final(k) == *old(k),
        r >= 0 ==> {
            &&& forall|i: int|
                0 <= i < data@.len() ==> #[trigger] final(k).user_byte((dst + i) as u64) == Some(
                    data@[i],
                )
            &&& forall|va: u64|
                va < VA_LIMIT && !((dst as u64) <= va < (dst as u64) + data@.len())
                    ==> #[trigger] final(k).user_byte(va) == old(k).user_byte(va)
        },
{
    let m = data.len();
    if (m as u64) > 0x80_0000_0000u64 || (dst as u64) > 0x80_0000_0000u64 - (m as u64) {
        return -1;
    }
    let token = k.token();
    if write_user_bytes(k, token, dst, data) {
        m as isize
    } else {
        -1
    }
}

/// Fetch `len` bytes from the current user space at `src`, through the
/// page table; absent if the range is out of the address space or any
/// touched page is unmapped.
pub fn copy_from_current_user(k: &Kernel, src: usize, len: usize) -> (r: Option<Vec<u8>>)
    requires
        k.wf(),
    ensures
        r is Some <==> (src + len <= VA_LIMIT && (forall|va: u64|
            (src as u64) <= va < (src as u64) + (len as u64) ==> (#[trigger] k.user_byte(
                va,
            )) is Some)),
        match r {
            Some(bs) => {
                &&& bs@.len() == len
                &&& forall|i: int|
                    0 <= i < len ==> Some(#[trigger] bs@[i]) == k.user_byte((src + i) as u64)
            },
            None => true,
        },
{
    if (len as u64) > 0x80_0000_0000u64 || (src as u64) > 0x80_0000_0000u64 - (len as u64) {
        return None;
    }
    read_user_bytes(k, k.token(), src, len)
}

} // verus!

verus! {

/// What kind of object a stat record describes.
#[derive(Clone, Copy, PartialEq, Eq, Structural, Debug)]
pub enum StatMode {
    Null,
    Dir,
    File,
}

/// The mode field's wire value: the traditional directory and regular-file
/// mode bits.
pub open spec fn stat_mode_bits(m: StatMode) -> u32 {
    match m {
        StatMode::Null => 0u32,
        StatMode::Dir => 0o040000u32,
        StatMode::File => 0o100000u32,
    }
}

/// A file's status as reported to user space: device, inode number, mode
/// and hard-link count (the record is padded to 80 bytes on the wire).
#[derive(Clone, Copy, PartialEq, Eq, Structural, Debug)]
pub struct Stat {
    pub dev: u64,
    pub ino: u64,
    pub mode: StatMode,
    pub nlink: u32,
}

/// Decide an fstat request: the descriptor must exist and be occupied; the
/// record itself (inode number, kind, link count) comes from the external
/// inode store. On success the record is stored at `st_va` as device and
/// inode (64-bit little-endian each), mode and link count (32-bit
/// little-endian each) and zero padding up to 80 bytes; an unmapped
/// destination fails the call with no byte written.
pub fn sys_fstat(k: &mut Kernel, task: &TaskState, fd: usize, st_va: usize, st: &Stat) -> (r:
    isize)
    requires
        old(k).wf(),
    ensures
        final(k).wf(),
        final(k).active_token == old(k).active_token,
        r == 0 || r == -1,
        (r == 0) <==> (fd < task.fd_table@.len() && task.fd_table@[fd as int] is Some && st_va
            + 80 <= VA_LIMIT && (forall|va: u64|
            (st_va as u64) <= va < (st_va as u64) + 80 ==> (#[trigger] old(k).user_byte(
                va,
            )) is Some)),
        r == -1 ==> *final(k) == *old(k),
        r == 0 ==> {
            &&& forall|j: u64|
                j < 8 ==> #[trigger] final(k).user_byte(((st_va + j) as u64)) == Some(
                    byte_of_word(st.dev, j),
                )
            &&& forall|j: u64|
                j < 8 ==> #[trigger] final(k).user_byte(((st_va + 8 + j) as u64)) == Some(
                    byte_of_word(st.ino, j),
                )
            &&& forall|j: u64|
                j < 4 ==> #[trigger] final(k).user_byte(((st_va + 16 + j) as u64)) == Some(
                    byte_of_word(stat_mode_bits(st.mode) as u64, j),
                )
            &&& forall|j: u64|
                j < 4 ==> #[trigger] final(k).user_byte(((st_va + 20 + j) as u64)) == Some(
                    byte_of_word(st.nlink as u64, j),
                )
            &&& forall|j: u64|
                24 <= j < 80 ==> #[trigger] final(k).user_byte(((st_va + j) as u64)) == Some(
                    0u8,
                )
        },
{
    if fd >= task.fd_table.len() {
        return -1;
    }
    let occupied = match task.fd_table[fd] {
        Some(_) => true,
        None => false,
    };
    if !occupied {
        return -1;
    }
    let mode_bits: u32 = match st.mode {
        StatMode::Null => 0,
        StatMode::Dir => 0o040000,
        StatMode::File => 0o100000,
    };
    let mut data: Vec<u8> = Vec::new();
    push_u64_le(&mut data, st.dev);
    push_u64_le(&mut data, st.ino);
    push_u32_le(&mut data, mode_bits);
    push_u32_le(&mut data, st.nlink);
    let mut p: usize = 0;
    while p < 7
        invariant
            p <= 7,
            data@.len() == 24 + 8 * p,
            forall|j: int| 24 <= j < data@.len() ==> #[trigger] data@[j] == 0,
            forall|j: u64| j < 8 ==> #[trigger] data@[j as int] == byte_of_word(st.dev, j),
            forall|j: u64| j < 8 ==> #[trigger] data@[8 + j as int] == byte_of_word(st.ino, j),
            forall|j: u64|
                j < 4 ==> #[trigger] data@[16 + j as int] == byte_of_word(mode_bits as u64, j),
            forall|j: u64|
                j < 4 ==> #[trigger] data@[20 + j as int] == byte_of_word(st.nlink as u64, j),
        decreases 7 - p,
    {
        let ghost d0 = data@;
        push_u64_le(&mut data, 0u64);
        proof {
            crate::frame_allocator::lemma_zero_word_bytes(0);
            assert forall|j: int| 24 <= j < data@.len() implies #[trigger] data@[j] == 0 by {
                if j < d0.len() {
                    assert(data@[j] == d0[j]);
                } else {
                    assert(data@[j] == byte_of_word(0u64, (j - d0.len()) as u64));
                    crate::frame_allocator::lemma_zero_word_bytes((j - d0.len()) as u64);
                }
            }
        }
        p = p + 1;
    }
    let r = copy_to_current_user(k, st_va, &data);
    if r < 0 {
        -1
    } else {
        proof {
            assert forall|j: u64| j < 8 implies #[trigger] k.user_byte(((st_va + j) as u64))
                == Some(byte_of_word(st.dev, j)) by {
                assert(k.user_byte((st_va + j as int) as u64) == Some(data@[j as int]));
            }
            assert forall|j: u64| j < 8 implies #[trigger] k.user_byte(((st_va + 8 + j) as u64))
                == Some(byte_of_word(st.ino, j)) by {
                assert(k.user_byte((st_va + (8 + j as int)) as u64) == Some(
                    data@[8 + j as int],
                ));
            }
            assert forall|j: u64| j < 4 implies #[trigger] k.user_byte(((st_va + 16 + j) as u64))
                == Some(byte_of_word(stat_mode_bits(st.mode) as u64, j)) by {
                assert(k.user_byte((st_va + (16 + j as int)) as u64) == Some(
                    data@[16 + j as int],
                ));
            }
            assert forall|j: u64| j < 4 implies #[trigger] k.user_byte(((st_va + 20 + j) as u64))
                == Some(byte_of_word(st.nlink as u64, j)) by {
                assert(k.user_byte((st_va + (20 + j as int)) as u64) == Some(
                    data@[20 + j as int],
                ));
            }
            assert forall|j: u64|
                24 <= j < 80 implies #[trigger] k.user_byte(((st_va + j) as u64)) == Some(
                0u8,
            ) by {
                assert(k.user_byte((st_va + j as int) as u64) == Some(data@[j as int]));
                assert(data@[j as int] == 0);
            }
        }
        0
    }
}

/// Decide a linkat request: a link to the same name, a new name that
/// already exists, or a source that does not resolve are each refused; all
/// three verdicts come from the external inode store, and the link itself
/// is its work.
pub fn sys_linkat(same_name: bool, new_exists: bool, old_found: bool) -> (r: isize)
    ensures
        r == if same_name {
            -1isize
        } else if new_exists {
            -1isize
        } else if !old_found {
            -1isize
        } else {
            0isize
        },
{
    if same_name {
        return -1;
    }
    if new_exists {
        return -1;
    }
    if !old_found {
        return -1;
    }
    0
}

/// Decide an unlinkat request: refused exactly when the name does not
/// resolve; removing the link is the external inode store's work.
pub fn sys_unlinkat(found: bool) -> (r: isize)
    ensures
        r == if found {
            0isize
        } else {
            -1isize
        },
{
    if found {
        0
    } else {
        -1
    }
}

} // verus!
