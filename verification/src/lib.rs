//! Virtual-memory subsystem of a teaching kernel for 64-bit RISC-V using the
//! SV39 paging scheme: address types, a physical frame arena and allocator,
//! a three-level radix page table, per-task address spaces, cross-space byte
//! access, the mmap/munmap policy, and the syscall decision layer built on
//! top of it.

pub mod address;
pub mod frame_allocator;
pub mod memory_set;
pub mod page_table;
pub mod syscall_fs;
pub mod syscall_process;
pub mod syscall_sync;
pub mod task;

use vstd::prelude::*;
use crate::address::PPN_LIMIT;
use crate::frame_allocator::FrameArena;
use crate::memory_set::{Kernel, MemorySet};
use crate::page_table::{is_mapped, cover_lo, cover_hi, mapped_ppn, leaf_pte, pte_flags_of,
prot_perm_bits, PTE_V};
use crate::address::VA_LIMIT;

verus! {

/// Check whether an mmap protection value is acceptable: a non-empty
/// combination of the read/write/execute capability bits (values 1 through 7).
pub fn is_prot_valid(prot: usize) -> (r: bool)
    ensures
        r == (0 < prot && prot < 8),
{
    prot > 0 && prot < 8
}

/// One-time initialization of the memory subsystem: set up the physical
/// frame pool with `num_frames` frames, build the initial address space
/// (its root table takes one frame), and activate it by recording its token
/// as the translation-control value. Must run before any other operation of
/// this subsystem.
pub fn init(num_frames: usize) -> (k: Kernel)
    requires
        1 <= num_frames,
        num_frames as int <= PPN_LIMIT as int,
        num_frames as int * 512 <= usize::MAX as int,
    ensures
        k.wf(),
        k.arena.frame_count() == num_frames as int,
        k.arena.free_count() == num_frames - 1,
        forall|v: u64| !(#[trigger] is_mapped(k.arena, k.root(), v)),
        k.space.areas@.len() == 0,
{
    let mut arena = FrameArena::new(num_frames);
    let space = MemorySet::new_bare(&mut arena);
    let active_token = space.token();
    Kernel { arena, space, active_token }
}

/// The mmap entry point: validate and apply a request to map the byte range
/// `[start, start + len)` with protection `prot` in the current address
/// space, returning 0 on success and a negative value on failure. A
/// rejected request (bad protection, misaligned start, or overlap with an
/// existing mapping) has no side effect; a successful one backs every
/// covered page with a fresh zero-filled frame.
pub fn mmap_many(k: &mut Kernel, start: usize, len: usize, prot: usize) -> (r: isize)
    requires
        old(k).wf(),
        (0 < prot < 8 && (start as int) % 4096 == 0) ==> (1 <= len && start + len <= VA_LIMIT),
        (0 < prot < 8 && (start as int) % 4096 == 0 && (forall|u: u64|
            cover_lo(start) <= u <= cover_hi(start, len) ==> !is_mapped(
                old(k).arena,
                old(k).root(),
                u,
            ))) ==> old(k).arena.free_count() >= 3 * (cover_hi(start, len) - cover_lo(start) + 1),
    ensures
        r == 0 || r == -1,
        (r == 0) <==> (0 < prot < 8 && (start as int) % 4096 == 0 && (forall|u: u64|
            cover_lo(start) <= u <= cover_hi(start, len) ==> !is_mapped(
                old(k).arena,
                old(k).root(),
                u,
            ))),
        r == -1 ==> *final(k) == *old(k),
        r == 0 ==> {
            &&& final(k).wf()
            &&& final(k).active_token == old(k).active_token
            &&& final(k).arena.frame_count() == old(k).arena.frame_count()
            &&& forall|u: u64|
                cover_lo(start) <= u <= cover_hi(start, len) ==> #[trigger] is_mapped(
                    final(k).arena,
                    old(k).root(),
                    u,
                ) && pte_flags_of(leaf_pte(final(k).arena, old(k).root(), u)) == (prot_perm_bits(
                    prot,
                ) | PTE_V)
            &&& forall|u: u64|
                u < 0x800_0000u64 && !(cover_lo(start) <= u <= cover_hi(start, len))
                    ==> #[trigger] is_mapped(final(k).arena, old(k).root(), u) == is_mapped(
                    old(k).arena,
                    old(k).root(),
                    u,
                )
            &&& forall|va: u64|
                (start as u64) <= va < (start as u64) + (len as u64)
                    ==> #[trigger] final(k).user_byte(va) == Some(0u8)
        },
{
    crate::page_table::map_many_inner(k, start, len, prot)
}

/// The munmap entry point: unmap the byte range `[start, start + len)` in
/// the current address space, returning 0 on success and a negative value
/// on failure. Pages are processed in ascending order and each released
/// frame returns to the pool; on the first unmapped page the call aborts,
/// leaving earlier pages of the range already unmapped.
pub fn munmap_many(k: &mut Kernel, start: usize, len: usize) -> (r: isize)
    requires
        old(k).wf(),
        1 <= len,
        start + len <= VA_LIMIT,
    ensures
        r == 0 || r == -1,
        final(k).wf(),
        final(k).active_token == old(k).active_token,
        final(k).arena.frame_count() == old(k).arena.frame_count(),
        (r == 0) <==> (forall|u: u64|
            cover_lo(start) <= u <= cover_hi(start, len) ==> #[trigger] is_mapped(
                old(k).arena,
                old(k).root(),
                u,
            )),
        forall|u: u64|
            u < 0x800_0000u64 && !(cover_lo(start) <= u <= cover_hi(start, len))
                ==> #[trigger] is_mapped(final(k).arena, old(k).root(), u) == is_mapped(
                old(k).arena,
                old(k).root(),
                u,
            ),
        r == 0 ==> {
            &&& forall|u: u64|
                cover_lo(start) <= u <= cover_hi(start, len) ==> !(#[trigger] is_mapped(
                    final(k).arena,
                    old(k).root(),
                    u,
                ))
            &&& final(k).arena.free_count() == old(k).arena.free_count() + (cover_hi(start, len)
                - cover_lo(start) + 1)
        },
        r == -1 ==> exists|b: u64|
            {
                &&& cover_lo(start) <= b <= cover_hi(start, len)
                &&& !is_mapped(old(k).arena, old(k).root(), b)
                &&& forall|u: u64|
                    cover_lo(start) <= u < b ==> #[trigger] is_mapped(
                        old(k).arena,
                        old(k).root(),
                        u,
                    ) && !is_mapped(final(k).arena, old(k).root(), u)
                &&& forall|u: u64|
                    b <= u <= cover_hi(start, len) ==> #[trigger] is_mapped(
                        final(k).arena,
                        old(k).root(),
                        u,
                    ) == is_mapped(old(k).arena, old(k).root(), u)
            },
{
    crate::page_table::unmap_many_inner(k, start, len)
}

} // verus!
