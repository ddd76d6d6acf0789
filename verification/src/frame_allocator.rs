//! The pool of physical page frames and their contents.
//!
//! Physical memory is modelled explicitly as an arena of page frames, each
//! frame holding 512 64-bit words (4096 bytes). The allocator owns the set of
//! free physical page numbers; `alloc_frame` hands out a zero-filled frame
//! wrapped in a `FrameTracker`, `dealloc_frame` returns one to the pool. A
//! frame handed back while already free is a programming error and is
//! excluded by precondition rather than silently corrupting the pool.

use vstd::prelude::*;
use vstd::pervasive::VecAdditionalExecFns;
use crate::address::{PhysPageNum, PPN_LIMIT};

verus! {

/// Exclusive ownership of one physical frame. The frame is zero-filled when
/// acquired and must be handed back to the allocator exactly once.
pub struct FrameTracker {
    pub ppn: PhysPageNum,
}

/// The arena of physical frames together with the free pool.
pub struct FrameArena {
    pub words: Vec<u64>,
    pub free_list: Vec<u64>,
    pub n_frames: usize,
}

/// The byte at position `k` (0 = least significant) of a 64-bit word.
pub open spec fn byte_of_word(w: u64, k: u64) -> u8 {
    ((w >> ((k * 8) as u64)) & 0xff) as u8
}

/// `w` with its byte at position `k` replaced by `b`.
pub open spec fn set_byte_of_word(w: u64, k: u64, b: u8) -> u64 {
    (w & !(0xffu64 << ((k * 8) as u64))) | ((b as u64) << ((k * 8) as u64))
}

/// Replacing byte `k` sets byte `k` and leaves every other byte unchanged.
pub proof fn lemma_set_byte_of_word(w: u64, k: u64, b: u8, k2: u64)
    by (bit_vector)
    requires
        k < 8,
        k2 < 8,
    ensures
        byte_of_word(set_byte_of_word(w, k, b), k) == b,
        k2 != k ==> byte_of_word(set_byte_of_word(w, k, b), k2) == byte_of_word(w, k2),
{
}

/// Every byte of the zero word is zero.
pub proof fn lemma_zero_word_bytes(k: u64)
    by (bit_vector)
    requires
        k < 8,
    ensures
        byte_of_word(0, k) == 0,
{
}

impl FrameArena {
    /// Number of frames in the arena.
    pub open spec fn frame_count(self) -> int {
        self.n_frames as int
    }

    /// The word at index `i` of frame `t`.
    pub open spec fn word(self, t: u64, i: u64) -> u64 {
        self.words@[t as int * 512 + i as int]
    }

    /// The byte at offset `off` of frame `t`, little-endian within each word.
    pub open spec fn frame_byte(self, t: u64, off: u64) -> u8 {
        byte_of_word(self.word(t, off / 8), off % 8)
    }

    /// Whether frame `p` is in the free pool.
    pub open spec fn is_free(self, p: u64) -> bool {
        self.free_list@.contains(p)
    }

    /// Number of frames in the free pool.
    pub open spec fn free_count(self) -> int {
        self.free_list@.len() as int
    }

    /// Every word of frame `p` is zero.
    pub open spec fn frame_zero(self, p: u64) -> bool {
        forall|j: u64| j < 512 ==> #[trigger] self.word(p, j) == 0
    }

    /// Structural well-formedness: storage sized to the frame count, the
    /// free pool duplicate-free and in range.
    pub open spec fn wf(self) -> bool {
        &&& self.words@.len() == self.n_frames as int * 512
        &&& self.n_frames as int <= PPN_LIMIT as int
        &&& forall|j: int|
            0 <= j < self.free_list@.len() ==> (#[trigger] self.free_list@[j]) < self.n_frames as u64
        &&& forall|i: int, j: int|
            0 <= i < j < self.free_list@.len() ==> self.free_list@[i] != self.free_list@[j]
    }

    /// Frames other than `p` hold the same words in `self` as in `other`.
    pub open spec fn frames_other_eq(self, other: FrameArena, p: u64) -> bool {
        &&& other.frame_count() == self.frame_count()
        &&& other.words@.len() == self.words@.len()
        &&& forall|s: u64, j: u64|
            s < self.frame_count() && j < 512 && s != p ==> #[trigger] other.word(s, j) == self.word(
                s,
                j,
            )
    }

    /// Build an arena of `n` zero-filled frames, all free.
    pub fn new(n: usize) -> (a: FrameArena)
        requires
            n as int <= PPN_LIMIT as int,
            n as int * 512 <= usize::MAX as int,
        ensures
            a.wf(),
            a.frame_count() == n as int,
            a.free_count() == n as int,
            forall|p: u64| p < n as u64 ==> a.is_free(p),
            forall|p: u64, j: u64| p < n as u64 && j < 512 ==> #[trigger] a.word(p, j) == 0,
    {
        let words: Vec<u64> = vec![0u64; n * 512];
        let mut free_list: Vec<u64> = Vec::new();
        let mut i: usize = 0;
        while i < n
            invariant
                i <= n,
                n as int <= PPN_LIMIT as int,
                free_list@.len() == i as int,
                forall|j: int| 0 <= j < i as int ==> #[trigger] free_list@[j] == j as u64,
            decreases n - i,
        {
            free_list.push(i as u64);
            i = i + 1;
        }
        let a = FrameArena { words, free_list, n_frames: n };
        proof {
            assert forall|p: u64| p < n as u64 implies a.is_free(p) by {
                assert(a.free_list@[p as int] == p);
            }
            assert forall|p: u64, j: u64| p < n as u64 && j < 512 implies #[trigger] a.word(p, j)
                == 0 by {
                assert((p as int) * 512 + (j as int) < (n as int) * 512) by (nonlinear_arith) requires p < n as u64, j < 512;
                assert(a.words@[p as int * 512 + j as int] == 0);
            }
        }
        a
    }

    /// Read the word at index `i` of frame `t`.
    pub fn read_word(&self, t: u64, i: u64) -> (r: u64)
        requires
            self.wf(),
            t < self.frame_count(),
            i < 512,
        ensures
            r == self.word(t, i),
    {
        let n_words: usize = self.words.len();
        proof {
            assert((t as int) * 512 + (i as int) < self.frame_count() * 512) by (nonlinear_arith) requires t < self.frame_count(), i < 512;
        }
        let idx: usize = (t * 512 + i) as usize;
        self.words[idx]
    }

    /// Overwrite the word at index `i` of frame `t`.
    pub fn write_word(&mut self, t: u64, i: u64, w: u64)
        requires
            old(self).wf(),
            t < old(self).frame_count(),
            i < 512,
        ensures
            final(self).wf(),
            final(self).words@ == old(self).words@.update(t as int * 512 + i as int, w),
            final(self).free_list@ == old(self).free_list@,
            final(self).frame_count() == old(self).frame_count(),
            final(self).word(t, i) == w,
            final(self).frames_other_eq(*old(self), t),
            forall|j: u64|
                j < 512 && j != i ==> #[trigger] final(self).word(t, j) == old(self).word(t, j),
    {
        let n_words: usize = self.words.len();
        proof {
            assert((t as int) * 512 + (i as int) < self.frame_count() * 512) by (nonlinear_arith) requires t < self.frame_count(), i < 512;
        }
        let idx: usize = (t * 512 + i) as usize;
        self.words.set(idx, w);
        proof {
            assert forall|s: u64, j: u64|
                s < self.frame_count() && j < 512 && s != t implies #[trigger] self.word(s, j)
                == old(self).word(s, j) by {
                assert(s as int * 512 + j as int != (t as int) * 512 + (i as int)) by (nonlinear_arith) requires s != t, j < 512, i < 512;
            }
            assert forall|j: u64| j < 512 && j != i implies #[trigger] self.word(t, j) == old(
                self,
            ).word(t, j) by {
                assert(t as int * 512 + j as int != (t as int) * 512 + (i as int));
            }
        }
    }

    /// Read the byte at offset `off` of frame `t`.
    pub fn read_byte(&self, t: u64, off: u64) -> (r: u8)
        requires
            self.wf(),
            t < self.frame_count(),
            off < 4096,
        ensures
            r == self.frame_byte(t, off),
    {
        let w = self.read_word(t, off / 8);
        let k = off % 8;
        ((w >> (k * 8)) & 0xff) as u8
    }

    /// Overwrite the byte at offset `off` of frame `t`; all other bytes of
    /// the arena keep their value.
    pub fn write_byte(&mut self, t: u64, off: u64, b: u8)
        requires
            old(self).wf(),
            t < old(self).frame_count(),
            off < 4096,
        ensures
            final(self).wf(),
            final(self).free_list@ == old(self).free_list@,
            final(self).frame_count() == old(self).frame_count(),
            final(self).words@ == old(self).words@.update(
                t as int * 512 + (off / 8) as int,
                set_byte_of_word(old(self).word(t, off / 8), off % 8, b),
            ),
            final(self).frame_byte(t, off) == b,
            forall|off2: u64|
                off2 < 4096 && off2 != off ==> #[trigger] final(self).frame_byte(t, off2) == old(
                    self,
                ).frame_byte(t, off2),
            final(self).frames_other_eq(*old(self), t),
    {
        let w = self.read_word(t, off / 8);
        let k = off % 8;
        let w2 = (w & !(0xffu64 << (k * 8))) | ((b as u64) << (k * 8));
        assert(w2 == set_byte_of_word(w, k, b));
        self.write_word(t, off / 8, w2);
        proof {
            lemma_set_byte_of_word(w, k, b, 0);
            assert(self.frame_byte(t, off) == byte_of_word(set_byte_of_word(w, k, b), k));
            assert forall|off2: u64|
                off2 < 4096 && off2 != off implies #[trigger] self.frame_byte(t, off2) == old(
                self,
            ).frame_byte(t, off2) by {
                if off2 / 8 == off / 8 {
                    assert(off2 % 8 != off % 8);
                    lemma_set_byte_of_word(w, k, b, off2 % 8);
                    assert(self.word(t, off2 / 8) == set_byte_of_word(w, k, b));
                } else {
                    assert(self.word(t, off2 / 8) == old(self).word(t, off2 / 8));
                }
            }
        }
    }

    /// Take a frame out of the free pool, zero-fill it, and return it in a
    /// `FrameTracker`; yields `None` when the pool is exhausted, which
    /// callers treat as fatal.
    pub fn alloc_frame(&mut self) -> (r: Option<FrameTracker>)
        requires
            old(self).wf(),
        ensures
            final(self).wf(),
            final(self).frame_count() == old(self).frame_count(),
            match r {
                Some(ft) => {
                    &&& ft.ppn.0 < old(self).frame_count()
                    &&& old(self).is_free(ft.ppn.0)
                    &&& !final(self).is_free(ft.ppn.0)
                    &&& forall|x: u64|
                        #[trigger] final(self).is_free(x) == (old(self).is_free(x) && x
                            != ft.ppn.0)
                    &&& final(self).free_count() == old(self).free_count() - 1
                    &&& final(self).frame_zero(ft.ppn.0)
                    &&& final(self).frames_other_eq(*old(self), ft.ppn.0)
                },
                None => {
                    &&& old(self).free_count() == 0
                    &&& final(self).words@ == old(self).words@
                    &&& final(self).free_list@ == old(self).free_list@
                },
            },
    {
        let popped = self.free_list.pop();
        match popped {
            None => None,
            Some(p) => {
                let ghost mid = *self;
                proof {
                    let last = old(self).free_list@.len() - 1;
                    assert(old(self).free_list@[last] == p);
                    assert forall|x: u64|
                        #[trigger] mid.is_free(x) == (old(self).is_free(x) && x != p) by {
                        if mid.is_free(x) {
                            let j = choose|j: int|
                                0 <= j < mid.free_list@.len() && mid.free_list@[j] == x;
                            assert(old(self).free_list@[j] == x);
                            assert(x != p);
                        }
                        if old(self).is_free(x) && x != p {
                            let j = choose|j: int|
                                0 <= j < old(self).free_list@.len() && old(self).free_list@[j]
                                    == x;
                            assert(j != last);
                            assert(mid.free_list@[j] == x);
                        }
                    }
                }
                let mut j: u64 = 0;
                while j < 512
                    invariant
                        j <= 512,
                        self.wf(),
                        p < self.frame_count(),
                        self.frame_count() == mid.frame_count(),
                        self.free_list@ == mid.free_list@,
                        self.frames_other_eq(mid, p),
                        forall|j2: u64| j2 < j ==> #[trigger] self.word(p, j2) == 0,
                    decreases 512 - j,
                {
                    self.write_word(p, j, 0);
                    j = j + 1;
                }
                proof {
                    assert forall|x: u64|
                        #[trigger] self.is_free(x) == (old(self).is_free(x) && x != p) by {
                        assert(self.is_free(x) == mid.is_free(x));
                    }
                    assert(mid.words@ == old(self).words@);
                    assert forall|s: u64, j2: u64|
                        s < old(self).frame_count() && j2 < 512 && s != p implies #[trigger] self
                        .word(s, j2) == old(self).word(s, j2) by {
                        assert(self.word(s, j2) == mid.word(s, j2));
                    }
                }
                Some(FrameTracker { ppn: PhysPageNum(p) })
            },
        }
    }

    /// Return frame `p` to the free pool. Returning an already-free frame is
    /// a programming error and is ruled out by precondition.
    pub fn dealloc_frame(&mut self, p: u64)
        requires
            old(self).wf(),
            p < old(self).frame_count(),
            !old(self).is_free(p),
        ensures
            final(self).wf(),
            final(self).frame_count() == old(self).frame_count(),
            final(self).words@ == old(self).words@,
            forall|x: u64| #[trigger] final(self).is_free(x) == (old(self).is_free(x) || x == p),
            final(self).free_count() == old(self).free_count() + 1,
    {
        self.free_list.push(p);
        proof {
            assert forall|x: u64|
                #[trigger] self.is_free(x) == (old(self).is_free(x) || x == p) by {
                let last = self.free_list@.len() - 1;
                if old(self).is_free(x) {
                    let j = choose|j: int|
                        0 <= j < old(self).free_list@.len() && old(self).free_list@[j] == x;
                    assert(self.free_list@[j] == x);
                }
                if x == p {
                    assert(self.free_list@[last] == x);
                }
                if self.is_free(x) && x != p {
                    let j = choose|j: int|
                        0 <= j < self.free_list@.len() && self.free_list@[j] == x;
                    assert(j != last);
                    assert(old(self).free_list@[j] == x);
                }
            }
        }
    }
}

/// Take one zero-filled frame from the pool; `None` means physical memory is
/// exhausted, which this subsystem treats as fatal.
pub fn frame_alloc(arena: &mut FrameArena) -> (r: Option<FrameTracker>)
    requires
        old(arena).wf(),
    ensures
        final(arena).wf(),
        final(arena).frame_count() == old(arena).frame_count(),
        match r {
            Some(ft) => {
                &&& ft.ppn.0 < old(arena).frame_count()
                &&& old(arena).is_free(ft.ppn.0)
                &&& forall|x: u64|
                    #[trigger] final(arena).is_free(x) == (old(arena).is_free(x) && x != ft.ppn.0)
                &&& final(arena).free_count() == old(arena).free_count() - 1
                &&& final(arena).frame_zero(ft.ppn.0)
                &&& final(arena).frames_other_eq(*old(arena), ft.ppn.0)
            },
            None => {
                &&& old(arena).free_count() == 0
                &&& final(arena).words@ == old(arena).words@
                &&& final(arena).free_list@ == old(arena).free_list@
            },
        },
{
    arena.alloc_frame()
}

} // verus!
