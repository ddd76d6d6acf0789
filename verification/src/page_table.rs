//! The SV39 three-level radix page table: entry layout, walk, create, map,
//! unmap, translate, and the address-space token.
//!
//! Page-table frames live in the frame arena; an entry slot is addressed by
//! (frame number, slot index) rather than by a raw pointer. The specification
//! side describes the walk as pure functions of the arena contents, and a
//! well-formedness invariant (`tree_wf`) pins down that the table frames of
//! distinct paths are distinct, which is what makes updates local: writing
//! one leaf slot changes no other page's translation.

use vstd::prelude::*;
use vstd::pervasive::unreached;
use crate::address::{PhysPageNum, VirtPageNum, VPNRange, PPN_LIMIT, VA_LIMIT};
use crate::memory_set::{Kernel, MapArea, MapPermission};
use crate::frame_allocator::{FrameArena, FrameTracker};

verus! {

/// Entry flag: the entry is present.
pub const PTE_V: u8 = 0x01;
/// Entry flag: readable.
pub const PTE_R: u8 = 0x02;
/// Entry flag: writable.
pub const PTE_W: u8 = 0x04;
/// Entry flag: executable.
pub const PTE_X: u8 = 0x08;
/// Entry flag: accessible in user mode.
pub const PTE_U: u8 = 0x10;
/// Entry flag: global mapping.
pub const PTE_G: u8 = 0x20;
/// Entry flag: accessed.
pub const PTE_A: u8 = 0x40;
/// Entry flag: dirty.
pub const PTE_D: u8 = 0x80;

/// The eight SV39 entry flag bits as a set.
#[derive(Clone, Copy, PartialEq, Eq, Structural, Debug)]
pub struct PTEFlags {
    pub bits: u8,
}

impl PTEFlags {
    /// The empty flag set.
    pub fn empty() -> (r: PTEFlags)
        ensures
            r.bits == 0,
    {
        PTEFlags { bits: 0 }
    }

    /// Build a flag set from raw bits.
    pub fn from_bits(bits: u8) -> (r: PTEFlags)
        ensures
            r.bits == bits,
    {
        PTEFlags { bits }
    }

    /// The union of two flag sets.
    pub fn union(self, other: PTEFlags) -> (r: PTEFlags)
        ensures
            r.bits == (self.bits | other.bits),
    {
        PTEFlags { bits: self.bits | other.bits }
    }

    /// Whether every flag of `other` is set in `self`.
    pub fn contains(self, other: PTEFlags) -> (r: bool)
        ensures
            r == ((self.bits & other.bits) == other.bits),
    {
        (self.bits & other.bits) == other.bits
    }
}

/// Whether the Valid bit of raw entry `e` is set: the entry is present.
pub open spec fn pte_valid(e: u64) -> bool {
    e & 1 == 1
}

/// The physical page number packed in bits 10..54 of raw entry `e`.
pub open spec fn pte_ppn_of(e: u64) -> u64 {
    (e >> 10) & 0xfff_ffff_ffff
}

/// The low eight flag bits of raw entry `e`.
pub open spec fn pte_flags_of(e: u64) -> u8 {
    (e & 0xff) as u8
}

/// A raw entry packing page number `p` and flag bits `f`.
pub open spec fn pte_pack(p: u64, f: u8) -> u64 {
    (p << 10) | (f as u64)
}

/// Packing a page number below 2^44 with flag bits and unpacking gives them
/// back exactly.
pub proof fn lemma_pte_pack(p: u64, f: u8)
    by (bit_vector)
    requires
        p < 0x1000_0000_0000u64,
    ensures
        pte_ppn_of(pte_pack(p, f)) == p,
        pte_flags_of(pte_pack(p, f)) == f,
        pte_valid(pte_pack(p, f)) == ((f & 1) == 1),
{
}

/// The all-zero entry is not present, and unpacks to page number and flags 0.
pub proof fn lemma_pte_empty()
    by (bit_vector)
    ensures
        !pte_valid(0),
        pte_ppn_of(0) == 0,
        pte_flags_of(0) == 0,
{
}

/// One slot of the radix tree: a 64-bit value packing a physical page number
/// (bits 10..54) and eight flag bits. An entry is present iff Valid is set.
#[derive(Clone, Copy, PartialEq, Eq, Structural, Debug)]
pub struct PageTableEntry {
    pub bits: u64,
}

impl PageTableEntry {
    /// Pack a page number and flags into a new entry. Out-of-range physical
    /// page numbers are rejected by precondition.
    pub fn new(ppn: PhysPageNum, flags: PTEFlags) -> (r: PageTableEntry)
        requires
            ppn.0 < PPN_LIMIT,
        ensures
            r.bits == pte_pack(ppn.0, flags.bits),
            pte_ppn_of(r.bits) == ppn.0,
            pte_flags_of(r.bits) == flags.bits,
            pte_valid(r.bits) == ((flags.bits & 1) == 1),
    {
        proof {
            lemma_pte_pack(ppn.0, flags.bits);
        }
        PageTableEntry { bits: (ppn.0 << 10) | (flags.bits as u64) }
    }

    /// The all-zero, absent entry.
    pub fn empty() -> (r: PageTableEntry)
        ensures
            r.bits == 0,
            !pte_valid(r.bits),
    {
        proof {
            lemma_pte_empty();
        }
        PageTableEntry { bits: 0 }
    }

    /// The physical page number packed in this entry.
    pub fn ppn(&self) -> (r: PhysPageNum)
        ensures
            r.0 == pte_ppn_of(self.bits),
    {
        PhysPageNum((self.bits >> 10) & 0xfff_ffff_ffff)
    }

    /// The flag bits of this entry.
    pub fn flags(&self) -> (r: PTEFlags)
        ensures
            r.bits == pte_flags_of(self.bits),
    {
        PTEFlags { bits: (self.bits & 0xff) as u8 }
    }

    /// Whether the entry is present.
    pub fn is_valid(&self) -> (r: bool)
        ensures
            r == pte_valid(self.bits),
    {
        self.bits & 1 == 1
    }

    /// Whether the Read flag is set.
    pub fn readable(&self) -> (r: bool)
        ensures
            r == ((pte_flags_of(self.bits) & PTE_R) != 0),
    {
        ((self.bits & 0xff) as u8 & PTE_R) != 0
    }

    /// Whether the Write flag is set.
    pub fn writable(&self) -> (r: bool)
        ensures
            r == ((pte_flags_of(self.bits) & PTE_W) != 0),
    {
        ((self.bits & 0xff) as u8 & PTE_W) != 0
    }

    /// Whether the Execute flag is set.
    pub fn executable(&self) -> (r: bool)
        ensures
            r == ((pte_flags_of(self.bits) & PTE_X) != 0),
    {
        ((self.bits & 0xff) as u8 & PTE_X) != 0
    }
}

/// The level-0 (root) index of a virtual page number: its bits 18..27.
pub open spec fn idx0(v: u64) -> u64 {
    (v >> 18) & 0x1ff
}

/// The level-1 index of a virtual page number: its bits 9..18.
pub open spec fn idx1(v: u64) -> u64 {
    (v >> 9) & 0x1ff
}

/// The level-2 (leaf) index of a virtual page number: its low nine bits.
pub open spec fn idx2(v: u64) -> u64 {
    v & 0x1ff
}

/// Whether two virtual page numbers use the same three-level path, that is,
/// agree in their low 27 bits.
pub open spec fn same_path(v: u64, w: u64) -> bool {
    idx0(v) == idx0(w) && idx1(v) == idx1(w) && idx2(v) == idx2(w)
}

/// Each of the three level indexes is below 512.
pub proof fn lemma_idx_bounds(v: u64)
    by (bit_vector)
    ensures
        idx0(v) < 512,
        idx1(v) < 512,
        idx2(v) < 512,
{
}

/// Below 2^27, equal paths mean equal page numbers.
pub proof fn lemma_same_path_below(v: u64, w: u64)
    by (bit_vector)
    requires
        v < 0x800_0000u64,
        w < 0x800_0000u64,
        same_path(v, w),
    ensures
        v == w,
{
}

/// The root-table entry on the path of `v`.
pub open spec fn l0e(a: FrameArena, root: u64, v: u64) -> u64 {
    a.word(root, idx0(v))
}

/// The level-1 table frame on the path of `v` (meaningful when `down0`).
pub open spec fn t1(a: FrameArena, root: u64, v: u64) -> u64 {
    pte_ppn_of(l0e(a, root, v))
}

/// The level-1 entry on the path of `v`.
pub open spec fn l1e(a: FrameArena, root: u64, v: u64) -> u64 {
    a.word(t1(a, root, v), idx1(v))
}

/// The leaf-table frame on the path of `v` (meaningful when `down1`).
pub open spec fn t2(a: FrameArena, root: u64, v: u64) -> u64 {
    pte_ppn_of(l1e(a, root, v))
}

/// The leaf entry on the path of `v`.
pub open spec fn leaf_pte(a: FrameArena, root: u64, v: u64) -> u64 {
    a.word(t2(a, root, v), idx2(v))
}

/// The root entry on the path of `v` is present.
pub open spec fn down0(a: FrameArena, root: u64, v: u64) -> bool {
    pte_valid(l0e(a, root, v))
}

/// Both intermediate entries on the path of `v` are present: the walk
/// reaches a leaf slot.
pub open spec fn down1(a: FrameArena, root: u64, v: u64) -> bool {
    down0(a, root, v) && pte_valid(l1e(a, root, v))
}

/// What the walk-only descent returns: a copy of the leaf entry, or absent
/// if an intermediate entry on the path is not present.
pub open spec fn translate_spec(a: FrameArena, root: u64, v: u64) -> Option<u64> {
    if down1(a, root, v) {
        Some(leaf_pte(a, root, v))
    } else {
        None
    }
}

/// Whether `v` is mapped: the walk reaches a leaf and the leaf is present.
pub open spec fn is_mapped(a: FrameArena, root: u64, v: u64) -> bool {
    down1(a, root, v) && pte_valid(leaf_pte(a, root, v))
}

/// The physical page number `v` is mapped to (meaningful when `is_mapped`).
pub open spec fn mapped_ppn(a: FrameArena, root: u64, v: u64) -> u64 {
    pte_ppn_of(leaf_pte(a, root, v))
}

/// Whether frame `x` serves as a table frame of the tree rooted at `root`:
/// the root itself or a frame some present intermediate entry points to.
pub open spec fn is_table(a: FrameArena, root: u64, x: u64) -> bool {
    ||| x == root
    ||| exists|v: u64| #![trigger t1(a, root, v)] down0(a, root, v) && t1(a, root, v) == x
    ||| exists|v: u64| #![trigger t2(a, root, v)] down1(a, root, v) && t2(a, root, v) == x
}

/// Well-formedness of the tree rooted at `root`: every table frame is in
/// range, not in the free pool, and the table frames of distinct paths are
/// distinct, across and within levels.
pub open spec fn tree_wf(a: FrameArena, root: u64) -> bool {
    &&& a.wf()
    &&& root < a.frame_count()
    &&& !a.is_free(root)
    &&& forall|v: u64|
        down0(a, root, v) ==> (#[trigger] t1(a, root, v)) < a.frame_count() && !a.is_free(
            t1(a, root, v),
        ) && t1(a, root, v) != root
    &&& forall|v: u64, w: u64|
        #![trigger t1(a, root, v), t1(a, root, w)]
        down0(a, root, v) && down0(a, root, w) && idx0(v) != idx0(w) ==> t1(a, root, v) != t1(
            a,
            root,
            w,
        )
    &&& forall|v: u64|
        down1(a, root, v) ==> (#[trigger] t2(a, root, v)) < a.frame_count() && !a.is_free(
            t2(a, root, v),
        ) && t2(a, root, v) != root
    &&& forall|v: u64, w: u64|
        #![trigger t2(a, root, v), t1(a, root, w)]
        down1(a, root, v) && down0(a, root, w) ==> t2(a, root, v) != t1(a, root, w)
    &&& forall|v: u64, w: u64|
        #![trigger t2(a, root, v), t2(a, root, w)]
        down1(a, root, v) && down1(a, root, w) && !(idx0(v) == idx0(w) && idx1(v) == idx1(w))
            ==> t2(a, root, v) != t2(a, root, w)
}

/// Discipline of leaf mappings installed by the address-space layer: every
/// mapped page points at an in-range frame that is neither free nor a table
/// frame, and distinct paths point at distinct frames.
pub open spec fn leaves_ok(a: FrameArena, root: u64) -> bool {
    &&& forall|v: u64|
        #[trigger] is_mapped(a, root, v) ==> mapped_ppn(a, root, v) < a.frame_count()
            && !a.is_free(mapped_ppn(a, root, v)) && !is_table(a, root, mapped_ppn(a, root, v))
    &&& forall|v: u64, w: u64|
        #![trigger mapped_ppn(a, root, v), mapped_ppn(a, root, w)]
        is_mapped(a, root, v) && is_mapped(a, root, w) && !same_path(v, w) ==> mapped_ppn(
            a,
            root,
            v,
        ) != mapped_ppn(a, root, w)
}

} // verus!

verus! {

/// A single-slot update inside one frame: the written word reads back, and
/// every other in-range word is unchanged.
pub proof fn lemma_word_update(a: FrameArena, b: FrameArena, t: u64, i: u64, w: u64)
    requires
        a.wf(),
        t < a.frame_count(),
        i < 512,
        b.frame_count() == a.frame_count(),
        b.words@ == a.words@.update((t as int) * 512 + (i as int), w),
    ensures
        b.word(t, i) == w,
        forall|s: u64, j: u64|
            s < a.frame_count() && j < 512 && !(s == t && j == i) ==> #[trigger] b.word(s, j)
                == a.word(s, j),
        b.frames_other_eq(a, t),
{
    assert((t as int) * 512 + (i as int) < a.frame_count() * 512) by (nonlinear_arith)
        requires t < a.frame_count(), i < 512;
    assert forall|s: u64, j: u64|
        s < a.frame_count() && j < 512 && !(s == t && j == i) implies #[trigger] b.word(s, j)
        == a.word(s, j) by {
        assert((s as int) * 512 + (j as int) != (t as int) * 512 + (i as int)) by (nonlinear_arith)
            requires !(s == t && j == i), j < 512, i < 512;
        assert((s as int) * 512 + (j as int) < a.frame_count() * 512) by (nonlinear_arith)
            requires s < a.frame_count(), j < 512;
    }
}

/// Rewriting a frame that is not a table frame of the tree, and changing no
/// free-pool membership but possibly that frame's own, leaves the tree
/// well-formed and every translation, mapping and table-frame fact as it was.
pub proof fn lemma_nontable_frame_rewrite(a: FrameArena, b: FrameArena, root: u64, p: u64)
    requires
        tree_wf(a, root),
        !is_table(a, root, p),
        b.wf(),
        b.frame_count() == a.frame_count(),
        b.frames_other_eq(a, p),
        forall|x: u64| x != p ==> a.is_free(x) == #[trigger] b.is_free(x),
    ensures
        tree_wf(b, root),
        forall|v: u64| #[trigger] l0e(b, root, v) == l0e(a, root, v),
        forall|v: u64|
            down0(a, root, v) ==> #[trigger] l1e(b, root, v) == l1e(a, root, v),
        forall|v: u64|
            down1(a, root, v) ==> #[trigger] leaf_pte(b, root, v) == leaf_pte(a, root, v),
        forall|v: u64| #[trigger] translate_spec(b, root, v) == translate_spec(a, root, v),
        forall|v: u64| #[trigger] is_mapped(b, root, v) == is_mapped(a, root, v),
        forall|v: u64|
            is_mapped(a, root, v) ==> #[trigger] mapped_ppn(b, root, v) == mapped_ppn(a, root, v),
        forall|x: u64| #[trigger] is_table(b, root, x) == is_table(a, root, x),
{
    assert(is_table(a, root, root));
    assert(root != p);
    assert forall|v: u64| #[trigger] l0e(b, root, v) == l0e(a, root, v) by {
        lemma_idx_bounds(v);
    }
    assert forall|v: u64| down0(a, root, v) implies #[trigger] l1e(b, root, v) == l1e(
        a,
        root,
        v,
    ) by {
        lemma_idx_bounds(v);
        assert(l0e(b, root, v) == l0e(a, root, v));
        assert(is_table(a, root, t1(a, root, v)));
        assert(t1(a, root, v) != p);
        assert(t1(b, root, v) == t1(a, root, v));
    }
    assert forall|v: u64| down1(a, root, v) implies #[trigger] leaf_pte(b, root, v) == leaf_pte(
        a,
        root,
        v,
    ) by {
        lemma_idx_bounds(v);
        assert(l0e(b, root, v) == l0e(a, root, v));
        assert(l1e(b, root, v) == l1e(a, root, v));
        assert(is_table(a, root, t2(a, root, v)));
        assert(t2(a, root, v) != p);
        assert(t2(b, root, v) == t2(a, root, v));
    }
    assert forall|v: u64| #[trigger] translate_spec(b, root, v) == translate_spec(a, root, v) by {
        assert(l0e(b, root, v) == l0e(a, root, v));
        if down0(a, root, v) {
            assert(l1e(b, root, v) == l1e(a, root, v));
            if down1(a, root, v) {
                assert(leaf_pte(b, root, v) == leaf_pte(a, root, v));
            }
        }
    }
    assert forall|v: u64| #[trigger] is_mapped(b, root, v) == is_mapped(a, root, v) by {
        assert(translate_spec(b, root, v) == translate_spec(a, root, v));
    }
    assert forall|x: u64| #[trigger] is_table(b, root, x) == is_table(a, root, x) by {
        if is_table(a, root, x) && x != root {
            if exists|v: u64| #![trigger t1(a, root, v)] down0(a, root, v) && t1(a, root, v)
                == x {
                let v = choose|v: u64|
                    #![trigger t1(a, root, v)]
                    down0(a, root, v) && t1(a, root, v) == x;
                assert(l0e(b, root, v) == l0e(a, root, v));
                assert(down0(b, root, v) && t1(b, root, v) == x);
            } else {
                let v = choose|v: u64|
                    #![trigger t2(a, root, v)]
                    down1(a, root, v) && t2(a, root, v) == x;
                assert(l0e(b, root, v) == l0e(a, root, v));
                assert(l1e(b, root, v) == l1e(a, root, v));
                assert(down1(b, root, v) && t2(b, root, v) == x);
            }
        }
        if is_table(b, root, x) && x != root {
            if exists|v: u64| #![trigger t1(b, root, v)] down0(b, root, v) && t1(b, root, v)
                == x {
                let v = choose|v: u64|
                    #![trigger t1(b, root, v)]
                    down0(b, root, v) && t1(b, root, v) == x;
                assert(l0e(b, root, v) == l0e(a, root, v));
                assert(down0(a, root, v) && t1(a, root, v) == x);
            } else {
                let v = choose|v: u64|
                    #![trigger t2(b, root, v)]
                    down1(b, root, v) && t2(b, root, v) == x;
                assert(l0e(b, root, v) == l0e(a, root, v));
                assert(down0(a, root, v));
                assert(l1e(b, root, v) == l1e(a, root, v));
                assert(down1(a, root, v) && t2(a, root, v) == x);
            }
        }
    }
    assert forall|v: u64|
        down0(b, root, v) implies (#[trigger] t1(b, root, v)) < b.frame_count() && !b.is_free(
        t1(b, root, v),
    ) && t1(b, root, v) != root by {
        assert(l0e(b, root, v) == l0e(a, root, v));
        assert(is_table(a, root, t1(a, root, v)));
        assert(t1(a, root, v) != p);
    }
    assert forall|v: u64|
        down1(b, root, v) implies (#[trigger] t2(b, root, v)) < b.frame_count() && !b.is_free(
        t2(b, root, v),
    ) && t2(b, root, v) != root by {
        assert(l0e(b, root, v) == l0e(a, root, v));
        assert(l1e(b, root, v) == l1e(a, root, v));
        assert(is_table(a, root, t2(a, root, v)));
        assert(t2(a, root, v) != p);
    }
    assert forall|v: u64, w: u64|
        #![trigger t1(b, root, v), t1(b, root, w)]
        down0(b, root, v) && down0(b, root, w) && idx0(v) != idx0(w) implies t1(b, root, v) != t1(
        b,
        root,
        w,
    ) by {
        assert(l0e(b, root, v) == l0e(a, root, v));
        assert(l0e(b, root, w) == l0e(a, root, w));
        assert(t1(a, root, v) != t1(a, root, w));
    }
    assert forall|v: u64, w: u64|
        #![trigger t2(b, root, v), t1(b, root, w)]
        down1(b, root, v) && down0(b, root, w) implies t2(b, root, v) != t1(b, root, w) by {
        assert(l0e(b, root, v) == l0e(a, root, v));
        assert(l1e(b, root, v) == l1e(a, root, v));
        assert(l0e(b, root, w) == l0e(a, root, w));
        assert(t2(a, root, v) != t1(a, root, w));
    }
    assert forall|v: u64, w: u64|
        #![trigger t2(b, root, v), t2(b, root, w)]
        down1(b, root, v) && down1(b, root, w) && !(idx0(v) == idx0(w) && idx1(v) == idx1(w))
        implies t2(b, root, v) != t2(b, root, w) by {
        assert(l0e(b, root, v) == l0e(a, root, v));
        assert(l1e(b, root, v) == l1e(a, root, v));
        assert(l0e(b, root, w) == l0e(a, root, w));
        assert(l1e(b, root, w) == l1e(a, root, w));
        assert(t2(a, root, v) != t2(a, root, w));
    }
}

} // verus!

verus! {

/// Writing the leaf slot on the path of `vpn` sets that page's translation
/// to the written entry and leaves every other path's translation, the tree
/// structure, and every non-table frame untouched.
pub proof fn lemma_leaf_write(a: FrameArena, b: FrameArena, root: u64, vpn: u64, w: u64)
    requires
        tree_wf(a, root),
        down1(a, root, vpn),
        b.wf(),
        b.frame_count() == a.frame_count(),
        b.free_list@ == a.free_list@,
        b.words@ == a.words@.update(
            (t2(a, root, vpn) as int) * 512 + (idx2(vpn) as int),
            w,
        ),
    ensures
        tree_wf(b, root),
        translate_spec(b, root, vpn) == Some(w),
        forall|v: u64|
            same_path(v, vpn) ==> #[trigger] translate_spec(b, root, v) == Some(w),
        forall|v: u64|
            !same_path(v, vpn) ==> #[trigger] translate_spec(b, root, v) == translate_spec(
                a,
                root,
                v,
            ),
        forall|x: u64| #[trigger] is_table(b, root, x) == is_table(a, root, x),
        b.frames_other_eq(a, t2(a, root, vpn)),
{
    let t = t2(a, root, vpn);
    lemma_idx_bounds(vpn);
    lemma_word_update(a, b, t, idx2(vpn), w);
    assert forall|v: u64| #[trigger] l0e(b, root, v) == l0e(a, root, v) by {
        lemma_idx_bounds(v);
        assert(t != root);
    }
    assert forall|v: u64| down0(a, root, v) implies #[trigger] l1e(b, root, v) == l1e(
        a,
        root,
        v,
    ) by {
        lemma_idx_bounds(v);
        assert(l0e(b, root, v) == l0e(a, root, v));
        assert(t2(a, root, vpn) != t1(a, root, v));
        assert(t1(a, root, v) < a.frame_count());
    }
    assert forall|v: u64|
        down1(a, root, v) && !(idx0(v) == idx0(vpn) && idx1(v) == idx1(vpn)) implies #[trigger]
        leaf_pte(b, root, v) == leaf_pte(a, root, v) by {
        lemma_idx_bounds(v);
        assert(l0e(b, root, v) == l0e(a, root, v));
        assert(l1e(b, root, v) == l1e(a, root, v));
        assert(t2(a, root, v) != t);
        assert(t2(a, root, v) < a.frame_count());
    }
    assert forall|v: u64|
        down1(a, root, v) && idx0(v) == idx0(vpn) && idx1(v) == idx1(vpn) implies #[trigger] t2(
        b,
        root,
        v,
    ) == t by {
        lemma_idx_bounds(v);
        assert(l0e(a, root, v) == l0e(a, root, vpn));
        assert(t1(a, root, v) == t1(a, root, vpn));
        assert(l1e(a, root, v) == l1e(a, root, vpn));
        assert(l0e(b, root, v) == l0e(a, root, v));
        assert(l1e(b, root, v) == l1e(a, root, v));
    }
    assert forall|v: u64| same_path(v, vpn) implies #[trigger] translate_spec(b, root, v) == Some(
        w,
    ) by {
        lemma_idx_bounds(v);
        assert(l0e(a, root, v) == l0e(a, root, vpn));
        assert(l1e(a, root, v) == l1e(a, root, vpn));
        assert(l0e(b, root, v) == l0e(a, root, v));
        assert(l1e(b, root, v) == l1e(a, root, v));
        assert(down1(b, root, v));
        assert(t2(b, root, v) == t);
        assert(idx2(v) == idx2(vpn));
        assert(leaf_pte(b, root, v) == b.word(t, idx2(vpn)));
    }
    assert forall|v: u64|
        !same_path(v, vpn) implies #[trigger] translate_spec(b, root, v) == translate_spec(
        a,
        root,
        v,
    ) by {
        lemma_idx_bounds(v);
        assert(l0e(b, root, v) == l0e(a, root, v));
        if down0(a, root, v) {
            assert(l1e(b, root, v) == l1e(a, root, v));
            if down1(a, root, v) {
                if idx0(v) == idx0(vpn) && idx1(v) == idx1(vpn) {
                    assert(idx2(v) != idx2(vpn));
                    assert(t2(b, root, v) == t);
                    assert(t2(a, root, v) == t2(b, root, v));
                    assert(leaf_pte(b, root, v) == leaf_pte(a, root, v));
                } else {
                    assert(leaf_pte(b, root, v) == leaf_pte(a, root, v));
                }
            }
        }
    }
    assert forall|x: u64| #[trigger] is_table(b, root, x) == is_table(a, root, x) by {
        if is_table(a, root, x) && x != root {
            if exists|v: u64| #![trigger t1(a, root, v)] down0(a, root, v) && t1(a, root, v)
                == x {
                let v = choose|v: u64|
                    #![trigger t1(a, root, v)]
                    down0(a, root, v) && t1(a, root, v) == x;
                assert(l0e(b, root, v) == l0e(a, root, v));
                assert(down0(b, root, v) && t1(b, root, v) == x);
            } else {
                let v = choose|v: u64|
                    #![trigger t2(a, root, v)]
                    down1(a, root, v) && t2(a, root, v) == x;
                assert(l0e(b, root, v) == l0e(a, root, v));
                assert(l1e(b, root, v) == l1e(a, root, v));
                assert(down1(b, root, v) && t2(b, root, v) == x);
            }
        }
        if is_table(b, root, x) && x != root {
            if exists|v: u64| #![trigger t1(b, root, v)] down0(b, root, v) && t1(b, root, v)
                == x {
                let v = choose|v: u64|
                    #![trigger t1(b, root, v)]
                    down0(b, root, v) && t1(b, root, v) == x;
                assert(l0e(b, root, v) == l0e(a, root, v));
                assert(down0(a, root, v) && t1(a, root, v) == x);
            } else {
                let v = choose|v: u64|
                    #![trigger t2(b, root, v)]
                    down1(b, root, v) && t2(b, root, v) == x;
                assert(l0e(b, root, v) == l0e(a, root, v));
                assert(down0(a, root, v));
                assert(l1e(b, root, v) == l1e(a, root, v));
                assert(down1(a, root, v) && t2(a, root, v) == x);
            }
        }
    }
    assert forall|v: u64|
        down0(b, root, v) implies (#[trigger] t1(b, root, v)) < b.frame_count() && !b.is_free(
        t1(b, root, v),
    ) && t1(b, root, v) != root by {
        assert(l0e(b, root, v) == l0e(a, root, v));
        assert(down0(a, root, v));
        assert(t1(b, root, v) == t1(a, root, v));
        assert(t1(a, root, v) < a.frame_count() && !a.is_free(t1(a, root, v)) && t1(a, root, v)
            != root);
    }
    assert forall|v: u64|
        down1(b, root, v) implies (#[trigger] t2(b, root, v)) < b.frame_count() && !b.is_free(
        t2(b, root, v),
    ) && t2(b, root, v) != root by {
        assert(l0e(b, root, v) == l0e(a, root, v));
        assert(down0(a, root, v));
        assert(l1e(b, root, v) == l1e(a, root, v));
        assert(down1(a, root, v));
        assert(t2(b, root, v) == t2(a, root, v));
        assert(t2(a, root, v) < a.frame_count() && !a.is_free(t2(a, root, v)) && t2(a, root, v)
            != root);
    }
    assert forall|v: u64, w2: u64|
        #![trigger t1(b, root, v), t1(b, root, w2)]
        down0(b, root, v) && down0(b, root, w2) && idx0(v) != idx0(w2) implies t1(b, root, v)
        != t1(b, root, w2) by {
        assert(l0e(b, root, v) == l0e(a, root, v));
        assert(l0e(b, root, w2) == l0e(a, root, w2));
        assert(down0(a, root, v) && down0(a, root, w2));
        assert(t1(b, root, v) == t1(a, root, v) && t1(b, root, w2) == t1(a, root, w2));
        assert(t1(a, root, v) != t1(a, root, w2));
    }
    assert forall|v: u64, w2: u64|
        #![trigger t2(b, root, v), t1(b, root, w2)]
        down1(b, root, v) && down0(b, root, w2) implies t2(b, root, v) != t1(b, root, w2) by {
        assert(l0e(b, root, v) == l0e(a, root, v));
        assert(l1e(b, root, v) == l1e(a, root, v));
        assert(l0e(b, root, w2) == l0e(a, root, w2));
        assert(down1(a, root, v) && down0(a, root, w2));
        assert(t2(b, root, v) == t2(a, root, v) && t1(b, root, w2) == t1(a, root, w2));
        assert(t2(a, root, v) != t1(a, root, w2));
    }
    assert forall|v: u64, w2: u64|
        #![trigger t2(b, root, v), t2(b, root, w2)]
        down1(b, root, v) && down1(b, root, w2) && !(idx0(v) == idx0(w2) && idx1(v) == idx1(w2))
        implies t2(b, root, v) != t2(b, root, w2) by {
        assert(l0e(b, root, v) == l0e(a, root, v));
        assert(l1e(b, root, v) == l1e(a, root, v));
        assert(l0e(b, root, w2) == l0e(a, root, w2));
        assert(l1e(b, root, w2) == l1e(a, root, w2));
        assert(down1(a, root, v) && down1(a, root, w2));
        assert(t2(b, root, v) == t2(a, root, v) && t2(b, root, w2) == t2(a, root, w2));
        assert(t2(a, root, v) != t2(a, root, w2));
    }
}

} // verus!

verus! {

/// Installing a fresh, zeroed, non-table frame `p` as the level-1 table on
/// the path of `vpn` (writing the root slot) changes no translation at all:
/// the new paths end at zero entries. `p` becomes a table frame.
pub proof fn lemma_install_l1(a: FrameArena, b: FrameArena, root: u64, vpn: u64, p: u64)
    requires
        tree_wf(a, root),
        !down0(a, root, vpn),
        p < a.frame_count(),
        !a.is_free(p),
        !is_table(a, root, p),
        a.frame_zero(p),
        b.wf(),
        b.frame_count() == a.frame_count(),
        b.free_list@ == a.free_list@,
        b.words@ == a.words@.update(
            (root as int) * 512 + (idx0(vpn) as int),
            pte_pack(p, PTE_V),
        ),
    ensures
        tree_wf(b, root),
        down0(b, root, vpn),
        t1(b, root, vpn) == p,
        !down1(b, root, vpn),
        l0e(b, root, vpn) == pte_pack(p, PTE_V),
        forall|v: u64| #[trigger] translate_spec(b, root, v) == translate_spec(a, root, v),
        forall|v: u64| #[trigger] is_mapped(b, root, v) == is_mapped(a, root, v),
        forall|v: u64|
            is_mapped(a, root, v) ==> #[trigger] mapped_ppn(b, root, v) == mapped_ppn(a, root, v),
        forall|x: u64| #[trigger] is_table(b, root, x) == (is_table(a, root, x) || x == p),
        b.frames_other_eq(a, root),
{
    let e = pte_pack(p, PTE_V);
    lemma_idx_bounds(vpn);
    lemma_word_update(a, b, root, idx0(vpn), e);
    assert(p < 0x1000_0000_0000u64);
    lemma_pte_pack(p, PTE_V);
    assert((PTE_V & 1) == 1) by (bit_vector);
    assert(pte_valid(e) && pte_ppn_of(e) == p);
    assert(is_table(a, root, root));
    assert(p != root);
    assert forall|v: u64|
        idx0(v) != idx0(vpn) implies #[trigger] l0e(b, root, v) == l0e(a, root, v) by {
        lemma_idx_bounds(v);
    }
    assert forall|v: u64| idx0(v) == idx0(vpn) implies #[trigger] l0e(b, root, v) == e by {
        assert(l0e(b, root, v) == b.word(root, idx0(vpn)));
    }
    assert forall|v: u64|
        down0(a, root, v) implies #[trigger] l1e(b, root, v) == l1e(a, root, v) by {
        lemma_idx_bounds(v);
        assert(idx0(v) != idx0(vpn));
        assert(l0e(b, root, v) == l0e(a, root, v));
        assert(t1(a, root, v) != root && t1(a, root, v) < a.frame_count());
    }
    assert forall|v: u64|
        down1(a, root, v) implies #[trigger] leaf_pte(b, root, v) == leaf_pte(a, root, v) by {
        lemma_idx_bounds(v);
        assert(l0e(b, root, v) == l0e(a, root, v));
        assert(l1e(b, root, v) == l1e(a, root, v));
        assert(t2(a, root, v) != root && t2(a, root, v) < a.frame_count());
    }
    assert forall|v: u64|
        idx0(v) == idx0(vpn) implies !(#[trigger] down1(b, root, v)) && !down0(a, root, v) by {
        lemma_idx_bounds(v);
        assert(l0e(b, root, v) == e);
        assert(t1(b, root, v) == p);
        assert(l1e(b, root, v) == b.word(p, idx1(v)));
        assert(b.word(p, idx1(v)) == a.word(p, idx1(v)));
        assert(a.word(p, idx1(v)) == 0);
        lemma_pte_empty();
        assert(l0e(a, root, v) == l0e(a, root, vpn));
    }
    assert forall|v: u64| #[trigger] translate_spec(b, root, v) == translate_spec(a, root, v) by {
        if idx0(v) == idx0(vpn) {
            assert(!down1(b, root, v) && !down0(a, root, v));
        } else {
            assert(l0e(b, root, v) == l0e(a, root, v));
            if down0(a, root, v) {
                assert(l1e(b, root, v) == l1e(a, root, v));
                if down1(a, root, v) {
                    assert(leaf_pte(b, root, v) == leaf_pte(a, root, v));
                }
            }
        }
    }
    assert forall|v: u64| #[trigger] is_mapped(b, root, v) == is_mapped(a, root, v) by {
        assert(translate_spec(b, root, v) == translate_spec(a, root, v));
    }
    assert forall|v: u64|
        is_mapped(a, root, v) implies #[trigger] mapped_ppn(b, root, v) == mapped_ppn(
        a,
        root,
        v,
    ) by {
        assert(idx0(v) != idx0(vpn));
        assert(l0e(b, root, v) == l0e(a, root, v));
        assert(l1e(b, root, v) == l1e(a, root, v));
        assert(leaf_pte(b, root, v) == leaf_pte(a, root, v));
    }
    assert(down0(b, root, vpn) && t1(b, root, vpn) == p && !down1(b, root, vpn));
    assert forall|x: u64|
        #[trigger] is_table(b, root, x) == (is_table(a, root, x) || x == p) by {
        if is_table(a, root, x) && x != root {
            if exists|v: u64| #![trigger t1(a, root, v)] down0(a, root, v) && t1(a, root, v)
                == x {
                let v = choose|v: u64|
                    #![trigger t1(a, root, v)]
                    down0(a, root, v) && t1(a, root, v) == x;
                assert(idx0(v) != idx0(vpn));
                assert(l0e(b, root, v) == l0e(a, root, v));
                assert(down0(b, root, v) && t1(b, root, v) == x);
            } else {
                let v = choose|v: u64|
                    #![trigger t2(a, root, v)]
                    down1(a, root, v) && t2(a, root, v) == x;
                assert(idx0(v) != idx0(vpn));
                assert(l0e(b, root, v) == l0e(a, root, v));
                assert(l1e(b, root, v) == l1e(a, root, v));
                assert(down1(b, root, v) && t2(b, root, v) == x);
            }
        }
        if x == p {
            assert(down0(b, root, vpn) && t1(b, root, vpn) == x);
        }
        if is_table(b, root, x) && x != root && x != p {
            if exists|v: u64| #![trigger t1(b, root, v)] down0(b, root, v) && t1(b, root, v)
                == x {
                let v = choose|v: u64|
                    #![trigger t1(b, root, v)]
                    down0(b, root, v) && t1(b, root, v) == x;
                if idx0(v) == idx0(vpn) {
                    assert(l0e(b, root, v) == e);
                    assert(t1(b, root, v) == p);
                } else {
                    assert(l0e(b, root, v) == l0e(a, root, v));
                    assert(down0(a, root, v) && t1(a, root, v) == x);
                }
            } else {
                let v = choose|v: u64|
                    #![trigger t2(b, root, v)]
                    down1(b, root, v) && t2(b, root, v) == x;
                assert(idx0(v) != idx0(vpn));
                assert(l0e(b, root, v) == l0e(a, root, v));
                assert(down0(a, root, v));
                assert(l1e(b, root, v) == l1e(a, root, v));
                assert(down1(a, root, v) && t2(a, root, v) == x);
            }
        }
    }
    assert forall|v: u64|
        down0(b, root, v) implies (#[trigger] t1(b, root, v)) < b.frame_count() && !b.is_free(
        t1(b, root, v),
    ) && t1(b, root, v) != root by {
        if idx0(v) == idx0(vpn) {
            assert(l0e(b, root, v) == e);
            assert(t1(b, root, v) == p);
        } else {
            assert(l0e(b, root, v) == l0e(a, root, v));
            assert(down0(a, root, v));
            assert(t1(b, root, v) == t1(a, root, v));
            assert(t1(a, root, v) < a.frame_count() && !a.is_free(t1(a, root, v)) && t1(
                a,
                root,
                v,
            ) != root);
        }
    }
    assert forall|v: u64|
        down1(b, root, v) implies (#[trigger] t2(b, root, v)) < b.frame_count() && !b.is_free(
        t2(b, root, v),
    ) && t2(b, root, v) != root by {
        assert(idx0(v) != idx0(vpn));
        assert(l0e(b, root, v) == l0e(a, root, v));
        assert(down0(a, root, v));
        assert(l1e(b, root, v) == l1e(a, root, v));
        assert(down1(a, root, v));
        assert(t2(b, root, v) == t2(a, root, v));
        assert(t2(a, root, v) < a.frame_count() && !a.is_free(t2(a, root, v)) && t2(a, root, v)
            != root);
    }
    assert forall|v: u64, w2: u64|
        #![trigger t1(b, root, v), t1(b, root, w2)]
        down0(b, root, v) && down0(b, root, w2) && idx0(v) != idx0(w2) implies t1(b, root, v)
        != t1(b, root, w2) by {
        if idx0(v) == idx0(vpn) {
            assert(t1(b, root, v) == p);
            assert(l0e(b, root, w2) == l0e(a, root, w2));
            assert(down0(a, root, w2));
            assert(is_table(a, root, t1(a, root, w2)));
            assert(t1(b, root, w2) == t1(a, root, w2));
        } else if idx0(w2) == idx0(vpn) {
            assert(t1(b, root, w2) == p);
            assert(l0e(b, root, v) == l0e(a, root, v));
            assert(down0(a, root, v));
            assert(is_table(a, root, t1(a, root, v)));
            assert(t1(b, root, v) == t1(a, root, v));
        } else {
            assert(l0e(b, root, v) == l0e(a, root, v));
            assert(l0e(b, root, w2) == l0e(a, root, w2));
            assert(down0(a, root, v) && down0(a, root, w2));
            assert(t1(b, root, v) == t1(a, root, v) && t1(b, root, w2) == t1(a, root, w2));
            assert(t1(a, root, v) != t1(a, root, w2));
        }
    }
    assert forall|v: u64, w2: u64|
        #![trigger t2(b, root, v), t1(b, root, w2)]
        down1(b, root, v) && down0(b, root, w2) implies t2(b, root, v) != t1(b, root, w2) by {
        assert(idx0(v) != idx0(vpn));
        assert(l0e(b, root, v) == l0e(a, root, v));
        assert(down0(a, root, v));
        assert(l1e(b, root, v) == l1e(a, root, v));
        assert(down1(a, root, v));
        assert(t2(b, root, v) == t2(a, root, v));
        assert(is_table(a, root, t2(a, root, v)));
        if idx0(w2) == idx0(vpn) {
            assert(l0e(b, root, w2) == e);
            assert(t1(b, root, w2) == p);
        } else {
            assert(l0e(b, root, w2) == l0e(a, root, w2));
            assert(down0(a, root, w2));
            assert(t1(b, root, w2) == t1(a, root, w2));
            assert(t2(a, root, v) != t1(a, root, w2));
        }
    }
    assert forall|v: u64, w2: u64|
        #![trigger t2(b, root, v), t2(b, root, w2)]
        down1(b, root, v) && down1(b, root, w2) && !(idx0(v) == idx0(w2) && idx1(v) == idx1(w2))
        implies t2(b, root, v) != t2(b, root, w2) by {
        assert(idx0(v) != idx0(vpn) && idx0(w2) != idx0(vpn));
        assert(l0e(b, root, v) == l0e(a, root, v));
        assert(l1e(b, root, v) == l1e(a, root, v));
        assert(l0e(b, root, w2) == l0e(a, root, w2));
        assert(l1e(b, root, w2) == l1e(a, root, w2));
        assert(down1(a, root, v) && down1(a, root, w2));
        assert(t2(b, root, v) == t2(a, root, v) && t2(b, root, w2) == t2(a, root, w2));
        assert(t2(a, root, v) != t2(a, root, w2));
    }
}

} // verus!

verus! {

/// Installing a fresh, zeroed, non-table frame `p` as the leaf table on the
/// path of `vpn` (writing the level-1 slot) maps nothing: the paths through
/// `p` now reach zero leaf entries. No mapping changes; `p` becomes a table
/// frame.
pub proof fn lemma_install_l2(a: FrameArena, b: FrameArena, root: u64, vpn: u64, p: u64)
    requires
        tree_wf(a, root),
        down0(a, root, vpn),
        !down1(a, root, vpn),
        p < a.frame_count(),
        !a.is_free(p),
        !is_table(a, root, p),
        a.frame_zero(p),
        b.wf(),
        b.frame_count() == a.frame_count(),
        b.free_list@ == a.free_list@,
        b.words@ == a.words@.update(
            (t1(a, root, vpn) as int) * 512 + (idx1(vpn) as int),
            pte_pack(p, PTE_V),
        ),
    ensures
        tree_wf(b, root),
        down1(b, root, vpn),
        t2(b, root, vpn) == p,
        leaf_pte(b, root, vpn) == 0,
        l1e(b, root, vpn) == pte_pack(p, PTE_V),
        forall|v: u64| #[trigger] l0e(b, root, v) == l0e(a, root, v),
        forall|v: u64| #[trigger] is_mapped(b, root, v) == is_mapped(a, root, v),
        forall|v: u64|
            is_mapped(a, root, v) ==> #[trigger] mapped_ppn(b, root, v) == mapped_ppn(a, root, v),
        forall|v: u64|
            down1(a, root, v) ==> #[trigger] leaf_pte(b, root, v) == leaf_pte(a, root, v),
        forall|v: u64|
            !(idx0(v) == idx0(vpn) && idx1(v) == idx1(vpn)) ==> #[trigger] translate_spec(
                b,
                root,
                v,
            ) == translate_spec(a, root, v),
        forall|x: u64| #[trigger] is_table(b, root, x) == (is_table(a, root, x) || x == p),
        b.frames_other_eq(a, t1(a, root, vpn)),
{
    let e = pte_pack(p, PTE_V);
    let tt = t1(a, root, vpn);
    lemma_idx_bounds(vpn);
    assert(tt < a.frame_count() && tt != root);
    lemma_word_update(a, b, tt, idx1(vpn), e);
    assert(p < 0x1000_0000_0000u64);
    lemma_pte_pack(p, PTE_V);
    assert((PTE_V & 1) == 1) by (bit_vector);
    assert(pte_valid(e) && pte_ppn_of(e) == p);
    assert(is_table(a, root, root));
    assert(is_table(a, root, tt));
    assert(p != root && p != tt);
    assert forall|v: u64| #[trigger] l0e(b, root, v) == l0e(a, root, v) by {
        lemma_idx_bounds(v);
    }
    assert forall|v: u64|
        down0(a, root, v) && idx0(v) == idx0(vpn) implies #[trigger] t1(a, root, v) == tt by {
        assert(l0e(a, root, v) == l0e(a, root, vpn));
    }
    assert forall|v: u64|
        down0(a, root, v) && idx0(v) != idx0(vpn) implies #[trigger] l1e(b, root, v) == l1e(
        a,
        root,
        v,
    ) by {
        lemma_idx_bounds(v);
        assert(l0e(b, root, v) == l0e(a, root, v));
        assert(t1(a, root, v) != tt);
        assert(t1(a, root, v) < a.frame_count());
    }
    assert forall|v: u64|
        down0(a, root, v) && idx0(v) == idx0(vpn) && idx1(v) != idx1(vpn) implies #[trigger] l1e(
        b,
        root,
        v,
    ) == l1e(a, root, v) by {
        lemma_idx_bounds(v);
        assert(l0e(b, root, v) == l0e(a, root, v));
        assert(t1(a, root, v) == tt);
        assert(b.word(tt, idx1(v)) == a.word(tt, idx1(v)));
    }
    assert forall|v: u64|
        idx0(v) == idx0(vpn) && idx1(v) == idx1(vpn) implies #[trigger] down1(b, root, v) && t2(
        b,
        root,
        v,
    ) == p && leaf_pte(b, root, v) == 0 && !is_mapped(b, root, v) && !down1(a, root, v) by {
        lemma_idx_bounds(v);
        assert(l0e(b, root, v) == l0e(a, root, v));
        assert(l0e(a, root, v) == l0e(a, root, vpn));
        assert(down0(a, root, v) && t1(a, root, v) == tt);
        assert(l1e(b, root, v) == b.word(tt, idx1(vpn)));
        assert(l1e(b, root, v) == e);
        assert(t2(b, root, v) == p);
        assert(leaf_pte(b, root, v) == b.word(p, idx2(v)));
        assert(b.word(p, idx2(v)) == a.word(p, idx2(v)));
        assert(a.word(p, idx2(v)) == 0);
        lemma_pte_empty();
        assert(l1e(a, root, v) == l1e(a, root, vpn));
    }
    assert(down1(b, root, vpn) && t2(b, root, vpn) == p && leaf_pte(b, root, vpn) == 0);
    assert forall|v: u64|
        down1(a, root, v) implies #[trigger] leaf_pte(b, root, v) == leaf_pte(a, root, v)
        && down1(b, root, v) by {
        lemma_idx_bounds(v);
        assert(l0e(b, root, v) == l0e(a, root, v));
        if idx0(v) == idx0(vpn) && idx1(v) == idx1(vpn) {
            assert(l1e(a, root, v) == l1e(a, root, vpn));
            assert(false);
        }
        assert(l1e(b, root, v) == l1e(a, root, v));
        assert(t2(a, root, v) != tt);
        assert(t2(a, root, v) < a.frame_count());
        assert(leaf_pte(b, root, v) == b.word(t2(a, root, v), idx2(v)));
    }
    assert forall|v: u64|
        !(idx0(v) == idx0(vpn) && idx1(v) == idx1(vpn)) implies #[trigger] translate_spec(
        b,
        root,
        v,
    ) == translate_spec(a, root, v) by {
        assert(l0e(b, root, v) == l0e(a, root, v));
        if down0(a, root, v) {
            assert(l1e(b, root, v) == l1e(a, root, v));
            if down1(a, root, v) {
                assert(leaf_pte(b, root, v) == leaf_pte(a, root, v));
            }
        }
    }
    assert forall|v: u64| #[trigger] is_mapped(b, root, v) == is_mapped(a, root, v) by {
        if idx0(v) == idx0(vpn) && idx1(v) == idx1(vpn) {
            assert(!is_mapped(b, root, v) && !down1(a, root, v));
        } else {
            assert(translate_spec(b, root, v) == translate_spec(a, root, v));
        }
    }
    assert forall|v: u64|
        is_mapped(a, root, v) implies #[trigger] mapped_ppn(b, root, v) == mapped_ppn(
        a,
        root,
        v,
    ) by {
        assert(leaf_pte(b, root, v) == leaf_pte(a, root, v));
    }
    assert forall|x: u64|
        #[trigger] is_table(b, root, x) == (is_table(a, root, x) || x == p) by {
        if is_table(a, root, x) && x != root {
            if exists|v: u64| #![trigger t1(a, root, v)] down0(a, root, v) && t1(a, root, v)
                == x {
                let v = choose|v: u64|
                    #![trigger t1(a, root, v)]
                    down0(a, root, v) && t1(a, root, v) == x;
                assert(l0e(b, root, v) == l0e(a, root, v));
                assert(down0(b, root, v) && t1(b, root, v) == x);
            } else {
                let v = choose|v: u64|
                    #![trigger t2(a, root, v)]
                    down1(a, root, v) && t2(a, root, v) == x;
                assert(leaf_pte(b, root, v) == leaf_pte(a, root, v)) ;
                assert(down1(b, root, v));
                assert(l0e(b, root, v) == l0e(a, root, v));
                if idx0(v) == idx0(vpn) && idx1(v) == idx1(vpn) {
                    assert(l1e(a, root, v) == l1e(a, root, vpn));
                    assert(false);
                }
                assert(l1e(b, root, v) == l1e(a, root, v));
                assert(t2(b, root, v) == x);
            }
        }
        if x == p {
            assert(down1(b, root, vpn) && t2(b, root, vpn) == x);
        }
        if is_table(b, root, x) && x != root && x != p {
            if exists|v: u64| #![trigger t1(b, root, v)] down0(b, root, v) && t1(b, root, v)
                == x {
                let v = choose|v: u64|
                    #![trigger t1(b, root, v)]
                    down0(b, root, v) && t1(b, root, v) == x;
                assert(l0e(b, root, v) == l0e(a, root, v));
                assert(down0(a, root, v) && t1(a, root, v) == x);
            } else {
                let v = choose|v: u64|
                    #![trigger t2(b, root, v)]
                    down1(b, root, v) && t2(b, root, v) == x;
                assert(l0e(b, root, v) == l0e(a, root, v));
                assert(down0(a, root, v));
                if idx0(v) == idx0(vpn) && idx1(v) == idx1(vpn) {
                    assert(t2(b, root, v) == p);
                    assert(false);
                }
                assert(l1e(b, root, v) == l1e(a, root, v));
                assert(down1(a, root, v) && t2(a, root, v) == x);
            }
        }
    }
    assert forall|v: u64|
        down0(b, root, v) implies (#[trigger] t1(b, root, v)) < b.frame_count() && !b.is_free(
        t1(b, root, v),
    ) && t1(b, root, v) != root by {
        assert(l0e(b, root, v) == l0e(a, root, v));
        assert(down0(a, root, v));
        assert(t1(b, root, v) == t1(a, root, v));
        assert(t1(a, root, v) < a.frame_count() && !a.is_free(t1(a, root, v)) && t1(a, root, v)
            != root);
    }
    assert forall|v: u64|
        down1(b, root, v) implies (#[trigger] t2(b, root, v)) < b.frame_count() && !b.is_free(
        t2(b, root, v),
    ) && t2(b, root, v) != root by {
        assert(l0e(b, root, v) == l0e(a, root, v));
        assert(down0(a, root, v));
        if idx0(v) == idx0(vpn) && idx1(v) == idx1(vpn) {
            assert(t2(b, root, v) == p);
        } else {
            assert(l1e(b, root, v) == l1e(a, root, v));
            assert(down1(a, root, v));
            assert(t2(b, root, v) == t2(a, root, v));
            assert(t2(a, root, v) < a.frame_count() && !a.is_free(t2(a, root, v)) && t2(
                a,
                root,
                v,
            ) != root);
        }
    }
    assert forall|v: u64, w2: u64|
        #![trigger t1(b, root, v), t1(b, root, w2)]
        down0(b, root, v) && down0(b, root, w2) && idx0(v) != idx0(w2) implies t1(b, root, v)
        != t1(b, root, w2) by {
        assert(l0e(b, root, v) == l0e(a, root, v));
        assert(l0e(b, root, w2) == l0e(a, root, w2));
        assert(down0(a, root, v) && down0(a, root, w2));
        assert(t1(b, root, v) == t1(a, root, v) && t1(b, root, w2) == t1(a, root, w2));
        assert(t1(a, root, v) != t1(a, root, w2));
    }
    assert forall|v: u64, w2: u64|
        #![trigger t2(b, root, v), t1(b, root, w2)]
        down1(b, root, v) && down0(b, root, w2) implies t2(b, root, v) != t1(b, root, w2) by {
        assert(l0e(b, root, v) == l0e(a, root, v));
        assert(down0(a, root, v));
        assert(l0e(b, root, w2) == l0e(a, root, w2));
        assert(down0(a, root, w2));
        assert(t1(b, root, w2) == t1(a, root, w2));
        assert(is_table(a, root, t1(a, root, w2)));
        if idx0(v) == idx0(vpn) && idx1(v) == idx1(vpn) {
            assert(t2(b, root, v) == p);
        } else {
            assert(l1e(b, root, v) == l1e(a, root, v));
            assert(down1(a, root, v));
            assert(t2(b, root, v) == t2(a, root, v));
            assert(t2(a, root, v) != t1(a, root, w2));
        }
    }
    assert forall|v: u64, w2: u64|
        #![trigger t2(b, root, v), t2(b, root, w2)]
        down1(b, root, v) && down1(b, root, w2) && !(idx0(v) == idx0(w2) && idx1(v) == idx1(w2))
        implies t2(b, root, v) != t2(b, root, w2) by {
        assert(l0e(b, root, v) == l0e(a, root, v));
        assert(l0e(b, root, w2) == l0e(a, root, w2));
        assert(down0(a, root, v) && down0(a, root, w2));
        let vnew = idx0(v) == idx0(vpn) && idx1(v) == idx1(vpn);
        let wnew = idx0(w2) == idx0(vpn) && idx1(w2) == idx1(vpn);
        if vnew && wnew {
            assert(false);
        } else if vnew {
            assert(t2(b, root, v) == p);
            assert(l1e(b, root, w2) == l1e(a, root, w2));
            assert(down1(a, root, w2));
            assert(t2(b, root, w2) == t2(a, root, w2));
            assert(is_table(a, root, t2(a, root, w2)));
        } else if wnew {
            assert(t2(b, root, w2) == p);
            assert(l1e(b, root, v) == l1e(a, root, v));
            assert(down1(a, root, v));
            assert(t2(b, root, v) == t2(a, root, v));
            assert(is_table(a, root, t2(a, root, v)));
        } else {
            assert(l1e(b, root, v) == l1e(a, root, v));
            assert(l1e(b, root, w2) == l1e(a, root, w2));
            assert(down1(a, root, v) && down1(a, root, w2));
            assert(t2(b, root, v) == t2(a, root, v) && t2(b, root, w2) == t2(a, root, w2));
            assert(t2(a, root, v) != t2(a, root, w2));
        }
    }
}

} // verus!

verus! {

/// How one arena state may follow another under page-table work rooted at
/// `root`: the pool only shrinks, table frames grow only out of the pool,
/// and every frame that was allocated and not a table keeps its contents.
pub open spec fn evolves(a0: FrameArena, a1: FrameArena, root: u64) -> bool {
    &&& a1.frame_count() == a0.frame_count()
    &&& forall|x: u64| #[trigger] a1.is_free(x) ==> a0.is_free(x)
    &&& forall|x: u64|
        #[trigger] is_table(a1, root, x) ==> is_table(a0, root, x) || a0.is_free(x)
    &&& forall|s: u64, j: u64|
        s < a0.frame_count() && j < 512 && !a0.is_free(s) && !is_table(a0, root, s)
            ==> #[trigger] a1.word(s, j) == a0.word(s, j)
}

/// `evolves` composes.
pub proof fn lemma_evolves_trans(a0: FrameArena, a1: FrameArena, a2: FrameArena, root: u64)
    requires
        evolves(a0, a1, root),
        evolves(a1, a2, root),
    ensures
        evolves(a0, a2, root),
{
    assert forall|s: u64, j: u64|
        s < a0.frame_count() && j < 512 && !a0.is_free(s) && !is_table(a0, root, s)
        implies #[trigger] a2.word(s, j) == a0.word(s, j) by {
        assert(!a1.is_free(s));
        assert(!is_table(a1, root, s));
        assert(a1.word(s, j) == a0.word(s, j));
    }
}

/// A frame in the free pool is never a table frame of a well-formed tree.
pub proof fn lemma_free_not_table(a: FrameArena, root: u64, p: u64)
    requires
        tree_wf(a, root),
        a.is_free(p),
    ensures
        !is_table(a, root, p),
{
    if is_table(a, root, p) {
        if p == root {
        } else if exists|v: u64| #![trigger t1(a, root, v)] down0(a, root, v) && t1(a, root, v)
            == p {
            let v = choose|v: u64|
                #![trigger t1(a, root, v)]
                down0(a, root, v) && t1(a, root, v) == p;
            assert(!a.is_free(t1(a, root, v)));
        } else {
            let v = choose|v: u64|
                #![trigger t2(a, root, v)]
                down1(a, root, v) && t2(a, root, v) == p;
            assert(!a.is_free(t2(a, root, v)));
        }
    }
}

/// The low 44 bits of a token built from a root below 2^44 give the root
/// back.
pub proof fn lemma_token_round_trip(root: u64)
    by (bit_vector)
    requires
        root < 0x1000_0000_0000u64,
    ensures
        ((8u64 << 60) | root) & 0xfff_ffff_ffff == root,
{
}

/// The three-level radix page table: the root frame's page number together
/// with the table frames this table has allocated and owns (`frames` grows
/// by exactly the frames taken from the pool, as `new`, `find_pte_create`
/// and `map` ensure; the exclusivity discipline itself — tables distinct,
/// allocated, never aliased by data frames — is carried by the arena
/// invariants `tree_wf` and `leaves_ok`). A table built from a saved token
/// owns no frames: it reads and mutates frames owned elsewhere and must
/// never be credited with them.
pub struct PageTable {
    pub root_ppn: PhysPageNum,
    pub frames: Vec<FrameTracker>,
}

impl PageTable {
    /// The root frame's page number.
    pub open spec fn root(self) -> u64 {
        self.root_ppn.0
    }

    /// The address-space token: the SV39 mode tag in the top bits and the
    /// root frame's page number in the low 44 bits.
    pub open spec fn token_spec(self) -> u64 {
        (8u64 << 60) | self.root()
    }

    /// Create a new page table with a freshly allocated, zeroed root frame.
    /// Frame-pool exhaustion is fatal and excluded by precondition.
    pub fn new(arena: &mut FrameArena) -> (pt: PageTable)
        requires
            old(arena).wf(),
            old(arena).free_count() >= 1,
        ensures
            final(arena).wf(),
            final(arena).frame_count() == old(arena).frame_count(),
            tree_wf(*final(arena), pt.root()),
            pt.root() < final(arena).frame_count(),
            old(arena).is_free(pt.root()),
            forall|v: u64| #[trigger] translate_spec(*final(arena), pt.root(), v) == None::<u64>,
            forall|v: u64| !(#[trigger] is_mapped(*final(arena), pt.root(), v)),
            forall|x: u64| #[trigger] is_table(*final(arena), pt.root(), x) == (x == pt.root()),
            forall|x: u64|
                #[trigger] final(arena).is_free(x) == (old(arena).is_free(x) && x != pt.root()),
            final(arena).free_count() == old(arena).free_count() - 1,
            final(arena).frames_other_eq(*old(arena), pt.root()),
            pt.frames@.len() == 1,
    {
        let ft = match arena.alloc_frame() {
            Some(f) => f,
            None => unreached(),
        };
        let root = ft.ppn.0;
        proof {
            assert forall|v: u64| !(#[trigger] down0(*arena, root, v)) by {
                lemma_idx_bounds(v);
                assert(arena.word(root, idx0(v)) == 0);
                lemma_pte_empty();
            }
            assert forall|x: u64| #[trigger] is_table(*arena, root, x) == (x == root) by {
                if is_table(*arena, root, x) && x != root {
                    if exists|v: u64|
                        #![trigger t1(*arena, root, v)]
                        down0(*arena, root, v) && t1(*arena, root, v) == x {
                        let v = choose|v: u64|
                            #![trigger t1(*arena, root, v)]
                            down0(*arena, root, v) && t1(*arena, root, v) == x;
                        assert(!down0(*arena, root, v));
                    } else {
                        let v = choose|v: u64|
                            #![trigger t2(*arena, root, v)]
                            down1(*arena, root, v) && t2(*arena, root, v) == x;
                        assert(!down0(*arena, root, v));
                    }
                }
            }
        }
        let mut frames: Vec<FrameTracker> = Vec::new();
        frames.push(ft);
        PageTable { root_ppn: PhysPageNum(root), frames }
    }

    /// Rebuild a translation-only view of an address space from its token.
    /// The view owns zero frames.
    pub fn from_token(satp: u64) -> (pt: PageTable)
        ensures
            pt.root() == satp & 0xfff_ffff_ffff,
            pt.frames@.len() == 0,
    {
        PageTable { root_ppn: PhysPageNum(satp & 0xfff_ffff_ffff), frames: Vec::new() }
    }

    /// The token of this address space.
    pub fn token(&self) -> (r: u64)
        ensures
            r == self.token_spec(),
    {
        (8u64 << 60) | self.root_ppn.0
    }

    /// Walk-only descent: the leaf slot of `vpn` as (frame, index), or
    /// `None` the instant an intermediate entry is not present. Never
    /// allocates.
    pub fn find_pte(&self, arena: &FrameArena, vpn: VirtPageNum) -> (r: Option<(u64, u64)>)
        requires
            tree_wf(*arena, self.root()),
        ensures
            match r {
                Some(ti) => {
                    &&& down1(*arena, self.root(), vpn.0)
                    &&& ti.0 == t2(*arena, self.root(), vpn.0)
                    &&& ti.1 == idx2(vpn.0)
                    &&& ti.0 < arena.frame_count()
                    &&& ti.1 < 512
                },
                None => !down1(*arena, self.root(), vpn.0),
            },
    {
        let v = vpn.0;
        proof {
            lemma_idx_bounds(v);
        }
        let i0 = (v >> 18) & 0x1ff;
        let i1 = (v >> 9) & 0x1ff;
        let i2 = v & 0x1ff;
        let e0 = arena.read_word(self.root_ppn.0, i0);
        assert(e0 == l0e(*arena, self.root(), v));
        if e0 & 1 != 1 {
            return None;
        }
        let t1v = (e0 >> 10) & 0xfff_ffff_ffff;
        assert(t1v == t1(*arena, self.root(), v));
        let e1 = arena.read_word(t1v, i1);
        assert(e1 == l1e(*arena, self.root(), v));
        if e1 & 1 != 1 {
            return None;
        }
        let t2v = (e1 >> 10) & 0xfff_ffff_ffff;
        assert(t2v == t2(*arena, self.root(), v));
        Some((t2v, i2))
    }

    /// The sole read path: a copy of the leaf entry of `vpn`, or absent if
    /// any level along the path is not present.
    pub fn translate(&self, arena: &FrameArena, vpn: VirtPageNum) -> (r: Option<PageTableEntry>)
        requires
            tree_wf(*arena, self.root()),
        ensures
            match r {
                Some(pte) => translate_spec(*arena, self.root(), vpn.0) == Some(pte.bits),
                None => translate_spec(*arena, self.root(), vpn.0) == None::<u64>,
            },
            r is Some <==> down1(*arena, self.root(), vpn.0),
    {
        match self.find_pte(arena, vpn) {
            Some((t, i)) => Some(PageTableEntry { bits: arena.read_word(t, i) }),
            None => None,
        }
    }
}

} // verus!

verus! {

/// The observable arena state of `a1` is exactly that of `a0`: same frame
/// count, same words, same free pool. Opaque so that callers pay for the
/// equality only where they `reveal` it.
#[verifier::opaque]
pub open spec fn arena_unchanged(a0: FrameArena, a1: FrameArena) -> bool {
    a1.frame_count() == a0.frame_count() && a1.words@ == a0.words@ && a1.free_list@
        == a0.free_list@
}

impl PageTable {
    /// Walk-and-create descent: returns the leaf slot of `vpn` as (frame,
    /// index), allocating, zero-filling and installing a Valid-only entry
    /// for any absent intermediate level, and recording each new frame as
    /// owned. Changes no mapping. Frame-pool exhaustion is fatal and
    /// excluded by precondition.
    #[verifier::rlimit(50)]
    pub fn find_pte_create(&mut self, arena: &mut FrameArena, vpn: VirtPageNum) -> (r: (u64, u64))
        requires
            tree_wf(*old(arena), old(self).root()),
            old(arena).free_count() >= 2,
        ensures
            final(self).root_ppn == old(self).root_ppn,
            tree_wf(*final(arena), old(self).root()),
            evolves(*old(arena), *final(arena), old(self).root()),
            final(arena).free_count() >= old(arena).free_count() - 2,
            down1(*final(arena), old(self).root(), vpn.0),
            r.0 == t2(*final(arena), old(self).root(), vpn.0),
            r.1 == idx2(vpn.0),
            r.0 < final(arena).frame_count(),
            r.1 < 512,
            forall|w: u64|
                down1(*old(arena), old(self).root(), w) ==> #[trigger] down1(
                    *final(arena),
                    old(self).root(),
                    w,
                ) && leaf_pte(*final(arena), old(self).root(), w) == leaf_pte(
                    *old(arena),
                    old(self).root(),
                    w,
                ),
            forall|w: u64|
                #[trigger] is_mapped(*final(arena), old(self).root(), w) == is_mapped(
                    *old(arena),
                    old(self).root(),
                    w,
                ),
            forall|w: u64|
                is_mapped(*old(arena), old(self).root(), w) ==> #[trigger] mapped_ppn(
                    *final(arena),
                    old(self).root(),
                    w,
                ) == mapped_ppn(*old(arena), old(self).root(), w),
            !down1(*old(arena), old(self).root(), vpn.0) ==> leaf_pte(
                *final(arena),
                old(self).root(),
                vpn.0,
            ) == 0,
            down1(*old(arena), old(self).root(), vpn.0) ==> arena_unchanged(
                *old(arena),
                *final(arena),
            ) && final(self).frames@ == old(self).frames@,
            !down0(*old(arena), old(self).root(), vpn.0) ==> pte_flags_of(
                l0e(*final(arena), old(self).root(), vpn.0),
            ) == PTE_V,
            !down1(*old(arena), old(self).root(), vpn.0) ==> pte_flags_of(
                l1e(*final(arena), old(self).root(), vpn.0),
            ) == PTE_V,
            final(self).frames@.len() == old(self).frames@.len() + (old(arena).free_count()
                - final(arena).free_count()),
    {
        let v = vpn.0;
        proof {
            lemma_idx_bounds(v);
            lemma_pte_empty();
        }
        let i0 = (v >> 18) & 0x1ff;
        let i1 = (v >> 9) & 0x1ff;
        let i2 = v & 0x1ff;
        let ghost a0 = *arena;
        let ghost root = self.root();
        let e0 = arena.read_word(self.root_ppn.0, i0);
        assert(e0 == l0e(a0, root, v));
        let t1v: u64;
        if e0 & 1 != 1 {
            let ft = match arena.alloc_frame() {
                Some(f) => f,
                None => unreached(),
            };
            let p = ft.ppn.0;
            let ghost a1 = *arena;
            proof {
                lemma_free_not_table(a0, root, p);
                lemma_nontable_frame_rewrite(a0, a1, root, p);
                assert(l0e(a1, root, v) == l0e(a0, root, v));
                assert(!down0(a1, root, v));
            }
            let pte = PageTableEntry::new(ft.ppn, PTEFlags { bits: PTE_V });
            arena.write_word(self.root_ppn.0, i0, pte.bits);
            proof {
                assert(arena.words@ == a1.words@.update(
                    (root as int) * 512 + (idx0(v) as int),
                    pte_pack(p, PTE_V),
                ));
                lemma_install_l1(a1, *arena, root, v, p);
                lemma_pte_pack(p, PTE_V);
                assert(pte_flags_of(l0e(*arena, root, v)) == PTE_V);
            }
            self.frames.push(ft);
            t1v = p;
            proof {
                assert forall|w: u64|
                    #[trigger] translate_spec(*arena, root, w) == translate_spec(a0, root, w) by {
                    assert(translate_spec(a1, root, w) == translate_spec(a0, root, w));
                    assert(translate_spec(*arena, root, w) == translate_spec(a1, root, w));
                }
                assert(is_table(a0, root, root));
                assert forall|x: u64|
                    #[trigger] is_table(*arena, root, x) implies is_table(a0, root, x)
                    || a0.is_free(x) by {
                    if x != p {
                        assert(is_table(a1, root, x) == is_table(a0, root, x));
                    }
                }
                assert forall|s: u64, j: u64|
                    s < a0.frame_count() && j < 512 && !a0.is_free(s) && !is_table(a0, root, s)
                    implies #[trigger] arena.word(s, j) == a0.word(s, j) by {
                    assert(s != p);
                    assert(a1.word(s, j) == a0.word(s, j));
                    assert(s != root);
                    assert(arena.word(s, j) == a1.word(s, j));
                }
                assert forall|x: u64| #[trigger] arena.is_free(x) implies a0.is_free(x) by {
                    assert(arena.is_free(x) == a1.is_free(x));
                }
                assert(evolves(a0, *arena, root));
            }
        } else {
            t1v = (e0 >> 10) & 0xfff_ffff_ffff;
            proof {
                assert(down0(a0, root, v));
                assert(t1v == t1(a0, root, v));
            }
        }
        let ghost am = *arena;
        let ghost frames_m = self.frames@.len();
        proof {
            assert(tree_wf(am, root));
            assert(down0(am, root, v));
            assert(t1(am, root, v) == t1v);
            assert(t1v < am.frame_count());
            assert(evolves(a0, am, root));
            assert(am.free_count() >= a0.free_count() - 1);
            assert(forall|w: u64|
                #[trigger] translate_spec(am, root, w) == translate_spec(a0, root, w));
            assert(!down0(a0, root, v) ==> pte_flags_of(l0e(am, root, v)) == PTE_V);
            assert(down0(a0, root, v) ==> am == a0 && frames_m == old(self).frames@.len());
            assert(frames_m == old(self).frames@.len() + (a0.free_count() - am.free_count()));
        }
        let e1 = arena.read_word(t1v, i1);
        assert(e1 == l1e(am, root, v));
        let t2v: u64;
        if e1 & 1 != 1 {
            proof {
                assert(!down1(am, root, v));
            }
            let ft = match arena.alloc_frame() {
                Some(f) => f,
                None => unreached(),
            };
            let p = ft.ppn.0;
            let ghost a3 = *arena;
            proof {
                lemma_free_not_table(am, root, p);
                lemma_nontable_frame_rewrite(am, a3, root, p);
                assert(l0e(a3, root, v) == l0e(am, root, v));
                assert(down0(a3, root, v));
                assert(l1e(a3, root, v) == l1e(am, root, v));
                assert(!down1(a3, root, v));
                assert(t1(a3, root, v) == t1v);
            }
            let pte = PageTableEntry::new(ft.ppn, PTEFlags { bits: PTE_V });
            arena.write_word(t1v, i1, pte.bits);
            proof {
                assert(arena.words@ == a3.words@.update(
                    (t1(a3, root, v) as int) * 512 + (idx1(v) as int),
                    pte_pack(p, PTE_V),
                ));
                lemma_install_l2(a3, *arena, root, v, p);
                lemma_pte_pack(p, PTE_V);
                assert(pte_flags_of(l1e(*arena, root, v)) == PTE_V);
                assert(l0e(*arena, root, v) == l0e(am, root, v)) by {
                    assert(l0e(a3, root, v) == l0e(am, root, v));
                }
            }
            self.frames.push(ft);
            t2v = p;
            proof {
                assert(down1(*arena, root, v) && t2(*arena, root, v) == p);
                assert(leaf_pte(*arena, root, v) == 0);
                assert(is_table(am, root, root));
                assert(is_table(am, root, t1v));
                assert forall|x: u64|
                    #[trigger] is_table(*arena, root, x) implies is_table(am, root, x)
                    || am.is_free(x) by {
                    if x != p {
                        assert(is_table(a3, root, x) == is_table(am, root, x));
                    }
                }
                assert forall|s: u64, j: u64|
                    s < am.frame_count() && j < 512 && !am.is_free(s) && !is_table(am, root, s)
                    implies #[trigger] arena.word(s, j) == am.word(s, j) by {
                    assert(s != p);
                    assert(a3.word(s, j) == am.word(s, j));
                    assert(s != t1v);
                    assert(arena.word(s, j) == a3.word(s, j));
                }
                assert forall|x: u64| #[trigger] arena.is_free(x) implies am.is_free(x) by {
                    assert(arena.is_free(x) == a3.is_free(x));
                }
                assert(evolves(am, *arena, root));
                lemma_evolves_trans(a0, am, *arena, root);
                assert forall|w: u64|
                    #[trigger] is_mapped(*arena, root, w) == is_mapped(a0, root, w) by {
                    assert(is_mapped(a3, root, w) == is_mapped(am, root, w)) by {
                        assert(translate_spec(a3, root, w) == translate_spec(am, root, w));
                    }
                    assert(is_mapped(*arena, root, w) == is_mapped(a3, root, w));
                    assert(is_mapped(am, root, w) == is_mapped(a0, root, w)) by {
                        assert(translate_spec(am, root, w) == translate_spec(a0, root, w));
                    }
                }
                assert forall|w: u64|
                    down1(a0, root, w) implies #[trigger] down1(*arena, root, w) && leaf_pte(
                    *arena,
                    root,
                    w,
                ) == leaf_pte(a0, root, w) by {
                    assert(translate_spec(am, root, w) == translate_spec(a0, root, w));
                    assert(down1(am, root, w));
                    assert(down1(a3, root, w) && leaf_pte(a3, root, w) == leaf_pte(am, root, w))
                        by {
                        assert(translate_spec(a3, root, w) == translate_spec(am, root, w));
                    }
                    assert(leaf_pte(*arena, root, w) == leaf_pte(a3, root, w));
                    if idx0(w) == idx0(v) && idx1(w) == idx1(v) {
                        assert(l0e(a3, root, w) == l0e(a3, root, v));
                        assert(t1(a3, root, w) == t1(a3, root, v));
                        assert(l1e(a3, root, w) == l1e(a3, root, v));
                        assert(false);
                    }
                    assert(translate_spec(*arena, root, w) == translate_spec(a3, root, w));
                    assert(down1(*arena, root, w));
                }
                assert forall|w: u64|
                    is_mapped(a0, root, w) implies #[trigger] mapped_ppn(*arena, root, w)
                    == mapped_ppn(a0, root, w) by {
                    assert(down1(a0, root, w));
                    assert(leaf_pte(*arena, root, w) == leaf_pte(a0, root, w));
                }
            }
        } else {
            t2v = (e1 >> 10) & 0xfff_ffff_ffff;
            proof {
                assert(down1(am, root, v));
                assert(t2v == t2(am, root, v));
                assert forall|w: u64|
                    down1(a0, root, w) implies #[trigger] down1(*arena, root, w) && leaf_pte(
                    *arena,
                    root,
                    w,
                ) == leaf_pte(a0, root, w) by {
                    assert(translate_spec(am, root, w) == translate_spec(a0, root, w));
                }
                assert forall|w: u64|
                    #[trigger] is_mapped(*arena, root, w) == is_mapped(a0, root, w) by {
                    assert(translate_spec(am, root, w) == translate_spec(a0, root, w));
                }
                assert forall|w: u64|
                    is_mapped(a0, root, w) implies #[trigger] mapped_ppn(*arena, root, w)
                    == mapped_ppn(a0, root, w) by {
                    assert(translate_spec(am, root, w) == translate_spec(a0, root, w));
                }
                if !down1(a0, root, v) {
                    assert(translate_spec(am, root, v) == translate_spec(a0, root, v));
                    assert(false);
                }
            }
        }
        proof {
            if down1(a0, root, v) {
                assert(down1(am, root, v));
                reveal(arena_unchanged);
                assert(arena_unchanged(a0, *arena));
                assert(self.frames@ == old(self).frames@);
            }
            if !down0(a0, root, v) {
                assert(!down1(am, root, v)) by {
                    if down1(am, root, v) {
                        assert(translate_spec(am, root, v) == translate_spec(a0, root, v));
                    }
                }
                assert(pte_flags_of(l0e(*arena, root, v)) == PTE_V) by {
                    assert(l0e(*arena, root, v) == l0e(am, root, v));
                    assert(pte_flags_of(l0e(am, root, v)) == PTE_V);
                }
            }
            if !down1(a0, root, v) {
                assert(!down1(am, root, v)) by {
                    if down1(am, root, v) {
                        assert(translate_spec(am, root, v) == translate_spec(a0, root, v));
                    }
                }
                assert(pte_flags_of(l1e(*arena, root, v)) == PTE_V);
            }
            assert(self.frames@.len() == old(self).frames@.len() + (a0.free_count()
                - arena.free_count()));
        }
        (t2v, i2)
    }
}

} // verus!

verus! {

impl PageTable {
    /// Install the mapping from `vpn` to `ppn` with `flags` plus Valid.
    /// Mapping over an already-present leaf is a double-map bug, fatal, and
    /// excluded by precondition. After the call, translating `vpn` reports
    /// present with exactly `ppn` and `flags | Valid`, and no other path's
    /// mapping changes.
    #[verifier::rlimit(100)]
    pub fn map(&mut self, arena: &mut FrameArena, vpn: VirtPageNum, ppn: PhysPageNum, flags: PTEFlags)
        requires
            tree_wf(*old(arena), old(self).root()),
            !is_mapped(*old(arena), old(self).root(), vpn.0),
            old(arena).free_count() >= 2,
            ppn.0 < PPN_LIMIT,
        ensures
            final(self).root_ppn == old(self).root_ppn,
            tree_wf(*final(arena), old(self).root()),
            evolves(*old(arena), *final(arena), old(self).root()),
            final(arena).free_count() >= old(arena).free_count() - 2,
            translate_spec(*final(arena), old(self).root(), vpn.0) == Some(
                pte_pack(ppn.0, flags.bits | PTE_V),
            ),
            is_mapped(*final(arena), old(self).root(), vpn.0),
            mapped_ppn(*final(arena), old(self).root(), vpn.0) == ppn.0,
            pte_flags_of(leaf_pte(*final(arena), old(self).root(), vpn.0)) == (flags.bits
                | PTE_V),
            forall|w: u64|
                !same_path(w, vpn.0) ==> #[trigger] is_mapped(*final(arena), old(self).root(), w)
                    == is_mapped(*old(arena), old(self).root(), w),
            forall|w: u64|
                !same_path(w, vpn.0) && is_mapped(*old(arena), old(self).root(), w)
                    ==> #[trigger] mapped_ppn(*final(arena), old(self).root(), w) == mapped_ppn(
                    *old(arena),
                    old(self).root(),
                    w,
                ) && leaf_pte(*final(arena), old(self).root(), w) == leaf_pte(
                    *old(arena),
                    old(self).root(),
                    w,
                ),
            final(self).frames@.len() == old(self).frames@.len() + (old(arena).free_count()
                - final(arena).free_count()),
    {
        let ghost a0 = *arena;
        let ghost root = self.root();
        let (t, i) = self.find_pte_create(arena, vpn);
        let ghost a1 = *arena;
        proof {
            if down1(a0, root, vpn.0) {
                assert(leaf_pte(a1, root, vpn.0) == leaf_pte(a0, root, vpn.0));
                assert(!pte_valid(leaf_pte(a1, root, vpn.0)));
            } else {
                assert(leaf_pte(a1, root, vpn.0) == 0);
                lemma_pte_empty();
            }
            assert(!is_mapped(a1, root, vpn.0));
        }
        let pte = PageTableEntry::new(ppn, PTEFlags { bits: flags.bits | PTE_V });
        proof {
            let fb = flags.bits;
            assert(((fb | PTE_V) & 1) == 1) by (bit_vector);
            assert(pte_valid(pte.bits));
            assert(t < a1.frame_count());
        }
        arena.write_word(t, i, pte.bits);
        proof {
            assert(arena.words@ == a1.words@.update(
                (t2(a1, root, vpn.0) as int) * 512 + (idx2(vpn.0) as int),
                pte.bits,
            ));
            lemma_leaf_write(a1, *arena, root, vpn.0, pte.bits);
            assert(is_table(a1, root, t2(a1, root, vpn.0)));
            assert forall|s: u64, j: u64|
                s < a1.frame_count() && j < 512 && !a1.is_free(s) && !is_table(a1, root, s)
                implies #[trigger] arena.word(s, j) == a1.word(s, j) by {
                assert(s != t2(a1, root, vpn.0));
            }
            assert forall|x: u64| #[trigger] arena.is_free(x) implies a1.is_free(x) by {
                assert(arena.free_list@ == a1.free_list@);
            }
            assert(evolves(a1, *arena, root));
            lemma_evolves_trans(a0, a1, *arena, root);
            assert forall|w: u64|
                !same_path(w, vpn.0) implies #[trigger] is_mapped(*arena, root, w) == is_mapped(
                a0,
                root,
                w,
            ) by {
                assert(translate_spec(*arena, root, w) == translate_spec(a1, root, w));
                assert(is_mapped(a1, root, w) == is_mapped(a0, root, w));
            }
            assert forall|w: u64|
                !same_path(w, vpn.0) && is_mapped(a0, root, w) implies #[trigger] mapped_ppn(
                *arena,
                root,
                w,
            ) == mapped_ppn(a0, root, w) && leaf_pte(*arena, root, w) == leaf_pte(
                a0,
                root,
                w,
            ) by {
                assert(translate_spec(*arena, root, w) == translate_spec(a1, root, w));
                assert(is_mapped(a1, root, w));
                assert(down1(a0, root, w));
                assert(leaf_pte(a1, root, w) == leaf_pte(a0, root, w));
                assert(translate_spec(a1, root, w) == Some(leaf_pte(a1, root, w)));
                assert(down1(*arena, root, w));
                assert(leaf_pte(*arena, root, w) == leaf_pte(a1, root, w));
                assert(mapped_ppn(*arena, root, w) == mapped_ppn(a1, root, w));
                assert(mapped_ppn(a1, root, w) == mapped_ppn(a0, root, w));
            }
            lemma_pte_pack(ppn.0, flags.bits | PTE_V);
            assert(arena.free_count() == a1.free_count()) by {
                assert(arena.free_list@ == a1.free_list@);
            }
        }
    }

    /// Clear the mapping of `vpn`. Unmapping a page whose leaf is not
    /// present is a double-unmap bug, fatal, and excluded by precondition.
    /// Afterwards translating `vpn` reports an absent leaf; no other path's
    /// translation changes, no frame changes ownership, and only the leaf
    /// table frame's contents change.
    pub fn unmap(&mut self, arena: &mut FrameArena, vpn: VirtPageNum)
        requires
            tree_wf(*old(arena), old(self).root()),
            is_mapped(*old(arena), old(self).root(), vpn.0),
        ensures
            *final(self) == *old(self),
            tree_wf(*final(arena), old(self).root()),
            final(arena).frame_count() == old(arena).frame_count(),
            final(arena).free_list@ == old(arena).free_list@,
            translate_spec(*final(arena), old(self).root(), vpn.0) == Some(0u64),
            !is_mapped(*final(arena), old(self).root(), vpn.0),
            forall|w: u64|
                !same_path(w, vpn.0) ==> #[trigger] translate_spec(
                    *final(arena),
                    old(self).root(),
                    w,
                ) == translate_spec(*old(arena), old(self).root(), w),
            forall|w: u64|
                !same_path(w, vpn.0) ==> #[trigger] is_mapped(*final(arena), old(self).root(), w)
                    == is_mapped(*old(arena), old(self).root(), w),
            forall|x: u64|
                #[trigger] is_table(*final(arena), old(self).root(), x) == is_table(
                    *old(arena),
                    old(self).root(),
                    x,
                ),
            is_table(*old(arena), old(self).root(), t2(*old(arena), old(self).root(), vpn.0)),
            final(arena).frames_other_eq(
                *old(arena),
                t2(*old(arena), old(self).root(), vpn.0),
            ),
    {
        let ghost a0 = *arena;
        let ghost root = self.root();
        let slot = match self.find_pte(arena, vpn) {
            Some(ti) => ti,
            None => unreached(),
        };
        arena.write_word(slot.0, slot.1, 0);
        proof {
            assert(arena.words@ == a0.words@.update(
                (t2(a0, root, vpn.0) as int) * 512 + (idx2(vpn.0) as int),
                0u64,
            ));
            lemma_leaf_write(a0, *arena, root, vpn.0, 0);
            lemma_pte_empty();
            assert forall|w: u64|
                !same_path(w, vpn.0) implies #[trigger] is_mapped(*arena, root, w) == is_mapped(
                a0,
                root,
                w,
            ) by {
                assert(translate_spec(*arena, root, w) == translate_spec(a0, root, w));
            }
        }
    }
}

} // verus!

verus! {

/// A change to the free pool alone (no word changes, tables still outside
/// the pool) preserves the tree, every translation, and every table fact.
pub proof fn lemma_free_pool_change(a: FrameArena, b: FrameArena, root: u64)
    requires
        tree_wf(a, root),
        b.wf(),
        b.words@ == a.words@,
        b.frame_count() == a.frame_count(),
        forall|x: u64| #[trigger] is_table(a, root, x) ==> !b.is_free(x),
    ensures
        tree_wf(b, root),
        forall|v: u64| #[trigger] translate_spec(b, root, v) == translate_spec(a, root, v),
        forall|v: u64| #[trigger] is_mapped(b, root, v) == is_mapped(a, root, v),
        forall|v: u64|
            is_mapped(a, root, v) ==> #[trigger] mapped_ppn(b, root, v) == mapped_ppn(a, root, v)
                && leaf_pte(b, root, v) == leaf_pte(a, root, v),
        forall|x: u64| #[trigger] is_table(b, root, x) == is_table(a, root, x),
{
    assert forall|v: u64| #[trigger] l0e(b, root, v) == l0e(a, root, v) by {}
    assert forall|v: u64| #[trigger] l1e(b, root, v) == l1e(a, root, v) by {
        assert(t1(b, root, v) == t1(a, root, v));
    }
    assert forall|v: u64| #[trigger] leaf_pte(b, root, v) == leaf_pte(a, root, v) by {
        assert(t2(b, root, v) == t2(a, root, v));
    }
    assert forall|x: u64| #[trigger] is_table(b, root, x) == is_table(a, root, x) by {
        if is_table(a, root, x) && x != root {
            if exists|v: u64| #![trigger t1(a, root, v)] down0(a, root, v) && t1(a, root, v)
                == x {
                let v = choose|v: u64|
                    #![trigger t1(a, root, v)]
                    down0(a, root, v) && t1(a, root, v) == x;
                assert(down0(b, root, v) && t1(b, root, v) == x);
            } else {
                let v = choose|v: u64|
                    #![trigger t2(a, root, v)]
                    down1(a, root, v) && t2(a, root, v) == x;
                assert(down1(b, root, v) && t2(b, root, v) == x);
            }
        }
        if is_table(b, root, x) && x != root {
            if exists|v: u64| #![trigger t1(b, root, v)] down0(b, root, v) && t1(b, root, v)
                == x {
                let v = choose|v: u64|
                    #![trigger t1(b, root, v)]
                    down0(b, root, v) && t1(b, root, v) == x;
                assert(down0(a, root, v) && t1(a, root, v) == x);
            } else {
                let v = choose|v: u64|
                    #![trigger t2(b, root, v)]
                    down1(b, root, v) && t2(b, root, v) == x;
                assert(down1(a, root, v) && t2(a, root, v) == x);
            }
        }
    }
    assert(is_table(a, root, root));
    assert forall|v: u64|
        down0(b, root, v) implies (#[trigger] t1(b, root, v)) < b.frame_count() && !b.is_free(
        t1(b, root, v),
    ) && t1(b, root, v) != root by {
        assert(t1(b, root, v) == t1(a, root, v));
        assert(down0(a, root, v));
        assert(is_table(a, root, t1(a, root, v)));
    }
    assert forall|v: u64|
        down1(b, root, v) implies (#[trigger] t2(b, root, v)) < b.frame_count() && !b.is_free(
        t2(b, root, v),
    ) && t2(b, root, v) != root by {
        assert(t2(b, root, v) == t2(a, root, v));
        assert(down1(a, root, v));
        assert(is_table(a, root, t2(a, root, v)));
    }
    assert forall|v: u64, w2: u64|
        #![trigger t1(b, root, v), t1(b, root, w2)]
        down0(b, root, v) && down0(b, root, w2) && idx0(v) != idx0(w2) implies t1(b, root, v)
        != t1(b, root, w2) by {
        assert(t1(b, root, v) == t1(a, root, v) && t1(b, root, w2) == t1(a, root, w2));
        assert(t1(a, root, v) != t1(a, root, w2));
    }
    assert forall|v: u64, w2: u64|
        #![trigger t2(b, root, v), t1(b, root, w2)]
        down1(b, root, v) && down0(b, root, w2) implies t2(b, root, v) != t1(b, root, w2) by {
        assert(t2(b, root, v) == t2(a, root, v) && t1(b, root, w2) == t1(a, root, w2));
        assert(t2(a, root, v) != t1(a, root, w2));
    }
    assert forall|v: u64, w2: u64|
        #![trigger t2(b, root, v), t2(b, root, w2)]
        down1(b, root, v) && down1(b, root, w2) && !(idx0(v) == idx0(w2) && idx1(v) == idx1(w2))
        implies t2(b, root, v) != t2(b, root, w2) by {
        assert(t2(b, root, v) == t2(a, root, v) && t2(b, root, w2) == t2(a, root, w2));
        assert(t2(a, root, v) != t2(a, root, w2));
    }
}

} // verus!

verus! {

/// First virtual page covered by a byte range starting at `start`.
pub open spec fn cover_lo(start: usize) -> u64 {
    (start as u64) / 4096
}

/// Last virtual page covered by the byte range `[start, start + len)`: the
/// page containing its last byte. A length landing exactly on a page
/// boundary covers only the page of the last byte, never the next page.
pub open spec fn cover_hi(start: usize, len: usize) -> u64 {
    (((start + len - 1) as int) / 4096) as u64
}

/// The leaf flag bits an mmap protection value maps to: its read, write and
/// execute bits shifted into place, plus User.
pub open spec fn prot_perm_bits(prot: usize) -> u8 {
    (((prot as u8) << 1) | PTE_U) as u8
}

/// Validate and apply an mmap request against the current address space:
/// reject a protection value outside 1..=7, a start that is not
/// page-aligned, and any overlap with an existing mapping — all before any
/// frame is touched, so a rejected request has no side effect at all. On
/// success every covered page is backed by a fresh zero-filled frame with
/// the requested permissions plus User and Valid, and a new map area
/// records the range.
#[verifier::rlimit(100)]
pub fn map_many_inner(k: &mut Kernel, start: usize, len: usize, prot: usize) -> (r: isize)
    requires
        old(k).wf(),
        (0 < prot < 8 && (start as int) % 4096 == 0) ==> (1 <= len && start + len <= VA_LIMIT),
        (0 < prot < 8 && (start as int) % 4096 == 0 && (forall|u: u64|
            cover_lo(start) <= u <= cover_hi(start, len) ==> !is_mapped(
                old(k).arena,
                old(k).root(),
                u,
            ))) ==> old(k).arena.free_count() >= 3 * (cover_hi(start, len) - cover_lo(start) + 1),
    ensures
        r == 0 || r == -1,
        (r == 0) <==> (0 < prot < 8 && (start as int) % 4096 == 0 && (forall|u: u64|
            cover_lo(start) <= u <= cover_hi(start, len) ==> !is_mapped(
                old(k).arena,
                old(k).root(),
                u,
            ))),
        r == -1 ==> *final(k) == *old(k),
        r == 0 ==> {
            &&& final(k).wf()
            &&& final(k).space.page_table.root_ppn == old(k).space.page_table.root_ppn
            &&& final(k).active_token == old(k).active_token
            &&& final(k).arena.frame_count() == old(k).arena.frame_count()
            &&& final(k).arena.free_count() >= old(k).arena.free_count() - 3 * (cover_hi(
                start,
                len,
            ) - cover_lo(start) + 1)
            &&& forall|u: u64|
                cover_lo(start) <= u <= cover_hi(start, len) ==> #[trigger] is_mapped(
                    final(k).arena,
                    old(k).root(),
                    u,
                ) && pte_flags_of(leaf_pte(final(k).arena, old(k).root(), u)) == (prot_perm_bits(
                    prot,
                ) | PTE_V) && final(k).arena.frame_zero(
                    mapped_ppn(final(k).arena, old(k).root(), u),
                )
            &&& forall|u: u64|
                u < 0x800_0000u64 && !(cover_lo(start) <= u <= cover_hi(start, len))
                    ==> #[trigger] is_mapped(final(k).arena, old(k).root(), u) == is_mapped(
                    old(k).arena,
                    old(k).root(),
                    u,
                )
            &&& forall|u: u64|
                u < 0x800_0000u64 && !(cover_lo(start) <= u <= cover_hi(start, len)) && is_mapped(
                    old(k).arena,
                    old(k).root(),
                    u,
                ) ==> #[trigger] mapped_ppn(final(k).arena, old(k).root(), u) == mapped_ppn(
                    old(k).arena,
                    old(k).root(),
                    u,
                )
            &&& forall|va: u64|
                (start as u64) <= va < (start as u64) + (len as u64)
                    ==> #[trigger] final(k).user_byte(va) == Some(0u8)
            &&& final(k).space.areas@.len() == old(k).space.areas@.len() + 1
            &&& final(k).space.areas@.last().vpn_range.start.0 == cover_lo(start)
            &&& final(k).space.areas@.last().vpn_range.end.0 == cover_hi(start, len) + 1
            &&& final(k).space.areas@.last().map_perm.bits == prot_perm_bits(prot)
            &&& final(k).space.areas@.last().frames@.len() == cover_hi(start, len) - cover_lo(
                start,
            ) + 1
        },
{
    if !crate::is_prot_valid(prot) {
        return -1;
    }
    if start % 4096 != 0 {
        return -1;
    }
    proof {
        assert(1 <= len && start + len <= VA_LIMIT);
    }
    let v0: u64 = (start as u64) / 4096;
    let v1: u64 = ((start as u64) + (len as u64) - 1) / 4096;
    proof {
        assert(v0 == cover_lo(start));
        assert(v1 == cover_hi(start, len));
        assert(v0 <= v1 && v1 < 0x800_0000u64) by (nonlinear_arith)
            requires
                v0 == (start as u64) / 4096,
                v1 == ((start as u64) + (len as u64) - 1) / 4096,
                1 <= len,
                start + len <= 0x80_0000_0000,
        ;
    }
    let ghost root = k.root();
    let mut u: u64 = v0;
    let mut overlap: bool = false;
    while u <= v1 && !overlap
        invariant
            *k == *old(k),
            k.wf(),
            root == k.root(),
            v0 <= u <= v1 + 1,
            v1 < 0x800_0000u64,
            forall|w: u64| v0 <= w < u ==> !(#[trigger] is_mapped(k.arena, root, w)),
            overlap ==> u <= v1 && is_mapped(k.arena, root, u),
        decreases v1 + 1 - u, (if overlap { 0int } else { 1int }),
    {
        let pte_opt = k.space.page_table.translate(&k.arena, VirtPageNum(u));
        let mut ok: bool = false;
        match pte_opt {
            Some(pte) => {
                if pte.is_valid() {
                    ok = true;
                }
            },
            None => {},
        }
        if ok {
            overlap = true;
        } else {
            proof {
                assert(!is_mapped(k.arena, root, u));
            }
            u = u + 1;
        }
    }
    if overlap {
        return -1;
    }
    let flags = PTEFlags { bits: ((prot as u8) << 1) | PTE_U };
    let fts = k.map_zeroed_range(v0, v1, flags);
    let ghost n_frames = fts@.len();
    let area = MapArea {
        vpn_range: VPNRange::new(VirtPageNum(v0), VirtPageNum(v1 + 1)),
        map_perm: MapPermission { bits: ((prot as u8) << 1) | PTE_U },
        frames: fts,
    };
    k.space.areas.push(area);
    proof {
        assert forall|va: u64|
            (start as u64) <= va < (start as u64) + (len as u64) implies #[trigger] k.user_byte(
            va,
        ) == Some(0u8) by {
            let vp = va / 4096;
            assert(v0 <= vp <= v1) by (nonlinear_arith)
                requires
                    vp == va / 4096,
                    v0 == (start as u64) / 4096,
                    v1 == ((start as u64) + (len as u64) - 1) / 4096,
                    (start as u64) <= va,
                    va < (start as u64) + (len as u64),
                    1 <= len,
                    start + len <= 0x80_0000_0000,
            ;
            assert(is_mapped(k.arena, root, vp) && k.arena.frame_zero(
                mapped_ppn(k.arena, root, vp),
            ));
            let off = va % 4096;
            assert(off < 4096);
            assert(off / 8 < 512);
            assert(k.arena.word(mapped_ppn(k.arena, root, vp), off / 8) == 0);
            crate::frame_allocator::lemma_zero_word_bytes(off % 8);
        }
        assert(k.space.areas@.len() == old(k).space.areas@.len() + 1);
        assert(k.space.areas@.last().vpn_range.start.0 == v0);
        assert(k.space.areas@.last().vpn_range.end.0 == v1 + 1);
        assert(k.space.areas@.last().frames@.len() == v1 - v0 + 1);
        assert forall|u2: u64| v0 <= u2 <= v1 implies #[trigger] is_mapped(
            k.arena,
            old(k).root(),
            u2,
        ) && pte_flags_of(leaf_pte(k.arena, old(k).root(), u2)) == (prot_perm_bits(prot)
            | PTE_V) && k.arena.frame_zero(mapped_ppn(k.arena, old(k).root(), u2)) by {
            assert(is_mapped(k.arena, root, u2));
            assert(pte_flags_of(leaf_pte(k.arena, root, u2)) == ((((prot as u8) << 1) | PTE_U)
                | PTE_V));
        }
    }
    0
}

/// Apply an munmap request against the current address space: unmap every
/// covered page in ascending order, releasing its backing frame. On the
/// first page without a present mapping the call aborts and reports
/// failure; earlier pages of the range remain unmapped even though the call
/// as a whole fails (the documented partial-unmap edge case).
pub fn unmap_many_inner(k: &mut Kernel, start: usize, len: usize) -> (r: isize)
    requires
        old(k).wf(),
        1 <= len,
        start + len <= VA_LIMIT,
    ensures
        r == 0 || r == -1,
        final(k).wf(),
        final(k).space.page_table.root_ppn == old(k).space.page_table.root_ppn,
        final(k).active_token == old(k).active_token,
        final(k).arena.frame_count() == old(k).arena.frame_count(),
        (r == 0) <==> (forall|u: u64|
            cover_lo(start) <= u <= cover_hi(start, len) ==> #[trigger] is_mapped(
                old(k).arena,
                old(k).root(),
                u,
            )),
        forall|u: u64|
            u < 0x800_0000u64 && !(cover_lo(start) <= u <= cover_hi(start, len))
                ==> #[trigger] is_mapped(final(k).arena, old(k).root(), u) == is_mapped(
                old(k).arena,
                old(k).root(),
                u,
            ),
        forall|u: u64|
            u < 0x800_0000u64 && !(cover_lo(start) <= u <= cover_hi(start, len)) && is_mapped(
                old(k).arena,
                old(k).root(),
                u,
            ) ==> #[trigger] mapped_ppn(final(k).arena, old(k).root(), u) == mapped_ppn(
                old(k).arena,
                old(k).root(),
                u,
            ) && leaf_pte(final(k).arena, old(k).root(), u) == leaf_pte(
                old(k).arena,
                old(k).root(),
                u,
            ),
        r == 0 ==> {
            &&& forall|u: u64|
                cover_lo(start) <= u <= cover_hi(start, len) ==> !(#[trigger] is_mapped(
                    final(k).arena,
                    old(k).root(),
                    u,
                ))
            &&& final(k).arena.free_count() == old(k).arena.free_count() + (cover_hi(start, len)
                - cover_lo(start) + 1)
        },
        r == -1 ==> exists|b: u64|
            {
                &&& cover_lo(start) <= b <= cover_hi(start, len)
                &&& !is_mapped(old(k).arena, old(k).root(), b)
                &&& forall|u: u64|
                    cover_lo(start) <= u < b ==> #[trigger] is_mapped(
                        old(k).arena,
                        old(k).root(),
                        u,
                    ) && !is_mapped(final(k).arena, old(k).root(), u)
                &&& forall|u: u64|
                    b <= u <= cover_hi(start, len) ==> #[trigger] is_mapped(
                        final(k).arena,
                        old(k).root(),
                        u,
                    ) == is_mapped(old(k).arena, old(k).root(), u)
                &&& final(k).arena.free_count() == old(k).arena.free_count() + (b - cover_lo(
                    start,
                ))
            },
{
    let v0: u64 = (start as u64) / 4096;
    let v1: u64 = ((start as u64) + (len as u64) - 1) / 4096;
    proof {
        assert(v0 == cover_lo(start));
        assert(v1 == cover_hi(start, len));
        assert(v0 <= v1 && v1 < 0x800_0000u64) by (nonlinear_arith)
            requires
                v0 == (start as u64) / 4096,
                v1 == ((start as u64) + (len as u64) - 1) / 4096,
                1 <= len,
                start + len <= 0x80_0000_0000,
        ;
    }
    k.unmap_range(v0, v1)
}

} // verus!

verus! {

/// One mutable byte window: the contiguous physical bytes
/// `[offset, offset + len)` of frame `ppn`, aliasing one virtual page's
/// backing store.
#[derive(Clone, Copy, PartialEq, Eq, Structural, Debug)]
pub struct ByteWindow {
    pub ppn: PhysPageNum,
    pub offset: u64,
    pub len: u64,
}

/// Total byte length of a sequence of windows.
pub open spec fn windows_total(ws: Seq<ByteWindow>) -> int
    decreases ws.len(),
{
    if ws.len() == 0 {
        0
    } else {
        windows_total(ws.drop_last()) + ws.last().len
    }
}

/// Translate the user byte range `[ptr, ptr + len)` into the ordered
/// sequence of physical byte windows backing it, one window per touched
/// virtual page, clipped to the range at both ends. Because consecutive
/// virtual pages need not be physically contiguous, a contiguous buffer may
/// yield several windows. A zero-length request touches no page and yields
/// no window. Fails, with no side effect, the instant any touched page is
/// unmapped.
#[verifier::rlimit(50)]
pub fn translated_byte_buffer(k: &Kernel, token: u64, ptr: usize, len: usize) -> (r: Option<
    Vec<ByteWindow>,
>)
    requires
        k.wf(),
        token == k.active_token,
        ptr + len <= VA_LIMIT,
    ensures
        len == 0 ==> r is Some && (r->0)@.len() == 0,
        1 <= len ==> (r is Some <==> (forall|u: u64|
            cover_lo(ptr) <= u <= cover_hi(ptr, len) ==> #[trigger] is_mapped(
                k.arena,
                k.root(),
                u,
            ))),
        match r {
            Some(ws) => 1 <= len ==> {
                &&& ws@.len() == cover_hi(ptr, len) - cover_lo(ptr) + 1
                &&& windows_total(ws@) == len
                &&& forall|i: int|
                    0 <= i < ws@.len() ==> (#[trigger] ws@[i]).ppn.0 == mapped_ppn(
                        k.arena,
                        k.root(),
                        (cover_lo(ptr) + i) as u64,
                    ) && ws@[i].offset == (if i == 0 {
                        ((ptr as u64) % 4096) as int
                    } else {
                        0int
                    }) && ws@[i].offset + ws@[i].len == (if cover_lo(ptr) + i == cover_hi(
                        ptr,
                        len,
                    ) {
                        (((ptr + len - 1) as int) % 4096) + 1
                    } else {
                        4096int
                    }) && 1 <= ws@[i].len
            },
            None => true,
        },
{
    if len == 0 {
        let ws: Vec<ByteWindow> = Vec::new();
        return Some(ws);
    }
    let v0: u64 = (ptr as u64) / 4096;
    let v1: u64 = ((ptr as u64) + (len as u64) - 1) / 4096;
    proof {
        assert(v0 == cover_lo(ptr));
        assert(v1 == cover_hi(ptr, len));
        assert(v0 <= v1 && v1 < 0x800_0000u64 && (ptr as u64) % 4096 == (ptr as u64) - v0 * 4096
            && ((ptr as u64) + (len as u64) - 1) % 4096 == ((ptr as u64) + (len as u64) - 1) - v1
            * 4096) by (nonlinear_arith)
            requires
                v0 == (ptr as u64) / 4096,
                v1 == ((ptr as u64) + (len as u64) - 1) / 4096,
                1 <= len,
                ptr + len <= 0x80_0000_0000,
        ;
    }
    let ghost root = k.root();
    let mut ws: Vec<ByteWindow> = Vec::new();
    let mut u: u64 = v0;
    while u <= v1
        invariant
            k.wf(),
            root == k.root(),
            v0 <= u <= v1 + 1,
            v1 < 0x800_0000u64,
            1 <= len,
            ptr + len <= VA_LIMIT,
            v0 == cover_lo(ptr),
            v1 == cover_hi(ptr, len),
            (ptr as u64) % 4096 == (ptr as u64) - v0 * 4096,
            ((ptr as u64) + (len as u64) - 1) % 4096 == ((ptr as u64) + (len as u64) - 1) - v1
                * 4096,
            ws@.len() == u - v0,
            forall|w: u64| v0 <= w < u ==> #[trigger] is_mapped(k.arena, root, w),
            forall|i: int|
                0 <= i < ws@.len() ==> (#[trigger] ws@[i]).ppn.0 == mapped_ppn(
                    k.arena,
                    root,
                    (v0 + i) as u64,
                ) && ws@[i].offset == (if i == 0 {
                    ((ptr as u64) % 4096) as int
                } else {
                    0int
                }) && ws@[i].offset + ws@[i].len == (if v0 + i == v1 {
                    (((ptr + len - 1) as int) % 4096) + 1
                } else {
                    4096int
                }) && 1 <= ws@[i].len,
            windows_total(ws@) == if u == v0 {
                0int
            } else if u <= v1 {
                (u as int) * 4096 - (ptr as int)
            } else {
                len as int
            },
        decreases v1 + 1 - u,
    {
        let pte_opt = k.space.page_table.translate(&k.arena, VirtPageNum(u));
        let mut ok: bool = false;
        match pte_opt {
            Some(pte) => {
                if pte.is_valid() {
                    ok = true;
                }
            },
            None => {},
        }
        if !ok {
            proof {
                assert(!is_mapped(k.arena, root, u));
            }
            return None;
        }
        let pte = match pte_opt {
            Some(p) => p,
            None => unreached(),
        };
        let off: u64 = if u == v0 {
            (ptr as u64) % 4096
        } else {
            0
        };
        let end_off: u64 = if u == v1 {
            ((ptr as u64) + (len as u64) - 1) % 4096 + 1
        } else {
            4096
        };
        proof {
            assert(off < end_off && end_off <= 4096) by (nonlinear_arith)
                requires
                    v0 <= u <= v1,
                    v0 == (ptr as u64) / 4096,
                    v1 == ((ptr as u64) + (len as u64) - 1) / 4096,
                    1 <= len,
                    ptr + len <= 0x80_0000_0000,
                    off == if u == v0 { (ptr as u64) % 4096 } else { 0u64 },
                    end_off == if u == v1 {
                        (((ptr as u64) + (len as u64) - 1) % 4096 + 1) as int
                    } else {
                        4096int
                    },
            ;
        }
        let win = ByteWindow { ppn: pte.ppn(), offset: off, len: end_off - off };
        let ghost ws0 = ws@;
        ws.push(win);
        proof {
            assert(ws@.drop_last() =~= ws0);
            assert(windows_total(ws@) == windows_total(ws0) + win.len);
            assert((if u + 1 == v0 {
                0int
            } else if u + 1 <= v1 {
                ((u + 1) as int) * 4096 - (ptr as int)
            } else {
                len as int
            }) == windows_total(ws0) + win.len) by (nonlinear_arith)
                requires
                    v0 <= u <= v1,
                    v0 == (ptr as u64) / 4096,
                    v1 == ((ptr as u64) + (len as u64) - 1) / 4096,
                    1 <= len,
                    ptr + len <= 0x80_0000_0000,
                    win.len == end_off - off,
                    off == if u == v0 { (ptr as u64) % 4096 } else { 0u64 },
                    end_off == if u == v1 {
                        (((ptr as u64) + (len as u64) - 1) % 4096 + 1) as int
                    } else {
                        4096int
                    },
                    windows_total(ws0) == (if u == v0 {
                        0int
                    } else if u <= v1 {
                        (u as int) * 4096 - (ptr as int)
                    } else {
                        len as int
                    }),
            ;
        }
        u = u + 1;
    }
    Some(ws)
}

} // verus!

verus! {

/// Read the user byte range `[ptr, ptr + len)` of the current address
/// space into a fresh vector; fails, with no side effect, if any touched
/// page is unmapped.
pub fn read_user_bytes(k: &Kernel, token: u64, ptr: usize, len: usize) -> (r: Option<Vec<u8>>)
    requires
        k.wf(),
        token == k.active_token,
        ptr + len <= VA_LIMIT,
    ensures
        r is Some <==> (forall|va: u64|
            (ptr as u64) <= va < (ptr as u64) + (len as u64) ==> (#[trigger] k.user_byte(
                va,
            )) is Some),
        match r {
            Some(bs) => {
                &&& bs@.len() == len
                &&& forall|i: int|
                    0 <= i < len ==> Some(#[trigger] bs@[i]) == k.user_byte(
                        (ptr + i) as u64,
                    )
            },
            None => true,
        },
{
    let ghost root = k.root();
    let mut bs: Vec<u8> = Vec::new();
    let mut i: usize = 0;
    while i < len
        invariant
            k.wf(),
            root == k.root(),
            i <= len,
            ptr + len <= VA_LIMIT,
            bs@.len() == i,
            forall|j: int| 0 <= j < i ==> Some(#[trigger] bs@[j]) == k.user_byte((ptr + j) as u64),
            forall|va: u64|
                (ptr as u64) <= va < (ptr as u64) + (i as u64) ==> (#[trigger] k.user_byte(
                    va,
                )) is Some,
        decreases len - i,
    {
        let va: u64 = (ptr as u64) + (i as u64);
        let vp: u64 = va / 4096;
        let pte_opt = k.space.page_table.translate(&k.arena, VirtPageNum(vp));
        let mut ok: bool = false;
        match pte_opt {
            Some(pte) => {
                if pte.is_valid() {
                    ok = true;
                }
            },
            None => {},
        }
        if !ok {
            proof {
                assert(!is_mapped(k.arena, root, vp));
                assert(k.user_byte(va) is None);
            }
            return None;
        }
        let pte = match pte_opt {
            Some(p) => p,
            None => unreached(),
        };
        let d = pte.ppn().0;
        proof {
            assert(is_mapped(k.arena, root, vp));
            assert(d == mapped_ppn(k.arena, root, vp));
            assert(d < k.arena.frame_count());
        }
        let b = k.arena.read_byte(d, va % 4096);
        bs.push(b);
        proof {
            assert(Some(b) == k.user_byte(va));
        }
        i = i + 1;
    }
    Some(bs)
}

/// Write `data` into the user byte range starting at `ptr` in the current
/// address space. All touched pages are checked first: if any is unmapped
/// the call fails with no side effect at all; otherwise every byte is
/// stored, and no other user byte, no mapping and no frame ownership
/// changes.
#[verifier::rlimit(50)]
pub fn write_user_bytes(k: &mut Kernel, token: u64, ptr: usize, data: &Vec<u8>) -> (r: bool)
    requires
        old(k).wf(),
        token == old(k).active_token,
        ptr + data@.len() <= VA_LIMIT,
    ensures
        final(k).wf(),
        r <==> (forall|va: u64|
            (ptr as u64) <= va < (ptr as u64) + data@.len() ==> (#[trigger] old(k).user_byte(
                va,
            )) is Some),
        !r ==> *final(k) == *old(k),
        final(k).space.page_table.root_ppn == old(k).space.page_table.root_ppn,
        final(k).active_token == old(k).active_token,
        final(k).arena.frame_count() == old(k).arena.frame_count(),
        final(k).arena.free_list@ == old(k).arena.free_list@,
        forall|v: u64|
            #[trigger] is_mapped(final(k).arena, old(k).root(), v) == is_mapped(
                old(k).arena,
                old(k).root(),
                v,
            ),
        forall|v: u64|
            is_mapped(old(k).arena, old(k).root(), v) ==> #[trigger] mapped_ppn(
                final(k).arena,
                old(k).root(),
                v,
            ) == mapped_ppn(old(k).arena, old(k).root(), v),
        r ==> {
            &&& forall|i: int|
                0 <= i < data@.len() ==> #[trigger] final(k).user_byte((ptr + i) as u64) == Some(
                    data@[i],
                )
            &&& forall|va: u64|
                va < VA_LIMIT && !((ptr as u64) <= va < (ptr as u64) + data@.len())
                    ==> #[trigger] final(k).user_byte(va) == old(k).user_byte(va)
        },
{
    let ghost root = k.root();
    let len = data.len();
    // first pass: every touched byte must be mapped
    let mut i: usize = 0;
    while i < len
        invariant
            *k == *old(k),
            k.wf(),
            root == k.root(),
            i <= len,
            len == data@.len(),
            ptr + len <= VA_LIMIT,
            forall|va: u64|
                (ptr as u64) <= va < (ptr as u64) + (i as u64) ==> (#[trigger] k.user_byte(
                    va,
                )) is Some,
        decreases len - i,
    {
        let va: u64 = (ptr as u64) + (i as u64);
        let vp: u64 = va / 4096;
        let pte_opt = k.space.page_table.translate(&k.arena, VirtPageNum(vp));
        let mut ok: bool = false;
        match pte_opt {
            Some(pte) => {
                if pte.is_valid() {
                    ok = true;
                }
            },
            None => {},
        }
        if !ok {
            proof {
                assert(!is_mapped(k.arena, root, vp));
                assert(k.user_byte(va) is None);
            }
            return false;
        }
        proof {
            assert(is_mapped(k.arena, root, vp));
            assert(k.user_byte(va) is Some);
        }
        i = i + 1;
    }
    // second pass: store the bytes
    let mut i2: usize = 0;
    while i2 < len
        invariant
            k.wf(),
            root == k.root(),
            i2 <= len,
            len == data@.len(),
            ptr + len <= VA_LIMIT,
            k.space.page_table.root_ppn == old(k).space.page_table.root_ppn,
            k.space.areas@ == old(k).space.areas@,
            k.active_token == old(k).active_token,
            k.arena.frame_count() == old(k).arena.frame_count(),
            k.arena.free_list@ == old(k).arena.free_list@,
            forall|v: u64|
                #[trigger] is_mapped(k.arena, root, v) == is_mapped(old(k).arena, root, v),
            forall|v: u64|
                is_mapped(old(k).arena, root, v) ==> #[trigger] mapped_ppn(k.arena, root, v)
                    == mapped_ppn(old(k).arena, root, v),
            forall|x: u64|
                #[trigger] is_table(k.arena, root, x) == is_table(old(k).arena, root, x),
            forall|va: u64|
                (ptr as u64) <= va < (ptr as u64) + data@.len() ==> (#[trigger] old(k).user_byte(
                    va,
                )) is Some,
            forall|j: int|
                0 <= j < i2 ==> #[trigger] k.user_byte((ptr + j) as u64) == Some(data@[j]),
            forall|va: u64|
                va < VA_LIMIT && !((ptr as u64) <= va < (ptr as u64) + (i2 as u64))
                    ==> #[trigger] k.user_byte(va) == old(k).user_byte(va),
        decreases len - i2,
    {
        let va: u64 = (ptr as u64) + (i2 as u64);
        let vp: u64 = va / 4096;
        proof {
            assert(old(k).user_byte(va) is Some);
            assert(is_mapped(old(k).arena, root, vp));
            assert(is_mapped(k.arena, root, vp));
        }
        let pte_opt = k.space.page_table.translate(&k.arena, VirtPageNum(vp));
        let pte = match pte_opt {
            Some(p) => p,
            None => unreached(),
        };
        let d = pte.ppn().0;
        proof {
            assert(d == mapped_ppn(k.arena, root, vp));
            assert(d < k.arena.frame_count() && !k.arena.is_free(d) && !is_table(
                k.arena,
                root,
                d,
            ));
        }
        let ghost a_i = k.arena;
        let b = data[i2];
        k.arena.write_byte(d, va % 4096, b);
        proof {
            let a_c = k.arena;
            lemma_nontable_frame_rewrite(a_i, a_c, root, d);
            assert forall|v: u64|
                #[trigger] is_mapped(a_c, root, v) implies mapped_ppn(a_c, root, v)
                < a_c.frame_count() && !a_c.is_free(mapped_ppn(a_c, root, v)) && !is_table(
                a_c,
                root,
                mapped_ppn(a_c, root, v),
            ) by {
                assert(is_mapped(a_i, root, v));
                assert(mapped_ppn(a_c, root, v) == mapped_ppn(a_i, root, v));
            }
            assert forall|v: u64, w2: u64|
                #![trigger mapped_ppn(a_c, root, v), mapped_ppn(a_c, root, w2)]
                is_mapped(a_c, root, v) && is_mapped(a_c, root, w2) && !same_path(v, w2)
                implies mapped_ppn(a_c, root, v) != mapped_ppn(a_c, root, w2) by {
                assert(is_mapped(a_i, root, v) && is_mapped(a_i, root, w2));
                assert(mapped_ppn(a_c, root, v) == mapped_ppn(a_i, root, v));
                assert(mapped_ppn(a_c, root, w2) == mapped_ppn(a_i, root, w2));
            }
            assert(leaves_ok(a_c, root));
            assert(k.user_byte(va) == Some(b)) by {
                assert(mapped_ppn(a_c, root, vp) == d);
                assert(a_c.frame_byte(d, va % 4096) == b);
            }
            assert forall|va2: u64|
                va2 < VA_LIMIT && va2 != va implies #[trigger] k.user_byte(va2) == ({
                let kk = Kernel { arena: a_i, space: k.space, active_token: k.active_token };
                kk.user_byte(va2)
            }) by {
                let vp2 = va2 / 4096;
                assert(is_mapped(a_c, root, vp2) == is_mapped(a_i, root, vp2));
                if is_mapped(a_i, root, vp2) {
                    let d2 = mapped_ppn(a_i, root, vp2);
                    assert(mapped_ppn(a_c, root, vp2) == d2);
                    if vp2 == vp {
                        assert(va2 % 4096 != va % 4096) by (nonlinear_arith)
                            requires
                                va2 / 4096 == va / 4096,
                                va2 != va,
                        ;
                        assert(a_c.frame_byte(d, va2 % 4096) == a_i.frame_byte(d, va2 % 4096));
                    } else {
                        assert(!same_path(vp2, vp)) by {
                            if same_path(vp2, vp) {
                                lemma_same_path_below(vp2, vp);
                            }
                        }
                        assert(d2 != d);
                        assert(!a_i.is_free(d2));
                        assert(d2 < a_i.frame_count());
                        assert forall|j: u64| j < 512 implies #[trigger] a_c.word(d2, j)
                            == a_i.word(d2, j) by {}
                        assert(a_c.frame_byte(d2, va2 % 4096) == a_i.frame_byte(d2, va2 % 4096));
                    }
                }
            }
        }
        i2 = i2 + 1;
    }
    true
}

} // verus!
