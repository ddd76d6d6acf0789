//! Address spaces: permission-tagged virtual ranges (`MapArea`) collected in
//! a `MemorySet` that owns one page table, and the kernel state object that
//! threads the frame arena and the current address space through the
//! subsystem in place of ambient globals.

use vstd::prelude::*;
use vstd::pervasive::unreached;
use crate::address::{VirtPageNum, VPNRange};
use crate::frame_allocator::{FrameArena, FrameTracker};
use crate::page_table::{
    PageTable, PTEFlags, PTE_V, is_mapped, mapped_ppn, leaf_pte, tree_wf, leaves_ok, is_table,
    pte_flags_of, same_path, lemma_same_path_below, evolves, lemma_free_not_table,
    lemma_nontable_frame_rewrite, translate_spec, lemma_evolves_trans, lemma_free_pool_change,
};

verus! {

/// The permission set of a map area: some of Read, Write, Execute, User.
#[derive(Clone, Copy, PartialEq, Eq, Structural, Debug)]
pub struct MapPermission {
    pub bits: u8,
}

/// A page-aligned range of virtual pages tagged with a permission set,
/// owning the trackers of the frames that back its pages.
pub struct MapArea {
    pub vpn_range: VPNRange,
    pub map_perm: MapPermission,
    pub frames: Vec<FrameTracker>,
}

/// One address space: exactly one page table and the map areas installed in
/// it.
pub struct MemorySet {
    pub page_table: PageTable,
    pub areas: Vec<MapArea>,
}

impl MemorySet {
    /// An address space with a fresh, empty page table and no areas.
    pub fn new_bare(arena: &mut FrameArena) -> (ms: MemorySet)
        requires
            old(arena).wf(),
            old(arena).free_count() >= 1,
        ensures
            final(arena).wf(),
            final(arena).frame_count() == old(arena).frame_count(),
            final(arena).free_count() == old(arena).free_count() - 1,
            tree_wf(*final(arena), ms.page_table.root()),
            leaves_ok(*final(arena), ms.page_table.root()),
            forall|v: u64| !(#[trigger] is_mapped(*final(arena), ms.page_table.root(), v)),
            forall|x: u64|
                #[trigger] is_table(*final(arena), ms.page_table.root(), x) == (x
                    == ms.page_table.root()),
            ms.areas@.len() == 0,
    {
        let page_table = PageTable::new(arena);
        MemorySet { page_table, areas: Vec::new() }
    }

    /// The address-space token of this set's page table.
    pub fn token(&self) -> (r: u64)
        ensures
            r == self.page_table.token_spec(),
    {
        self.page_table.token()
    }
}

/// The state of the memory subsystem: the physical frame arena, the current
/// task's address space, and the token written to the translation-control
/// register when a space was activated.
pub struct Kernel {
    pub arena: FrameArena,
    pub space: MemorySet,
    pub active_token: u64,
}

impl Kernel {
    /// The root frame of the current address space.
    pub open spec fn root(self) -> u64 {
        self.space.page_table.root()
    }

    /// Subsystem invariant: the tree is well formed and every installed
    /// leaf mapping points at a private, allocated, non-table frame.
    pub open spec fn wf(self) -> bool {
        &&& tree_wf(self.arena, self.root())
        &&& leaves_ok(self.arena, self.root())
        &&& self.active_token == self.space.page_table.token_spec()
    }

    /// The byte visible at virtual address `va` in the current space, going
    /// through the page table; absent when the page is unmapped.
    pub open spec fn user_byte(self, va: u64) -> Option<u8> {
        if is_mapped(self.arena, self.root(), va / 4096) {
            Some(self.arena.frame_byte(mapped_ppn(self.arena, self.root(), va / 4096), va % 4096))
        } else {
            None
        }
    }

    /// Number of frames still in the free pool.
    pub fn free_frames(&self) -> (r: usize)
        requires
            self.wf(),
        ensures
            r == self.arena.free_count(),
    {
        self.arena.free_list.len()
    }

    /// The active address-space token.
    pub fn token(&self) -> (r: u64)
        ensures
            r == self.active_token,
    {
        self.active_token
    }
}

} // verus!

verus! {

impl Kernel {
    /// Back every page of `[v0, v1]` with a freshly allocated, zero-filled
    /// private frame mapped with `flags | Valid`, and return the frames'
    /// trackers in ascending page order. Every covered page must currently
    /// be unmapped; frame-pool exhaustion is fatal and excluded by
    /// precondition.
    #[verifier::rlimit(80)]
    pub fn map_zeroed_range(&mut self, v0: u64, v1: u64, flags: PTEFlags) -> (fts: Vec<
        FrameTracker,
    >)
        requires
            old(self).wf(),
            v0 <= v1,
            v1 < 0x800_0000u64,
            forall|u: u64| v0 <= u <= v1 ==> !is_mapped(old(self).arena, old(self).root(), u),
            old(self).arena.free_count() >= 3 * (v1 - v0 + 1),
        ensures
            final(self).wf(),
            final(self).space.page_table.root_ppn == old(self).space.page_table.root_ppn,
            final(self).space.areas@ == old(self).space.areas@,
            final(self).active_token == old(self).active_token,
            final(self).arena.frame_count() == old(self).arena.frame_count(),
            final(self).arena.free_count() >= old(self).arena.free_count() - 3 * (v1 - v0 + 1),
            evolves(old(self).arena, final(self).arena, old(self).root()),
            fts@.len() == v1 - v0 + 1,
            forall|u: u64|
                v0 <= u <= v1 ==> #[trigger] is_mapped(final(self).arena, old(self).root(), u)
                    && pte_flags_of(leaf_pte(final(self).arena, old(self).root(), u)) == (
                flags.bits | PTE_V) && final(self).arena.frame_zero(
                    mapped_ppn(final(self).arena, old(self).root(), u),
                ) && old(self).arena.is_free(mapped_ppn(final(self).arena, old(self).root(), u)),
            forall|u: u64|
                u < 0x800_0000u64 && !(v0 <= u <= v1) ==> #[trigger] is_mapped(
                    final(self).arena,
                    old(self).root(),
                    u,
                ) == is_mapped(old(self).arena, old(self).root(), u),
            forall|u: u64|
                u < 0x800_0000u64 && !(v0 <= u <= v1) && is_mapped(
                    old(self).arena,
                    old(self).root(),
                    u,
                ) ==> #[trigger] mapped_ppn(final(self).arena, old(self).root(), u) == mapped_ppn(
                    old(self).arena,
                    old(self).root(),
                    u,
                ) && leaf_pte(final(self).arena, old(self).root(), u) == leaf_pte(
                    old(self).arena,
                    old(self).root(),
                    u,
                ),
    {
        let ghost a_in = self.arena;
        let ghost root = self.root();
        let mut fts: Vec<FrameTracker> = Vec::new();
        let mut u: u64 = v0;
        while u <= v1
            invariant
                self.wf(),
                v0 <= u <= v1 + 1,
                v1 < 0x800_0000u64,
                self.space.page_table.root_ppn == old(self).space.page_table.root_ppn,
                self.space.areas@ == old(self).space.areas@,
                self.active_token == old(self).active_token,
                self.root() == root,
                root == old(self).root(),
                a_in == old(self).arena,
                fts@.len() == u - v0,
                self.arena.frame_count() == a_in.frame_count(),
                self.arena.free_count() >= a_in.free_count() - 3 * (u - v0),
                a_in.free_count() >= 3 * (v1 - v0 + 1),
                tree_wf(a_in, root),
                evolves(a_in, self.arena, root),
                forall|w: u64|
                    v0 <= w < u ==> #[trigger] is_mapped(self.arena, root, w) && pte_flags_of(
                        leaf_pte(self.arena, root, w),
                    ) == (flags.bits | PTE_V) && self.arena.frame_zero(
                        mapped_ppn(self.arena, root, w),
                    ) && a_in.is_free(mapped_ppn(self.arena, root, w)),
                forall|w: u64| u <= w <= v1 ==> !(#[trigger] is_mapped(self.arena, root, w)),
                forall|w: u64|
                    w < 0x800_0000u64 && !(v0 <= w <= v1) ==> #[trigger] is_mapped(
                        self.arena,
                        root,
                        w,
                    ) == is_mapped(a_in, root, w),
                forall|w: u64|
                    w < 0x800_0000u64 && !(v0 <= w <= v1) && is_mapped(a_in, root, w)
                        ==> #[trigger] mapped_ppn(self.arena, root, w) == mapped_ppn(
                        a_in,
                        root,
                        w,
                    ) && leaf_pte(self.arena, root, w) == leaf_pte(a_in, root, w),
            decreases v1 + 1 - u,
        {
            let ghost a_i = self.arena;
            let ft = match self.arena.alloc_frame() {
                Some(f) => f,
                None => unreached(),
            };
            let d = ft.ppn.0;
            let ghost a_b = self.arena;
            proof {
                lemma_free_not_table(a_i, root, d);
                lemma_nontable_frame_rewrite(a_i, a_b, root, d);
                assert forall|v: u64|
                    #[trigger] is_mapped(a_b, root, v) implies mapped_ppn(a_b, root, v)
                    < a_b.frame_count() && !a_b.is_free(mapped_ppn(a_b, root, v)) && !is_table(
                    a_b,
                    root,
                    mapped_ppn(a_b, root, v),
                ) && mapped_ppn(a_b, root, v) != d by {
                    assert(is_mapped(a_i, root, v));
                    assert(mapped_ppn(a_b, root, v) == mapped_ppn(a_i, root, v));
                    assert(!a_i.is_free(mapped_ppn(a_i, root, v)));
                }
                assert forall|v: u64, w2: u64|
                    #![trigger mapped_ppn(a_b, root, v), mapped_ppn(a_b, root, w2)]
                    is_mapped(a_b, root, v) && is_mapped(a_b, root, w2) && !same_path(v, w2)
                    implies mapped_ppn(a_b, root, v) != mapped_ppn(a_b, root, w2) by {
                    assert(is_mapped(a_i, root, v) && is_mapped(a_i, root, w2));
                    assert(mapped_ppn(a_b, root, v) == mapped_ppn(a_i, root, v));
                    assert(mapped_ppn(a_b, root, w2) == mapped_ppn(a_i, root, w2));
                    assert(mapped_ppn(a_i, root, v) != mapped_ppn(a_i, root, w2));
                }
                assert(leaves_ok(a_b, root));
                assert(!is_mapped(a_b, root, u));
            }
            self.space.page_table.map(&mut self.arena, VirtPageNum(u), ft.ppn, flags);
            proof {
                let a_c = self.arena;
                // the fresh frame stays zero-filled, allocated, and not a table
                assert(!is_table(a_b, root, d));
                assert(!a_b.is_free(d));
                assert(!a_c.is_free(d));
                assert(!is_table(a_c, root, d));
                assert forall|j: u64| j < 512 implies #[trigger] a_c.word(d, j) == 0 by {
                    assert(a_c.word(d, j) == a_b.word(d, j));
                }
                assert(a_c.frame_zero(d));
                assert(mapped_ppn(a_c, root, u) == d);
                // pages other than u keep their mapping facts
                assert forall|w: u64| w < 0x800_0000u64 && w != u implies !same_path(w, u) by {
                    if same_path(w, u) {
                        lemma_same_path_below(w, u);
                    }
                }
                // done pages
                assert forall|w: u64| v0 <= w < u + 1 implies #[trigger] is_mapped(a_c, root, w)
                    && pte_flags_of(leaf_pte(a_c, root, w)) == (flags.bits | PTE_V)
                    && a_c.frame_zero(mapped_ppn(a_c, root, w)) && a_in.is_free(
                    mapped_ppn(a_c, root, w),
                ) by {
                    if w == u {
                        assert(a_in.is_free(d)) by {
                            assert(a_i.is_free(d));
                        }
                    } else {
                        assert(!same_path(w, u));
                        assert(is_mapped(a_b, root, w) && is_mapped(a_i, root, w));
                        assert(mapped_ppn(a_c, root, w) == mapped_ppn(a_b, root, w));
                        assert(leaf_pte(a_c, root, w) == leaf_pte(a_b, root, w));
                        assert(mapped_ppn(a_b, root, w) == mapped_ppn(a_i, root, w));
                        assert(leaf_pte(a_b, root, w) == leaf_pte(a_i, root, w)) by {
                            assert(translate_spec(a_b, root, w) == translate_spec(a_i, root, w));
                        }
                        let dw = mapped_ppn(a_i, root, w);
                        assert(!a_i.is_free(dw) && !is_table(a_i, root, dw));
                        assert(!a_b.is_free(dw) && !is_table(a_b, root, dw));
                        assert forall|j: u64| j < 512 implies #[trigger] a_c.word(dw, j)
                            == a_i.word(dw, j) by {
                            assert(a_b.word(dw, j) == a_i.word(dw, j));
                            assert(a_c.word(dw, j) == a_b.word(dw, j));
                        }
                        assert(a_c.frame_zero(dw));
                    }
                }
                // remaining pages
                assert forall|w: u64| u + 1 <= w <= v1 implies !(#[trigger] is_mapped(
                    a_c,
                    root,
                    w,
                )) by {
                    assert(!same_path(w, u));
                    assert(is_mapped(a_c, root, w) == is_mapped(a_b, root, w));
                    assert(is_mapped(a_b, root, w) == is_mapped(a_i, root, w));
                }
                // outside pages
                assert forall|w: u64|
                    w < 0x800_0000u64 && !(v0 <= w <= v1) implies #[trigger] is_mapped(
                    a_c,
                    root,
                    w,
                ) == is_mapped(a_in, root, w) by {
                    assert(!same_path(w, u));
                    assert(is_mapped(a_c, root, w) == is_mapped(a_b, root, w));
                    assert(is_mapped(a_b, root, w) == is_mapped(a_i, root, w));
                }
                assert forall|w: u64|
                    w < 0x800_0000u64 && !(v0 <= w <= v1) && is_mapped(a_in, root, w)
                    implies #[trigger] mapped_ppn(a_c, root, w) == mapped_ppn(a_in, root, w)
                    && leaf_pte(a_c, root, w) == leaf_pte(a_in, root, w) by {
                    assert(!same_path(w, u));
                    assert(is_mapped(a_i, root, w));
                    assert(mapped_ppn(a_b, root, w) == mapped_ppn(a_i, root, w));
                    assert(leaf_pte(a_b, root, w) == leaf_pte(a_i, root, w)) by {
                        assert(translate_spec(a_b, root, w) == translate_spec(a_i, root, w));
                    }
                    assert(is_mapped(a_b, root, w));
                    assert(mapped_ppn(a_c, root, w) == mapped_ppn(a_b, root, w));
                    assert(leaf_pte(a_c, root, w) == leaf_pte(a_b, root, w));
                }
                // leaves_ok
                assert forall|v: u64|
                    #[trigger] is_mapped(a_c, root, v) implies mapped_ppn(a_c, root, v)
                    < a_c.frame_count() && !a_c.is_free(mapped_ppn(a_c, root, v)) && !is_table(
                    a_c,
                    root,
                    mapped_ppn(a_c, root, v),
                ) by {
                    if same_path(v, u) {
                        assert(leaf_pte(a_c, root, v) == leaf_pte(a_c, root, u));
                        assert(mapped_ppn(a_c, root, v) == d);
                    } else {
                        assert(is_mapped(a_b, root, v));
                        assert(mapped_ppn(a_c, root, v) == mapped_ppn(a_b, root, v));
                        let dv = mapped_ppn(a_b, root, v);
                        assert(dv < a_b.frame_count() && !a_b.is_free(dv) && !is_table(
                            a_b,
                            root,
                            dv,
                        ));
                        assert(!a_c.is_free(dv));
                        assert(!is_table(a_c, root, dv));
                    }
                }
                assert forall|v: u64, w2: u64|
                    #![trigger mapped_ppn(a_c, root, v), mapped_ppn(a_c, root, w2)]
                    is_mapped(a_c, root, v) && is_mapped(a_c, root, w2) && !same_path(v, w2)
                    implies mapped_ppn(a_c, root, v) != mapped_ppn(a_c, root, w2) by {
                    if same_path(v, u) {
                        assert(leaf_pte(a_c, root, v) == leaf_pte(a_c, root, u));
                        assert(mapped_ppn(a_c, root, v) == d);
                        assert(!same_path(w2, u));
                        assert(is_mapped(a_b, root, w2) && is_mapped(a_i, root, w2));
                        assert(mapped_ppn(a_c, root, w2) == mapped_ppn(a_b, root, w2));
                        assert(mapped_ppn(a_b, root, w2) == mapped_ppn(a_i, root, w2));
                        assert(!a_i.is_free(mapped_ppn(a_i, root, w2)));
                        assert(a_i.is_free(d));
                    } else if same_path(w2, u) {
                        assert(leaf_pte(a_c, root, w2) == leaf_pte(a_c, root, u));
                        assert(mapped_ppn(a_c, root, w2) == d);
                        assert(is_mapped(a_b, root, v) && is_mapped(a_i, root, v));
                        assert(mapped_ppn(a_c, root, v) == mapped_ppn(a_b, root, v));
                        assert(mapped_ppn(a_b, root, v) == mapped_ppn(a_i, root, v));
                        assert(!a_i.is_free(mapped_ppn(a_i, root, v)));
                        assert(a_i.is_free(d));
                    } else {
                        assert(is_mapped(a_b, root, v) && is_mapped(a_b, root, w2));
                        assert(mapped_ppn(a_c, root, v) == mapped_ppn(a_b, root, v));
                        assert(mapped_ppn(a_c, root, w2) == mapped_ppn(a_b, root, w2));
                        assert(mapped_ppn(a_b, root, v) != mapped_ppn(a_b, root, w2));
                    }
                }
                assert(leaves_ok(a_c, root));
                // evolves chaining
                assert(evolves(a_i, a_b, root)) by {
                    assert forall|x: u64| #[trigger] is_table(a_b, root, x) implies is_table(
                        a_i,
                        root,
                        x,
                    ) || a_i.is_free(x) by {
                        assert(is_table(a_b, root, x) == is_table(a_i, root, x));
                    }
                    assert forall|s: u64, j: u64|
                        s < a_i.frame_count() && j < 512 && !a_i.is_free(s) && !is_table(
                            a_i,
                            root,
                            s,
                        ) implies #[trigger] a_b.word(s, j) == a_i.word(s, j) by {
                        assert(s != d);
                    }
                }
                lemma_evolves_trans(a_i, a_b, a_c, root);
                lemma_evolves_trans(a_in, a_i, a_c, root);
            }
            fts.push(ft);
            u = u + 1;
        }
        fts
    }
}

} // verus!

verus! {

impl Kernel {
    /// Unmap the pages of `[v0, v1]` in ascending order, releasing each
    /// backing frame to the pool. On the first page without a present leaf
    /// the call aborts and reports failure; pages before it remain unmapped
    /// (the documented partial-unmap edge case).
    #[verifier::rlimit(80)]
    pub fn unmap_range(&mut self, v0: u64, v1: u64) -> (r: isize)
        requires
            old(self).wf(),
            v0 <= v1,
            v1 < 0x800_0000u64,
        ensures
            final(self).wf(),
            r == 0 || r == -1,
            final(self).space.page_table.root_ppn == old(self).space.page_table.root_ppn,
            final(self).space.areas@ == old(self).space.areas@,
            final(self).active_token == old(self).active_token,
            final(self).arena.frame_count() == old(self).arena.frame_count(),
            (r == 0) <==> (forall|u: u64|
                v0 <= u <= v1 ==> #[trigger] is_mapped(old(self).arena, old(self).root(), u)),
            forall|u: u64|
                u < 0x800_0000u64 && !(v0 <= u <= v1) ==> #[trigger] is_mapped(
                    final(self).arena,
                    old(self).root(),
                    u,
                ) == is_mapped(old(self).arena, old(self).root(), u),
            forall|u: u64|
                u < 0x800_0000u64 && !(v0 <= u <= v1) && is_mapped(
                    old(self).arena,
                    old(self).root(),
                    u,
                ) ==> #[trigger] mapped_ppn(final(self).arena, old(self).root(), u) == mapped_ppn(
                    old(self).arena,
                    old(self).root(),
                    u,
                ) && leaf_pte(final(self).arena, old(self).root(), u) == leaf_pte(
                    old(self).arena,
                    old(self).root(),
                    u,
                ),
            forall|s: u64, j: u64|
                s < old(self).arena.frame_count() && j < 512 && !is_table(
                    old(self).arena,
                    old(self).root(),
                    s,
                ) ==> #[trigger] final(self).arena.word(s, j) == old(self).arena.word(s, j),
            r == 0 ==> {
                &&& forall|u: u64|
                    v0 <= u <= v1 ==> !(#[trigger] is_mapped(
                        final(self).arena,
                        old(self).root(),
                        u,
                    ))
                &&& final(self).arena.free_count() == old(self).arena.free_count() + (v1 - v0
                    + 1)
            },
            r == -1 ==> exists|b: u64|
                {
                    &&& v0 <= b <= v1
                    &&& !is_mapped(old(self).arena, old(self).root(), b)
                    &&& forall|u: u64|
                        v0 <= u < b ==> #[trigger] is_mapped(old(self).arena, old(self).root(), u)
                            && !is_mapped(final(self).arena, old(self).root(), u)
                    &&& forall|u: u64|
                        b <= u <= v1 ==> #[trigger] is_mapped(
                            final(self).arena,
                            old(self).root(),
                            u,
                        ) == is_mapped(old(self).arena, old(self).root(), u)
                    &&& final(self).arena.free_count() == old(self).arena.free_count() + (b - v0)
                },
    {
        let ghost a_in = self.arena;
        let ghost root = self.root();
        let mut u: u64 = v0;
        let mut failed: bool = false;
        while u <= v1 && !failed
            invariant
                self.wf(),
                v0 <= u <= v1 + 1,
                v1 < 0x800_0000u64,
                self.space.page_table.root_ppn == old(self).space.page_table.root_ppn,
                self.space.areas@ == old(self).space.areas@,
                self.active_token == old(self).active_token,
                self.root() == root,
                root == old(self).root(),
                a_in == old(self).arena,
                self.arena.frame_count() == a_in.frame_count(),
                forall|x: u64| #[trigger] is_table(self.arena, root, x) == is_table(a_in, root, x),
                forall|s: u64, j: u64|
                    s < a_in.frame_count() && j < 512 && !is_table(a_in, root, s)
                        ==> #[trigger] self.arena.word(s, j) == a_in.word(s, j),
                !failed ==> {
                    &&& self.arena.free_count() == a_in.free_count() + (u - v0)
                    &&& forall|w: u64|
                        v0 <= w < u ==> #[trigger] is_mapped(a_in, root, w) && !is_mapped(
                            self.arena,
                            root,
                            w,
                        )
                    &&& forall|w: u64|
                        w < 0x800_0000u64 && !(v0 <= w < u) ==> #[trigger] is_mapped(
                            self.arena,
                            root,
                            w,
                        ) == is_mapped(a_in, root, w)
                    &&& forall|w: u64|
                        w < 0x800_0000u64 && !(v0 <= w < u) && is_mapped(a_in, root, w)
                            ==> #[trigger] mapped_ppn(self.arena, root, w) == mapped_ppn(
                            a_in,
                            root,
                            w,
                        ) && leaf_pte(self.arena, root, w) == leaf_pte(a_in, root, w)
                },
                failed ==> u <= v1 && exists|b: u64|
                    {
                        &&& v0 <= b <= v1
                        &&& !is_mapped(a_in, root, b)
                        &&& forall|w: u64|
                            v0 <= w < b ==> #[trigger] is_mapped(a_in, root, w) && !is_mapped(
                                self.arena,
                                root,
                                w,
                            )
                        &&& forall|w: u64|
                            b <= w <= v1 ==> #[trigger] is_mapped(self.arena, root, w)
                                == is_mapped(a_in, root, w)
                        &&& forall|w: u64|
                            w < 0x800_0000u64 && !(v0 <= w <= v1) ==> is_mapped(
                                self.arena,
                                root,
                                w,
                            ) == is_mapped(a_in, root, w)
                        &&& forall|w: u64|
                            w < 0x800_0000u64 && !(v0 <= w <= v1) && is_mapped(a_in, root, w)
                                ==> #[trigger] mapped_ppn(self.arena, root, w) == mapped_ppn(
                                a_in,
                                root,
                                w,
                            ) && leaf_pte(self.arena, root, w) == leaf_pte(a_in, root, w)
                        &&& self.arena.free_count() == a_in.free_count() + (b - v0)
                    },
            decreases v1 + 1 - u, (if failed { 0int } else { 1int }),
        {
            let pte_opt = self.space.page_table.translate(&self.arena, VirtPageNum(u));
            let mut ok: bool = false;
            match pte_opt {
                Some(pte) => {
                    if pte.is_valid() {
                        ok = true;
                    }
                },
                None => {},
            }
            if !ok {
                failed = true;
                proof {
                    let b = u;
                    assert(!is_mapped(self.arena, root, b));
                    assert(is_mapped(self.arena, root, b) == is_mapped(a_in, root, b));
                    assert({
                        &&& v0 <= b <= v1
                        &&& !is_mapped(a_in, root, b)
                        &&& forall|w: u64|
                            v0 <= w < b ==> #[trigger] is_mapped(a_in, root, w) && !is_mapped(
                                self.arena,
                                root,
                                w,
                            )
                        &&& forall|w: u64|
                            b <= w <= v1 ==> #[trigger] is_mapped(self.arena, root, w)
                                == is_mapped(a_in, root, w)
                        &&& forall|w: u64|
                            w < 0x800_0000u64 && !(v0 <= w <= v1) ==> is_mapped(
                                self.arena,
                                root,
                                w,
                            ) == is_mapped(a_in, root, w)
                        &&& forall|w: u64|
                            w < 0x800_0000u64 && !(v0 <= w <= v1) && is_mapped(a_in, root, w)
                                ==> #[trigger] mapped_ppn(self.arena, root, w) == mapped_ppn(
                                a_in,
                                root,
                                w,
                            ) && leaf_pte(self.arena, root, w) == leaf_pte(a_in, root, w)
                        &&& self.arena.free_count() == a_in.free_count() + (b - v0)
                    });
                }
            } else {
                let ghost a_i = self.arena;
                let pte = match pte_opt {
                    Some(p) => p,
                    None => unreached(),
                };
                let d = pte.ppn().0;
                proof {
                    assert(is_mapped(a_i, root, u));
                    assert(d == mapped_ppn(a_i, root, u));
                    assert(d < a_i.frame_count() && !a_i.is_free(d) && !is_table(a_i, root, d));
                }
                self.space.page_table.unmap(&mut self.arena, VirtPageNum(u));
                let ghost a_m = self.arena;
                proof {
                    assert forall|w: u64| w < 0x800_0000u64 && w != u implies !same_path(
                        w,
                        u,
                    ) by {
                        if same_path(w, u) {
                            lemma_same_path_below(w, u);
                        }
                    }
                    assert forall|v: u64|
                        #[trigger] is_mapped(a_m, root, v) implies mapped_ppn(a_m, root, v)
                        < a_m.frame_count() && !a_m.is_free(mapped_ppn(a_m, root, v))
                        && !is_table(a_m, root, mapped_ppn(a_m, root, v)) && mapped_ppn(
                        a_m,
                        root,
                        v,
                    ) != d by {
                        assert(!same_path(v, u));
                        assert(is_mapped(a_i, root, v));
                        assert(translate_spec(a_m, root, v) == translate_spec(a_i, root, v));
                        assert(mapped_ppn(a_m, root, v) == mapped_ppn(a_i, root, v));
                        assert(!is_table(a_i, root, mapped_ppn(a_i, root, v)));
                        assert(mapped_ppn(a_i, root, v) != mapped_ppn(a_i, root, u));
                    }
                }
                self.arena.dealloc_frame(d);
                proof {
                    let a_c = self.arena;
                    assert forall|x: u64| #[trigger] is_table(a_m, root, x) implies !a_c.is_free(
                        x,
                    ) by {
                        assert(is_table(a_i, root, x));
                        assert(x != d);
                        assert(!a_m.is_free(x)) by {
                            if x == root {
                            } else if exists|v: u64|
                                #![trigger crate::page_table::t1(a_m, root, v)]
                                crate::page_table::down0(a_m, root, v)
                                    && crate::page_table::t1(a_m, root, v) == x {
                            } else {
                            }
                        }
                    }
                    lemma_free_pool_change(a_m, a_c, root);
                    // leaves stay private and allocated: the freed frame backs
                    // no mapping any more
                    assert forall|v: u64|
                        #[trigger] is_mapped(a_c, root, v) implies mapped_ppn(a_c, root, v)
                        < a_c.frame_count() && !a_c.is_free(mapped_ppn(a_c, root, v))
                        && !is_table(a_c, root, mapped_ppn(a_c, root, v)) by {
                        assert(is_mapped(a_m, root, v));
                        assert(mapped_ppn(a_c, root, v) == mapped_ppn(a_m, root, v));
                        assert(mapped_ppn(a_m, root, v) != d);
                        assert(!a_m.is_free(mapped_ppn(a_m, root, v)));
                    }
                    assert forall|v: u64, w2: u64|
                        #![trigger mapped_ppn(a_c, root, v), mapped_ppn(a_c, root, w2)]
                        is_mapped(a_c, root, v) && is_mapped(a_c, root, w2) && !same_path(v, w2)
                        implies mapped_ppn(a_c, root, v) != mapped_ppn(a_c, root, w2) by {
                        assert(is_mapped(a_m, root, v) && is_mapped(a_m, root, w2));
                        assert(mapped_ppn(a_c, root, v) == mapped_ppn(a_m, root, v));
                        assert(mapped_ppn(a_c, root, w2) == mapped_ppn(a_m, root, w2));
                        assert(mapped_ppn(a_m, root, v) != mapped_ppn(a_m, root, w2)) by {
                            assert(!same_path(v, u)) by {
                                if same_path(v, u) {
                                    assert(leaf_pte(a_m, root, v) == leaf_pte(a_m, root, u));
                                }
                            }
                            assert(!same_path(w2, u)) by {
                                if same_path(w2, u) {
                                    assert(leaf_pte(a_m, root, w2) == leaf_pte(a_m, root, u));
                                }
                            }
                            assert(translate_spec(a_m, root, v) == translate_spec(a_i, root, v));
                            assert(translate_spec(a_m, root, w2) == translate_spec(
                                a_i,
                                root,
                                w2,
                            ));
                            assert(mapped_ppn(a_m, root, v) == mapped_ppn(a_i, root, v));
                            assert(mapped_ppn(a_m, root, w2) == mapped_ppn(a_i, root, w2));
                            assert(is_mapped(a_i, root, v) && is_mapped(a_i, root, w2));
                        }
                    }
                    assert(leaves_ok(a_c, root));
                    // page u is gone; everything else keeps its mapping facts
                    assert(!is_mapped(a_c, root, u)) by {
                        assert(!is_mapped(a_m, root, u)) by {
                            crate::page_table::lemma_pte_empty();
                        }
                    }
                    assert forall|w: u64|
                        w < 0x800_0000u64 && w != u implies #[trigger] is_mapped(a_c, root, w)
                        == is_mapped(a_i, root, w) && (is_mapped(a_i, root, w) ==> mapped_ppn(
                        a_c,
                        root,
                        w,
                    ) == mapped_ppn(a_i, root, w) && leaf_pte(a_c, root, w) == leaf_pte(
                        a_i,
                        root,
                        w,
                    )) by {
                        assert(!same_path(w, u));
                        assert(translate_spec(a_m, root, w) == translate_spec(a_i, root, w));
                        assert(translate_spec(a_c, root, w) == translate_spec(a_m, root, w));
                        assert(is_mapped(a_c, root, w) == is_mapped(a_m, root, w));
                    }
                    assert forall|s: u64, j: u64|
                        s < a_in.frame_count() && j < 512 && !is_table(a_in, root, s)
                        implies #[trigger] a_c.word(s, j) == a_in.word(s, j) by {
                        assert(!is_table(a_i, root, s));
                        assert(s != crate::page_table::t2(a_i, root, u)) by {
                            assert(is_table(a_i, root, crate::page_table::t2(a_i, root, u)));
                        }
                        assert(a_m.word(s, j) == a_i.word(s, j));
                        assert(a_i.word(s, j) == a_in.word(s, j));
                        assert(a_c.word(s, j) == a_m.word(s, j));
                    }
                    assert forall|w: u64| v0 <= w < u + 1 implies #[trigger] is_mapped(
                        a_in,
                        root,
                        w,
                    ) && !is_mapped(a_c, root, w) by {
                        if w == u {
                            assert(is_mapped(a_i, root, u));
                            assert(is_mapped(a_i, root, u) == is_mapped(a_in, root, u));
                        } else {
                            assert(v0 <= w && w < u);
                            assert(is_mapped(a_in, root, w));
                            assert(!is_mapped(a_i, root, w));
                            assert(is_mapped(a_c, root, w) == is_mapped(a_i, root, w));
                        }
                    }
                    assert forall|w: u64|
                        w < 0x800_0000u64 && !(v0 <= w < u + 1) implies #[trigger] is_mapped(
                        a_c,
                        root,
                        w,
                    ) == is_mapped(a_in, root, w) by {
                        assert(w != u);
                        assert(is_mapped(a_c, root, w) == is_mapped(a_i, root, w));
                        assert(is_mapped(a_i, root, w) == is_mapped(a_in, root, w));
                    }
                    assert forall|w: u64|
                        w < 0x800_0000u64 && !(v0 <= w < u + 1) && is_mapped(a_in, root, w)
                        implies #[trigger] mapped_ppn(a_c, root, w) == mapped_ppn(a_in, root, w)
                        && leaf_pte(a_c, root, w) == leaf_pte(a_in, root, w) by {
                        assert(w != u);
                        assert(is_mapped(a_i, root, w) == is_mapped(a_in, root, w));
                        assert(mapped_ppn(a_i, root, w) == mapped_ppn(a_in, root, w));
                        assert(leaf_pte(a_i, root, w) == leaf_pte(a_in, root, w));
                        assert(is_mapped(a_c, root, w) == is_mapped(a_i, root, w));
                        assert(mapped_ppn(a_c, root, w) == mapped_ppn(a_i, root, w));
                        assert(leaf_pte(a_c, root, w) == leaf_pte(a_i, root, w));
                    }
                }
                u = u + 1;
            }
        }
        proof {
            if !failed {
                assert forall|w: u64| v0 <= w <= v1 implies !(#[trigger] is_mapped(
                    self.arena,
                    root,
                    w,
                )) by {
                    assert(is_mapped(a_in, root, w) && !is_mapped(self.arena, root, w));
                }
                assert forall|w: u64| v0 <= w <= v1 implies #[trigger] is_mapped(
                    a_in,
                    root,
                    w,
                ) by {}
            }
        }
        if failed {
            -1
        } else {
            0
        }
    }
}

} // verus!

verus! {

impl Kernel {
    /// Remove a map area from the current address space: every page of its
    /// range that is still mapped is unmapped and its backing frame goes
    /// back to the pool, then the area record itself is dropped. Pages of
    /// the range already unmapped (by an earlier partial munmap) are
    /// skipped.
    #[verifier::rlimit(80)]
    pub fn remove_area(&mut self, idx: usize)
        requires
            old(self).wf(),
            idx < old(self).space.areas@.len(),
            old(self).space.areas@[idx as int].vpn_range.start.0 <= old(
                self,
            ).space.areas@[idx as int].vpn_range.end.0,
            old(self).space.areas@[idx as int].vpn_range.end.0 <= 0x800_0000u64,
        ensures
            final(self).wf(),
            final(self).space.page_table.root_ppn == old(self).space.page_table.root_ppn,
            final(self).active_token == old(self).active_token,
            final(self).arena.frame_count() == old(self).arena.frame_count(),
            final(self).space.areas@ == old(self).space.areas@.remove(idx as int),
            final(self).arena.free_count() >= old(self).arena.free_count(),
            forall|u: u64|
                old(self).space.areas@[idx as int].vpn_range.start.0 <= u < old(
                    self,
                ).space.areas@[idx as int].vpn_range.end.0 ==> !(#[trigger] is_mapped(
                    final(self).arena,
                    old(self).root(),
                    u,
                )),
            forall|u: u64|
                u < 0x800_0000u64 && !(old(self).space.areas@[idx as int].vpn_range.start.0 <= u
                    < old(self).space.areas@[idx as int].vpn_range.end.0) ==> #[trigger] is_mapped(
                    final(self).arena,
                    old(self).root(),
                    u,
                ) == is_mapped(old(self).arena, old(self).root(), u),
    {
        let ghost a_in = self.arena;
        let ghost root = self.root();
        let v0 = self.space.areas[idx].vpn_range.get_start().0;
        let v1 = self.space.areas[idx].vpn_range.get_end().0;
        let mut u: u64 = v0;
        while u < v1
            invariant
                self.wf(),
                v0 <= u <= v1,
                v1 <= 0x800_0000u64,
                self.space.page_table.root_ppn == old(self).space.page_table.root_ppn,
                self.space.areas@ == old(self).space.areas@,
                self.active_token == old(self).active_token,
                self.root() == root,
                root == old(self).root(),
                a_in == old(self).arena,
                self.arena.frame_count() == a_in.frame_count(),
                self.arena.free_count() >= a_in.free_count(),
                forall|x: u64| #[trigger] is_table(self.arena, root, x) == is_table(a_in, root, x),
                forall|w: u64| v0 <= w < u ==> !(#[trigger] is_mapped(self.arena, root, w)),
                forall|w: u64|
                    w < 0x800_0000u64 && !(v0 <= w < u) ==> #[trigger] is_mapped(
                        self.arena,
                        root,
                        w,
                    ) == is_mapped(a_in, root, w),
                forall|w: u64|
                    w < 0x800_0000u64 && !(v0 <= w < u) && is_mapped(a_in, root, w)
                        ==> #[trigger] mapped_ppn(self.arena, root, w) == mapped_ppn(
                        a_in,
                        root,
                        w,
                    ),
            decreases v1 - u,
        {
            let pte_opt = self.space.page_table.translate(&self.arena, VirtPageNum(u));
            let mut mapped_here: bool = false;
            match pte_opt {
                Some(pte) => {
                    if pte.is_valid() {
                        mapped_here = true;
                    }
                },
                None => {},
            }
            if mapped_here {
                let ghost a_i = self.arena;
                let pte = match pte_opt {
                    Some(p) => p,
                    None => unreached(),
                };
                let d = pte.ppn().0;
                proof {
                    assert(is_mapped(a_i, root, u));
                    assert(d == mapped_ppn(a_i, root, u));
                    assert(d < a_i.frame_count() && !a_i.is_free(d) && !is_table(a_i, root, d));
                }
                self.space.page_table.unmap(&mut self.arena, VirtPageNum(u));
                let ghost a_m = self.arena;
                proof {
                    assert forall|w: u64| w < 0x800_0000u64 && w != u implies !same_path(
                        w,
                        u,
                    ) by {
                        if same_path(w, u) {
                            lemma_same_path_below(w, u);
                        }
                    }
                    assert forall|v: u64|
                        #[trigger] is_mapped(a_m, root, v) implies mapped_ppn(a_m, root, v)
                        < a_m.frame_count() && !a_m.is_free(mapped_ppn(a_m, root, v))
                        && !is_table(a_m, root, mapped_ppn(a_m, root, v)) && mapped_ppn(
                        a_m,
                        root,
                        v,
                    ) != d by {
                        assert(!same_path(v, u)) by {
                            if same_path(v, u) {
                                assert(leaf_pte(a_m, root, v) == leaf_pte(a_m, root, u));
                            }
                        }
                        assert(is_mapped(a_i, root, v));
                        assert(translate_spec(a_m, root, v) == translate_spec(a_i, root, v));
                        assert(mapped_ppn(a_m, root, v) == mapped_ppn(a_i, root, v));
                        assert(!is_table(a_i, root, mapped_ppn(a_i, root, v)));
                        assert(mapped_ppn(a_i, root, v) != mapped_ppn(a_i, root, u));
                    }
                }
                self.arena.dealloc_frame(d);
                proof {
                    let a_c = self.arena;
                    assert forall|x: u64| #[trigger] is_table(a_m, root, x) implies !a_c.is_free(
                        x,
                    ) by {
                        assert(is_table(a_i, root, x));
                        assert(x != d);
                    }
                    lemma_free_pool_change(a_m, a_c, root);
                    assert forall|v: u64|
                        #[trigger] is_mapped(a_c, root, v) implies mapped_ppn(a_c, root, v)
                        < a_c.frame_count() && !a_c.is_free(mapped_ppn(a_c, root, v))
                        && !is_table(a_c, root, mapped_ppn(a_c, root, v)) by {
                        assert(is_mapped(a_m, root, v));
                        assert(mapped_ppn(a_c, root, v) == mapped_ppn(a_m, root, v));
                        assert(mapped_ppn(a_m, root, v) != d);
                        assert(!a_m.is_free(mapped_ppn(a_m, root, v)));
                    }
                    assert forall|v: u64, w2: u64|
                        #![trigger mapped_ppn(a_c, root, v), mapped_ppn(a_c, root, w2)]
                        is_mapped(a_c, root, v) && is_mapped(a_c, root, w2) && !same_path(v, w2)
                        implies mapped_ppn(a_c, root, v) != mapped_ppn(a_c, root, w2) by {
                        assert(is_mapped(a_m, root, v) && is_mapped(a_m, root, w2));
                        assert(mapped_ppn(a_c, root, v) == mapped_ppn(a_m, root, v));
                        assert(mapped_ppn(a_c, root, w2) == mapped_ppn(a_m, root, w2));
                        assert(mapped_ppn(a_m, root, v) != mapped_ppn(a_m, root, w2)) by {
                            assert(!same_path(v, u)) by {
                                if same_path(v, u) {
                                    assert(leaf_pte(a_m, root, v) == leaf_pte(a_m, root, u));
                                }
                            }
                            assert(!same_path(w2, u)) by {
                                if same_path(w2, u) {
                                    assert(leaf_pte(a_m, root, w2) == leaf_pte(a_m, root, u));
                                }
                            }
                            assert(translate_spec(a_m, root, v) == translate_spec(a_i, root, v));
                            assert(translate_spec(a_m, root, w2) == translate_spec(
                                a_i,
                                root,
                                w2,
                            ));
                            assert(mapped_ppn(a_m, root, v) == mapped_ppn(a_i, root, v));
                            assert(mapped_ppn(a_m, root, w2) == mapped_ppn(a_i, root, w2));
                            assert(is_mapped(a_i, root, v) && is_mapped(a_i, root, w2));
                        }
                    }
                    assert(leaves_ok(a_c, root));
                    assert(!is_mapped(a_c, root, u)) by {
                        assert(!is_mapped(a_m, root, u)) by {
                            crate::page_table::lemma_pte_empty();
                        }
                    }
                    assert forall|w: u64|
                        w < 0x800_0000u64 && w != u implies #[trigger] is_mapped(a_c, root, w)
                        == is_mapped(a_i, root, w) && (is_mapped(a_i, root, w) ==> mapped_ppn(
                        a_c,
                        root,
                        w,
                    ) == mapped_ppn(a_i, root, w)) by {
                        assert(!same_path(w, u));
                        assert(translate_spec(a_m, root, w) == translate_spec(a_i, root, w));
                        assert(translate_spec(a_c, root, w) == translate_spec(a_m, root, w));
                        assert(is_mapped(a_c, root, w) == is_mapped(a_m, root, w));
                    }
                }
            }
            u = u + 1;
        }
        self.space.areas.remove(idx);
    }
}

} // verus!
