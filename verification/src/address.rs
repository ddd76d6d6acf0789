//! Value types for physical and virtual byte addresses and page numbers,
//! with page-aligned conversions and range stepping.

use vstd::prelude::*;

verus! {

/// Bytes per page.
pub const PAGE_SIZE: u64 = 4096;
/// log2 of the page size.
pub const PAGE_SIZE_BITS: u64 = 12;
/// Virtual addresses are 39 bits wide under SV39.
pub const VA_LIMIT: u64 = 0x80_0000_0000;
/// Physical page numbers are 44 bits wide under SV39.
pub const PPN_LIMIT: u64 = 0x1000_0000_0000;

/// A byte-granular physical address.
#[derive(Clone, Copy, PartialEq, Eq, Structural, Debug)]
pub struct PhysAddr(pub u64);

/// A byte-granular virtual address.
#[derive(Clone, Copy, PartialEq, Eq, Structural, Debug)]
pub struct VirtAddr(pub u64);

/// A physical page number: a physical address divided by the page size.
#[derive(Clone, Copy, PartialEq, Eq, Structural, Debug)]
pub struct PhysPageNum(pub u64);

/// A virtual page number: a virtual address divided by the page size.
#[derive(Clone, Copy, PartialEq, Eq, Structural, Debug)]
pub struct VirtPageNum(pub u64);

impl VirtAddr {
    /// The page number of the page containing this address.
    pub fn floor(self) -> (r: VirtPageNum)
        ensures
            r.0 == self.0 / PAGE_SIZE,
    {
        VirtPageNum(self.0 / PAGE_SIZE)
    }

    /// The page number of the first page boundary at or above this address.
    pub fn ceil(self) -> (r: VirtPageNum)
        ensures
            r.0 == (self.0 + PAGE_SIZE - 1) / (PAGE_SIZE as int),
    {
        VirtPageNum(self.0 / PAGE_SIZE + if self.0 % PAGE_SIZE == 0 { 0u64 } else { 1u64 })
    }

    /// The offset of this address within its page: the low 12 bits.
    pub fn page_offset(self) -> (r: u64)
        ensures
            r == self.0 % PAGE_SIZE,
            r < PAGE_SIZE,
    {
        self.0 % PAGE_SIZE
    }
}

impl PhysAddr {
    /// The page number of the page containing this address.
    pub fn floor(self) -> (r: PhysPageNum)
        ensures
            r.0 == self.0 / PAGE_SIZE,
    {
        PhysPageNum(self.0 / PAGE_SIZE)
    }

    /// The offset of this address within its page: the low 12 bits.
    pub fn page_offset(self) -> (r: u64)
        ensures
            r == self.0 % PAGE_SIZE,
            r < PAGE_SIZE,
    {
        self.0 % PAGE_SIZE
    }
}

impl VirtPageNum {
    /// The address of the first byte of this page.
    pub fn base_addr(self) -> (r: VirtAddr)
        requires
            self.0 < VA_LIMIT / PAGE_SIZE,
        ensures
            r.0 == self.0 * PAGE_SIZE,
    {
        VirtAddr(self.0 * PAGE_SIZE)
    }

    /// Advance this page number by exactly one page.
    pub fn step(&mut self)
        requires
            old(self).0 < u64::MAX,
        ensures
            final(self).0 == old(self).0 + 1,
    {
        self.0 = self.0 + 1;
    }
}

impl PhysPageNum {
    /// The address of the first byte of this page's frame.
    pub fn base_addr(self) -> (r: PhysAddr)
        requires
            self.0 < PPN_LIMIT,
        ensures
            r.0 == self.0 * PAGE_SIZE,
    {
        PhysAddr(self.0 * PAGE_SIZE)
    }
}

/// Converting a byte address to its page number and back yields the start
/// address of the page containing the original address: the largest
/// page-aligned address at or below it.
pub proof fn lemma_page_round_trip(va: u64)
    ensures
        (va / PAGE_SIZE) * PAGE_SIZE <= va,
        va < (va / PAGE_SIZE) * PAGE_SIZE + PAGE_SIZE,
        ((va / PAGE_SIZE) * PAGE_SIZE) % (PAGE_SIZE as int) == 0,
{
    assert((va / 4096) * 4096 <= va && va < (va / 4096) * 4096 + 4096
        && ((va / 4096) * 4096) % 4096 == 0) by (nonlinear_arith);
}

/// An ascending, finite, restartable range of virtual page numbers:
/// `[start, end)`. Iteration is driven by the original bounds, not by
/// hidden state.
#[derive(Clone, Copy, PartialEq, Eq, Structural, Debug)]
pub struct VPNRange {
    pub start: VirtPageNum,
    pub end: VirtPageNum,
}

impl VPNRange {
    /// Make a range covering `[l, r)`.
    pub fn new(l: VirtPageNum, r: VirtPageNum) -> (rng: VPNRange)
        ensures
            rng.start == l,
            rng.end == r,
    {
        VPNRange { start: l, end: r }
    }

    /// First page number of the range.
    pub fn get_start(&self) -> (r: VirtPageNum)
        ensures
            r == self.start,
    {
        self.start
    }

    /// One past the last page number of the range.
    pub fn get_end(&self) -> (r: VirtPageNum)
        ensures
            r == self.end,
    {
        self.end
    }

    /// Number of pages in the range.
    pub fn page_count(&self) -> (r: u64)
        ensures
            r == if self.start.0 <= self.end.0 {
                self.end.0 - self.start.0
            } else {
                0int
            },
    {
        if self.start.0 <= self.end.0 {
            self.end.0 - self.start.0
        } else {
            0
        }
    }

    /// The `i`-th page of the range, counting from the start.
    pub fn nth(&self, i: u64) -> (r: VirtPageNum)
        requires
            self.start.0 <= self.end.0,
            i < self.end.0 - self.start.0,
        ensures
            r.0 == self.start.0 + i,
    {
        VirtPageNum(self.start.0 + i)
    }
}

} // verus!
