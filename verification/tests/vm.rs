use sv39_vm::address::{PhysPageNum, VirtAddr, VirtPageNum, VPNRange};
use sv39_vm::frame_allocator::FrameArena;
use sv39_vm::init;
use sv39_vm::is_prot_valid;
use sv39_vm::mmap_many;
use sv39_vm::munmap_many;
use sv39_vm::page_table::{translated_byte_buffer, read_user_bytes, write_user_bytes, PageTable,
    PageTableEntry, PTEFlags, PTE_R, PTE_V, PTE_W, PTE_X};

fn page_present(k: &sv39_vm::memory_set::Kernel, vpn: u64) -> bool {
    match k.space.page_table.translate(&k.arena, VirtPageNum(vpn)) {
        Some(pte) => pte.is_valid(),
        None => false,
    }
}

#[test]
fn address_round_trip() {
    let cases: [u64; 6] = [0, 1, 4095, 4096, 0x1234_5678, 0x7f_ffff_ffff];
    for va in cases {
        let a = VirtAddr(va);
        let page = a.floor();
        let back = page.base_addr();
        assert!(back.0 <= va);
        assert!(va < back.0 + 4096);
        assert_eq!(back.0 % 4096, 0);
        assert_eq!(a.page_offset(), va - back.0);
    }
}

#[test]
fn vpn_range_stepping() {
    let mut v = VirtPageNum(7);
    v.step();
    assert_eq!(v.0, 8);
    let r = VPNRange::new(VirtPageNum(3), VirtPageNum(6));
    assert_eq!(r.page_count(), 3);
    assert_eq!(r.get_start().0, 3);
    assert_eq!(r.get_end().0, 6);
    assert_eq!(r.nth(2).0, 5);
}

#[test]
fn entry_layout() {
    let e = PageTableEntry::new(PhysPageNum(0x1234), PTEFlags::from_bits(PTE_V | PTE_R | PTE_X));
    assert_eq!(e.bits, (0x1234u64 << 10) | 0x0b);
    assert_eq!(e.ppn().0, 0x1234);
    assert!(e.is_valid() && e.readable() && e.executable() && !e.writable());
    let z = PageTableEntry::empty();
    assert!(!z.is_valid());
    assert_eq!(z.bits, 0);
    let f = PTEFlags::from_bits(PTE_R).union(PTEFlags::from_bits(PTE_W));
    assert!(f.contains(PTEFlags::from_bits(PTE_R | PTE_W)));
    assert!(!f.contains(PTEFlags::from_bits(PTE_V)));
    assert_eq!(PTEFlags::empty().bits, 0);
}

#[test]
fn map_translate_consistency() {
    let mut arena = FrameArena::new(16);
    let mut pt = PageTable::new(&mut arena);
    pt.map(
        &mut arena,
        VirtPageNum(5),
        PhysPageNum(7),
        PTEFlags::from_bits(PTE_R | PTE_W),
    );
    let pte = pt.translate(&arena, VirtPageNum(5)).unwrap();
    assert!(pte.is_valid());
    assert_eq!(pte.ppn().0, 7);
    assert!(pte.readable());
    assert!(pte.writable());
    assert!(!pte.executable());
}

#[test]
fn unmap_clears() {
    let mut arena = FrameArena::new(16);
    let mut pt = PageTable::new(&mut arena);
    pt.map(&mut arena, VirtPageNum(5), PhysPageNum(7), PTEFlags::from_bits(PTE_R));
    pt.unmap(&mut arena, VirtPageNum(5));
    let pte = pt.translate(&arena, VirtPageNum(5)).unwrap();
    assert!(!pte.is_valid());
}

#[test]
fn token_round_trip() {
    let mut arena = FrameArena::new(4);
    let pt = PageTable::new(&mut arena);
    let tok = pt.token();
    assert_eq!(tok >> 60, 8);
    let view = PageTable::from_token(tok);
    assert_eq!(view.root_ppn, pt.root_ppn);
    assert_eq!(view.frames.len(), 0);
}

#[test]
fn frame_allocator_exhaustion_and_reuse() {
    let mut arena = FrameArena::new(2);
    let a = arena.alloc_frame().unwrap();
    let b = arena.alloc_frame().unwrap();
    assert!(arena.alloc_frame().is_none());
    assert_ne!(a.ppn.0, b.ppn.0);
    arena.dealloc_frame(a.ppn.0);
    let c = arena.alloc_frame().unwrap();
    assert_eq!(c.ppn.0, a.ppn.0);
    let _ = b;
}

#[test]
fn frames_are_zero_filled_on_alloc() {
    let mut arena = FrameArena::new(2);
    let f = arena.alloc_frame().unwrap();
    arena.write_byte(f.ppn.0, 123, 0xab);
    arena.dealloc_frame(f.ppn.0);
    let g = arena.alloc_frame().unwrap();
    assert_eq!(g.ppn.0, f.ppn.0);
    for off in [0u64, 1, 122, 123, 124, 4095] {
        assert_eq!(arena.read_byte(g.ppn.0, off), 0);
    }
}

#[test]
fn mmap_zero_fill() {
    let mut k = init(64);
    assert_eq!(mmap_many(&mut k, 0x1000, 0x1800, 3), 0);
    let tok = k.token();
    let bytes = read_user_bytes(&k, tok, 0x1000, 0x1800).unwrap();
    assert_eq!(bytes.len(), 0x1800);
    for b in bytes {
        assert_eq!(b, 0);
    }
}

#[test]
fn boundary_rounding() {
    let mut k = init(64);
    assert_eq!(mmap_many(&mut k, 0x1000, 0x1001, 3), 0);
    assert!(page_present(&k, 1));
    assert!(page_present(&k, 2));
    assert!(!page_present(&k, 3));
    assert_eq!(munmap_many(&mut k, 0x1000, 0x1001), 0);
    assert!(!page_present(&k, 1));
    assert!(!page_present(&k, 2));
}

#[test]
fn overlap_rejection() {
    let mut k = init(64);
    assert_eq!(mmap_many(&mut k, 0x2000, 0x1000, 3), 0);
    let free_before = k.free_frames();
    assert_eq!(mmap_many(&mut k, 0x1000, 0x2000, 3), -1);
    assert!(!page_present(&k, 1));
    assert_eq!(k.free_frames(), free_before);
}

#[test]
fn protection_validation() {
    let mut k = init(64);
    let free_before = k.free_frames();
    assert_eq!(mmap_many(&mut k, 0x1000, 0x1000, 0), -1);
    assert_eq!(mmap_many(&mut k, 0x1000, 0x1000, 8), -1);
    assert_eq!(k.free_frames(), free_before);
    assert!(!page_present(&k, 1));
    assert!(!is_prot_valid(0));
    assert!(!is_prot_valid(8));
    // rejection needs no valid length: the protection check comes first
    assert_eq!(mmap_many(&mut k, 0x4000, 0, 0), -1);
    assert_eq!(mmap_many(&mut k, 0x4000, 0, 8), -1);
    for v in 1usize..=7 {
        assert!(is_prot_valid(v));
        let start = 0x10000 * v;
        assert_eq!(mmap_many(&mut k, start, 0x1000, v), 0);
        let pte = k
            .space
            .page_table
            .translate(&k.arena, VirtPageNum((start / 4096) as u64))
            .unwrap();
        assert!(pte.is_valid());
        assert_eq!(pte.readable(), v & 1 != 0);
        assert_eq!(pte.writable(), v & 2 != 0);
        assert_eq!(pte.executable(), v & 4 != 0);
        // user-mode bit is always set on mmap-created pages
        assert_eq!(pte.flags().bits & 0x10, 0x10);
    }
}

#[test]
fn alignment_validation() {
    let mut k = init(64);
    for v in 1usize..=7 {
        assert_eq!(mmap_many(&mut k, 0x1001, 0x1000, v), -1);
    }
    // the alignment check precedes the range computation too
    assert_eq!(mmap_many(&mut k, 0x1001, 0, 3), -1);
    assert!(!page_present(&k, 1));
}

#[test]
fn partial_unmap_reports_failure() {
    let mut k = init(64);
    assert_eq!(mmap_many(&mut k, 0x1000, 0x2000, 3), 0);
    let free_before = k.free_frames();
    // page at 0x3000 was never mapped: the call fails after having
    // unmapped the two earlier pages
    assert_eq!(munmap_many(&mut k, 0x1000, 0x3000), -1);
    assert!(!page_present(&k, 1));
    assert!(!page_present(&k, 2));
    assert_eq!(k.free_frames(), free_before + 2);
}

#[test]
fn remove_area_releases_frames() {
    let mut k = init(64);
    assert_eq!(mmap_many(&mut k, 0x1000, 0x2000, 3), 0);
    let free_after_map = k.free_frames();
    // a partial munmap already freed one page of the area
    assert_eq!(munmap_many(&mut k, 0x1000, 0x1000), 0);
    assert_eq!(k.space.areas.len(), 1);
    k.remove_area(0);
    assert_eq!(k.space.areas.len(), 0);
    assert!(!page_present(&k, 1));
    assert!(!page_present(&k, 2));
    assert_eq!(k.free_frames(), free_after_map + 2);
}

#[test]
fn cross_page_access() {
    let mut k = init(64);
    assert_eq!(mmap_many(&mut k, 0x1000, 0x1000, 3), 0);
    assert_eq!(mmap_many(&mut k, 0x5000, 0x1000, 3), 0);
    assert_eq!(mmap_many(&mut k, 0x2000, 0x1000, 3), 0);
    let tok = k.token();
    let ws = translated_byte_buffer(&k, tok, 0x1800, 0x1000).unwrap();
    assert_eq!(ws.len(), 2);
    let total: u64 = ws.iter().map(|w| w.len).sum();
    assert_eq!(total, 0x1000);
    // the two virtual pages sit on physically non-adjacent frames
    let a = ws[0].ppn.0;
    let b = ws[1].ppn.0;
    assert!(a + 1 != b && b + 1 != a);
    // a write spanning the page boundary reads back intact
    let data: Vec<u8> = (0u32..0x1000).map(|i| (i % 251) as u8).collect();
    assert!(write_user_bytes(&mut k, tok, 0x1800, &data));
    let back = read_user_bytes(&k, tok, 0x1800, 0x1000).unwrap();
    assert_eq!(back, data);
    // bytes outside the written range are still zero
    let head = read_user_bytes(&k, tok, 0x1000, 0x800).unwrap();
    assert!(head.iter().all(|b| *b == 0));
}

#[test]
fn empty_window_request() {
    let k = init(4);
    let tok = k.token();
    // a zero-length request touches no page: empty window list, even on an
    // entirely unmapped space
    let ws = translated_byte_buffer(&k, tok, 0x1000, 0).unwrap();
    assert_eq!(ws.len(), 0);
}

#[test]
fn window_translation_fails_on_unmapped_page() {
    let mut k = init(64);
    assert_eq!(mmap_many(&mut k, 0x1000, 0x1000, 3), 0);
    let tok = k.token();
    assert!(translated_byte_buffer(&k, tok, 0x1800, 0x1000).is_none());
    assert!(read_user_bytes(&k, tok, 0x1800, 0x1000).is_none());
    let data = vec![1u8, 2, 3];
    assert!(!write_user_bytes(&mut k, tok, 0x2ffe, &data));
    // the failed write changed nothing
    let b = read_user_bytes(&k, tok, 0x1ffe, 2).unwrap();
    assert_eq!(b, vec![0, 0]);
}
