use rkernel::address::{kva2pa, pa2kva, PhysAddr, PhysPageNum, VirtAddr, VirtPageNum};
use rkernel::elf::{ElfImage, ElfSegment};
use rkernel::frame::{frame_alloc, frame_dealloc, StackFrameAllocator};
use rkernel::map_area::{AreaType, MapArea, MapPermission, MapType, MAP_R, MAP_U, MAP_W, MAP_X};
use rkernel::memory_set::{KernelLayout, MemorySet};
use rkernel::inode::BlockIter;
use rkernel::page_table::PageTable;
use rkernel::pte::{PTEFlags, PageTableEntry, PTE_R, PTE_V, PTE_W, PTE_X};

fn pool(start: u64, n: u64) -> StackFrameAllocator {
    let mut a = StackFrameAllocator::new();
    a.init(PhysPageNum(start), PhysPageNum(start + n));
    a
}

#[test]
fn frame_round_trip_returns_same_set() {
    let mut a = pool(0x80, 8);
    let mut frames = Vec::new();
    for _ in 0..5 {
        frames.push(frame_alloc(&mut a).unwrap());
    }
    let mut first: Vec<u64> = frames.iter().map(|f| f.ppn.0).collect();
    // give back in a scrambled order
    let order = [3usize, 0, 4, 1, 2];
    let mut taken: Vec<Option<_>> = frames.into_iter().map(Some).collect();
    for &i in order.iter() {
        frame_dealloc(&mut a, taken[i].take().unwrap());
    }
    let mut second: Vec<u64> = (0..5).map(|_| frame_alloc(&mut a).unwrap().ppn.0).collect();
    first.sort();
    second.sort();
    assert_eq!(first, second);
}

#[test]
fn frame_pool_exhaustion() {
    let mut a = pool(0x100, 3);
    assert_eq!(a.allocate().unwrap().0, 0x100);
    assert_eq!(a.allocate().unwrap().0, 0x101);
    assert_eq!(a.allocate().unwrap().0, 0x102);
    assert!(a.allocate().is_none());
    assert_eq!(a.free_frames(), 0);
}

#[test]
fn frame_recycled_first() {
    let mut a = pool(0x10, 4);
    let f0 = frame_alloc(&mut a).unwrap();
    let _f1 = frame_alloc(&mut a).unwrap();
    assert!(a.is_allocated(PhysPageNum(0x10)));
    frame_dealloc(&mut a, f0);
    assert!(!a.is_allocated(PhysPageNum(0x10)));
    assert_eq!(frame_alloc(&mut a).unwrap().ppn.0, 0x10);
}

#[test]
fn address_conversions() {
    assert_eq!(VirtAddr(0x1234).floor().0, 1);
    assert_eq!(VirtAddr(0x1234).ceil().0, 2);
    assert_eq!(VirtAddr(0x2000).ceil().0, 2);
    assert_eq!(VirtAddr(0).ceil().0, 0);
    assert_eq!(VirtAddr(0x1234).page_offset(), 0x234);
    assert_eq!(PhysAddr(0x5fff).floor().0, 5);
    assert_eq!(PhysAddr(0x5001).ceil().0, 6);
    assert_eq!(PhysAddr(0x5001).page_offset(), 1);
    assert!(VirtAddr::new(0x40_0000_0000).is_none());
    assert!(VirtAddr::new(0xffff_ffc0_0000_0000).is_some());
    assert_eq!(kva2pa(VirtAddr(0xffff_ffc0_8020_0000)).0, 0x8020_0000);
    assert_eq!(pa2kva(PhysAddr(0x8020_0000)).0, 0xffff_ffc0_8020_0000);
    assert_eq!(PhysPageNum(3).addr().0, 0x3000);
    assert_eq!(PhysPageNum::new(u64::MAX).0, 0xfff_ffff_ffff);
}

#[test]
fn vpn_index_round_trip() {
    for &v in [0u64, 1, 511, 512, 0x12345, 0x7ff_ffff, 0x3ff_fffe].iter() {
        let idx = VirtPageNum(v).indexes();
        assert!(idx.iter().all(|&i| i < 512));
        assert_eq!(VirtPageNum::from_indexes(idx).0, v);
    }
    assert_eq!(VirtPageNum(0x12345).indexes(), [0x0, 0x91, 0x145]);
}

#[test]
fn pte_fields() {
    let e = PageTableEntry::new(PhysPageNum(0x8_0123), PTEFlags(PTE_V | PTE_R | PTE_X));
    assert_eq!(e.ppn().0, 0x8_0123);
    assert_eq!(e.flags().0, PTE_V | PTE_R | PTE_X);
    assert!(e.is_valid() && e.readable() && e.executable() && !e.writable());
    assert_eq!(e.bits, (0x8_0123 << 10) | 0b1011);
    assert!(!PageTableEntry::empty().is_valid());
}

#[test]
fn page_table_map_translate_unmap() {
    let mut a = pool(0x1000, 64);
    let mut pt = PageTable::new(&mut a);
    let vpn = VirtPageNum(0x12345);
    assert!(pt.translate(vpn).is_none());
    pt.map(vpn, PhysPageNum(0x777), PTEFlags(PTE_V | PTE_R | PTE_W), &mut a);
    let e = pt.translate(vpn).unwrap();
    assert_eq!(e.ppn().0, 0x777);
    assert_eq!(e.flags().0, PTE_V | PTE_R | PTE_W);
    // the valid bit is added when missing
    pt.map(VirtPageNum(0x12346), PhysPageNum(0x778), PTEFlags(PTE_R), &mut a);
    assert_eq!(pt.translate(VirtPageNum(0x12346)).unwrap().flags().0, PTE_R | PTE_V);
    assert!(pt.translate(VirtPageNum(0x12347)).is_none());
    pt.unmap(vpn);
    assert!(pt.translate(vpn).is_none());
    assert_eq!(pt.translate(VirtPageNum(0x12346)).unwrap().ppn().0, 0x778);
    assert_eq!(pt.token(), (8u64 << 60) | 0x1000);
}

#[test]
fn map_area_copy_and_read() {
    let mut a = pool(0x2000, 64);
    let mut pt = PageTable::new(&mut a);
    let mut area = MapArea::new(VirtAddr(0x10800), VirtAddr(0x12001), MapType::Framed, MapPermission(MAP_R | MAP_W | MAP_U), AreaType::Mmap);
    assert_eq!(area.vpn_range_begin().0, 0x10);
    assert_eq!(area.vpn_range_end().0, 0x13);
    area.map(&mut pt, &mut a);
    let data: Vec<u8> = (0..5000u32).map(|i| (i % 251) as u8).collect();
    area.copy_data(&data, 0x800);
    for (i, b) in data.iter().enumerate() {
        assert_eq!(area.read_byte(0x800 + i as u64), *b);
    }
    let e = pt.translate(VirtPageNum(0x11)).unwrap();
    assert_eq!(e.flags().0, MAP_R | MAP_W | MAP_U | PTE_V);
    area.unmap(&mut pt, &mut a);
    assert!(pt.translate(VirtPageNum(0x11)).is_none());
}

fn elf_bytes(body: &[u8]) -> Vec<u8> {
    let mut v = vec![0u8; 4096];
    v[0] = 0x7f;
    v[1] = b'E';
    v[2] = b'L';
    v[3] = b'F';
    v.extend_from_slice(body);
    v
}

fn seg(vaddr: u64, mem_size: u64, offset: u64, file_size: u64, r: bool, w: bool, x: bool) -> ElfSegment {
    ElfSegment { is_load: true, vaddr, mem_size, offset, file_size, readable: r, writable: w, executable: x }
}

#[test]
fn elf_load_two_pages() {
    let mut a = pool(0x3000, 256);
    let kernel = MemorySet::new_bare(&mut a);
    let data = elf_bytes(&[0xAA; 4096 + 10]);
    let image = ElfImage { entry: 0x10000, segments: vec![seg(0x10000, 4096 + 10, 4096, 4096 + 10, true, false, true)] };
    let (ms, entry, base) = MemorySet::from_elf(&data, &image, &kernel, &mut a).unwrap();
    assert_eq!(entry, 0x10000);
    assert_eq!(base, 0x12000 + 0x1000);
    for off in [0u64, 1, 4095, 4096, 4096 + 9].iter() {
        assert_eq!(ms.read_byte(VirtAddr(0x10000 + off)), Some(0xAA));
    }
    let e = ms.translate(VirtPageNum(0x11)).unwrap();
    assert_eq!(e.flags().0, MAP_U | MAP_R | MAP_X | PTE_V);
    assert!(ms.translate(VirtPageNum(0x12)).is_none());
}

#[test]
fn elf_rejected_inputs() {
    let mut a = pool(0x3000, 256);
    let kernel = MemorySet::new_bare(&mut a);
    let mut bad = elf_bytes(&[1, 2, 3]);
    bad[0] = 0;
    let image = ElfImage { entry: 0, segments: vec![seg(0x10000, 3, 4096, 3, true, true, false)] };
    assert!(MemorySet::from_elf(&bad, &image, &kernel, &mut a).is_none());
    let good = elf_bytes(&[1, 2, 3]);
    let past_end = ElfImage { entry: 0, segments: vec![seg(0x10000, 3, 4096, 4, true, true, false)] };
    assert!(MemorySet::from_elf(&good, &past_end, &kernel, &mut a).is_none());
    let overlap = ElfImage { entry: 0, segments: vec![seg(0x10000, 3, 4096, 3, true, false, false), seg(0x10800, 3, 4096, 3, true, false, false)] };
    assert!(MemorySet::from_elf(&good, &overlap, &kernel, &mut a).is_none());
    let mut tiny = pool(0x9000, 2);
    let k2 = MemorySet::new_bare(&mut tiny);
    let ok = ElfImage { entry: 0, segments: vec![seg(0x10000, 3, 4096, 3, true, false, false)] };
    assert!(MemorySet::from_elf(&good, &ok, &k2, &mut tiny).is_none());
}

#[test]
fn fork_copy_is_independent() {
    let mut a = pool(0x4000, 256);
    let kernel = MemorySet::new_bare(&mut a);
    let data = elf_bytes(&[7u8; 100]);
    let image = ElfImage { entry: 0x10000, segments: vec![seg(0x10000, 100, 4096, 100, true, true, false)] };
    let (mut parent, _, _) = MemorySet::from_elf(&data, &image, &kernel, &mut a).unwrap();
    let mut child = MemorySet::from_existed_user_space(&parent, &kernel, &mut a);
    assert_eq!(child.read_byte(VirtAddr(0x10005)), Some(7));
    assert!(child.write_byte(VirtAddr(0x10005), 9));
    assert_eq!(parent.read_byte(VirtAddr(0x10005)), Some(7));
    assert!(parent.write_byte(VirtAddr(0x10006), 1));
    assert_eq!(child.read_byte(VirtAddr(0x10006)), Some(7));
    let pe = parent.translate(VirtPageNum(0x10)).unwrap().ppn().0;
    let ce = child.translate(VirtPageNum(0x10)).unwrap().ppn().0;
    assert_ne!(pe, ce);
}

#[test]
fn memory_set_push_and_recycle() {
    let mut a = pool(0x5000, 64);
    let mut ms = MemorySet::new_bare(&mut a);
    ms.insert_framed_area(VirtAddr(0x20000), VirtAddr(0x22000), MapPermission(MAP_R | MAP_W), AreaType::Stack, &mut a);
    assert!(ms.translate(VirtPageNum(0x21)).is_some());
    assert!(!ms.is_range_free(VirtPageNum(0x20), VirtPageNum(0x22)));
    assert!(ms.is_range_free(VirtPageNum(0x22), VirtPageNum(0x24)));
    let before = a.free_frames();
    ms.recycle_data_pages(&mut a);
    assert_eq!(a.free_frames(), before + 2);
    assert!(ms.translate(VirtPageNum(0x21)).is_none());
}

#[test]
fn kernel_space_layout() {
    let mut a = pool(0x6000, 512);
    let layout = KernelLayout {
        stext: 0x8020_0000,
        etext: 0x8020_2000,
        srodata: 0x8020_2000,
        erodata: 0x8020_3000,
        sdata: 0x8020_3000,
        edata: 0x8020_4000,
        sbss: 0x8020_4000,
        ebss: 0x8020_5000,
        ekernel: 0x8020_5000,
        memory_end: 0x8020_8000,
    };
    let ks = MemorySet::new_kernel(&layout, PhysPageNum(0x8020_0), &mut a).unwrap();
    let t = ks.translate(VirtPageNum(0x8_0201)).unwrap();
    assert_eq!(t.ppn().0, 0x8_0201);
    assert!(t.executable() && !t.writable());
    let d = ks.translate(VirtPageNum(0x8_0203)).unwrap();
    assert!(d.writable() && !d.executable());
    let tramp = ks.translate(VirtPageNum(0xffff_ffff_ffff_f000 >> 12)).unwrap();
    assert_eq!(tramp.ppn().0, 0x8020_0);
    assert!(tramp.executable());
    assert!(ks.translate(VirtPageNum(0x8_0208)).is_none());
    let overlapping = KernelLayout { srodata: 0x8020_1000, ..layout };
    assert!(MemorySet::new_kernel(&overlapping, PhysPageNum(0x8020_0), &mut a).is_none());
}

#[test]
fn remove_area_by_start() {
    let mut a = pool(0x7000, 64);
    let mut ms = MemorySet::new_bare(&mut a);
    ms.insert_framed_area(VirtAddr(0x30000), VirtAddr(0x31000), MapPermission(MAP_R), AreaType::Mmap, &mut a);
    ms.insert_framed_area(VirtAddr(0x40000), VirtAddr(0x42000), MapPermission(MAP_R), AreaType::Mmap, &mut a);
    assert!(!ms.remove_area_with_start_vpn(VirtPageNum(0x41), &mut a));
    let before = a.free_frames();
    assert!(ms.remove_area_with_start_vpn(VirtPageNum(0x40), &mut a));
    assert_eq!(a.free_frames(), before + 2);
    assert!(ms.translate(VirtPageNum(0x41)).is_none());
    assert!(ms.translate(VirtPageNum(0x30)).is_some());
    assert_eq!(ms.find_area(VirtPageNum(0x30)), Some(0));
}

#[test]
fn block_iter_walks_blocks() {
    let mut it = BlockIter { begin: 100, end: 1100, block_size_log2: 9 };
    let r1 = it.next_range().unwrap();
    assert_eq!((r1.block, r1.begin, r1.end), (0, 100, 512));
    let r2 = it.next_range().unwrap();
    assert_eq!((r2.block, r2.begin, r2.end), (1, 0, 512));
    let r3 = it.next_range().unwrap();
    assert_eq!((r3.block, r3.begin, r3.end), (2, 0, 76));
    assert!(it.next_range().is_none());
}

#[test]
fn map_permission_bits() {
    let p = MapPermission::from_bits_truncate(0xff);
    assert_eq!(p.bits(), MAP_R | MAP_W | MAP_X | MAP_U);
    assert_eq!(MapPermission(MAP_R).union(MapPermission(MAP_W)).bits(), MAP_R | MAP_W);
    assert!(PTEFlags(PTE_V | PTE_R).contains(PTEFlags(PTE_R)));
}
