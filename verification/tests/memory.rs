use kernel::address::{PhysAddr, PhysPageNum, VirtAddr, VirtPageNum};
use kernel::buffer::{translated_byte_buffer, UserBuffer};
use kernel::frame_allocator::{frame_alloc, StackFrameAllocator};
use kernel::memory::PhysMemory;
use kernel::memory_set::{AreaError, MapPermission, MemorySet};
use kernel::page_table::{PTEFlags, PageTable, PageTableEntry};

fn machine(frames: usize) -> (PhysMemory, StackFrameAllocator) {
    let mem = PhysMemory::new(0x80000, frames);
    let allocator = StackFrameAllocator::new(PhysPageNum(0x80000), PhysPageNum(0x80000 + frames as u64));
    (mem, allocator)
}

#[test]
fn address_floor_ceil_offset() {
    assert_eq!(VirtAddr(0x1234).floor(), VirtPageNum(1));
    assert_eq!(VirtAddr(0x1234).ceil(), VirtPageNum(2));
    assert_eq!(VirtAddr(0x2000).ceil(), VirtPageNum(2));
    assert_eq!(VirtAddr(0x1234).page_offset(), 0x234);
    assert!(VirtAddr(0x3000).aligned());
    assert!(!VirtAddr(0x3001).aligned());
    assert_eq!(PhysAddr(0x80001fff).floor(), PhysPageNum(0x80001));
    assert_eq!(PhysAddr(0x80001fff).ceil(), PhysPageNum(0x80002));
    assert_eq!(PhysAddr(0x80001fff).page_offset(), 0xfff);
}

#[test]
fn vpn_indexes_are_three_nine_bit_fields() {
    let vpn = VirtPageNum((5 << 18) | (7 << 9) | 11);
    assert_eq!(vpn.indexes(), [5, 7, 11]);
    assert_eq!(VirtPageNum(0xf_ffff_ffff_ffff).indexes(), [511, 511, 511]);
}

#[test]
fn memory_bytes_and_words() {
    let mut mem = PhysMemory::new(0x80000, 2);
    assert_eq!(mem.frames(), 2);
    assert!(mem.contains(PhysPageNum(0x80001)));
    assert!(!mem.contains(PhysPageNum(0x80002)));
    mem.write_word(PhysPageNum(0x80001), 3, 0x1122_3344_5566_7788);
    assert_eq!(mem.read_word(PhysPageNum(0x80001), 3), 0x1122_3344_5566_7788);
    assert_eq!(mem.read_byte(PhysAddr(0x80001 * 4096 + 24)), 0x88);
    assert_eq!(mem.read_byte(PhysAddr(0x80001 * 4096 + 31)), 0x11);
    mem.write_byte(PhysAddr(0x80001 * 4096 + 25), 0xab);
    assert_eq!(mem.read_word(PhysPageNum(0x80001), 3), 0x1122_3344_5566_ab88);
    mem.clear_frame(PhysPageNum(0x80001));
    assert_eq!(mem.read_word(PhysPageNum(0x80001), 3), 0);
}

#[test]
fn frames_are_recycled_last_freed_first() {
    let (mut mem, mut allocator) = machine(4);
    let a = allocator.allocate().unwrap();
    let b = allocator.allocate().unwrap();
    assert_eq!(a, PhysPageNum(0x80000));
    assert_eq!(b, PhysPageNum(0x80001));
    assert_eq!(allocator.free_frames(), 2);
    allocator.deallocate(a);
    assert!(!allocator.holds(a));
    assert!(allocator.holds(b));
    mem.write_word(a, 0, 77);
    let c = frame_alloc(&mut mem, &mut allocator).unwrap();
    assert_eq!(c, a);
    assert_eq!(mem.read_word(c, 0), 0);
    let d = allocator.allocate().unwrap();
    let e = allocator.allocate().unwrap();
    assert_eq!(d, PhysPageNum(0x80002));
    assert_eq!(e, PhysPageNum(0x80003));
    assert_eq!(allocator.allocate(), None);
}

#[test]
fn live_frames_never_alias() {
    let (_, mut allocator) = machine(16);
    let mut live: Vec<PhysPageNum> = Vec::new();
    for round in 0..40usize {
        if round % 3 == 2 {
            let f = live.remove(round % live.len());
            allocator.deallocate(f);
        } else if let Some(f) = allocator.allocate() {
            assert!(!live.contains(&f));
            live.push(f);
        }
    }
}

#[test]
fn map_then_translate_gives_the_entry_back() {
    let (mut mem, mut allocator) = machine(16);
    let mut pt = PageTable::new(&mut mem, &mut allocator).unwrap();
    let vpn = VirtPageNum(0x12345);
    assert_eq!(pt.translate(&mem, vpn), None);
    let r = pt.map(&mut mem, &mut allocator, vpn, PhysPageNum(0x80007), PTEFlags::from_bits(2 | 4));
    assert!(r.is_ok());
    let e = pt.translate(&mem, vpn).unwrap();
    assert_eq!(e.ppn(), PhysPageNum(0x80007));
    assert_eq!(e.flags().bits(), 1 | 2 | 4);
    assert!(e.is_valid() && e.readable() && e.writable() && !e.executable());
    assert_eq!(e, PageTableEntry::new(PhysPageNum(0x80007), PTEFlags::from_bits(7)));
    assert_eq!(pt.translate(&mem, VirtPageNum(0x12346)), None);
    let other = VirtPageNum(0x12346);
    pt.map(&mut mem, &mut allocator, other, PhysPageNum(0x80008), PTEFlags::from_bits(2)).unwrap();
    assert_eq!(pt.translate(&mem, vpn).unwrap().ppn(), PhysPageNum(0x80007));
    pt.unmap(&mut mem, other);
    assert_eq!(pt.translate(&mem, other), None);
    assert_eq!(pt.translate(&mem, vpn).unwrap().ppn(), PhysPageNum(0x80007));
    pt.unmap(&mut mem, vpn);
    assert_eq!(pt.translate(&mem, vpn), None);
    assert_eq!(pt.token(), 0x8000_0000_0000_0000 + 0x80000);
}

#[test]
fn map_fails_without_frames_for_tables() {
    let (mut mem, mut allocator) = machine(2);
    let mut pt = PageTable::new(&mut mem, &mut allocator).unwrap();
    let r = pt.map(&mut mem, &mut allocator, VirtPageNum(9), PhysPageNum(0x80001), PTEFlags::from_bits(2));
    assert!(r.is_err());
    assert_eq!(pt.translate(&mem, VirtPageNum(9)), None);
}

#[test]
fn framed_areas_do_not_overlap() {
    let (mut mem, mut allocator) = machine(64);
    let mut ms = MemorySet::new_bare(&mut mem, &mut allocator).unwrap();
    let rw = MapPermission::from_bits(2 | 4 | 16).unwrap();
    assert_eq!(ms.insert_framed_area(&mut mem, &mut allocator, VirtAddr(0x10000), VirtAddr(0x12000), rw), Ok(()));
    assert_eq!(ms.area_count(), 1);
    let free = allocator.free_frames();
    assert_eq!(
        ms.insert_framed_area(&mut mem, &mut allocator, VirtAddr(0x11000), VirtAddr(0x13000), rw),
        Err(AreaError::Overlap)
    );
    assert_eq!(
        ms.insert_framed_area(&mut mem, &mut allocator, VirtAddr(0x0f000), VirtAddr(0x10001), rw),
        Err(AreaError::Overlap)
    );
    assert_eq!(
        ms.insert_framed_area(&mut mem, &mut allocator, VirtAddr(0x5000), VirtAddr(0x4000), rw),
        Err(AreaError::InvalidRange)
    );
    assert_eq!(ms.area_count(), 1);
    assert_eq!(allocator.free_frames(), free);
    assert!(ms.check_allocated(VirtAddr(0x11fff), VirtAddr(0x20000)));
    assert!(!ms.check_allocated(VirtAddr(0x12000), VirtAddr(0x20000)));
    assert!(ms.check_all_allocated(VirtAddr(0x10000), VirtAddr(0x12000)));
    assert!(!ms.check_all_allocated(VirtAddr(0x10000), VirtAddr(0x12001)));
}

#[test]
fn insert_rolls_back_when_frames_run_out() {
    let (mut mem, mut allocator) = machine(6);
    let mut ms = MemorySet::new_bare(&mut mem, &mut allocator).unwrap();
    let rw = MapPermission::from_bits(2 | 4 | 16).unwrap();
    let r = ms.insert_framed_area(&mut mem, &mut allocator, VirtAddr(0), VirtAddr(0x8000), rw);
    assert_eq!(r, Err(AreaError::OutOfFrames));
    assert_eq!(ms.area_count(), 0);
    assert_eq!(ms.translate(&mem, VirtPageNum(0)), None);
    assert_eq!(allocator.free_frames(), 3);
}

#[test]
fn user_bytes_round_trip_and_delete() {
    let (mut mem, mut allocator) = machine(64);
    let mut ms = MemorySet::new_bare(&mut mem, &mut allocator).unwrap();
    let rw = MapPermission::from_bits(2 | 4 | 16).unwrap();
    ms.insert_framed_area(&mut mem, &mut allocator, VirtAddr(0x10000), VirtAddr(0x12000), rw).unwrap();
    let data: Vec<u8> = (0..6000u32).map(|i| (i % 251) as u8).collect();
    assert!(ms.write_bytes(&mut mem, VirtAddr(0x10100), &data));
    assert_eq!(ms.read_bytes(&mem, VirtAddr(0x10100), 6000), Some(data));
    assert_eq!(ms.read_byte(&mem, VirtAddr(0x10000)), Some(0));
    assert_eq!(ms.read_byte(&mem, VirtAddr(0x12000)), None);
    assert!(!ms.write_bytes(&mut mem, VirtAddr(0x11fff), &vec![1, 2]));
    assert_eq!(ms.read_byte(&mem, VirtAddr(0x11fff)), Some(0));
    let before = allocator.free_frames();
    assert_eq!(
        ms.delete_framed_area(&mut mem, &mut allocator, VirtAddr(0x10000), VirtAddr(0x11000)),
        Err(AreaError::NoSuchArea)
    );
    assert_eq!(ms.delete_framed_area(&mut mem, &mut allocator, VirtAddr(0x10000), VirtAddr(0x12000)), Ok(()));
    assert_eq!(allocator.free_frames(), before + 2);
    assert_eq!(ms.read_byte(&mem, VirtAddr(0x10100)), None);
    assert_eq!(
        ms.delete_framed_area(&mut mem, &mut allocator, VirtAddr(0x10000), VirtAddr(0x12000)),
        Err(AreaError::NoSuchArea)
    );
}

#[test]
fn find_free_areas_is_first_fit() {
    let (mut mem, mut allocator) = machine(64);
    let mut ms = MemorySet::new_bare(&mut mem, &mut allocator).unwrap();
    let rw = MapPermission::from_bits(2 | 4 | 16).unwrap();
    assert_eq!(ms.find_free_areas(3), Some(VirtPageNum(0)));
    ms.insert_framed_area(&mut mem, &mut allocator, VirtAddr(0x1000), VirtAddr(0x3000), rw).unwrap();
    ms.insert_framed_area(&mut mem, &mut allocator, VirtAddr(0x5000), VirtAddr(0x6000), rw).unwrap();
    assert_eq!(ms.find_free_areas(1), Some(VirtPageNum(0)));
    assert_eq!(ms.find_free_areas(2), Some(VirtPageNum(3)));
    assert_eq!(ms.find_free_areas(3), Some(VirtPageNum(6)));
    assert_eq!(ms.find_free_areas(0x400_0000), None);
}

#[test]
fn fork_copy_is_isolated() {
    let (mut mem, mut allocator) = machine(64);
    let mut parent = MemorySet::new_bare(&mut mem, &mut allocator).unwrap();
    let rw = MapPermission::from_bits(2 | 4 | 16).unwrap();
    parent.insert_framed_area(&mut mem, &mut allocator, VirtAddr(0x10000), VirtAddr(0x11000), rw).unwrap();
    assert!(parent.write_byte(&mut mem, VirtAddr(0x10005), 42));
    let child = MemorySet::from_existed_user_space(&mut mem, &mut allocator, &parent).unwrap();
    assert_eq!(child.read_byte(&mem, VirtAddr(0x10005)), Some(42));
    assert!(child.write_byte(&mut mem, VirtAddr(0x10005), 7));
    assert_eq!(parent.read_byte(&mem, VirtAddr(0x10005)), Some(42));
    assert_eq!(child.read_byte(&mem, VirtAddr(0x10005)), Some(7));
    assert!(parent.write_byte(&mut mem, VirtAddr(0x10006), 9));
    assert_eq!(child.read_byte(&mem, VirtAddr(0x10006)), Some(0));
    let free = allocator.free_frames();
    child.destroy(&mut mem, &mut allocator);
    assert!(allocator.free_frames() > free);
    assert_eq!(parent.read_byte(&mem, VirtAddr(0x10005)), Some(42));
}

#[test]
fn a_framed_area_takes_a_frame_for_each_page_and_each_new_table() {
    let rw = MapPermission::from_bits(2 | 4 | 16).unwrap();
    // One page in an empty table: the page, a middle table and a leaf table.
    let (mut mem, mut allocator) = machine(4);
    let mut ms = MemorySet::new_bare(&mut mem, &mut allocator).unwrap();
    assert_eq!(allocator.free_frames(), 3);
    assert_eq!(ms.insert_framed_area(&mut mem, &mut allocator, VirtAddr(0x10000), VirtAddr(0x11000), rw), Ok(()));
    assert_eq!(allocator.free_frames(), 0);

    let (mut mem, mut allocator) = machine(3);
    let mut ms = MemorySet::new_bare(&mut mem, &mut allocator).unwrap();
    assert_eq!(
        ms.insert_framed_area(&mut mem, &mut allocator, VirtAddr(0x10000), VirtAddr(0x11000), rw),
        Err(AreaError::OutOfFrames)
    );
    assert_eq!(ms.area_count(), 0);

    // Pages under one leaf table share it; a page under the next leaf table
    // takes one table more.
    let (mut mem, mut allocator) = machine(16);
    let mut ms = MemorySet::new_bare(&mut mem, &mut allocator).unwrap();
    let free = allocator.free_frames();
    ms.insert_framed_area(&mut mem, &mut allocator, VirtAddr(0x1fe000), VirtAddr(0x200000), rw).unwrap();
    assert_eq!(allocator.free_frames(), free - 4);
    ms.insert_framed_area(&mut mem, &mut allocator, VirtAddr(0x1fd000), VirtAddr(0x1fe000), rw).unwrap();
    assert_eq!(allocator.free_frames(), free - 5);
    ms.insert_framed_area(&mut mem, &mut allocator, VirtAddr(0x200000), VirtAddr(0x202000), rw).unwrap();
    assert_eq!(allocator.free_frames(), free - 8);
}

#[test]
fn an_area_across_two_leaf_tables_needs_both() {
    let rw = MapPermission::from_bits(2 | 4 | 16).unwrap();
    // Pages 0x1ff and 0x200: two pages, one middle table, two leaf tables.
    let (mut mem, mut allocator) = machine(6);
    let mut ms = MemorySet::new_bare(&mut mem, &mut allocator).unwrap();
    assert_eq!(allocator.free_frames(), 5);
    assert_eq!(ms.insert_framed_area(&mut mem, &mut allocator, VirtAddr(0x1ff000), VirtAddr(0x201000), rw), Ok(()));
    assert_eq!(allocator.free_frames(), 0);

    let (mut mem, mut allocator) = machine(5);
    let mut ms = MemorySet::new_bare(&mut mem, &mut allocator).unwrap();
    assert_eq!(
        ms.insert_framed_area(&mut mem, &mut allocator, VirtAddr(0x1ff000), VirtAddr(0x201000), rw),
        Err(AreaError::OutOfFrames)
    );
    assert_eq!(ms.translate(&mem, VirtPageNum(0x1ff)), None);
    assert_eq!(ms.area_count(), 0);
}

#[test]
fn a_user_buffer_has_one_run_for_each_page() {
    let (mut mem, mut allocator) = machine(64);
    let mut ms = MemorySet::new_bare(&mut mem, &mut allocator).unwrap();
    let rw = MapPermission::from_bits(2 | 4 | 16).unwrap();
    ms.insert_framed_area(&mut mem, &mut allocator, VirtAddr(0x10000), VirtAddr(0x13000), rw).unwrap();
    let data: Vec<u8> = (0..5000u32).map(|i| (i % 253) as u8).collect();
    assert!(ms.write_bytes(&mut mem, VirtAddr(0x10f00), &data));
    let buffer = translated_byte_buffer(&ms, &mem, VirtAddr(0x10f00), 5000, 2).unwrap();
    assert_eq!(buffer.buffers.len(), 3);
    assert_eq!(buffer.buffers[0].len, 0x100);
    assert_eq!(buffer.buffers[1].len, 4096);
    assert_eq!(buffer.buffers[2].len, 5000 - 4096 - 0x100);
    assert_eq!(buffer.buffers[0].pa % 4096, 0xf00);
    assert_eq!(buffer.buffers[1].pa % 4096, 0);
    assert_eq!(buffer.buffers[0].pa, ms.translate_user(&mem, VirtAddr(0x10f00), 2).unwrap().0);
    assert_eq!(buffer.buffers[2].pa, ms.translate_user(&mem, VirtAddr(0x12000), 2).unwrap().0);
    assert_eq!(buffer.len(), 5000);
    assert_eq!(buffer.read(&mem), data);
    let empty = translated_byte_buffer(&ms, &mem, VirtAddr(0x10f00), 0, 2).unwrap();
    assert_eq!(empty.buffers.len(), 0);
    assert_eq!(UserBuffer::new(Vec::new()).len(), 0);
    assert!(translated_byte_buffer(&ms, &mem, VirtAddr(0x12fff), 2, 2).is_none());
    assert!(translated_byte_buffer(&ms, &mem, VirtAddr(0xffff_ffff_ffff_ffff), 2, 2).is_none());
}
