use rcore_lab::memory::address::{
    PhysicalAddress, PhysicalPageNumber, VirtualAddress, VirtualPageNumber, KERNEL_MAP_OFFSET, PAGE_SIZE,
};
use rcore_lab::memory::frame_allocator::{FrameAllocator, NO_FRAME};
use rcore_lab::memory::frame_tracker::FrameTracker;
use rcore_lab::memory::mapping::{copy_window, Mapping};
use rcore_lab::memory::page_table_entry::{
    Flags, PageTableEntry, EXECUTABLE, READABLE, USER, VALID, WRITABLE,
};
use rcore_lab::memory::range::Range;
use rcore_lab::memory::segment::{MapType, Segment};

#[test]
fn page_numbers_of_addresses() {
    assert_eq!(VirtualPageNumber::floor(VirtualAddress(0x1fff)).0, 1);
    assert_eq!(VirtualPageNumber::ceil(VirtualAddress(0x1fff)).0, 2);
    assert_eq!(VirtualPageNumber::ceil(VirtualAddress(0x2000)).0, 2);
    assert_eq!(PhysicalPageNumber::floor(PhysicalAddress(0x8000_0fff)).0, 0x80000);
    assert_eq!(PhysicalPageNumber::ceil(PhysicalAddress(0x8000_0001)).0, 0x80001);
    assert_eq!(PhysicalAddress::from_page_number(PhysicalPageNumber(3)).0, 3 * PAGE_SIZE);
    assert_eq!(VirtualAddress::from_page_number(VirtualPageNumber(5)).0, 0x5000);
}

#[test]
fn linear_mapping_of_a_kernel_page() {
    let vpn = VirtualPageNumber((KERNEL_MAP_OFFSET / 4096) as usize + 0x80000);
    assert_eq!(PhysicalPageNumber::from_virtual(vpn).0, 0x80000);
}

#[test]
fn levels_split_the_page_number() {
    let vpn = VirtualPageNumber((3 << 18) | (5 << 9) | 7);
    assert_eq!(vpn.levels(), [3, 5, 7]);
    assert_eq!(VirtualPageNumber(0xabc_0000_0001).levels()[2], 1);
}

#[test]
fn entry_round_trip() {
    let flags = Flags::from_bits(VALID | READABLE | WRITABLE);
    let e = PageTableEntry::new(PhysicalPageNumber(0x80123), flags);
    assert_eq!(e.page_number().0, 0x80123);
    assert_eq!(e.flags().bits(), 7);
    assert_eq!(e.address().0, 0x80123 * 4096);
    assert!(!e.is_empty());
    assert!(!e.has_next_level());
}

#[test]
fn entry_of_next_level_table() {
    let mut e = PageTableEntry::new(PhysicalPageNumber(0x80000), Flags::from_bits(VALID));
    assert!(e.has_next_level());
    e.clear();
    assert!(e.is_empty());
    assert!(PageTableEntry::empty().is_empty());
    assert_eq!(PageTableEntry::empty().page_number().0, 0);
}

#[test]
fn entry_keeps_the_largest_page_number() {
    let e = PageTableEntry::new(PhysicalPageNumber(0xfff_ffff_ffff), Flags::from_bits(0xff));
    assert_eq!(e.page_number().0, 0xfff_ffff_ffff);
    assert_eq!(e.flags().bits(), 0xff);
}

#[test]
fn flag_helpers() {
    assert_eq!(Flags::readable(true).bits(), READABLE);
    assert_eq!(Flags::writable(false).bits(), 0);
    assert_eq!(Flags::executable(true).bits(), EXECUTABLE);
    assert_eq!(Flags::user(true).bits(), USER);
    let f = Flags::readable(true).union(Flags::writable(true));
    assert_eq!(f.bits(), 6);
    assert!(f.contains(Flags::readable(true)));
    assert!(!f.contains(Flags::executable(true)));
    assert_eq!(Flags::empty().bits(), 0);
}

#[test]
fn segment_page_range() {
    let s = Segment {
        map_type: MapType::Framed,
        range: Range::from(VirtualAddress(0x1800), VirtualAddress(0x3001)),
        flags: Flags::empty(),
    };
    let r = s.page_range();
    assert_eq!(r.start.0, 1);
    assert_eq!(r.end.0, 4);
    assert!(s.iter_mapped().is_none());
}

#[test]
fn linear_segment_maps_onto_physical_pages() {
    let start = KERNEL_MAP_OFFSET as usize + 0x8000_0000;
    let s = Segment {
        map_type: MapType::Linear,
        range: Range::from(VirtualAddress(start), VirtualAddress(start + 0x2000)),
        flags: Flags::readable(true),
    };
    let pages = s.iter_mapped().unwrap();
    assert_eq!(pages.start.0, 0x80000);
    assert_eq!(pages.end.0, 0x80002);
}

#[test]
fn frame_tracker_address() {
    let f = FrameTracker(PhysicalPageNumber(0x80002));
    assert_eq!(f.page_number().0, 0x80002);
    assert_eq!(f.address().0, 0x8000_2000);
}

#[test]
fn frame_allocator_hands_out_first_free_frame() {
    let mut frames = FrameAllocator::new(PhysicalPageNumber(0x80000), PhysicalPageNumber(0x80003));
    let a = frames.allocate().unwrap();
    let b = frames.allocate().unwrap();
    let c = frames.allocate().unwrap();
    assert_eq!((a.0 .0, b.0 .0, c.0 .0), (0x80000, 0x80001, 0x80002));
    assert_eq!(frames.allocate().err(), Some(NO_FRAME));
    frames.dealloc(&b);
    assert_eq!(frames.allocate().unwrap().0 .0, 0x80001);
}

fn framed(start: usize, end: usize, flags: Flags) -> Segment {
    Segment {
        map_type: MapType::Framed,
        range: Range::from(VirtualAddress(start), VirtualAddress(end)),
        flags,
    }
}

#[test]
fn new_mapping_takes_the_root_frame() {
    let mut frames = FrameAllocator::new(PhysicalPageNumber(0x80000), PhysicalPageNumber(0x80004));
    let m = Mapping::new(&mut frames).unwrap();
    assert!(m.lookup(VirtualAddress(0x1000)).is_none());
    assert_eq!(frames.allocate().unwrap().0 .0, 0x80001);
}

#[test]
fn satp_of_a_mapping() {
    let mut frames = FrameAllocator::new(PhysicalPageNumber(0x80000), PhysicalPageNumber(0x80004));
    let m = Mapping::new(&mut frames).unwrap();
    assert_eq!(m.satp(), 0x8000_0000_0008_0000);
}

#[test]
fn new_mapping_without_frames_fails() {
    let mut frames = FrameAllocator::new(PhysicalPageNumber(0x80000), PhysicalPageNumber(0x80000));
    assert_eq!(Mapping::new(&mut frames).err(), Some(NO_FRAME));
}

#[test]
fn framed_map_then_lookup() {
    let mut frames = FrameAllocator::new(PhysicalPageNumber(0x80000), PhysicalPageNumber(0x80010));
    let mut m = Mapping::new(&mut frames).unwrap();
    let rw = Flags::readable(true).union(Flags::writable(true));
    let pairs = m.map(&mut frames, &framed(0x1000, 0x3000, rw)).unwrap();
    assert_eq!(pairs.len(), 2);
    // root 0x80000; page 1 takes 0x80001, its two tables 0x80002 and
    // 0x80003; page 2 takes 0x80004
    assert_eq!(pairs[0].0 .0, 1);
    assert_eq!(pairs[0].1 .0 .0, 0x80001);
    assert_eq!(pairs[1].0 .0, 2);
    assert_eq!(pairs[1].1 .0 .0, 0x80004);
    assert_eq!(m.lookup(VirtualAddress(0x1234)).unwrap().0, 0x8000_1234);
    assert_eq!(m.lookup(VirtualAddress(0x2fff)).unwrap().0, 0x8000_4fff);
    assert!(m.lookup(VirtualAddress(0x4000_0000)).is_none());
}

#[test]
fn framed_map_of_unaligned_range_takes_every_touched_page() {
    let mut frames = FrameAllocator::new(PhysicalPageNumber(0x80000), PhysicalPageNumber(0x80010));
    let mut m = Mapping::new(&mut frames).unwrap();
    let pairs = m.map(&mut frames, &framed(0x1800, 0x3001, Flags::readable(true))).unwrap();
    assert_eq!(pairs.len(), 3);
    assert_eq!(pairs[2].0 .0, 3);
}

#[test]
fn linear_map_then_lookup() {
    let mut frames = FrameAllocator::new(PhysicalPageNumber(0x80000), PhysicalPageNumber(0x80010));
    let mut m = Mapping::new(&mut frames).unwrap();
    let start = KERNEL_MAP_OFFSET as usize + 0x8000_0000;
    let s = Segment {
        map_type: MapType::Linear,
        range: Range::from(VirtualAddress(start), VirtualAddress(start + 0x2000)),
        flags: Flags::readable(true).union(Flags::executable(true)),
    };
    let pairs = m.map(&mut frames, &s).unwrap();
    assert_eq!(pairs.len(), 0);
    assert_eq!(m.lookup(VirtualAddress(start + 0x10)).unwrap().0, 0x8000_0010);
    assert_eq!(m.lookup(VirtualAddress(start + 0x1fff)).unwrap().0, 0x8000_1fff);
}

#[test]
fn framed_map_runs_out_of_frames() {
    let mut frames = FrameAllocator::new(PhysicalPageNumber(0x80000), PhysicalPageNumber(0x80004));
    let mut m = Mapping::new(&mut frames).unwrap();
    let r = m.map(&mut frames, &framed(0x1000, 0x3000, Flags::readable(true)));
    assert_eq!(r.err(), Some(NO_FRAME));
}

#[test]
fn find_entry_builds_the_tables() {
    let mut frames = FrameAllocator::new(PhysicalPageNumber(0x80000), PhysicalPageNumber(0x80010));
    let mut m = Mapping::new(&mut frames).unwrap();
    let vpn = VirtualPageNumber((1 << 18) | (2 << 9) | 3);
    let (t, i) = m.find_entry(&mut frames, vpn).unwrap();
    assert_eq!(i, 3);
    assert_eq!(t, 2);
    // a second walk finds the same entry and allocates nothing
    assert_eq!(m.find_entry(&mut frames, vpn).unwrap(), (2, 3));
    assert_eq!(frames.allocate().unwrap().0 .0, 0x80003);
}

#[test]
fn unmap_clears_the_entries() {
    let mut frames = FrameAllocator::new(PhysicalPageNumber(0x80000), PhysicalPageNumber(0x80010));
    let mut m = Mapping::new(&mut frames).unwrap();
    let s = framed(0x1000, 0x3000, Flags::readable(true));
    m.map(&mut frames, &s).unwrap();
    let other = framed(0x5000, 0x6000, Flags::readable(true));
    let kept = m.map(&mut frames, &other).unwrap();
    m.unmap(&s);
    // the tables stay, but a walk that ends at an empty entry finds nothing
    assert!(m.lookup(VirtualAddress(0x1234)).is_none());
    assert_eq!(m.lookup(VirtualAddress(0x5010)).unwrap().0, kept[0].1 .0 .0 * 4096 + 0x10);
    // the pages can be mapped again
    let again = m.map(&mut frames, &s).unwrap();
    assert_eq!(m.lookup(VirtualAddress(0x2008)).unwrap().0, again[1].1 .0 .0 * 4096 + 8);
}

#[test]
fn copy_window_of_first_middle_and_last_page() {
    let range = Range::from(VirtualAddress(0x1800), VirtualAddress(0x3100));
    assert_eq!(copy_window(range, VirtualPageNumber(1)), (0x800, 0x1000, 0, 0x800));
    assert_eq!(copy_window(range, VirtualPageNumber(2)), (0, 0x1000, 0x800, 0x1800));
    assert_eq!(copy_window(range, VirtualPageNumber(3)), (0, 0x100, 0x1800, 0x1900));
}

#[test]
fn copy_window_of_a_range_inside_one_page() {
    let range = Range::from(VirtualAddress(0x1010), VirtualAddress(0x1020));
    assert_eq!(copy_window(range, VirtualPageNumber(1)), (0x10, 0x20, 0, 0x10));
}

#[test]
fn map_error_gives_back_the_data_frames() {
    let mut frames = FrameAllocator::new(PhysicalPageNumber(0x80000), PhysicalPageNumber(0x80005));
    let mut m = Mapping::new(&mut frames).unwrap();
    // page 1 takes 0x80001 and its tables 0x80002, 0x80003; page 2 takes
    // 0x80004; page 3 finds no frame
    let r = m.map(&mut frames, &framed(0x1000, 0x4000, Flags::readable(true)));
    assert_eq!(r.err(), Some(NO_FRAME));
    // the data frames are free again, the tables stay
    assert_eq!(frames.allocate().unwrap().0 .0, 0x80001);
    assert_eq!(frames.allocate().unwrap().0 .0, 0x80004);
    assert_eq!(frames.allocate().err(), Some(NO_FRAME));
}

#[test]
fn linear_map_needs_only_the_missing_tables() {
    // the root and two tables: two frames free for a two-page segment
    let mut frames = FrameAllocator::new(PhysicalPageNumber(0x80000), PhysicalPageNumber(0x80003));
    let mut m = Mapping::new(&mut frames).unwrap();
    let start = KERNEL_MAP_OFFSET as usize + 0x8000_0000;
    let s = Segment {
        map_type: MapType::Linear,
        range: Range::from(VirtualAddress(start), VirtualAddress(start + 0x2000)),
        flags: Flags::readable(true),
    };
    assert_eq!(m.map(&mut frames, &s).unwrap().len(), 0);
    assert_eq!(m.lookup(VirtualAddress(start + 0x1008)).unwrap().0, 0x8000_1008);
    assert_eq!(frames.allocate().err(), Some(NO_FRAME));
}

#[test]
fn framed_map_with_the_tables_in_place_needs_one_frame_per_page() {
    let mut frames = FrameAllocator::new(PhysicalPageNumber(0x80000), PhysicalPageNumber(0x80005));
    let mut m = Mapping::new(&mut frames).unwrap();
    // page 1 takes 0x80001 and its tables 0x80002, 0x80003
    m.map(&mut frames, &framed(0x1000, 0x2000, Flags::readable(true))).unwrap();
    // page 2 shares those tables: the last frame is enough
    let pairs = m.map(&mut frames, &framed(0x2000, 0x3000, Flags::readable(true))).unwrap();
    assert_eq!(pairs[0].1 .0 .0, 0x80004);
    assert_eq!(frames.allocate().err(), Some(NO_FRAME));
}

#[test]
fn new_mapping_takes_the_first_free_frame() {
    let mut frames = FrameAllocator::new(PhysicalPageNumber(0x80000), PhysicalPageNumber(0x80004));
    let first = frames.allocate().unwrap();
    let second = frames.allocate().unwrap();
    frames.dealloc(&first);
    let m = Mapping::new(&mut frames).unwrap();
    assert_eq!(m.satp() & 0xfff_ffff_ffff, 0x80000);
    assert_eq!(second.0 .0, 0x80001);
}
