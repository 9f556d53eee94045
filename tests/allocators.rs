use angstros::bump::BumpAllocator;
use angstros::frame::{
    FrameAllocator, FrameDeallocator, MemoryDescriptor, RegionFrameAllocator, UserFrameAllocator,
    MEMORY_CONVENTIONAL, MEMORY_RESERVED,
};
use angstros::linked_list::{Hole, Layout, LinkedListAllocator, NodeLayout};

fn layout(size: u64, align: u64) -> Layout {
    Layout::from_size_align(size, align).unwrap()
}

fn holes(a: &LinkedListAllocator) -> Vec<(u64, u64)> {
    (0..a.hole_count()).map(|i| {
        let h = a.hole(i);
        (h.addr, h.size)
    }).collect()
}

#[test]
fn bump_reset_after_all_freed() {
    let mut b = BumpAllocator::new();
    b.init(0x1000, 0x1000);
    let a = b.allocate_layout(layout(8, 8));
    let c = b.allocate_layout(layout(8, 8));
    assert_eq!(a, 0x1000);
    assert_eq!(c, 0x1008);
    b.deallocate_layout(a, layout(8, 8));
    b.deallocate_layout(c, layout(8, 8));
    assert_eq!(b.allocate_layout(layout(8, 8)), 0x1000);
}

#[test]
fn bump_addresses_increase_until_exhausted() {
    let mut b = BumpAllocator::new();
    b.init(0x1000, 0x100);
    let mut last = 0;
    let mut count = 0;
    while let Some(p) = b.allocate(layout(24, 16)) {
        assert!(p > last);
        assert_eq!(p % 16, 0);
        last = p;
        count += 1;
    }
    // 0x1000, 0x1020, ..., 0x10e0: each block ends below 0x1100
    assert_eq!(count, 8);
    assert_eq!(b.count, 8);
}

#[test]
fn bump_uninitialized_fails() {
    let mut b = BumpAllocator::new();
    assert_eq!(b.allocate(layout(8, 8)), None);
    assert_eq!(b.count, 0);
}

#[test]
fn bump_failed_allocation_keeps_count() {
    let mut b = BumpAllocator::new();
    b.init(0x1000, 0x100);
    assert_eq!(b.allocate(layout(0x100, 8)), None);
    assert_eq!(b.count, 0);
    assert_eq!(b.next, 0x1000);
    assert_eq!(b.allocate(layout(0x10, 0x40)), Some(0x1000));
    assert_eq!(b.allocate(layout(0x10, 0x40)), Some(0x1040));
}

#[test]
fn node_layout_widens() {
    assert_eq!(NodeLayout::from(layout(1, 1)), NodeLayout { size: 16, align: 8 });
    assert_eq!(NodeLayout::from(layout(20, 4)), NodeLayout { size: 24, align: 8 });
    assert_eq!(NodeLayout::from(layout(100, 64)), NodeLayout { size: 128, align: 64 });
    assert!(Layout::from_size_align(8, 3).is_none());
    assert!(Layout::from_size_align(8, 0).is_none());
}

#[test]
fn fit_alloc_splits_and_rejects() {
    let h = Hole::new(0x1008, 0x100);
    let l = NodeLayout { size: 0x20, align: 0x40 };
    assert_eq!(
        h.fit_alloc(l),
        Some((Some(Hole::new(0x1008, 0x38)), 0x1040, Some(Hole::new(0x1060, 0xa8))))
    );
    // a remainder of 8 bytes before the block cannot hold a node
    let h = Hole::new(0x1038, 0x100);
    assert_eq!(h.fit_alloc(l), None);
    // too small
    let h = Hole::new(0x1000, 0x10);
    assert_eq!(h.fit_alloc(NodeLayout { size: 0x20, align: 8 }), None);
}

#[test]
fn free_list_split() {
    let mut a = LinkedListAllocator::new();
    a.init(0x2000, 0x1000);
    assert_eq!(a.allocate_layout(layout(64, 8)), 0x2000);
    assert_eq!(holes(&a), vec![(0x2040, 0x1000 - 64)]);
}

#[test]
fn free_list_coalesce() {
    let mut a = LinkedListAllocator::new();
    a.init(0x2000, 0x1000);
    let p = a.allocate_layout(layout(64, 8));
    a.deallocate_layout(p, layout(64, 8));
    assert_eq!(holes(&a), vec![(0x2000, 0x1000)]);
}

#[test]
fn free_list_merges_both_sides() {
    let mut a = LinkedListAllocator::new();
    a.init(0x2000, 0x300);
    let p = a.allocate_layout(layout(0x100, 8));
    let q = a.allocate_layout(layout(0x100, 8));
    let r = a.allocate_layout(layout(0x100, 8));
    assert_eq!((p, q, r), (0x2000, 0x2100, 0x2200));
    assert_eq!(a.hole_count(), 0);
    assert_eq!(a.allocate_layout(layout(8, 8)), 0);
    a.deallocate_layout(p, layout(0x100, 8));
    a.deallocate_layout(r, layout(0x100, 8));
    assert_eq!(holes(&a), vec![(0x2000, 0x100), (0x2200, 0x100)]);
    a.deallocate_layout(q, layout(0x100, 8));
    assert_eq!(holes(&a), vec![(0x2000, 0x300)]);
}

#[test]
fn free_list_first_fit_skips_small_holes() {
    let mut a = LinkedListAllocator::new();
    a.init(0x1000, 0x20);
    a.init(0x2000, 0x100);
    assert_eq!(a.allocate_layout(layout(0x40, 8)), 0x2000);
    assert_eq!(holes(&a), vec![(0x1000, 0x20), (0x2040, 0xc0)]);
    assert_eq!(a.allocate_layout(layout(0x10, 8)), 0x1000);
    assert_eq!(holes(&a), vec![(0x1010, 0x10), (0x2040, 0xc0)]);
}

#[test]
fn free_list_total_size_kept() {
    let mut a = LinkedListAllocator::new();
    a.init(0x4000, 0x1000);
    let total = |a: &LinkedListAllocator| holes(a).iter().map(|h| h.1).sum::<u64>();
    let p = a.allocate_layout(layout(0x30, 16));
    let q = a.allocate_layout(layout(0x200, 0x100));
    assert_eq!(total(&a), 0x1000 - 0x30 - 0x200);
    a.deallocate_layout(p, layout(0x30, 16));
    a.deallocate_layout(q, layout(0x200, 0x100));
    assert_eq!(total(&a), 0x1000);
    assert_eq!(holes(&a), vec![(0x4000, 0x1000)]);
}

#[test]
fn realloc_grows_in_place() {
    let mut a = LinkedListAllocator::new();
    a.init(0x2000, 0x1000);
    let p = a.allocate_layout(layout(64, 8));
    let nl = NodeLayout::from(layout(64, 8));
    assert_eq!(a.reallocate(p, nl, 128), Some(0x2000));
    assert_eq!(holes(&a), vec![(0x2080, 0x1000 - 128)]);
    // and shrinks back, handing the tail to the hole after it
    let nl = NodeLayout::from(layout(128, 8));
    assert_eq!(a.reallocate(p, nl, 32), Some(0x2000));
    assert_eq!(holes(&a), vec![(0x2020, 0x1000 - 32)]);
}

#[test]
fn realloc_shrinks_in_place_before_distant_hole() {
    let mut a = LinkedListAllocator::new();
    a.init(0x2000, 0x40);
    a.init(0x3000, 0x1000);
    let p = a.allocate_layout(layout(64, 8));
    assert_eq!(p, 0x2000);
    let nl = NodeLayout::from(layout(64, 8));
    assert_eq!(a.reallocate(p, nl, 32), Some(0x2000));
    assert_eq!(holes(&a), vec![(0x2020, 0x20), (0x3000, 0x1000)]);
}

#[test]
fn realloc_same_size_is_in_place() {
    let mut a = LinkedListAllocator::new();
    a.init(0x2000, 0x1000);
    let p = a.allocate_layout(layout(60, 8));
    let nl = NodeLayout::from(layout(60, 8));
    assert_eq!(a.reallocate(p, nl, 64), Some(p));
    assert_eq!(holes(&a), vec![(0x2040, 0x1000 - 64)]);
}

#[test]
fn realloc_moves_when_blocked() {
    let mut a = LinkedListAllocator::new();
    a.init(0x2000, 0x1000);
    let p = a.allocate_layout(layout(64, 8));
    let q = a.allocate_layout(layout(64, 8));
    assert_eq!(q, 0x2040);
    let nl = NodeLayout::from(layout(64, 8));
    assert_eq!(a.reallocate(p, nl, 256), Some(0x2080));
    assert_eq!(holes(&a), vec![(0x2000, 0x40), (0x2180, 0x1000 - 0x180)]);
}

#[test]
fn realloc_fails_without_room() {
    let mut a = LinkedListAllocator::new();
    a.init(0x2000, 0x80);
    let p = a.allocate_layout(layout(64, 8));
    let _q = a.allocate_layout(layout(64, 8));
    let nl = NodeLayout::from(layout(64, 8));
    assert_eq!(a.reallocate(p, nl, 256), None);
    assert_eq!(a.hole_count(), 0);
}

fn desc(ty: u32, phys_start: u64, page_count: u64) -> MemoryDescriptor {
    MemoryDescriptor { ty, phys_start, virt_start: 0, page_count, attribute: 0 }
}

#[test]
fn region_allocator_skip() {
    let map = vec![
        desc(MEMORY_RESERVED, 0x0, 4),
        desc(MEMORY_CONVENTIONAL, 0x4000, 0),
        desc(MEMORY_CONVENTIONAL, 0x5000, 2),
    ];
    let mut a = RegionFrameAllocator::new(map);
    assert_eq!(a.allocate(), Some(0x5000));
    assert_eq!(a.allocate(), Some(0x6000));
    assert_eq!(a.allocate(), None);
    assert_eq!(a.allocate_frame(), None);
}

#[test]
fn region_allocator_aligns_into_region() {
    let map = vec![
        desc(MEMORY_CONVENTIONAL, 0x1800, 1),
        desc(MEMORY_CONVENTIONAL, 0x10800, 3),
        desc(MEMORY_RESERVED, 0x20000, 8),
        desc(MEMORY_CONVENTIONAL, 0x30000, 1),
    ];
    let mut a = RegionFrameAllocator::new(map);
    let mut frames = Vec::new();
    while let Some(f) = a.allocate_frame() {
        frames.push(f);
    }
    assert_eq!(frames, vec![0x11000, 0x12000, 0x30000]);
    for f in frames {
        assert_eq!(f % 4096, 0);
    }
}

#[test]
fn user_frames_reused_last_first() {
    let backing = RegionFrameAllocator::new(vec![desc(MEMORY_CONVENTIONAL, 0x10000, 4)]);
    let mut u = UserFrameAllocator::new(backing);
    assert_eq!(u.allocate_frame(), Some(0x10000));
    assert_eq!(u.allocate_frame(), Some(0x11000));
    u.deallocate_frame(0x10000);
    u.deallocate_frame(0x11000);
    assert_eq!(u.range_count(), 1);
    assert_eq!(u.allocate_frame(), Some(0x11000));
    assert_eq!(u.allocate_frame(), Some(0x10000));
    assert_eq!(u.range_count(), 0);
    assert_eq!(u.allocate_frame(), Some(0x12000));
}

#[test]
fn user_frames_scattered_make_ranges() {
    let backing = RegionFrameAllocator::new(vec![]);
    let mut u = UserFrameAllocator::new(backing);
    u.deallocate(0x5000);
    u.deallocate(0x9000);
    u.deallocate(0x8000);
    assert_eq!(u.range_count(), 2);
    // 0x8000 extended the last range at its lower end: its upper end goes first
    assert_eq!(u.allocate(), Some(0x9000));
    assert_eq!(u.allocate(), Some(0x8000));
    assert_eq!(u.allocate(), Some(0x5000));
    assert_eq!(u.allocate(), None);
}

#[test]
fn user_frames_count_conserved() {
    let backing = RegionFrameAllocator::new(vec![desc(MEMORY_CONVENTIONAL, 0x10000, 3)]);
    let mut u = UserFrameAllocator::new(backing);
    let mut taken = Vec::new();
    while let Some(f) = u.allocate() {
        taken.push(f);
    }
    assert_eq!(taken.len(), 3);
    for f in &taken {
        u.deallocate(*f);
    }
    let mut again = 0;
    while u.allocate().is_some() {
        again += 1;
    }
    assert_eq!(again, 3);
}

#[test]
fn user_frames_come_from_backing_when_pool_empty() {
    let backing = RegionFrameAllocator::new(vec![desc(MEMORY_CONVENTIONAL, 0x7000, 1)]);
    let mut u = UserFrameAllocator::new(backing);
    assert_eq!(u.allocate(), Some(0x7000));
    assert_eq!(u.allocate(), None);
    u.deallocate(0x7000);
    assert_eq!(u.allocate(), Some(0x7000));
    assert_eq!(u.allocate(), None);
}
