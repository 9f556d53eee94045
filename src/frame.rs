//! Physical frame allocators: one that walks the firmware memory map, and one
//! that keeps freed frames for reuse before asking its backing allocator.

use vstd::prelude::*;
use crate::addr::{align_down, align_down_spec, align_up, align_up_spec, lemma_align_facts, PAGE_SIZE};

verus! {

/// Highest physical address plus one that x86_64 can address.
pub const PHYS_LIMIT: u64 = 0x10_0000_0000_0000;

/// Firmware memory type of free memory (`EfiConventionalMemory`).
pub const MEMORY_CONVENTIONAL: u32 = 7;

/// Firmware memory type of reserved memory (`EfiReservedMemoryType`).
pub const MEMORY_RESERVED: u32 = 0;

/// Something that hands out 4 KiB frames, identified by their start address.
pub trait FrameAllocator {
    /// The allocator's internal invariant.
    spec fn ready(&self) -> bool;

    /// What one allocation does: from this allocator, returning `r`, to
    /// `next`.
    spec fn allocated(&self, r: Option<u64>, next: &Self) -> bool;

    /// Allocate one frame; `None` when exhausted.
    fn allocate_frame(&mut self) -> (r: Option<u64>)
        requires
            old(self).ready(),
        ensures
            final(self).ready(),
            old(self).allocated(r, final(self)),
            r matches Some(f) ==> f % PAGE_SIZE == 0 && f < PHYS_LIMIT,
    ;
}

/// Something that takes frames back.
pub trait FrameDeallocator {
    /// The deallocator's internal invariant.
    spec fn accepting(&self) -> bool;

    /// Take back a frame that is no longer used.
    fn deallocate_frame(&mut self, frame: u64)
        requires
            old(self).accepting(),
            frame % PAGE_SIZE == 0,
            frame < PHYS_LIMIT,
        ensures
            final(self).accepting(),
    ;
}

/// A firmware memory-map descriptor.
#[derive(Copy, Clone, Debug, PartialEq, Eq, Structural)]
pub struct MemoryDescriptor {
    pub ty: u32,
    pub phys_start: u64,
    pub virt_start: u64,
    pub page_count: u64,
    pub attribute: u64,
}

impl MemoryDescriptor {
    /// The descriptor describes physical memory that x86_64 can address.
    pub open spec fn wf(self) -> bool {
        self.phys_start as int + self.page_count as int * PAGE_SIZE as int <= PHYS_LIMIT as int
    }

    /// Start of the first whole frame in the region.
    pub open spec fn frames_start(self) -> int {
        align_up_spec(self.phys_start as int, PAGE_SIZE as int)
    }

    /// End (exclusive) of the region, rounded down to a frame boundary.
    pub open spec fn frames_end(self) -> int {
        align_down_spec(self.phys_start as int + self.page_count as int * PAGE_SIZE as int, PAGE_SIZE as int)
    }

    /// The region is conventional memory and holds at least one whole frame.
    pub open spec fn usable(self) -> bool {
        self.ty == MEMORY_CONVENTIONAL && self.frames_start() < self.frames_end()
    }
}

/// The frames `[start, end)` of a descriptor that lie wholly inside it.
pub fn region_to_frames(region: &MemoryDescriptor) -> (r: (u64, u64))
    requires
        region.wf(),
    ensures
        r.0 == region.frames_start(),
        r.1 == region.frames_end(),
        r.0 % PAGE_SIZE == 0,
        r.1 % PAGE_SIZE == 0,
        r.1 <= PHYS_LIMIT,
{
    proof {
        lemma_align_facts(region.phys_start as int, PAGE_SIZE as int);
    }
    let start = align_up(region.phys_start, PAGE_SIZE);
    let end = align_down(region.phys_start + PAGE_SIZE * region.page_count, PAGE_SIZE);
    (start, end)
}

/// Index of the first usable descriptor at or after `i`.
pub open spec fn next_usable(regions: Seq<MemoryDescriptor>, i: int) -> Option<int>
    decreases regions.len() - i,
{
    if i < 0 || i >= regions.len() {
        None
    } else if regions[i].usable() {
        Some(i)
    } else {
        next_usable(regions, i + 1)
    }
}

proof fn lemma_next_usable(regions: Seq<MemoryDescriptor>, i: int)
    requires
        0 <= i,
    ensures
        next_usable(regions, i) matches Some(j) ==> i <= j < regions.len() && regions[j].usable(),
    decreases regions.len() - i,
{
    if i < regions.len() && !regions[i].usable() {
        lemma_next_usable(regions, i + 1);
    }
}

/// Frame allocator that walks the firmware memory map, handing out the whole
/// frames of conventional regions in order.
pub struct RegionFrameAllocator {
    /// Next frame of the current region.
    next: u64,
    /// End (exclusive) of the current region's frames.
    end: u64,
    regions: Vec<MemoryDescriptor>,
    /// Index of the first descriptor not yet looked at.
    index: usize,
    /// Index of the current region.
    current: Ghost<int>,
}

impl RegionFrameAllocator {
    /// The memory map.
    pub closed spec fn regions(&self) -> Seq<MemoryDescriptor> {
        self.regions@
    }

    /// Index of the first descriptor not yet looked at.
    pub closed spec fn index(&self) -> int {
        self.index as int
    }

    /// Frames `[next, end)` of the current region that are still free.
    pub closed spec fn next_frame(&self) -> int {
        self.next as int
    }

    /// End of the current region's frames.
    pub closed spec fn end_frame(&self) -> int {
        self.end as int
    }

    pub closed spec fn wf(&self) -> bool {
        &&& forall|i: int| 0 <= i < self.regions@.len() ==> #[trigger] self.regions@[i].wf()
        &&& self.index <= self.regions@.len()
        &&& self.next % PAGE_SIZE == 0
        &&& self.end % PAGE_SIZE == 0
        &&& self.end <= PHYS_LIMIT
        &&& self.next < self.end ==> {
            &&& 0 <= self.current@ < self.index
            &&& self.regions@[self.current@].usable()
            &&& self.regions@[self.current@].frames_start() <= self.next
            &&& self.end == self.regions@[self.current@].frames_end()
        }
    }

    /// Allocator over `memory_map`, positioned at its first usable region.
    pub fn new(memory_map: Vec<MemoryDescriptor>) -> (r: RegionFrameAllocator)
        requires
            forall|i: int| 0 <= i < memory_map@.len() ==> #[trigger] memory_map@[i].wf(),
        ensures
            r.wf(),
            r.regions() == memory_map@,
            match next_usable(memory_map@, 0) {
                None => r.next_frame() >= r.end_frame() && r.index() == memory_map@.len(),
                Some(j) => r.next_frame() == memory_map@[j].frames_start() && r.end_frame()
                    == memory_map@[j].frames_end() && r.index() == j + 1,
            },
    {
        let mut allocator = RegionFrameAllocator {
            next: 0,
            end: 0,
            regions: memory_map,
            index: 0,
            current: Ghost(0),
        };
        allocator.next_region();
        allocator
    }

    /// Move to the next usable region, making its frames the current ones.
    fn next_region(&mut self) -> (r: Option<MemoryDescriptor>)
        requires
            old(self).wf(),
        ensures
            final(self).wf(),
            final(self).regions() == old(self).regions(),
            match next_usable(old(self).regions(), old(self).index()) {
                None => r is None && final(self).next_frame() == old(self).next_frame()
                    && final(self).end_frame() == old(self).end_frame() && final(self).index()
                    == old(self).regions().len(),
                Some(j) => r == Some(old(self).regions()[j]) && final(self).next_frame()
                    == old(self).regions()[j].frames_start() && final(self).end_frame()
                    == old(self).regions()[j].frames_end() && final(self).index() == j + 1,
            },
    {
        proof {
            lemma_next_usable(self.regions@, self.index as int);
        }
        while self.index < self.regions.len()
            invariant
                self.wf(),
                self.regions@ == old(self).regions@,
                self.next == old(self).next,
                self.end == old(self).end,
                self.current == old(self).current,
                old(self).index <= self.index <= self.regions@.len(),
                next_usable(self.regions@, old(self).index as int) == next_usable(
                    self.regions@,
                    self.index as int,
                ),
            decreases self.regions@.len() - self.index,
        {
            let region = self.regions[self.index];
            let (start, end) = region_to_frames(&region);
            if region.ty == MEMORY_CONVENTIONAL && start < end {
                self.next = start;
                self.end = end;
                self.current = Ghost(self.index as int);
                self.index = self.index + 1;
                return Some(region);
            }
            self.index = self.index + 1;
        }
        None
    }
}

impl FrameAllocator for RegionFrameAllocator {
    open spec fn ready(&self) -> bool {
        self.wf()
    }

    open spec fn allocated(&self, r: Option<u64>, next: &Self) -> bool {
        &&& next.regions() == self.regions()
        &&& self.next_frame() < self.end_frame() ==> r == Some(self.next_frame() as u64)
            && next.next_frame() == self.next_frame() + PAGE_SIZE && next.end_frame()
            == self.end_frame() && next.index() == self.index()
        &&& self.next_frame() >= self.end_frame() ==> match next_usable(self.regions(), self.index()) {
            None => r is None && next.index() == self.regions().len() && next.next_frame()
                >= next.end_frame(),
            Some(j) => r == Some(self.regions()[j].frames_start() as u64) && next.next_frame()
                == self.regions()[j].frames_start() + PAGE_SIZE && next.end_frame()
                == self.regions()[j].frames_end() && next.index() == j + 1,
        }
    }

    /// The next frame of the current region or, once it is used up, the first
    /// frame of the next usable region; `None` once the map is exhausted.
    fn allocate_frame(&mut self) -> (r: Option<u64>) {
        let r = self.allocate();
        r
    }
}

impl RegionFrameAllocator {
    /// Allocate a frame: see `FrameAllocator::allocate_frame`.
    pub fn allocate(&mut self) -> (r: Option<u64>)
        requires
            old(self).wf(),
        ensures
            final(self).wf(),
            final(self).regions() == old(self).regions(),
            old(self).next_frame() < old(self).end_frame() ==> r == Some(old(self).next_frame() as u64)
                && final(self).next_frame() == old(self).next_frame() + PAGE_SIZE
                && final(self).end_frame() == old(self).end_frame() && final(self).index()
                == old(self).index(),
            old(self).next_frame() >= old(self).end_frame() ==> match next_usable(
                old(self).regions(),
                old(self).index(),
            ) {
                None => r is None && final(self).index() == old(self).regions().len()
                    && final(self).next_frame() >= final(self).end_frame(),
                Some(j) => r == Some(old(self).regions()[j].frames_start() as u64)
                    && final(self).next_frame() == old(self).regions()[j].frames_start() + PAGE_SIZE
                    && final(self).end_frame() == old(self).regions()[j].frames_end()
                    && final(self).index() == j + 1,
            },
            r matches Some(f) ==> f % PAGE_SIZE == 0 && f < PHYS_LIMIT && exists|i: int|
                0 <= i < old(self).regions().len() && (#[trigger] old(self).regions()[i]).ty
                    == MEMORY_CONVENTIONAL && old(self).regions()[i].frames_start() <= f && f
                    + PAGE_SIZE <= old(self).regions()[i].frames_end(),
    {
        proof {
            lemma_next_usable(self.regions@, self.index as int);
        }
        if self.next >= self.end {
            if self.next_region().is_none() {
                return None;
            }
        }
        let frame = self.next;
        assert(self.regions@[self.current@].ty == MEMORY_CONVENTIONAL);
        self.next = self.next + PAGE_SIZE;
        Some(frame)
    }
}

/// An inclusive range of frames `[r.0, r.1]` as the user frame allocator keeps it.
pub open spec fn frame_range_wf(r: (u64, u64)) -> bool {
    &&& r.0 % PAGE_SIZE == 0
    &&& r.1 % PAGE_SIZE == 0
    &&& r.0 <= r.1
    &&& r.1 < PHYS_LIMIT
}

/// Number of frames in a sequence of inclusive frame ranges.
pub open spec fn pool_count(s: Seq<(u64, u64)>) -> int
    decreases s.len(),
{
    if s.len() == 0 {
        0
    } else {
        pool_count(s.drop_last()) + (s.last().1 - s.last().0) / PAGE_SIZE as int + 1
    }
}

/// The free ranges after `frame` is given back: the last range grows by one
/// frame at either end where `frame` touches it, else `frame` starts a range
/// of its own.
pub open spec fn push_spec(s: Seq<(u64, u64)>, frame: u64) -> Seq<(u64, u64)> {
    if s.len() > 0 && frame >= PAGE_SIZE && (frame - PAGE_SIZE) as u64 == s.last().1 {
        s.update(s.len() - 1, (s.last().0, frame))
    } else if s.len() > 0 && frame + PAGE_SIZE == s.last().0 {
        s.update(s.len() - 1, (frame, s.last().1))
    } else {
        s.push((frame, frame))
    }
}

/// The frame taken by an allocation from the free ranges (the end of the last
/// range) and the ranges left.
pub open spec fn pop_spec(s: Seq<(u64, u64)>) -> (Option<u64>, Seq<(u64, u64)>) {
    if s.len() == 0 {
        (None, s)
    } else if s.last().0 == s.last().1 {
        (Some(s.last().1), s.drop_last())
    } else {
        (Some(s.last().1), s.update(s.len() - 1, (s.last().0, (s.last().1 - PAGE_SIZE) as u64)))
    }
}

proof fn lemma_pool_count_last(s: Seq<(u64, u64)>, x: (u64, u64))
    requires
        s.len() > 0,
    ensures
        pool_count(s.update(s.len() - 1, x)) == pool_count(s.drop_last()) + (x.1 - x.0)
            / PAGE_SIZE as int + 1,
        pool_count(s.push(x)) == pool_count(s) + (x.1 - x.0) / PAGE_SIZE as int + 1,
{
    assert(s.update(s.len() - 1, x).drop_last() =~= s.drop_last());
    assert(s.push(x).drop_last() =~= s);
}

/// Giving a frame back adds exactly one frame to the pool, and taking one from
/// a non-empty pool removes exactly one: over any run of both, the frames
/// handed out of the pool plus those left in it equal those given back.
pub proof fn lemma_pool_accounting(s: Seq<(u64, u64)>, frame: u64)
    requires
        forall|i: int| 0 <= i < s.len() ==> frame_range_wf(#[trigger] s[i]),
        frame % PAGE_SIZE == 0,
        frame < PHYS_LIMIT,
    ensures
        pool_count(push_spec(s, frame)) == pool_count(s) + 1,
        s.len() > 0 ==> pool_count(pop_spec(s).1) == pool_count(s) - 1,
        s.len() == 0 ==> pop_spec(s).0 is None,
{
    if s.len() > 0 {
        let l = s.last();
        assert(frame_range_wf(s[s.len() - 1]));
        lemma_pool_count_last(s, (l.0, frame));
        lemma_pool_count_last(s, (frame, l.1));
        lemma_pool_count_last(s, (l.0, (l.1 - PAGE_SIZE) as u64));
        assert(s.push((frame, frame)).drop_last() =~= s);
        assert((l.1 - l.0) % PAGE_SIZE as int == 0) by {
            lemma_align_facts(l.1 as int, PAGE_SIZE as int);
            lemma_align_facts(l.0 as int, PAGE_SIZE as int);
            vstd::arithmetic::div_mod::lemma_sub_mod_noop(l.1 as int, l.0 as int, PAGE_SIZE as int);
        }
        if frame >= PAGE_SIZE && (frame - PAGE_SIZE) as u64 == l.1 {
            assert((frame - l.0) / PAGE_SIZE as int == (l.1 - l.0) / PAGE_SIZE as int + 1) by {
                vstd::arithmetic::div_mod::lemma_div_plus_one(l.1 - l.0, PAGE_SIZE as int);
            }
        } else if frame + PAGE_SIZE == l.0 {
            assert((l.1 - frame) / PAGE_SIZE as int == (l.1 - l.0) / PAGE_SIZE as int + 1) by {
                vstd::arithmetic::div_mod::lemma_div_plus_one(l.1 - l.0, PAGE_SIZE as int);
            }
        }
        if l.0 != l.1 {
            assert(((l.1 - PAGE_SIZE) - l.0) / PAGE_SIZE as int == (l.1 - l.0) / PAGE_SIZE as int
                - 1) by {
                vstd::arithmetic::div_mod::lemma_div_minus_one(l.1 - l.0, PAGE_SIZE as int);
            }
        }
    } else {
        lemma_pool_count_last(seq![(frame, frame)], (frame, frame));
        assert(push_spec(s, frame) =~= seq![(frame, frame)]);
        assert(seq![(frame, frame)].drop_last() =~= s);
    }
}

/// A frame given back is the next one handed out, unless it extended the last
/// range at its lower end (then that range's upper end goes first).
pub proof fn lemma_pool_lifo(s: Seq<(u64, u64)>, frame: u64)
    requires
        frame % PAGE_SIZE == 0,
        frame < PHYS_LIMIT,
        !(s.len() > 0 && frame + PAGE_SIZE == s.last().0 && !(frame >= PAGE_SIZE && (frame
            - PAGE_SIZE) as u64 == s.last().1)),
    ensures
        pop_spec(push_spec(s, frame)).0 == Some(frame),
{
}

/// Frame allocator that keeps the frames given back to it, as inclusive
/// ranges, and hands them out again before asking its backing allocator.
pub struct UserFrameAllocator<A> {
    backing: A,
    free: Vec<(u64, u64)>,
}

impl<A: FrameAllocator> UserFrameAllocator<A> {
    /// The ranges of frames given back and not yet handed out again.
    pub closed spec fn free_ranges(&self) -> Seq<(u64, u64)> {
        self.free@
    }

    /// The backing allocator.
    pub closed spec fn backing(&self) -> A {
        self.backing
    }

    pub closed spec fn wf(&self) -> bool {
        &&& forall|i: int| 0 <= i < self.free@.len() ==> frame_range_wf(#[trigger] self.free@[i])
        &&& self.backing.ready()
    }

    /// An allocator with no frames of its own over `backing`.
    pub fn new(backing: A) -> (r: UserFrameAllocator<A>)
        requires
            backing.ready(),
        ensures
            r.wf(),
            r.free_ranges() == Seq::<(u64, u64)>::empty(),
            r.backing() == backing,
    {
        UserFrameAllocator { backing, free: Vec::new() }
    }

    /// Number of ranges held for reuse.
    pub fn range_count(&self) -> (r: usize)
        ensures
            r == self.free_ranges().len(),
    {
        self.free.len()
    }

    /// Give `frame` back to the pool.
    fn push(&mut self, frame: u64)
        requires
            old(self).wf(),
            frame % PAGE_SIZE == 0,
            frame < PHYS_LIMIT,
        ensures
            final(self).wf(),
            final(self).backing() == old(self).backing(),
            final(self).free_ranges() == push_spec(old(self).free_ranges(), frame),
    {
        let n = self.free.len();
        if n > 0 {
            let (lo, hi) = self.free[n - 1];
            if frame >= PAGE_SIZE && frame - PAGE_SIZE == hi {
                self.free.set(n - 1, (lo, frame));
                return;
            } else if frame + PAGE_SIZE == lo {
                self.free.set(n - 1, (frame, hi));
                return;
            }
        }
        self.free.push((frame, frame));
    }

    /// Take the last frame of the last range, if any.
    fn pop(&mut self) -> (r: Option<u64>)
        requires
            old(self).wf(),
        ensures
            final(self).wf(),
            final(self).backing() == old(self).backing(),
            (r, final(self).free_ranges()) == pop_spec(old(self).free_ranges()),
    {
        let n = self.free.len();
        if n == 0 {
            return None;
        }
        let (lo, hi) = self.free[n - 1];
        assert(frame_range_wf(self.free@[n - 1]));
        if lo == hi {
            self.free.pop();
        } else {
            self.free.set(n - 1, (lo, hi - PAGE_SIZE));
        }
        Some(hi)
    }

    /// Allocate a frame: from the pool where it holds one, else from the
    /// backing allocator.
    pub fn allocate(&mut self) -> (r: Option<u64>)
        requires
            old(self).wf(),
        ensures
            final(self).wf(),
            old(self).free_ranges().len() > 0 ==> (r, final(self).free_ranges()) == pop_spec(
                old(self).free_ranges(),
            ) && final(self).backing() == old(self).backing(),
            old(self).free_ranges().len() == 0 ==> final(self).free_ranges() == old(
                self,
            ).free_ranges() && old(self).backing().allocated(r, &final(self).backing()),
            r matches Some(f) ==> f % PAGE_SIZE == 0 && f < PHYS_LIMIT,
    {
        match self.pop() {
            Some(f) => {
                assert(frame_range_wf(old(self).free@.last()));
                Some(f)
            },
            None => self.backing.allocate_frame(),
        }
    }

    /// Give a frame back for reuse.
    pub fn deallocate(&mut self, frame: u64)
        requires
            old(self).wf(),
            frame % PAGE_SIZE == 0,
            frame < PHYS_LIMIT,
        ensures
            final(self).wf(),
            final(self).backing() == old(self).backing(),
            final(self).free_ranges() == push_spec(old(self).free_ranges(), frame),
    {
        self.push(frame)
    }
}

impl<A: FrameAllocator> FrameAllocator for UserFrameAllocator<A> {
    open spec fn ready(&self) -> bool {
        self.wf()
    }

    open spec fn allocated(&self, r: Option<u64>, next: &Self) -> bool {
        if self.free_ranges().len() > 0 {
            (r, next.free_ranges()) == pop_spec(self.free_ranges()) && next.backing() == self.backing()
        } else {
            next.free_ranges() == self.free_ranges() && self.backing().allocated(r, &next.backing())
        }
    }

    fn allocate_frame(&mut self) -> (r: Option<u64>) {
        self.allocate()
    }
}

impl<A: FrameAllocator> FrameDeallocator for UserFrameAllocator<A> {
    open spec fn accepting(&self) -> bool {
        self.wf()
    }

    fn deallocate_frame(&mut self, frame: u64) {
        self.deallocate(frame)
    }
}

} // verus!
