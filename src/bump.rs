//! A bump heap allocator: leaks until every allocation is freed, then starts
//! over from the start of the heap.
//!
//! The kernel runs it as its only writer, so the counters are plain integers
//! behind `&mut self`.

use vstd::prelude::*;
use crate::addr::{align_up_spec, lemma_align_facts};
use crate::linked_list::Layout;

verus! {

/// A bump allocator over `[start, end)`.
#[derive(Copy, Clone, Debug, PartialEq, Eq, Structural)]
pub struct BumpAllocator {
    pub start: u64,
    pub next: u64,
    pub end: u64,
    /// Number of live allocations.
    pub count: u64,
}

/// Where `layout` would go in `b`, and the end of the block.
pub open spec fn bump_place(b: BumpAllocator, layout: Layout) -> (int, int) {
    let aligned = align_up_spec(b.next as int, layout.align as int);
    (aligned, aligned + layout.size)
}

/// The result of `allocate` on `b`, and the allocator after it.
pub open spec fn alloc_spec(b: BumpAllocator, layout: Layout) -> (Option<u64>, BumpAllocator) {
    let (aligned, new_next) = bump_place(b, layout);
    if b.start == 0 {
        (None, b)
    } else if new_next < b.end {
        (Some(aligned as u64), BumpAllocator { next: new_next as u64, count: (b.count + 1) as u64, ..b })
    } else if b.count == 0 {
        (None, BumpAllocator { next: b.start, ..b })
    } else {
        (None, b)
    }
}

/// The allocator after one allocation is freed.
pub open spec fn dealloc_spec(b: BumpAllocator) -> BumpAllocator {
    if b.count == 1 {
        BumpAllocator { next: b.start, count: 0, ..b }
    } else {
        BumpAllocator { count: (b.count - 1) as u64, ..b }
    }
}

impl BumpAllocator {
    /// The pointers lie in order, and with no live allocation the bump
    /// pointer is back at the start.
    pub open spec fn wf(self) -> bool {
        &&& self.start <= self.next <= self.end
        &&& self.count == 0 ==> self.next == self.start
    }

    /// An allocator with no heap.
    pub fn new() -> (r: BumpAllocator)
        ensures
            r == (BumpAllocator { start: 0, next: 0, end: 0, count: 0 }),
            r.wf(),
    {
        BumpAllocator { start: 0, next: 0, end: 0, count: 0 }
    }

    /// Give the allocator the heap `[heap_start, heap_start + heap_size)`.
    /// Only an allocator with no live allocation may be given a heap.
    pub fn init(&mut self, heap_start: u64, heap_size: u64)
        requires
            old(self).count == 0,
            heap_start + heap_size <= u64::MAX,
        ensures
            *final(self) == (BumpAllocator {
                start: heap_start,
                next: heap_start,
                end: (heap_start + heap_size) as u64,
                count: 0,
            }),
            final(self).wf(),
    {
        self.next = heap_start;
        self.end = heap_start + heap_size;
        self.start = heap_start;
    }

    /// Allocate `layout` at the next suitably aligned address; `None` where
    /// the allocator has no heap or the block would reach its end.
    pub fn allocate(&mut self, layout: Layout) -> (r: Option<u64>)
        requires
            old(self).wf(),
            layout.valid(),
            old(self).count < u64::MAX,
        ensures
            (r, *final(self)) == alloc_spec(*old(self), layout),
            final(self).wf(),
    {
        if self.start == 0 {
            return None;
        }
        self.count = self.count + 1;
        proof {
            lemma_align_facts(self.next as int, layout.align as int);
        }
        let rem = self.next % layout.align;
        let mut fits = true;
        let mut aligned: u64 = self.next;
        if rem != 0 {
            if self.next - rem > u64::MAX - layout.align {
                fits = false;
            } else {
                aligned = self.next - rem + layout.align;
            }
        }
        if fits && layout.size < self.end && aligned < self.end - layout.size {
            self.next = aligned + layout.size;
            Some(aligned)
        } else {
            self.count_decrease();
            None
        }
    }

    /// Free one allocation.
    pub fn deallocate(&mut self)
        requires
            old(self).wf(),
            old(self).count > 0,
        ensures
            *final(self) == dealloc_spec(*old(self)),
            final(self).wf(),
    {
        self.count_decrease();
    }

    /// Drop the count of live allocations by one, starting over from the
    /// start of the heap when it reaches zero.
    fn count_decrease(&mut self)
        requires
            old(self).count > 0,
        ensures
            *final(self) == dealloc_spec(*old(self)),
    {
        let previous = self.count;
        self.count = self.count - 1;
        if previous == 1 {
            self.next = self.start;
        }
    }

    /// Allocate `layout`, with 0 standing for a failed allocation.
    pub fn allocate_layout(&mut self, layout: Layout) -> (r: u64)
        requires
            old(self).wf(),
            layout.valid(),
            old(self).count < u64::MAX,
        ensures
            final(self).wf(),
            *final(self) == alloc_spec(*old(self), layout).1,
            r == match alloc_spec(*old(self), layout).0 {
                Some(p) => p,
                None => 0u64,
            },
    {
        match self.allocate(layout) {
            Some(p) => p,
            None => 0,
        }
    }

    /// Free one allocation.
    pub fn deallocate_layout(&mut self, _ptr: u64, _layout: Layout)
        requires
            old(self).wf(),
            old(self).count > 0,
        ensures
            *final(self) == dealloc_spec(*old(self)),
            final(self).wf(),
    {
        self.deallocate();
    }
}

/// Successive allocations of non-empty layouts return aligned, strictly
/// increasing addresses until one fails.
pub proof fn lemma_bump_increasing(b: BumpAllocator, l1: Layout, l2: Layout)
    requires
        b.wf(),
        l1.valid(),
        l2.valid(),
        l1.size > 0,
        b.count < u64::MAX,
    ensures
        ({
            let (r1, b1) = alloc_spec(b, l1);
            let (r2, b2) = alloc_spec(b1, l2);
            &&& r1 matches Some(p) ==> p as int % l1.align as int == 0 && p >= b.next && p
                == align_up_spec(b.next as int, l1.align as int) && p + l1.size < b.end && b1.next == p
                + l1.size && b1.count == b.count + 1
            &&& (r1 is Some && r2 is Some) ==> r2.unwrap() > r1.unwrap()
        }),
{
    lemma_align_facts(b.next as int, l1.align as int);
    let (r1, b1) = alloc_spec(b, l1);
    lemma_align_facts(b1.next as int, l2.align as int);
}

/// Once every allocation is freed the allocator is back where the generation
/// started: an allocation followed by its free restores an idle allocator,
/// and any two idle allocators over the same heap place a layout alike.
pub proof fn lemma_bump_generation(b: BumpAllocator, c: BumpAllocator, l: Layout)
    requires
        b.wf(),
        c.wf(),
        b.count == 0,
        c.count == 0,
        b.start == c.start,
        b.end == c.end,
        l.valid(),
    ensures
        alloc_spec(b, l).0 == alloc_spec(c, l).0,
        alloc_spec(b, l).0 is Some ==> dealloc_spec(alloc_spec(b, l).1) == b,
{
}

} // verus!
