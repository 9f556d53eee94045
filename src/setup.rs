//! The kernel's own mappings: its heap, the userspace stack, and the frame
//! buffer handed to userspace. Each is a plan in the shape the ELF loader
//! uses, mapped through `load_segment`.

use vstd::prelude::*;
use crate::addr::{
    align_down, align_down_spec, lemma_align_facts, HEAP_SIZE, HEAP_START, PAGE_SIZE, USER_STACK_PAGES,
    USER_STACK_START,
};
use crate::elf::{load_base, ElfInfo};
use crate::loader::{
    fills_follow, lemma_segment_loaded_keeps, lemma_segment_loaded_new, load_segment, loaded, mapped_segment,
    segment_loaded, unchanged_outside, plan_fits, FrameFill, LoadError, SegmentLoad, SegmentPlan,
};
use crate::frame::{FrameAllocator, PHYS_LIMIT};
use crate::paging::{Mapper, FLAG_PRESENT, FLAG_USER_ACCESSIBLE, FLAG_WRITABLE};
use crate::syscall::{FrameBufferMapping, UserState, UserThread};

verus! {

/// The plan that backs every page of a run with fresh frames.
pub open spec fn fresh_plan(page: u64, count: u64, flags: u64) -> SegmentPlan {
    SegmentPlan {
        flags,
        file_page: page,
        file_frame: 0,
        file_count: 0,
        fresh_page: page,
        fresh_count: count,
        copy_src: 0,
        copy_offset: 0,
        copy_len: 0,
    }
}

/// The heap: `HEAP_SIZE` bytes from `HEAP_START`, writable, on fresh frames.
pub fn heap_plan() -> (r: SegmentPlan)
    ensures
        r == fresh_plan(HEAP_START, HEAP_SIZE / PAGE_SIZE, FLAG_PRESENT | FLAG_WRITABLE),
{
    SegmentPlan {
        flags: FLAG_PRESENT | FLAG_WRITABLE,
        file_page: HEAP_START,
        file_frame: 0,
        file_count: 0,
        fresh_page: HEAP_START,
        fresh_count: HEAP_SIZE / PAGE_SIZE,
        copy_src: 0,
        copy_offset: 0,
        copy_len: 0,
    }
}

/// The userspace stack: `USER_STACK_PAGES` pages from `USER_STACK_START`,
/// writable and user-accessible, on fresh frames.
pub fn user_stack_plan() -> (r: SegmentPlan)
    ensures
        r == fresh_plan(
            USER_STACK_START,
            USER_STACK_PAGES,
            FLAG_PRESENT | FLAG_WRITABLE | FLAG_USER_ACCESSIBLE,
        ),
{
    SegmentPlan {
        flags: FLAG_PRESENT | FLAG_WRITABLE | FLAG_USER_ACCESSIBLE,
        file_page: USER_STACK_START,
        file_frame: 0,
        file_count: 0,
        fresh_page: USER_STACK_START,
        fresh_count: USER_STACK_PAGES,
        copy_src: 0,
        copy_offset: 0,
        copy_len: 0,
    }
}

/// End of the userspace stack, where its stack pointer starts.
pub fn user_stack_end() -> (r: u64)
    ensures
        r == USER_STACK_START + USER_STACK_PAGES * PAGE_SIZE,
{
    USER_STACK_START + USER_STACK_PAGES * PAGE_SIZE
}

/// The frame buffer's frames, mapped one after the other, writable and
/// user-accessible, from the page the mapping gives.
pub fn frame_buffer_plan(m: &FrameBufferMapping) -> (r: SegmentPlan)
    ensures
        r == (SegmentPlan {
            flags: FLAG_PRESENT | FLAG_WRITABLE | FLAG_USER_ACCESSIBLE,
            file_page: m.page_start,
            file_frame: m.frame_start,
            file_count: m.frame_count,
            fresh_page: m.page_start,
            fresh_count: 0,
            copy_src: 0,
            copy_offset: 0,
            copy_len: 0,
        }),
{
    SegmentPlan {
        flags: FLAG_PRESENT | FLAG_WRITABLE | FLAG_USER_ACCESSIBLE,
        file_page: m.page_start,
        file_frame: m.frame_start,
        file_count: m.frame_count,
        fresh_page: m.page_start,
        fresh_count: 0,
        copy_src: 0,
        copy_offset: 0,
        copy_len: 0,
    }
}

/// Number of frames identity-mapped around the boot stub's hand-off code, so
/// that it stays executable across the switch of page tables.
pub const TRAMPOLINE_FRAMES: u64 = 2;

/// The identity mapping of the two frames from the one holding `addr`, the
/// address of the hand-off code: each page maps to the frame of the same
/// address, present only.
pub fn trampoline_plan(addr: u64) -> (r: SegmentPlan)
    requires
        addr < PHYS_LIMIT - TRAMPOLINE_FRAMES * PAGE_SIZE,
    ensures
        r == (SegmentPlan {
            flags: FLAG_PRESENT,
            file_page: align_down_spec(addr as int, PAGE_SIZE as int) as u64,
            file_frame: align_down_spec(addr as int, PAGE_SIZE as int) as u64,
            file_count: TRAMPOLINE_FRAMES,
            fresh_page: align_down_spec(addr as int, PAGE_SIZE as int) as u64,
            fresh_count: 0,
            copy_src: 0,
            copy_offset: 0,
            copy_len: 0,
        }),
        plan_fits(r),
{
    proof {
        lemma_align_facts(addr as int, PAGE_SIZE as int);
    }
    let page = align_down(addr, PAGE_SIZE);
    SegmentPlan {
        flags: FLAG_PRESENT,
        file_page: page,
        file_frame: page,
        file_count: TRAMPOLINE_FRAMES,
        fresh_page: page,
        fresh_count: 0,
        copy_src: 0,
        copy_offset: 0,
        copy_len: 0,
    }
}

/// Map the heap on fresh frames; on success every heap page is mapped
/// writable to a frame of its own and nothing else changed.
pub fn init_heap<M: Mapper, A: FrameAllocator>(map: &mut M, all: &mut A) -> (r: Result<(), LoadError>)
    requires
        old(map).table_wf(),
        old(all).ready(),
    ensures
        final(map).table_wf(),
        final(all).ready(),
        unchanged_outside(heap_plan_spec(), old(map).mapped(), final(map).mapped()),
        r is Ok ==> exists|frames: Seq<u64>|
            loaded(heap_plan_spec(), old(map).mapped(), final(map).mapped(), frames),
{
    let plan = heap_plan();
    match load_segment(map, all, plan) {
        Ok(fills) => {
            assert(loaded(heap_plan_spec(), old(map).mapped(), map.mapped(), fills@.map_values(|f: FrameFill| f.frame)));
            Ok(())
        },
        Err(e) => Err(e),
    }
}

/// The heap's plan.
pub open spec fn heap_plan_spec() -> SegmentPlan {
    fresh_plan(HEAP_START, HEAP_SIZE / PAGE_SIZE, FLAG_PRESENT | FLAG_WRITABLE)
}

/// What the kernel owns once it is initialized: the page table in use and
/// the frame allocator.
pub struct Init<M, A> {
    pub page_table: M,
    pub frame_allocator: A,
}

/// The userspace stack's plan.
pub open spec fn user_stack_plan_spec() -> SegmentPlan {
    fresh_plan(USER_STACK_START, USER_STACK_PAGES, FLAG_PRESENT | FLAG_WRITABLE | FLAG_USER_ACCESSIBLE)
}

/// Prepare the userspace program for its first entry: map its image (at
/// virtual address `image_virt`, through the page table in use) and its
/// stack. `Err(OutsideAddressSpace)` without mapping anything where the
/// entry point passes the end of the address space. On success, the thread
/// at the image's entry point with the stack pointer at the end of the
/// stack, what `setup_mappings` reports of the image, and the fills of the
/// stack's fresh frames; the image's segments and the stack are mapped as
/// `segment_loaded` has it.
pub fn spawn_user<M: Mapper, A: FrameAllocator>(init: &mut Init<M, A>, elf: &ElfInfo, image_virt: u64) -> (r:
    Result<(UserThread, Vec<Option<SegmentLoad>>, Vec<FrameFill>), LoadError>)
    requires
        old(init).page_table.table_wf(),
        old(init).frame_allocator.ready(),
    ensures
        final(init).page_table.table_wf(),
        final(init).frame_allocator.ready(),
        elf.entry + load_base(elf.elf_type, elf.user) > u64::MAX ==> r == Err::<
            (UserThread, Vec<Option<SegmentLoad>>, Vec<FrameFill>),
            LoadError,
        >(LoadError::OutsideAddressSpace) && final(init).page_table.mapped() == old(init).page_table.mapped(),
        !elf.all_planned(old(init).page_table.mapped(), image_virt, true) ==> r is Err
            && final(init).page_table.mapped() == old(init).page_table.mapped(),
        elf.entry + load_base(elf.elf_type, elf.user) <= u64::MAX && elf.all_planned(
            old(init).page_table.mapped(),
            image_virt,
            true,
        ) ==> r != Err::<(UserThread, Vec<Option<SegmentLoad>>, Vec<FrameFill>), LoadError>(
            LoadError::OutsideAddressSpace,
        ) && r != Err::<(UserThread, Vec<Option<SegmentLoad>>, Vec<FrameFill>), LoadError>(
            LoadError::ImageNotMapped,
        ),
        r matches Ok((t, loads, stack_fills)) ==> {
            &&& t == UserThread::new_spec(
                (elf.entry + load_base(elf.elf_type, elf.user)) as u64,
                (USER_STACK_START + USER_STACK_PAGES * PAGE_SIZE) as u64,
            )
            &&& segment_loaded(user_stack_plan_spec(), stack_fills@, final(init).page_table.mapped())
            &&& loads@.len() == elf.segments@.len()
            &&& forall|i: int|
                0 <= i < loads@.len() ==> ((#[trigger] loads@[i]) is Some <==> mapped_segment(elf.segments@[i])) && (loads@[i] is Some ==> Some(loads@[i].unwrap().plan) == elf.planned(
                    elf.segments@[i],
                    old(init).page_table.mapped(),
                    image_virt,
                    true,
                ) && segment_loaded(
                    loads@[i].unwrap().plan,
                    loads@[i].unwrap().fills@,
                    final(init).page_table.mapped(),
                ) && fills_follow(loads@[i].unwrap().plan, loads@[i].unwrap().fills@))
        },
{
    let entry = match elf.entry_point() {
        Some(e) => e,
        None => return Err(LoadError::OutsideAddressSpace),
    };
    let loads = elf.setup_mappings(&mut init.page_table, &mut init.frame_allocator, image_virt, true)?;
    let ghost mid = init.page_table.mapped();
    assert(crate::loader::plan_fits(user_stack_plan_spec()));
    let stack_fills = load_segment(&mut init.page_table, &mut init.frame_allocator, user_stack_plan())?;
    proof {
        let frames = stack_fills@.map_values(|f: FrameFill| f.frame);
        lemma_segment_loaded_new(user_stack_plan_spec(), mid, init.page_table.mapped(), stack_fills@);
        assert forall|i: int| 0 <= i < loads@.len() && (#[trigger] loads@[i]) is Some implies segment_loaded(
            loads@[i].unwrap().plan,
            loads@[i].unwrap().fills@,
            init.page_table.mapped(),
        ) by {
            lemma_segment_loaded_keeps(loads@[i].unwrap().plan, loads@[i].unwrap().fills@, user_stack_plan_spec(), mid, init.page_table.mapped(), frames);
        }
    }
    Ok((UserThread::new(entry, user_stack_end()), loads, stack_fills))
}

} // verus!
