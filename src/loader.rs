//! Mapping ELF segments: planning how each loadable segment is mapped,
//! mapping it through a page table, and undoing the mapping.

use vstd::prelude::*;
use crate::addr::{align_down, align_down_spec, lemma_align_facts, PAGE_SIZE};
use crate::elf::{
    image_relocations, load_base, relocation_writes, relocations_ok, segment_flags, segment_flags_spec, Elf,
    ElfInfo, RelocationWrite, SegmentHeader, VIRT_LIMIT,
};
use crate::frame::{FrameAllocator, FrameDeallocator, PHYS_LIMIT};
use crate::paging::Mapper;

verus! {

/// Why a segment could not be mapped or unmapped.
#[derive(Copy, Clone, Debug, PartialEq, Eq, Structural)]
pub enum LoadError {
    /// A segment, or the entry point, does not lie within the address space.
    OutsideAddressSpace,
    /// The image's bytes are not mapped in the active page table.
    ImageNotMapped,
    /// The frame allocator has no frame left.
    NoFrame,
    /// The page table refused to map a page.
    Mapping,
    /// The page table refused to unmap a page.
    Unmapping,
    /// The relocation tables cannot be read, or hold an entry that is not
    /// `R_X86_64_RELATIVE` or leaves the address space.
    Relocation,
}

/// How one loadable segment is mapped. `file_count` pages from `file_page`
/// map straight to the image's frames from `file_frame`; `fresh_count` pages
/// from `fresh_page` get fresh frames. The first fresh frame receives
/// `copy_len` bytes from physical address `copy_src` at offset `copy_offset`;
/// every other byte of the fresh frames is zero.
#[derive(Copy, Clone, Debug, PartialEq, Eq, Structural)]
pub struct SegmentPlan {
    pub flags: u64,
    pub file_page: u64,
    pub file_frame: u64,
    pub file_count: u64,
    pub fresh_page: u64,
    pub fresh_count: u64,
    pub copy_src: u64,
    pub copy_offset: u64,
    pub copy_len: u64,
}

/// Start of the page holding `a`.
pub open spec fn page_of(a: int) -> int {
    align_down_spec(a, PAGE_SIZE as int)
}

/// The plan for a segment of `mem_size` bytes at `virt`, whose first
/// `file_size` bytes lie in physical memory at `phys`.
pub open spec fn plan_spec(virt: u64, mem_size: u64, phys: u64, file_size: u64, flags: u64) -> SegmentPlan {
    let p = PAGE_SIZE as int;
    let first = page_of(virt as int);
    let last = page_of(virt + mem_size - 1);
    if mem_size == 0 {
        SegmentPlan {
            flags,
            file_page: first as u64,
            file_frame: page_of(phys as int) as u64,
            file_count: 0,
            fresh_page: first as u64,
            fresh_count: 0,
            copy_src: phys,
            copy_offset: 0,
            copy_len: 0,
        }
    } else if file_size >= mem_size {
        SegmentPlan {
            flags,
            file_page: first as u64,
            file_frame: page_of(phys as int) as u64,
            file_count: ((last - first) / p + 1) as u64,
            fresh_page: (last + p) as u64,
            fresh_count: 0,
            copy_src: phys,
            copy_offset: 0,
            copy_len: 0,
        }
    } else if file_size == 0 {
        SegmentPlan {
            flags,
            file_page: first as u64,
            file_frame: page_of(phys as int) as u64,
            file_count: 0,
            fresh_page: first as u64,
            fresh_count: ((last - first) / p + 1) as u64,
            copy_src: phys,
            copy_offset: 0,
            copy_len: 0,
        }
    } else {
        let split = page_of(virt + file_size - 1);
        let phys_end = phys + file_size - 1;
        let src = if phys as int >= page_of(phys_end) {
            phys as int
        } else {
            page_of(phys_end)
        };
        SegmentPlan {
            flags,
            file_page: first as u64,
            file_frame: page_of(phys as int) as u64,
            file_count: ((split - first) / p) as u64,
            fresh_page: split as u64,
            fresh_count: ((last - split) / p + 1) as u64,
            copy_src: src as u64,
            copy_offset: (src % p) as u64,
            copy_len: (phys_end - src + 1) as u64,
        }
    }
}

/// The segment's ranges lie within the address spaces.
pub open spec fn segment_in_range(virt: u64, mem_size: u64, phys: u64, file_size: u64) -> bool {
    &&& virt + mem_size <= VIRT_LIMIT
    &&& phys + file_size + 2 * PAGE_SIZE <= PHYS_LIMIT
    &&& phys + mem_size + 2 * PAGE_SIZE <= PHYS_LIMIT
}

/// Plan the mapping of a segment; `Err` where it does not lie within the
/// address spaces.
pub fn plan_segment(virt: u64, mem_size: u64, phys: u64, file_size: u64, flags: u64) -> (r: Result<
    SegmentPlan,
    LoadError,
>)
    ensures
        r is Ok <==> segment_in_range(virt, mem_size, phys, file_size),
        r matches Ok(plan) ==> plan == plan_spec(virt, mem_size, phys, file_size, flags),
        r is Err ==> r == Err::<SegmentPlan, LoadError>(LoadError::OutsideAddressSpace),
{
    if virt > VIRT_LIMIT || mem_size > VIRT_LIMIT - virt || phys > PHYS_LIMIT - 2 * PAGE_SIZE
        || file_size > PHYS_LIMIT - 2 * PAGE_SIZE - phys || mem_size > PHYS_LIMIT - 2 * PAGE_SIZE
        - phys {
        return Err(LoadError::OutsideAddressSpace);
    }
    proof {
        lemma_align_facts(virt as int, PAGE_SIZE as int);
        lemma_align_facts(phys as int, PAGE_SIZE as int);
    }
    let first = align_down(virt, PAGE_SIZE);
    let file_frame = align_down(phys, PAGE_SIZE);
    if mem_size == 0 {
        return Ok(SegmentPlan {
            flags,
            file_page: first,
            file_frame,
            file_count: 0,
            fresh_page: first,
            fresh_count: 0,
            copy_src: phys,
            copy_offset: 0,
            copy_len: 0,
        });
    }
    let last = align_down(virt + mem_size - 1, PAGE_SIZE);
    proof {
        lemma_align_down_monotone(virt as int, virt + mem_size - 1);
    }
    if file_size >= mem_size {
        Ok(SegmentPlan {
            flags,
            file_page: first,
            file_frame,
            file_count: (last - first) / PAGE_SIZE + 1,
            fresh_page: last + PAGE_SIZE,
            fresh_count: 0,
            copy_src: phys,
            copy_offset: 0,
            copy_len: 0,
        })
    } else if file_size == 0 {
        Ok(SegmentPlan {
            flags,
            file_page: first,
            file_frame,
            file_count: 0,
            fresh_page: first,
            fresh_count: (last - first) / PAGE_SIZE + 1,
            copy_src: phys,
            copy_offset: 0,
            copy_len: 0,
        })
    } else {
        let split = align_down(virt + file_size - 1, PAGE_SIZE);
        proof {
            lemma_align_down_monotone(virt as int, virt + file_size - 1);
            lemma_align_down_monotone(virt + file_size - 1, virt + mem_size - 1);
        }
        let phys_end = phys + file_size - 1;
        let end_frame = align_down(phys_end, PAGE_SIZE);
        let src = if phys >= end_frame {
            phys
        } else {
            end_frame
        };
        Ok(SegmentPlan {
            flags,
            file_page: first,
            file_frame,
            file_count: (split - first) / PAGE_SIZE,
            fresh_page: split,
            fresh_count: (last - split) / PAGE_SIZE + 1,
            copy_src: src,
            copy_offset: src % PAGE_SIZE,
            copy_len: phys_end - src + 1,
        })
    }
}

proof fn lemma_page_below(x: int, l: int)
    requires
        0 <= x < l,
        l % PAGE_SIZE as int == 0,
    ensures
        page_of(x) + PAGE_SIZE <= l,
        page_of(x) % PAGE_SIZE as int == 0,
{
    let p = PAGE_SIZE as int;
    lemma_align_facts(x, p);
    vstd::arithmetic::div_mod::lemma_fundamental_div_mod(page_of(x), p);
    vstd::arithmetic::div_mod::lemma_fundamental_div_mod(l, p);
    let q = page_of(x) / p;
    let r = l / p;
    assert(q + 1 <= r) by (nonlinear_arith)
        requires
            page_of(x) == p * q,
            l == p * r,
            page_of(x) < l,
            p > 0,
    ;
    assert(p * (q + 1) <= p * r) by (nonlinear_arith)
        requires
            q + 1 <= r,
            p > 0,
    ;
}

/// A plan for a segment within the address spaces fits them.
pub proof fn lemma_plan_fits(virt: u64, mem_size: u64, phys: u64, file_size: u64, flags: u64)
    requires
        segment_in_range(virt, mem_size, phys, file_size),
    ensures
        plan_fits(plan_spec(virt, mem_size, phys, file_size, flags)),
{
    let p = PAGE_SIZE as int;
    let first = page_of(virt as int);
    lemma_align_facts(virt as int, p);
    lemma_align_facts(phys as int, p);
    if mem_size > 0 {
        let last = page_of(virt + mem_size - 1);
        lemma_align_down_monotone(virt as int, virt + mem_size - 1);
        lemma_page_below(virt + mem_size - 1, VIRT_LIMIT as int);
        lemma_page_count(last, first);
        if file_size > 0 && file_size < mem_size {
            let split = page_of(virt + file_size - 1);
            lemma_align_down_monotone(virt as int, virt + file_size - 1);
            lemma_align_down_monotone(virt + file_size - 1, virt + mem_size - 1);
            lemma_page_count(split, first);
            lemma_page_count(last, split);
            lemma_align_facts(virt + file_size - 1, p);
        }
    }
}

/// Rounding down to a page keeps the order of addresses.
pub proof fn lemma_align_down_monotone(a: int, b: int)
    requires
        0 <= a <= b,
    ensures
        page_of(a) <= page_of(b),
        page_of(a) <= a,
        b - page_of(b) < PAGE_SIZE,
{
    lemma_align_facts(a, PAGE_SIZE as int);
    lemma_align_facts(b, PAGE_SIZE as int);
    vstd::arithmetic::div_mod::lemma_fundamental_div_mod(a, PAGE_SIZE as int);
    vstd::arithmetic::div_mod::lemma_fundamental_div_mod(b, PAGE_SIZE as int);
    vstd::arithmetic::div_mod::lemma_div_is_ordered(a, b, PAGE_SIZE as int);
    let qa = a / PAGE_SIZE as int;
    let qb = b / PAGE_SIZE as int;
    assert(PAGE_SIZE as int * qa <= PAGE_SIZE as int * qb) by (nonlinear_arith)
        requires
            qa <= qb,
    ;
}

/// How a fresh frame is filled: `copy_len` bytes from physical address
/// `copy_src` go to offset `copy_offset`; every other byte is zero.
#[derive(Copy, Clone, Debug, PartialEq, Eq, Structural)]
pub struct FrameFill {
    pub frame: u64,
    pub copy_src: u64,
    pub copy_offset: u64,
    pub copy_len: u64,
}

/// The `i`-th fresh page of a plan.
pub open spec fn fresh_page_at(plan: SegmentPlan, i: int) -> int {
    plan.fresh_page + i * PAGE_SIZE
}

/// The `j`-th file-backed page of a plan.
pub open spec fn file_page_at(plan: SegmentPlan, j: int) -> int {
    plan.file_page + j * PAGE_SIZE
}

/// `k` is one of the first `n` fresh pages of the plan.
pub open spec fn in_fresh(plan: SegmentPlan, k: u64, n: int) -> bool {
    exists|i: int| 0 <= i < n && k == #[trigger] fresh_page_at(plan, i)
}

/// `k` is one of the first `n` file-backed pages of the plan.
pub open spec fn in_file(plan: SegmentPlan, k: u64, n: int) -> bool {
    exists|j: int| 0 <= j < n && k == #[trigger] file_page_at(plan, j)
}

/// `k` is a page that the plan maps.
pub open spec fn plan_page(plan: SegmentPlan, k: u64) -> bool {
    in_fresh(plan, k, plan.fresh_count as int) || in_file(plan, k, plan.file_count as int)
}

/// The plan's pages and frames are aligned and lie within the address spaces.
pub open spec fn plan_fits(plan: SegmentPlan) -> bool {
    &&& plan.fresh_page % PAGE_SIZE == 0
    &&& plan.file_page % PAGE_SIZE == 0
    &&& plan.file_frame % PAGE_SIZE == 0
    &&& plan.fresh_page + plan.fresh_count * PAGE_SIZE <= VIRT_LIMIT
    &&& plan.file_page + plan.file_count * PAGE_SIZE <= VIRT_LIMIT
    &&& plan.file_frame + plan.file_count * PAGE_SIZE <= PHYS_LIMIT
}

/// Page table `m1` is `m0` with the plan's pages mapped: each fresh page to
/// its frame in `frames`, each file-backed page to the image's frame, all
/// with the plan's flags; none of them was mapped in `m0`.
pub open spec fn loaded(plan: SegmentPlan, m0: Map<u64, (u64, u64)>, m1: Map<u64, (u64, u64)>, frames: Seq<u64>) -> bool {
    &&& frames.len() == plan.fresh_count
    &&& forall|i: int| 0 <= i < plan.fresh_count ==> {
        let k = #[trigger] fresh_page_at(plan, i) as u64;
        &&& !m0.contains_key(k)
        &&& m1.contains_key(k)
        &&& m1[k] == (frames[i], plan.flags)
    }
    &&& forall|j: int| 0 <= j < plan.file_count ==> {
        let k = #[trigger] file_page_at(plan, j) as u64;
        &&& !m0.contains_key(k)
        &&& m1.contains_key(k)
        &&& m1[k] == ((plan.file_frame + j * PAGE_SIZE) as u64, plan.flags)
    }
    &&& forall|k: u64| !plan_page(plan, k) ==> (#[trigger] m1.contains_key(k) == m0.contains_key(k)
        && (m0.contains_key(k) ==> m1[k] == m0[k]))
}

/// Page table `m2` is `m1` with every page of the plan unmapped.
pub open spec fn unloaded(plan: SegmentPlan, m1: Map<u64, (u64, u64)>, m2: Map<u64, (u64, u64)>) -> bool {
    &&& forall|k: u64| plan_page(plan, k) ==> !#[trigger] m2.contains_key(k)
    &&& forall|k: u64| !plan_page(plan, k) ==> (#[trigger] m2.contains_key(k) == m1.contains_key(k)
        && (m1.contains_key(k) ==> m2[k] == m1[k]))
}

/// Whether the plan's pages and frames lie within the address spaces.
pub fn check_plan(plan: &SegmentPlan) -> (r: bool)
    ensures
        r == plan_fits(*plan),
{
    proof {
        lemma_count_bound(plan.fresh_page as int, plan.fresh_count as int, VIRT_LIMIT as int);
        lemma_count_bound(plan.file_page as int, plan.file_count as int, VIRT_LIMIT as int);
        lemma_count_bound(plan.file_frame as int, plan.file_count as int, PHYS_LIMIT as int);
    }
    plan.fresh_page % PAGE_SIZE == 0 && plan.file_page % PAGE_SIZE == 0 && plan.file_frame
        % PAGE_SIZE == 0 && plan.fresh_page <= VIRT_LIMIT && plan.fresh_count <= (VIRT_LIMIT
        - plan.fresh_page) / PAGE_SIZE && plan.file_page <= VIRT_LIMIT && plan.file_count <= (
    VIRT_LIMIT - plan.file_page) / PAGE_SIZE && plan.file_frame <= PHYS_LIMIT && plan.file_count
        <= (PHYS_LIMIT - plan.file_frame) / PAGE_SIZE
}

proof fn lemma_count_bound(s: int, c: int, l: int)
    requires
        s >= 0,
        c >= 0,
    ensures
        s <= l ==> (c <= (l - s) / PAGE_SIZE as int <==> s + c * PAGE_SIZE <= l),
        s > l ==> s + c * PAGE_SIZE > l,
{
    if s <= l {
        let p = PAGE_SIZE as int;
        vstd::arithmetic::div_mod::lemma_fundamental_div_mod(l - s, p);
        vstd::arithmetic::div_mod::lemma_mod_bound(l - s, p);
        let q = (l - s) / p;
        let r = (l - s) % p;
        assert(c <= q <==> c * p <= q * p + r) by (nonlinear_arith)
            requires
                0 <= r < p,
                p > 0,
        ;
    }
}

/// The fills of a plan's fresh frames: the first receives the plan's copy,
/// every other one only zeros.
pub open spec fn fills_follow(plan: SegmentPlan, fills: Seq<FrameFill>) -> bool {
    forall|i: int| 0 <= i < fills.len() ==> (#[trigger] fills[i]).copy_len == (if i == 0 {
        plan.copy_len
    } else {
        0
    }) && fills[i].copy_src == plan.copy_src && fills[i].copy_offset == (if i == 0 {
        plan.copy_offset
    } else {
        0
    })
}

/// Every page that the plan does not map keeps its entry.
pub open spec fn unchanged_outside(plan: SegmentPlan, m0: Map<u64, (u64, u64)>, m1: Map<u64, (u64, u64)>) -> bool {
    forall|k: u64| !plan_page(plan, k) ==> (#[trigger] m1.contains_key(k) == m0.contains_key(k) && (
    m0.contains_key(k) ==> m1[k] == m0[k]))
}

/// Every entry of `m0` is kept in `m1`.
pub open spec fn kept_old(m0: Map<u64, (u64, u64)>, m1: Map<u64, (u64, u64)>) -> bool {
    forall|k: u64| #[trigger] m0.contains_key(k) ==> m1.contains_key(k) && m1[k] == m0[k]
}

/// Every entry of `m1` that `m0` lacks is a page of the plan, with its flags.
pub open spec fn new_entries_planned(plan: SegmentPlan, m0: Map<u64, (u64, u64)>, m1: Map<u64, (u64, u64)>) -> bool {
    forall|k: u64| #[trigger] m1.contains_key(k) && !m0.contains_key(k) ==> plan_page(plan, k) && m1[k].1 == plan.flags
}

proof fn lemma_outside_kept(plan: SegmentPlan, m0: Map<u64, (u64, u64)>, m: Map<u64, (u64, u64)>, i: int, j: int)
    requires
        0 <= i <= plan.fresh_count,
        0 <= j <= plan.file_count,
        forall|k: u64| !in_fresh(plan, k, i) && !in_file(plan, k, j) ==> (#[trigger] m.contains_key(k)
            == m0.contains_key(k) && (m0.contains_key(k) ==> m[k] == m0[k])),
    ensures
        unchanged_outside(plan, m0, m),
{
    assert forall|k: u64| !plan_page(plan, k) implies (#[trigger] m.contains_key(k) == m0.contains_key(k)
        && (m0.contains_key(k) ==> m[k] == m0[k])) by {
        if in_fresh(plan, k, i) {
            let a = choose|a: int| 0 <= a < i && k == #[trigger] fresh_page_at(plan, a);
            assert(0 <= a < plan.fresh_count && k == fresh_page_at(plan, a));
        }
        if in_file(plan, k, j) {
            let b = choose|b: int| 0 <= b < j && k == #[trigger] file_page_at(plan, b);
            assert(0 <= b < plan.file_count && k == file_page_at(plan, b));
        }
        assert(!in_fresh(plan, k, i) && !in_file(plan, k, j));
        assert(m.contains_key(k) == m0.contains_key(k));
        if m0.contains_key(k) {
            assert(m[k] == m0[k]);
        }
    }
}

proof fn lemma_partial_unchanged(plan: SegmentPlan, m0: Map<u64, (u64, u64)>, m: Map<u64, (u64, u64)>, i: int, j: int)
    requires
        0 <= i <= plan.fresh_count,
        0 <= j <= plan.file_count,
        forall|k: u64| !in_fresh(plan, k, i) && !in_file(plan, k, j) ==> (#[trigger] m.contains_key(k)
            == m0.contains_key(k) && (m0.contains_key(k) ==> m[k] == m0[k])),
        forall|a: int| 0 <= a < i ==> {
            let k = #[trigger] fresh_page_at(plan, a) as u64;
            &&& !m0.contains_key(k)
            &&& m.contains_key(k)
            &&& m[k].1 == plan.flags
        },
        forall|b: int| 0 <= b < j ==> {
            let k = #[trigger] file_page_at(plan, b) as u64;
            &&& !m0.contains_key(k)
            &&& m.contains_key(k)
            &&& m[k].1 == plan.flags
        },
    ensures
        unchanged_outside(plan, m0, m),
        kept_old(m0, m),
        new_entries_planned(plan, m0, m),
{
    assert forall|k: u64| !plan_page(plan, k) implies (#[trigger] m.contains_key(k) == m0.contains_key(k)
        && (m0.contains_key(k) ==> m[k] == m0[k])) by {
        if in_fresh(plan, k, i) {
            let a = choose|a: int| 0 <= a < i && k == #[trigger] fresh_page_at(plan, a);
            assert(0 <= a < plan.fresh_count && k == fresh_page_at(plan, a));
        }
        if in_file(plan, k, j) {
            let b = choose|b: int| 0 <= b < j && k == #[trigger] file_page_at(plan, b);
            assert(0 <= b < plan.file_count && k == file_page_at(plan, b));
        }
        assert(!in_fresh(plan, k, i) && !in_file(plan, k, j));
        assert(m.contains_key(k) == m0.contains_key(k));
        if m0.contains_key(k) {
            assert(m[k] == m0[k]);
        }
    }
    assert forall|k: u64| #[trigger] m0.contains_key(k) implies m.contains_key(k) && m[k] == m0[k] by {
        if in_fresh(plan, k, i) {
            let a = choose|a: int| 0 <= a < i && k == #[trigger] fresh_page_at(plan, a);
        } else if in_file(plan, k, j) {
            let b = choose|b: int| 0 <= b < j && k == #[trigger] file_page_at(plan, b);
        } else {
            assert(m.contains_key(k) == m0.contains_key(k));
        }
    }
    assert forall|k: u64| #[trigger] m.contains_key(k) && !m0.contains_key(k) implies plan_page(plan, k) && m[k].1
        == plan.flags by {
        if in_fresh(plan, k, i) {
            let a = choose|a: int| 0 <= a < i && k == #[trigger] fresh_page_at(plan, a);
            assert(0 <= a < plan.fresh_count && k == fresh_page_at(plan, a));
        } else if in_file(plan, k, j) {
            let b = choose|b: int| 0 <= b < j && k == #[trigger] file_page_at(plan, b);
            assert(0 <= b < plan.file_count && k == file_page_at(plan, b));
        } else {
            assert(m.contains_key(k) == m0.contains_key(k));
        }
    }
}

/// Map one segment as planned: fresh frames for the fresh pages, the image's
/// frames for the file-backed pages. The fills say how the caller fills the
/// fresh frames. `Err` where the plan does not fit, where no frame is left, or
/// where a page cannot be mapped; the pages mapped until then stay mapped.
#[verifier::spinoff_prover]
#[verifier::rlimit(100)]
pub fn load_segment<M: Mapper, A: FrameAllocator>(map: &mut M, all: &mut A, plan: SegmentPlan) -> (r:
    Result<Vec<FrameFill>, LoadError>)
    requires
        old(map).table_wf(),
        old(all).ready(),
    ensures
        final(map).table_wf(),
        final(all).ready(),
        r == Err::<Vec<FrameFill>, LoadError>(LoadError::OutsideAddressSpace) <==> !plan_fits(plan),
        r is Err ==> r == Err::<Vec<FrameFill>, LoadError>(LoadError::OutsideAddressSpace) || r == Err::<
            Vec<FrameFill>,
            LoadError,
        >(LoadError::NoFrame) || r == Err::<Vec<FrameFill>, LoadError>(LoadError::Mapping),
        plan_fits(plan) && plan.fresh_count == 0 && plan.file_count == 0 ==> (r matches Ok(f) && f@.len()
            == 0),
        unchanged_outside(plan, old(map).mapped(), final(map).mapped()),
        kept_old(old(map).mapped(), final(map).mapped()),
        new_entries_planned(plan, old(map).mapped(), final(map).mapped()),
        plan.fresh_count == 0 ==> *final(all) == *old(all),
        r == Err::<Vec<FrameFill>, LoadError>(LoadError::NoFrame) ==> plan.fresh_count > 0 && exists|s: A|
            s.allocated(None, final(all)),
        r matches Ok(fills) ==> {
            &&& loaded(plan, old(map).mapped(), final(map).mapped(), fills@.map_values(|f: FrameFill| f.frame))
            &&& fills_follow(plan, fills@)
        },
{
    if !check_plan(&plan) {
        return Err(LoadError::OutsideAddressSpace);
    }
    let ghost m0 = map.mapped();
    let mut fills: Vec<FrameFill> = Vec::new();
    let mut i: u64 = 0;
    while i < plan.fresh_count
        invariant
            map.table_wf(),
            all.ready(),
            plan_fits(plan),
            m0 == old(map).mapped(),
            plan.fresh_count == 0 ==> *all == *old(all),
            0 <= i <= plan.fresh_count,
            fills@.len() == i,
            forall|a: int| 0 <= a < i ==> {
                let k = #[trigger] fresh_page_at(plan, a) as u64;
                &&& !m0.contains_key(k)
                &&& map.mapped().contains_key(k)
                &&& map.mapped()[k] == (fills@[a].frame, plan.flags)
            },
            forall|a: int| 0 <= a < i ==> (#[trigger] fills@[a]).copy_len == (if a == 0 {
                plan.copy_len
            } else {
                0
            }) && fills@[a].copy_src == plan.copy_src && fills@[a].copy_offset == (if a == 0 {
                plan.copy_offset
            } else {
                0
            }),
            forall|k: u64| !in_fresh(plan, k, i as int) ==> (#[trigger] map.mapped().contains_key(k)
                == m0.contains_key(k) && (m0.contains_key(k) ==> map.mapped()[k] == m0[k])),
        decreases plan.fresh_count - i,
    {
        let ghost all_before = *all;
        let frame = match all.allocate_frame() {
            Some(f) => f,
            None => {
                assert(all_before.allocated(None, all));
                proof {
                    lemma_partial_unchanged(plan, m0, map.mapped(), i as int, 0);
                }
                return Err(LoadError::NoFrame);
            },
        };
        let page = plan.fresh_page + i * PAGE_SIZE;
        assert(page % PAGE_SIZE == 0) by {
            vstd::arithmetic::div_mod::lemma_mod_multiples_vanish(i as int, plan.fresh_page as int, PAGE_SIZE as int);
        }
        let ghost before = map.mapped();
        match map.map_to(page, frame, plan.flags) {
            Ok(()) => {},
            Err(_) => {
                proof {
                    lemma_partial_unchanged(plan, m0, map.mapped(), i as int, 0);
                }
                return Err(LoadError::Mapping);
            },
        }
        let (copy_offset, copy_len) = if i == 0 {
            (plan.copy_offset, plan.copy_len)
        } else {
            (0, 0)
        };
        fills.push(FrameFill { frame, copy_src: plan.copy_src, copy_offset, copy_len });
        proof {
            assert(fresh_page_at(plan, i as int) as u64 == page);
            assert forall|k: u64| !in_fresh(plan, k, i + 1) implies !in_fresh(plan, k, i as int) && k != page by {
                if in_fresh(plan, k, i as int) {
                    let a = choose|a: int| 0 <= a < i && k == #[trigger] fresh_page_at(plan, a);
                    assert(0 <= a < i + 1 && k == fresh_page_at(plan, a));
                }
                if k == page {
                    assert(0 <= i < i + 1 && k == fresh_page_at(plan, i as int));
                }
            }
            assert forall|k: u64| !in_fresh(plan, k, i + 1) implies (#[trigger] map.mapped().contains_key(k)
                == m0.contains_key(k) && (m0.contains_key(k) ==> map.mapped()[k] == m0[k])) by {
                assert(!in_fresh(plan, k, i as int) && k != page);
                assert(before.contains_key(k) == m0.contains_key(k));
                assert(map.mapped().contains_key(k) == before.contains_key(k));
                if m0.contains_key(k) {
                    assert(map.mapped()[k] == before[k]);
                }
            }
        }
        i = i + 1;
    }
    let mut j: u64 = 0;
    while j < plan.file_count
        invariant
            map.table_wf(),
            all.ready(),
            plan_fits(plan),
            m0 == old(map).mapped(),
            plan.fresh_count == 0 ==> *all == *old(all),
            0 <= j <= plan.file_count,
            fills@.len() == plan.fresh_count,
            forall|a: int| 0 <= a < plan.fresh_count ==> {
                let k = #[trigger] fresh_page_at(plan, a) as u64;
                &&& !m0.contains_key(k)
                &&& map.mapped().contains_key(k)
                &&& map.mapped()[k] == (fills@[a].frame, plan.flags)
            },
            forall|b: int| 0 <= b < j ==> {
                let k = #[trigger] file_page_at(plan, b) as u64;
                &&& !m0.contains_key(k)
                &&& map.mapped().contains_key(k)
                &&& map.mapped()[k] == ((plan.file_frame + b * PAGE_SIZE) as u64, plan.flags)
            },
            forall|k: u64| !in_fresh(plan, k, plan.fresh_count as int) && !in_file(plan, k, j as int) ==> (
                #[trigger] map.mapped().contains_key(k) == m0.contains_key(k) && (m0.contains_key(k)
                ==> map.mapped()[k] == m0[k])),
            forall|k: u64| in_fresh(plan, k, plan.fresh_count as int) ==> #[trigger] map.mapped().contains_key(k),
        decreases plan.file_count - j,
    {
        let page = plan.file_page + j * PAGE_SIZE;
        let frame = plan.file_frame + j * PAGE_SIZE;
        assert(page % PAGE_SIZE == 0 && frame % PAGE_SIZE == 0) by {
            vstd::arithmetic::div_mod::lemma_mod_multiples_vanish(j as int, plan.file_page as int, PAGE_SIZE as int);
            vstd::arithmetic::div_mod::lemma_mod_multiples_vanish(j as int, plan.file_frame as int, PAGE_SIZE as int);
        }
        let ghost before = map.mapped();
        match map.map_to(page, frame, plan.flags) {
            Ok(()) => {},
            Err(_) => {
                proof {
                    lemma_partial_unchanged(plan, m0, map.mapped(), plan.fresh_count as int, j as int);
                }
                return Err(LoadError::Mapping);
            },
        }
        proof {
            assert(file_page_at(plan, j as int) as u64 == page);
            assert(!in_fresh(plan, page, plan.fresh_count as int));
            assert(!in_file(plan, page, j as int)) by {
                if in_file(plan, page, j as int) {
                    let b = choose|b: int| 0 <= b < j && page == #[trigger] file_page_at(plan, b);
                }
            }
            assert forall|k: u64| !in_fresh(plan, k, plan.fresh_count as int) && !in_file(plan, k, j + 1) implies !in_file(plan, k, j as int) && k != page by {
                if in_file(plan, k, j as int) {
                    let b = choose|b: int| 0 <= b < j && k == #[trigger] file_page_at(plan, b);
                    assert(0 <= b < j + 1 && k == file_page_at(plan, b));
                }
                if k == page {
                    assert(0 <= j < j + 1 && k == file_page_at(plan, j as int));
                }
            }
            assert forall|a: int| 0 <= a < plan.fresh_count implies #[trigger] fresh_page_at(plan, a) as u64 != page by {
                assert(before.contains_key(fresh_page_at(plan, a) as u64));
            }
            assert forall|k: u64| !in_fresh(plan, k, plan.fresh_count as int) && !in_file(plan, k, j + 1) implies (
                #[trigger] map.mapped().contains_key(k) == m0.contains_key(k) && (m0.contains_key(k)
                ==> map.mapped()[k] == m0[k])) by {
                assert(!in_file(plan, k, j as int) && k != page);
                assert(before.contains_key(k) == m0.contains_key(k));
                assert(map.mapped().contains_key(k) == before.contains_key(k));
                if m0.contains_key(k) {
                    assert(map.mapped()[k] == before[k]);
                }
            }
        }
        j = j + 1;
    }
    proof {
        let frames = fills@.map_values(|f: FrameFill| f.frame);
        assert forall|k: u64| !plan_page(plan, k) implies (#[trigger] map.mapped().contains_key(k) == m0.contains_key(k)
            && (m0.contains_key(k) ==> map.mapped()[k] == m0[k])) by {
            assert(!in_fresh(plan, k, plan.fresh_count as int) && !in_file(plan, k, plan.file_count as int));
        }
        assert forall|i: int| 0 <= i < plan.fresh_count implies map.mapped()[#[trigger] fresh_page_at(plan, i) as u64] == (frames[i], plan.flags) by {
            assert(frames[i] == fills@[i].frame);
        }
        assert(loaded(plan, m0, map.mapped(), frames));
        lemma_partial_unchanged(plan, m0, map.mapped(), plan.fresh_count as int, plan.file_count as int);
    }
    Ok(fills)
}

/// Unmap one segment's pages, handing the fresh frames back to `dealloc`;
/// the image's frames are only unmapped. On success, the number of frames
/// handed back.
#[verifier::spinoff_prover]
pub fn unload_segment<M: Mapper, D: FrameDeallocator>(map: &mut M, dealloc: &mut D, plan: SegmentPlan) -> (r:
    Result<u64, LoadError>)
    requires
        old(map).table_wf(),
        old(dealloc).accepting(),
    ensures
        final(map).table_wf(),
        final(dealloc).accepting(),
        r == Err::<u64, LoadError>(LoadError::OutsideAddressSpace) <==> !plan_fits(plan),
        r is Err ==> r == Err::<u64, LoadError>(LoadError::OutsideAddressSpace) || r == Err::<u64, LoadError>(
            LoadError::Unmapping,
        ),
        plan_fits(plan) && plan.fresh_count == 0 && plan.file_count == 0 ==> r == Ok::<u64, LoadError>(0),
        unchanged_outside(plan, old(map).mapped(), final(map).mapped()),
        r matches Ok(n) ==> n == plan.fresh_count && unloaded(plan, old(map).mapped(), final(map).mapped()),
{
    if !check_plan(&plan) {
        return Err(LoadError::OutsideAddressSpace);
    }
    let ghost m1 = map.mapped();
    let mut i: u64 = 0;
    while i < plan.fresh_count
        invariant
            map.table_wf(),
            dealloc.accepting(),
            plan_fits(plan),
            m1 == old(map).mapped(),
            0 <= i <= plan.fresh_count,
            forall|k: u64| in_fresh(plan, k, i as int) ==> !#[trigger] map.mapped().contains_key(k),
            forall|k: u64| !in_fresh(plan, k, i as int) ==> (#[trigger] map.mapped().contains_key(k)
                == m1.contains_key(k) && (m1.contains_key(k) ==> map.mapped()[k] == m1[k])),
        decreases plan.fresh_count - i,
    {
        let page = plan.fresh_page + i * PAGE_SIZE;
        let frame = match map.unmap(page) {
            Ok(f) => f,
            Err(_) => {
                proof {
                    lemma_outside_kept(plan, m1, map.mapped(), i as int, 0);
                }
                return Err(LoadError::Unmapping);
            },
        };
        dealloc.deallocate_frame(frame);
        proof {
            assert(fresh_page_at(plan, i as int) as u64 == page);
            assert forall|k: u64| in_fresh(plan, k, i + 1) implies !#[trigger] map.mapped().contains_key(k) by {
                let a = choose|a: int| 0 <= a < i + 1 && k == #[trigger] fresh_page_at(plan, a);
                if a < i {
                    assert(in_fresh(plan, k, i as int));
                }
            }
            assert forall|k: u64| !in_fresh(plan, k, i + 1) implies !in_fresh(plan, k, i as int) && k != page by {
                if in_fresh(plan, k, i as int) {
                    let a = choose|a: int| 0 <= a < i && k == #[trigger] fresh_page_at(plan, a);
                    assert(0 <= a < i + 1 && k == fresh_page_at(plan, a));
                }
                if k == page {
                    assert(0 <= i < i + 1 && k == fresh_page_at(plan, i as int));
                }
            }
        }
        i = i + 1;
    }
    let mut j: u64 = 0;
    while j < plan.file_count
        invariant
            map.table_wf(),
            dealloc.accepting(),
            plan_fits(plan),
            m1 == old(map).mapped(),
            0 <= j <= plan.file_count,
            forall|k: u64| in_fresh(plan, k, plan.fresh_count as int) || in_file(plan, k, j as int) ==> !#[trigger] map.mapped().contains_key(k),
            forall|k: u64| !in_fresh(plan, k, plan.fresh_count as int) && !in_file(plan, k, j as int) ==> (#[trigger] map.mapped().contains_key(k)
                == m1.contains_key(k) && (m1.contains_key(k) ==> map.mapped()[k] == m1[k])),
        decreases plan.file_count - j,
    {
        let page = plan.file_page + j * PAGE_SIZE;
        match map.unmap(page) {
            Ok(_) => {},
            Err(_) => {
                proof {
                    lemma_outside_kept(plan, m1, map.mapped(), plan.fresh_count as int, j as int);
                }
                return Err(LoadError::Unmapping);
            },
        }
        proof {
            assert(file_page_at(plan, j as int) as u64 == page);
            assert forall|k: u64| in_fresh(plan, k, plan.fresh_count as int) || in_file(plan, k, j + 1) implies !#[trigger] map.mapped().contains_key(k) by {
                if !in_fresh(plan, k, plan.fresh_count as int) {
                    let b = choose|b: int| 0 <= b < j + 1 && k == #[trigger] file_page_at(plan, b);
                    if b < j {
                        assert(in_file(plan, k, j as int));
                    }
                }
            }
            assert forall|k: u64| !in_fresh(plan, k, plan.fresh_count as int) && !in_file(plan, k, j + 1) implies !in_file(plan, k, j as int) && k != page by {
                if in_file(plan, k, j as int) {
                    let b = choose|b: int| 0 <= b < j && k == #[trigger] file_page_at(plan, b);
                    assert(0 <= b < j + 1 && k == file_page_at(plan, b));
                }
                if k == page {
                    assert(0 <= j < j + 1 && k == file_page_at(plan, j as int));
                }
            }
        }
        j = j + 1;
    }
    Ok(plan.fresh_count)
}

/// Loading a segment and unloading it again leaves the page table as it was,
/// and hands back exactly as many frames as were taken.
pub proof fn lemma_load_unload_round_trip(
    plan: SegmentPlan,
    m0: Map<u64, (u64, u64)>,
    m1: Map<u64, (u64, u64)>,
    m2: Map<u64, (u64, u64)>,
    frames: Seq<u64>,
)
    requires
        loaded(plan, m0, m1, frames),
        unloaded(plan, m1, m2),
    ensures
        m2 == m0,
        frames.len() == plan.fresh_count,
{
    assert forall|k: u64| #[trigger] m2.contains_key(k) == m0.contains_key(k) by {
        if in_fresh(plan, k, plan.fresh_count as int) {
            let a = choose|a: int| 0 <= a < plan.fresh_count && k == #[trigger] fresh_page_at(plan, a);
        } else if in_file(plan, k, plan.file_count as int) {
            let b = choose|b: int| 0 <= b < plan.file_count && k == #[trigger] file_page_at(plan, b);
        }
    }
    assert(m2 =~= m0);
}

impl ElfInfo {
    /// The plan for segment `seg`, whose file bytes lie at physical address
    /// `phys`, at the image's load address and with the image's privilege.
    pub fn plan_for(&self, seg: &SegmentHeader, phys: u64) -> (r: Result<SegmentPlan, LoadError>)
        ensures
            r is Ok <==> self.segment_plan(*seg, phys) is Some,
            r matches Ok(plan) ==> Some(plan) == self.segment_plan(*seg, phys),
            r is Err ==> r == Err::<SegmentPlan, LoadError>(LoadError::OutsideAddressSpace),
    {
        proof {
            reveal(ElfInfo::segment_plan);
        }
        let base = self.base();
        if seg.virtual_addr > u64::MAX - base {
            return Err(LoadError::OutsideAddressSpace);
        }
        let flags = segment_flags(seg.flags, self.user);
        plan_segment(base + seg.virtual_addr, seg.mem_size, phys, seg.file_size, flags)
    }

    /// The plan of segment `seg` where its file bytes lie at `phys`, if the
    /// segment lies within the address spaces.
    #[verifier::opaque]
    pub open spec fn segment_plan(&self, seg: SegmentHeader, phys: u64) -> Option<SegmentPlan> {
        let virt = load_base(self.elf_type, self.user) + seg.virtual_addr;
        if virt <= u64::MAX && segment_in_range(virt as u64, seg.mem_size, phys, seg.file_size) {
            Some(
                plan_spec(
                    virt as u64,
                    seg.mem_size,
                    phys,
                    seg.file_size,
                    segment_flags_spec(seg.flags, self.user),
                ),
            )
        } else {
            None
        }
    }

    /// The plan of `seg` when the image starts at `image_virt` and, where
    /// `translate`, is translated through page table `m`.
    #[verifier::opaque]
    pub open spec fn planned(&self, seg: SegmentHeader, m: Map<u64, (u64, u64)>, image_virt: u64, translate: bool) -> Option<SegmentPlan> {
        match image_phys(seg, m, image_virt, translate) {
            None => None,
            Some(phys) => self.segment_plan(seg, phys),
        }
    }

    /// Every loadable segment has a plan.
    pub open spec fn all_planned(&self, m: Map<u64, (u64, u64)>, image_virt: u64, translate: bool) -> bool {
        forall|i: int|
            0 <= i < self.segments@.len() && mapped_segment(#[trigger] self.segments@[i])
                ==> self.planned(self.segments@[i], m, image_virt, translate) is Some
    }

    /// Page `k` is mapped by the plan of some loadable segment.
    pub open spec fn planned_page(&self, m: Map<u64, (u64, u64)>, image_virt: u64, translate: bool, k: u64) -> bool {
        exists|i: int|
            0 <= i < self.segments@.len() && mapped_segment(#[trigger] self.segments@[i])
                && self.planned(self.segments@[i], m, image_virt, translate) is Some && plan_page(
                self.planned(self.segments@[i], m, image_virt, translate).unwrap(),
                k,
            )
    }

    /// `plans` holds, for each segment, its plan where it is loadable and
    /// `None` otherwise.
    pub open spec fn plans_of(&self, plans: Seq<Option<SegmentPlan>>, m: Map<u64, (u64, u64)>, image_virt: u64, translate: bool) -> bool {
        &&& plans.len() == self.segments@.len()
        &&& forall|j: int|
            0 <= j < plans.len() ==> (#[trigger] plans[j]) == (if mapped_segment(self.segments@[j]) {
                self.planned(self.segments@[j], m, image_virt, translate)
            } else {
                None
            })
    }

    /// Plan every loadable segment, the image starting at
    /// `image_virt` and, where `translate`, translated through `map`.
    fn plan_segments<M: Mapper>(&self, map: &M, image_virt: u64, translate: bool) -> (r: Result<Vec<Option<SegmentPlan>>, LoadError>)
        requires
            map.table_wf(),
        ensures
            r is Ok <==> self.all_planned(map.mapped(), image_virt, translate),
            r is Err ==> r == Err::<Vec<Option<SegmentPlan>>, LoadError>(LoadError::OutsideAddressSpace)
                || (translate && r == Err::<Vec<Option<SegmentPlan>>, LoadError>(LoadError::ImageNotMapped)),
            r matches Ok(plans) ==> self.plans_of(plans@, map.mapped(), image_virt, translate),
    {
        let ghost m0 = map.mapped();
        let n = self.segments.len();
        let mut plans: Vec<Option<SegmentPlan>> = Vec::new();
        let mut i: usize = 0;
        while i < n
            invariant
                n == self.segments@.len(),
                map.table_wf(),
                map.mapped() == m0,
                0 <= i <= n,
                plans@.len() == i,
                forall|j: int|
                    0 <= j < i ==> (#[trigger] plans@[j]) == (if mapped_segment(self.segments@[j]) {
                        self.planned(self.segments@[j], m0, image_virt, translate)
                    } else {
                        None
                    }),
                forall|j: int|
                    0 <= j < i && mapped_segment(#[trigger] self.segments@[j]) ==> self.planned(
                        self.segments@[j],
                        m0,
                        image_virt,
                        translate,
                    ) is Some,
            decreases n - i,
        {
            let seg = self.segments[i];
            if !seg.load {
                plans.push(None);
            } else {
                proof {
                    reveal(image_phys);
                    reveal(ElfInfo::planned);
                }
                if seg.offset > u64::MAX - image_virt {
                    assert(self.planned(self.segments@[i as int], m0, image_virt, translate) is None);
                    return Err(LoadError::OutsideAddressSpace);
                }
                let elf_virt = image_virt + seg.offset;
                let phys = if translate {
                    match map.translate_addr(elf_virt) {
                        Some(p) => p,
                        None => {
                            assert(self.planned(self.segments@[i as int], m0, image_virt, translate) is None);
                            return Err(LoadError::ImageNotMapped);
                        },
                    }
                } else {
                    elf_virt
                };
                assert(image_phys(seg, m0, image_virt, translate) == Some(phys));
                let plan = match self.plan_for(&seg, phys) {
                    Ok(p) => p,
                    Err(e) => {
                        assert(self.planned(self.segments@[i as int], m0, image_virt, translate) is None);
                        return Err(e);
                    },
                };
                assert(self.planned(self.segments@[i as int], m0, image_virt, translate) == Some(plan));
                plans.push(Some(plan));
            }
            i = i + 1;
        }
        Ok(plans)
    }

    /// Map every loadable segment into `map`. The image's bytes start at
    /// virtual address `image_virt`; where `active`, `map` is the page table
    /// in use and translates that address, else the image is identity-mapped.
    /// Every loadable (`PT_LOAD`) segment is mapped, and every segment is
    /// planned before any is mapped: where one has no plan (it lies outside
    /// the address space, or its bytes are not mapped) nothing is mapped. On
    /// success, for each segment, the plan it was mapped by with the fills of
    /// its fresh frames, or `None` where it is not loadable. Pages of no segment
    /// keep their entries whatever the result.
    pub fn setup_mappings<M: Mapper, A: FrameAllocator>(
        &self,
        map: &mut M,
        all: &mut A,
        image_virt: u64,
        active: bool,
    ) -> (r: Result<Vec<Option<SegmentLoad>>, LoadError>)
        requires
            old(map).table_wf(),
            old(all).ready(),
        ensures
            final(map).table_wf(),
            final(all).ready(),
            !self.all_planned(old(map).mapped(), image_virt, active) ==> (r
                == Err::<Vec<Option<SegmentLoad>>, LoadError>(LoadError::OutsideAddressSpace) || r
                == Err::<Vec<Option<SegmentLoad>>, LoadError>(LoadError::ImageNotMapped)) && final(map).mapped() == old(map).mapped(),
            self.all_planned(old(map).mapped(), image_virt, active) ==> r
                != Err::<Vec<Option<SegmentLoad>>, LoadError>(LoadError::OutsideAddressSpace) && r
                != Err::<Vec<Option<SegmentLoad>>, LoadError>(LoadError::ImageNotMapped),
            r != Err::<Vec<Option<SegmentLoad>>, LoadError>(LoadError::Relocation),
            (forall|i: int| 0 <= i < self.segments@.len() ==> !mapped_segment(#[trigger] self.segments@[i]))
                ==> r is Ok && final(map).mapped() == old(map).mapped(),
            forall|k: u64|
                !self.planned_page(old(map).mapped(), image_virt, active, k) ==> same_entry(
                    old(map).mapped(),
                    final(map).mapped(),
                    k,
                ),
            r matches Ok(loads) ==> loads@.len() == self.segments@.len() && forall|i: int|
                0 <= i < loads@.len() ==> ((#[trigger] loads@[i]) is Some <==> mapped_segment(self.segments@[i])) && (loads@[i] is Some ==> Some(loads@[i].unwrap().plan) == self.planned(
                    self.segments@[i],
                    old(map).mapped(),
                    image_virt,
                    active,
                ) && segment_loaded(loads@[i].unwrap().plan, loads@[i].unwrap().fills@, final(map).mapped())
                    && fills_follow(loads@[i].unwrap().plan, loads@[i].unwrap().fills@)),
    {
        let ghost m0 = map.mapped();
        let plans = self.plan_segments(map, image_virt, active)?;
        proof {
            self.lemma_plans_fit(plans@, m0, image_virt, active);
        }
        let n = plans.len();
        let mut loads: Vec<Option<SegmentLoad>> = Vec::new();
        let mut i: usize = 0;
        while i < n
            invariant
                n == plans@.len(),
                m0 == old(map).mapped(),
                map.table_wf(),
                all.ready(),
                self.all_planned(m0, image_virt, active),
                self.plans_of(plans@, m0, image_virt, active),
                forall|j: int| 0 <= j < n && (#[trigger] plans@[j]) is Some ==> plan_fits(plans@[j].unwrap()),
                0 <= i <= n,
                loads@.len() == i,
                forall|j: int|
                    0 <= j < i ==> ((#[trigger] loads@[j]) is Some <==> plans@[j] is Some) && (
                    loads@[j] is Some ==> Some(loads@[j].unwrap().plan) == plans@[j] && segment_loaded(
                        loads@[j].unwrap().plan,
                        loads@[j].unwrap().fills@,
                        map.mapped(),
                    ) && fills_follow(loads@[j].unwrap().plan, loads@[j].unwrap().fills@)),
                forall|k: u64| !covered_by(plans@, i as int, k) ==> same_entry(m0, map.mapped(), k),
            decreases n - i,
        {
            match plans[i] {
                None => {
                    proof {
                        assert forall|k: u64| !covered_by(plans@, i + 1, k) implies same_entry(m0, map.mapped(), k) by {
                            lemma_covered_step(plans@, i as int, k);
                        }
                    }
                    loads.push(None);
                },
                Some(plan) => {
                    let ghost before = map.mapped();
                    let fills = match load_segment(map, all, plan) {
                        Ok(f) => f,
                        Err(e) => {
                            proof {
                                assert(plan_fits(plan));
                                lemma_kept_step(plans@, i as int, m0, before, map.mapped(), plan);
                                self.lemma_kept_all(plans@, i + 1, m0, map.mapped(), image_virt, active);
                            }
                            return Err(e);
                        },
                    };
                    proof {
                        lemma_kept_step(plans@, i as int, m0, before, map.mapped(), plan);
                        let frames = fills@.map_values(|f: FrameFill| f.frame);
                        assert forall|j: int| 0 <= j < i && (#[trigger] loads@[j]) is Some implies segment_loaded(
                            loads@[j].unwrap().plan,
                            loads@[j].unwrap().fills@,
                            map.mapped(),
                        ) by {
                            lemma_segment_loaded_keeps(loads@[j].unwrap().plan, loads@[j].unwrap().fills@, plan, before, map.mapped(), frames);
                        }
                        lemma_segment_loaded_new(plan, before, map.mapped(), fills@);
                    }
                    loads.push(Some(SegmentLoad { plan, fills }));
                },
            }
            i = i + 1;
        }
        proof {
            self.lemma_kept_all(plans@, n as int, m0, map.mapped(), image_virt, active);
            if forall|i: int| 0 <= i < self.segments@.len() ==> !mapped_segment(#[trigger] self.segments@[i]) {
                assert forall|j: int| 0 <= j < n implies (#[trigger] plans@[j]) is None by {
                    assert(!mapped_segment(self.segments@[j]));
                }
                assert forall|k: u64| #[trigger] map.mapped().contains_key(k) == m0.contains_key(k) && (m0.contains_key(k)
                    ==> map.mapped()[k] == m0[k]) by {
                    lemma_covered_none(plans@, n as int, k);
                    assert(same_entry(m0, map.mapped(), k));
                }
                assert(map.mapped() =~= m0);
            }
        }
        Ok(loads)
    }

    /// Undo `setup_mappings`: unmap every loadable segment it mapped, handing
    /// the fresh frames back to `dealloc`. Every segment is planned before
    /// any is unmapped: where one lies outside the address space nothing is
    /// unmapped. On success no page of those segments is mapped; pages of no
    /// segment keep their entries whatever the result.
    pub fn remove_mappings<M: Mapper, D: FrameDeallocator>(
        &self,
        map: &mut M,
        dealloc: &mut D,
    ) -> (r: Result<(), LoadError>)
        requires
            old(map).table_wf(),
            old(dealloc).accepting(),
        ensures
            final(map).table_wf(),
            final(dealloc).accepting(),
            r == Err::<(), LoadError>(LoadError::OutsideAddressSpace) <==> !self.all_planned(old(map).mapped(), 0, false),
            !self.all_planned(old(map).mapped(), 0, false) ==> final(map).mapped() == old(map).mapped(),
            forall|k: u64|
                !self.planned_page(old(map).mapped(), 0, false, k) ==> same_entry(
                    old(map).mapped(),
                    final(map).mapped(),
                    k,
                ),
            r is Ok ==> forall|k: u64|
                self.planned_page(old(map).mapped(), 0, false, k) ==> !#[trigger] final(map).mapped().contains_key(k),
    {
        let ghost m0 = map.mapped();
        let plans = self.plan_segments(map, 0, false)?;
        proof {
            self.lemma_plans_fit(plans@, m0, 0, false);
            assert forall|k: u64| !covered_by(plans@, 0, k) by {
                lemma_covered_none(plans@, 0, k);
            }
        }
        let n = plans.len();
        let mut i: usize = 0;
        while i < n
            invariant
                n == plans@.len(),
                m0 == old(map).mapped(),
                map.table_wf(),
                dealloc.accepting(),
                self.all_planned(m0, 0, false),
                self.plans_of(plans@, m0, 0, false),
                forall|j: int| 0 <= j < n && (#[trigger] plans@[j]) is Some ==> plan_fits(plans@[j].unwrap()),
                0 <= i <= n,
                forall|k: u64| covered_by(plans@, i as int, k) ==> !#[trigger] map.mapped().contains_key(k),
                forall|k: u64| !covered_by(plans@, i as int, k) ==> same_entry(m0, map.mapped(), k),
            decreases n - i,
        {
            match plans[i] {
                None => {
                    proof {
                        assert forall|k: u64| !covered_by(plans@, i + 1, k) implies same_entry(m0, map.mapped(), k) by {
                            lemma_covered_step(plans@, i as int, k);
                        }
                        assert forall|k: u64| covered_by(plans@, i + 1, k) implies !#[trigger] map.mapped().contains_key(k) by {
                            lemma_covered_step(plans@, i as int, k);
                        }
                    }
                },
                Some(plan) => {
                    let ghost before = map.mapped();
                    match unload_segment(map, dealloc, plan) {
                        Ok(_) => {},
                        Err(e) => {
                            proof {
                                assert(plan_fits(plan));
                                lemma_kept_step(plans@, i as int, m0, before, map.mapped(), plan);
                                self.lemma_kept_all(plans@, i + 1, m0, map.mapped(), 0, false);
                            }
                            return Err(e);
                        },
                    }
                    proof {
                        lemma_kept_step(plans@, i as int, m0, before, map.mapped(), plan);
                        assert forall|k: u64| covered_by(plans@, i + 1, k) implies !#[trigger] map.mapped().contains_key(k) by {
                            lemma_covered_step(plans@, i as int, k);
                            if !plan_page(plan, k) {
                                assert(!before.contains_key(k));
                            }
                        }
                    }
                },
            }
            i = i + 1;
        }
        proof {
            self.lemma_kept_all(plans@, n as int, m0, map.mapped(), 0, false);
            assert forall|k: u64| self.planned_page(m0, 0, false, k) implies !#[trigger] map.mapped().contains_key(k) by {
                self.lemma_planned_covered(plans@, m0, 0, false, k);
            }
        }
        Ok(())
    }

    proof fn lemma_plans_fit(&self, plans: Seq<Option<SegmentPlan>>, m: Map<u64, (u64, u64)>, image_virt: u64, translate: bool)
        requires
            self.plans_of(plans, m, image_virt, translate),
        ensures
            forall|j: int| 0 <= j < plans.len() && (#[trigger] plans[j]) is Some ==> plan_fits(plans[j].unwrap()),
    {
        reveal(ElfInfo::planned);
        reveal(ElfInfo::segment_plan);
        assert forall|j: int| 0 <= j < plans.len() && (#[trigger] plans[j]) is Some implies plan_fits(plans[j].unwrap()) by {
            let seg = self.segments@[j];
            let phys = image_phys(seg, m, image_virt, translate).unwrap();
            let virt = load_base(self.elf_type, self.user) + seg.virtual_addr;
            lemma_plan_fits(virt as u64, seg.mem_size, phys, seg.file_size, segment_flags_spec(seg.flags, self.user));
        }
    }

    /// A page covered by the first `n` plans is a planned page.
    proof fn lemma_planned_covered(&self, plans: Seq<Option<SegmentPlan>>, m: Map<u64, (u64, u64)>, image_virt: u64, translate: bool, k: u64)
        requires
            self.plans_of(plans, m, image_virt, translate),
        ensures
            self.planned_page(m, image_virt, translate, k) ==> covered_by(plans, plans.len() as int, k),
    {
        reveal(covered_by);
        if self.planned_page(m, image_virt, translate, k) {
            let i = choose|i: int|
                0 <= i < self.segments@.len() && mapped_segment(#[trigger] self.segments@[i])
                    && self.planned(self.segments@[i], m, image_virt, translate) is Some && plan_page(
                    self.planned(self.segments@[i], m, image_virt, translate).unwrap(),
                    k,
                );
            assert(plans[i] is Some && plan_page(plans[i].unwrap(), k));
        }
    }

    /// Entries unchanged outside the first `n` plans are unchanged outside
    /// every planned page.
    proof fn lemma_kept_all(&self, plans: Seq<Option<SegmentPlan>>, n: int, m0: Map<u64, (u64, u64)>, m1: Map<u64, (u64, u64)>, image_virt: u64, translate: bool)
        requires
            self.plans_of(plans, m0, image_virt, translate),
            0 <= n <= plans.len(),
            forall|k: u64| !covered_by(plans, n, k) ==> same_entry(m0, m1, k),
        ensures
            forall|k: u64| !self.planned_page(m0, image_virt, translate, k) ==> same_entry(m0, m1, k),
    {
        assert forall|k: u64| !self.planned_page(m0, image_virt, translate, k) implies same_entry(m0, m1, k) by {
            if covered_by(plans, n, k) {
                reveal(covered_by);
                let j = choose|j: int| 0 <= j < n && plans[j] is Some && plan_page(plans[j].unwrap(), k);
                assert(mapped_segment(self.segments@[j]));
                assert(self.planned_page(m0, image_virt, translate, k));
            }
        }
    }
}

/// Page `k` keeps its entry from `m0` in `m1`.
pub open spec fn same_entry(m0: Map<u64, (u64, u64)>, m1: Map<u64, (u64, u64)>, k: u64) -> bool {
    &&& m1.contains_key(k) == m0.contains_key(k)
    &&& m0.contains_key(k) ==> m1[k] == m0[k]
}

/// Page `k` is mapped by one of the first `n` plans.
#[verifier::opaque]
pub open spec fn covered_by(plans: Seq<Option<SegmentPlan>>, n: int, k: u64) -> bool {
    exists|j: int| 0 <= j < n && plans[j] is Some && plan_page(plans[j].unwrap(), k)
}

proof fn lemma_covered_step(plans: Seq<Option<SegmentPlan>>, i: int, k: u64)
    requires
        0 <= i < plans.len(),
    ensures
        covered_by(plans, i + 1, k) == (covered_by(plans, i, k) || (plans[i] is Some && plan_page(
            plans[i].unwrap(),
            k,
        ))),
{
    reveal(covered_by);
    if covered_by(plans, i + 1, k) {
        let j = choose|j: int| 0 <= j < i + 1 && plans[j] is Some && plan_page(plans[j].unwrap(), k);
        if j < i {
            assert(covered_by(plans, i, k));
        }
    }
    if covered_by(plans, i, k) {
        let j = choose|j: int| 0 <= j < i && plans[j] is Some && plan_page(plans[j].unwrap(), k);
        assert(0 <= j < i + 1);
    }
}

proof fn lemma_covered_none(plans: Seq<Option<SegmentPlan>>, n: int, k: u64)
    requires
        forall|j: int| 0 <= j < n ==> (#[trigger] plans[j]) is None,
    ensures
        !covered_by(plans, n, k),
{
    reveal(covered_by);
}

proof fn lemma_kept_step(
    plans: Seq<Option<SegmentPlan>>,
    i: int,
    m0: Map<u64, (u64, u64)>,
    before: Map<u64, (u64, u64)>,
    after: Map<u64, (u64, u64)>,
    plan: SegmentPlan,
)
    requires
        0 <= i < plans.len(),
        plans[i] == Some(plan),
        forall|k: u64| !covered_by(plans, i, k) ==> same_entry(m0, before, k),
        unchanged_outside(plan, before, after),
    ensures
        forall|k: u64| !covered_by(plans, i + 1, k) ==> same_entry(m0, after, k),
{
    assert forall|k: u64| !covered_by(plans, i + 1, k) implies same_entry(m0, after, k) by {
        lemma_covered_step(plans, i, k);
        assert(same_entry(m0, before, k));
        assert(after.contains_key(k) == before.contains_key(k));
        if before.contains_key(k) {
            assert(after[k] == before[k]);
        }
    }
}

/// A segment mapped by `setup_mappings`: its plan and the fills of its
/// fresh frames.
pub struct SegmentLoad {
    pub plan: SegmentPlan,
    pub fills: Vec<FrameFill>,
}

/// Physical address of the bytes of `seg` when the image starts at virtual
/// address `image_virt`: translated through page table `m` where `active`,
/// the same address otherwise. `None` where it lies past the address space
/// or is not mapped.
#[verifier::opaque]
pub open spec fn image_phys(seg: SegmentHeader, m: Map<u64, (u64, u64)>, image_virt: u64, active: bool) -> Option<u64> {
    let elf_virt = image_virt + seg.offset;
    let page = page_of(elf_virt) as u64;
    if elf_virt > u64::MAX {
        None
    } else if !active {
        Some(elf_virt as u64)
    } else if m.contains_key(page) {
        Some((m[page].0 + (elf_virt - page)) as u64)
    } else {
        None
    }
}

/// Page table `m` maps the plan's pages: each fresh page to the frame of its
/// fill, each file-backed page to the image's frame, all with the plan's
/// flags.
#[verifier::opaque]
pub open spec fn segment_loaded(plan: SegmentPlan, fills: Seq<FrameFill>, m: Map<u64, (u64, u64)>) -> bool {
    &&& fills.len() == plan.fresh_count
    &&& forall|a: int| 0 <= a < plan.fresh_count ==> {
        let k = #[trigger] fresh_page_at(plan, a) as u64;
        &&& m.contains_key(k)
        &&& m[k] == (fills[a].frame, plan.flags)
    }
    &&& forall|b: int| 0 <= b < plan.file_count ==> {
        let k = #[trigger] file_page_at(plan, b) as u64;
        &&& m.contains_key(k)
        &&& m[k] == ((plan.file_frame + b * PAGE_SIZE) as u64, plan.flags)
    }
}

proof fn lemma_loaded_keeps(plan: SegmentPlan, m0: Map<u64, (u64, u64)>, m1: Map<u64, (u64, u64)>, frames: Seq<u64>, k: u64)
    requires
        loaded(plan, m0, m1, frames),
        m0.contains_key(k),
    ensures
        m1.contains_key(k),
        m1[k] == m0[k],
{
    if plan_page(plan, k) {
        if in_fresh(plan, k, plan.fresh_count as int) {
            let a = choose|a: int| 0 <= a < plan.fresh_count && k == #[trigger] fresh_page_at(plan, a);
        } else {
            let b = choose|b: int| 0 <= b < plan.file_count && k == #[trigger] file_page_at(plan, b);
        }
    }
}

pub proof fn lemma_segment_loaded_new(plan: SegmentPlan, m0: Map<u64, (u64, u64)>, m1: Map<u64, (u64, u64)>, fills: Seq<FrameFill>)
    requires
        loaded(plan, m0, m1, fills.map_values(|f: FrameFill| f.frame)),
    ensures
        segment_loaded(plan, fills, m1),
{
    reveal(segment_loaded);
    let frames = fills.map_values(|f: FrameFill| f.frame);
    assert forall|a: int| 0 <= a < plan.fresh_count implies m1[#[trigger] fresh_page_at(plan, a) as u64]
        == (fills[a].frame, plan.flags) by {
        assert(frames[a] == fills[a].frame);
    }
}

pub proof fn lemma_segment_loaded_keeps(
    p: SegmentPlan,
    fills: Seq<FrameFill>,
    plan: SegmentPlan,
    m0: Map<u64, (u64, u64)>,
    m1: Map<u64, (u64, u64)>,
    frames: Seq<u64>,
)
    requires
        segment_loaded(p, fills, m0),
        loaded(plan, m0, m1, frames),
    ensures
        segment_loaded(p, fills, m1),
{
    reveal(segment_loaded);
    assert forall|a: int| 0 <= a < p.fresh_count implies m1.contains_key(#[trigger] fresh_page_at(p, a) as u64)
        && m1[fresh_page_at(p, a) as u64] == (fills[a].frame, p.flags) by {
        lemma_loaded_keeps(plan, m0, m1, frames, fresh_page_at(p, a) as u64);
    }
    assert forall|b: int| 0 <= b < p.file_count implies m1.contains_key(#[trigger] file_page_at(p, b) as u64)
        && m1[file_page_at(p, b) as u64] == ((p.file_frame + b * PAGE_SIZE) as u64, p.flags) by {
        lemma_loaded_keeps(plan, m0, m1, frames, file_page_at(p, b) as u64);
    }
}

/// The segment is loadable (`PT_LOAD`), so the loader maps it.
pub open spec fn mapped_segment(seg: SegmentHeader) -> bool {
    seg.load
}

proof fn lemma_page_split(x: int, m: int)
    requires
        x >= 0,
        m % PAGE_SIZE as int == 0,
        m <= x < m + PAGE_SIZE,
    ensures
        page_of(x) == m,
{
    lemma_align_facts(x, PAGE_SIZE as int);
    let a = page_of(x);
    let p = PAGE_SIZE as int;
    vstd::arithmetic::div_mod::lemma_fundamental_div_mod(a, p);
    vstd::arithmetic::div_mod::lemma_fundamental_div_mod(m, p);
    let qa = a / p;
    let qm = m / p;
    assert(qa == qm) by (nonlinear_arith)
        requires
            a == p * qa,
            m == p * qm,
            a - m < p,
            m - a < p,
            p > 0,
    ;
}

proof fn lemma_page_count(hi: int, lo: int)
    requires
        0 <= lo <= hi,
        hi % PAGE_SIZE as int == 0,
        lo % PAGE_SIZE as int == 0,
    ensures
        ((hi - lo) / PAGE_SIZE as int) * PAGE_SIZE as int == hi - lo,
        (hi - lo) / PAGE_SIZE as int >= 0,
{
    let p = PAGE_SIZE as int;
    vstd::arithmetic::div_mod::lemma_sub_mod_noop(hi, lo, p);
    vstd::arithmetic::div_mod::lemma_fundamental_div_mod(hi - lo, p);
    vstd::arithmetic::div_mod::lemma_div_pos_is_pos(hi - lo, p);
}

/// Reading a segment through its plan yields the segment: each of its first
/// `file_size` bytes reaches the image byte at the same distance from the
/// segment's start, through a file-backed page or through the bytes copied
/// into the first fresh frame; each later byte lies in a fresh page outside
/// the copied bytes, and so reads zero. This holds where the segment's
/// virtual and physical addresses share their offset within a page, as ELF
/// requires of loadable segments.
pub proof fn lemma_plan_reads_segment(virt: u64, mem_size: u64, phys: u64, file_size: u64, flags: u64, v: int)
    requires
        segment_in_range(virt, mem_size, phys, file_size),
        virt % PAGE_SIZE == phys % PAGE_SIZE,
        virt <= v < virt + mem_size,
    ensures
        ({
            let plan = plan_spec(virt, mem_size, phys, file_size, flags);
            let pg = page_of(v);
            let o = v - pg;
            &&& v < virt + file_size ==> {
                ||| (plan.file_page <= pg < plan.file_page + plan.file_count * PAGE_SIZE && plan.file_frame
                    + (pg - plan.file_page) + o == phys + (v - virt))
                ||| (pg == plan.fresh_page && plan.fresh_count > 0 && plan.copy_offset <= o
                    < plan.copy_offset + plan.copy_len && plan.copy_src + (o - plan.copy_offset) == phys
                    + (v - virt))
            }
            &&& v >= virt + file_size ==> {
                &&& plan.fresh_page <= pg < plan.fresh_page + plan.fresh_count * PAGE_SIZE
                &&& !(pg == plan.fresh_page && plan.copy_offset <= o < plan.copy_offset + plan.copy_len)
            }
        }),
{
    let p = PAGE_SIZE as int;
    let plan = plan_spec(virt, mem_size, phys, file_size, flags);
    let first = page_of(virt as int);
    let last = page_of(virt + mem_size - 1);
    let d = virt as int - first;
    lemma_align_facts(virt as int, p);
    lemma_align_facts(phys as int, p);
    lemma_align_facts(v, p);
    lemma_align_facts(virt + mem_size - 1, p);
    lemma_align_down_monotone(virt as int, v);
    lemma_align_down_monotone(v, virt + mem_size - 1);
    lemma_page_count(last, first);
    assert(phys as int - page_of(phys as int) == d);
    if file_size >= mem_size {
    } else if file_size == 0 {
    } else {
        let split = page_of(virt + file_size - 1);
        let e = virt + file_size - 1 - split;
        let pe = phys + file_size - 1;
        lemma_align_facts(virt + file_size - 1, p);
        lemma_align_down_monotone(virt as int, virt + file_size - 1);
        lemma_align_down_monotone(virt + file_size - 1, virt + mem_size - 1);
        lemma_page_count(split, first);
        lemma_page_count(last, split);
        let m = page_of(phys as int) + (split - first);
        assert(m % p == 0) by {
            vstd::arithmetic::div_mod::lemma_add_mod_noop(page_of(phys as int), split - first, p);
            lemma_page_count(split, first);
            vstd::arithmetic::div_mod::lemma_mod_multiples_basic((split - first) / p, p);
        }
        assert(pe == m + e);
        lemma_page_split(pe, m);
        lemma_align_facts(pe, p);
        if v < virt + file_size {
            lemma_align_down_monotone(v, virt + file_size - 1);
        } else {
            lemma_align_down_monotone(virt + file_size - 1, v);
        }
        if phys as int >= m {
            assert(split - first < p);
            assert(split == first) by {
                lemma_page_split(split, first);
            }
        }
    }
}

impl ElfInfo {
    /// `loads` is what `setup_mappings` reports on success: for each
    /// loadable segment its plan (as planned on `m0`), mapped in `m1` to the
    /// frames of its fills, which follow the plan.
    pub open spec fn loads_match(&self, loads: Seq<Option<SegmentLoad>>, m0: Map<u64, (u64, u64)>, m1: Map<u64, (u64, u64)>, image_virt: u64, active: bool) -> bool {
        &&& loads.len() == self.segments@.len()
        &&& forall|i: int|
            0 <= i < loads.len() ==> ((#[trigger] loads[i]) is Some <==> mapped_segment(self.segments@[i])) && (
            loads[i] is Some ==> Some(loads[i].unwrap().plan) == self.planned(self.segments@[i], m0, image_virt, active)
                && segment_loaded(loads[i].unwrap().plan, loads[i].unwrap().fills@, m1) && fills_follow(
                loads[i].unwrap().plan,
                loads[i].unwrap().fills@,
            ))
    }
}

/// Whether the image's relocations can be applied at the load address of
/// `info`.
pub open spec fn relocatable(elf: &Elf, info: &ElfInfo) -> bool {
    image_relocations(elf.bytes()) is Some && relocations_ok(
        image_relocations(elf.bytes()).unwrap(),
        load_base(info.elf_type, info.user),
    )
}

/// Load an image: work out the relocation writes at its load address, then
/// map its loadable segments as `setup_mappings` does. `Err(Relocation)`,
/// with nothing mapped, where the relocation tables cannot be read or hold an
/// entry other than `R_X86_64_RELATIVE`. On success, what `setup_mappings`
/// reports and the writes (`base + addend` at `base + offset`) that the
/// caller makes through the new mapping.
pub fn load_image<M: Mapper, A: FrameAllocator>(
    elf: &Elf,
    info: &ElfInfo,
    map: &mut M,
    all: &mut A,
    image_virt: u64,
    active: bool,
) -> (r: Result<(Vec<Option<SegmentLoad>>, Vec<RelocationWrite>), LoadError>)
    requires
        old(map).table_wf(),
        old(all).ready(),
    ensures
        final(map).table_wf(),
        final(all).ready(),
        !relocatable(elf, info) ==> r == Err::<(Vec<Option<SegmentLoad>>, Vec<RelocationWrite>), LoadError>(
            LoadError::Relocation,
        ) && final(map).mapped() == old(map).mapped(),
        relocatable(elf, info) && !info.all_planned(old(map).mapped(), image_virt, active) ==> (r
            == Err::<(Vec<Option<SegmentLoad>>, Vec<RelocationWrite>), LoadError>(
            LoadError::OutsideAddressSpace,
        ) || r == Err::<(Vec<Option<SegmentLoad>>, Vec<RelocationWrite>), LoadError>(
            LoadError::ImageNotMapped,
        )) && final(map).mapped() == old(map).mapped(),
        relocatable(elf, info) && info.all_planned(old(map).mapped(), image_virt, active) ==> r
            != Err::<(Vec<Option<SegmentLoad>>, Vec<RelocationWrite>), LoadError>(
            LoadError::OutsideAddressSpace,
        ) && r != Err::<(Vec<Option<SegmentLoad>>, Vec<RelocationWrite>), LoadError>(
            LoadError::ImageNotMapped,
        ) && r != Err::<(Vec<Option<SegmentLoad>>, Vec<RelocationWrite>), LoadError>(
            LoadError::Relocation,
        ),
        forall|k: u64|
            !info.planned_page(old(map).mapped(), image_virt, active, k) ==> same_entry(
                old(map).mapped(),
                final(map).mapped(),
                k,
            ),
        r matches Ok((loads, writes)) ==> info.loads_match(
            loads@,
            old(map).mapped(),
            final(map).mapped(),
            image_virt,
            active,
        ) && relocation_writes(
            image_relocations(elf.bytes()).unwrap(),
            load_base(info.elf_type, info.user),
            writes@,
        ),
{
    let writes = match elf.relocations(info.base()) {
        Ok(w) => w,
        Err(_) => return Err(LoadError::Relocation),
    };
    let loads = match info.setup_mappings(map, all, image_virt, active) {
        Ok(l) => l,
        Err(e) => return Err(e),
    };
    Ok((loads, writes))
}

} // verus!
