//! Address arithmetic and the fixed memory layout.

use vstd::prelude::*;

verus! {

/// Size of a page and of a frame.
pub const PAGE_SIZE: u64 = 4096;

/// Index of the top-level page-table entry that holds the offset mapping.
pub const PAGE_TABLE_INDEX: u64 = 1;

/// Virtual address at which physical address zero is mapped.
pub const OFFSET: u64 = 0x80_0000_0000;

/// Start of the kernel heap.
pub const HEAP_START: u64 = 0x1_0000_0000;

/// Size of the kernel heap in bytes.
pub const HEAP_SIZE: u64 = 0x40_0000;

/// Virtual address of the userspace stack.
pub const USER_STACK_START: u64 = 0x2000;

/// Number of pages of the userspace stack.
pub const USER_STACK_PAGES: u64 = 1;

/// Virtual address at which the frame buffer is mapped for userspace.
pub const USER_FRAME_BUFFER: u64 = 0x700_0000;

/// Smallest multiple of `align` that is at least `addr`.
pub open spec fn align_up_spec(addr: int, align: int) -> int
    recommends
        align > 0,
{
    if addr % align == 0 {
        addr
    } else {
        addr - addr % align + align
    }
}

/// Largest multiple of `align` that is at most `addr`.
pub open spec fn align_down_spec(addr: int, align: int) -> int
    recommends
        align > 0,
{
    addr - addr % align
}

/// Facts about the remainder that both rounding directions rest on.
pub proof fn lemma_align_facts(a: int, m: int)
    requires
        a >= 0,
        m > 0,
    ensures
        0 <= a % m < m,
        a % m <= a,
        (a - a % m) % m == 0,
        (a - a % m + m) % m == 0,
{
    vstd::arithmetic::div_mod::lemma_fundamental_div_mod(a, m);
    vstd::arithmetic::div_mod::lemma_mod_bound(a, m);
    let q = a / m;
    vstd::arithmetic::div_mod::lemma_div_pos_is_pos(a, m);
    assert(m * q >= 0) by (nonlinear_arith)
        requires
            m > 0,
            q >= 0,
    ;
    assert(a - a % m == q * m) by (nonlinear_arith)
        requires
            a == m * q + a % m,
    ;
    assert(a - a % m + m == (q + 1) * m) by (nonlinear_arith)
        requires
            a == m * q + a % m,
    ;
    vstd::arithmetic::div_mod::lemma_mod_multiples_basic(q, m);
    vstd::arithmetic::div_mod::lemma_mod_multiples_basic(q + 1, m);
}

/// Round `addr` up to a multiple of `align`.
pub fn align_up(addr: u64, align: u64) -> (r: u64)
    requires
        align > 0,
        align_up_spec(addr as int, align as int) <= u64::MAX,
    ensures
        r == align_up_spec(addr as int, align as int),
        r >= addr,
        r % align == 0,
        r - addr < align,
{
    proof {
        lemma_align_facts(addr as int, align as int);
    }
    let rem = addr % align;
    if rem == 0 {
        addr
    } else {
        addr - rem + align
    }
}

/// Round `addr` down to a multiple of `align`.
pub fn align_down(addr: u64, align: u64) -> (r: u64)
    requires
        align > 0,
    ensures
        r == align_down_spec(addr as int, align as int),
        r <= addr,
        r % align == 0,
        addr - r < align,
{
    proof {
        lemma_align_facts(addr as int, align as int);
    }
    addr - addr % align
}

} // verus!
