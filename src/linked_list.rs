//! First-fit heap allocator over an address-sorted list of free holes.
//!
//! The list is kept outside the heap memory: a hole is an address and a size,
//! and adjacent holes are always merged, so the holes are exactly the maximal
//! free ranges of the heap.

use vstd::prelude::*;
use crate::addr::{align_up, align_up_spec, lemma_align_facts};

verus! {

/// Size of a list node: the least size of a hole.
pub const NODE_SIZE: u64 = 16;

/// Alignment of a list node: every hole starts at a multiple of it.
pub const NODE_ALIGN: u64 = 8;

/// Largest size a layout may have once padded (`isize::MAX`).
pub const LAYOUT_MAX: u64 = 0x7fff_ffff_ffff_ffff;

/// Size and alignment of a requested block of memory.
#[derive(Copy, Clone, Debug, PartialEq, Eq, Structural)]
pub struct Layout {
    pub size: u64,
    pub align: u64,
}

impl Layout {
    /// A power-of-two alignment, and a size that stays within `isize::MAX`
    /// when rounded up to it.
    pub open spec fn valid(self) -> bool {
        &&& self.align > 0
        &&& self.align & (self.align - 1) as u64 == 0
        &&& self.size <= LAYOUT_MAX - (self.align - 1)
    }

    /// The layout of `size` bytes at alignment `align`, if valid.
    pub fn from_size_align(size: u64, align: u64) -> (r: Option<Layout>)
        ensures
            r is Some <==> (Layout { size, align }).valid(),
            r matches Some(l) ==> l == (Layout { size, align }),
    {
        if align == 0 || align & (align - 1) != 0 || align - 1 > LAYOUT_MAX || size > LAYOUT_MAX - (align - 1) {
            None
        } else {
            Some(Layout { size, align })
        }
    }
}

/// A layout widened to what the list needs: at least node alignment, a size
/// padded to the alignment and at least the node size.
#[derive(Copy, Clone, Debug, PartialEq, Eq, Structural)]
pub struct NodeLayout {
    pub size: u64,
    pub align: u64,
}

/// The larger of two integers.
pub open spec fn max_spec(a: int, b: int) -> int {
    if a >= b {
        a
    } else {
        b
    }
}

/// The node layout of `l`.
pub open spec fn node_layout_spec(l: Layout) -> NodeLayout {
    let align = max_spec(l.align as int, NODE_ALIGN as int);
    NodeLayout {
        size: max_spec(align_up_spec(l.size as int, align), NODE_SIZE as int) as u64,
        align: align as u64,
    }
}

impl NodeLayout {
    pub open spec fn wf(self) -> bool {
        &&& self.align >= NODE_ALIGN
        &&& self.align % NODE_ALIGN == 0
        &&& self.size >= NODE_SIZE
        &&& self.size % NODE_ALIGN == 0
        &&& self.size <= LAYOUT_MAX
    }

    /// Widen `layout` to a node layout. A layout whose size, padded to node
    /// alignment, passes `isize::MAX` has none.
    pub fn from(layout: Layout) -> (r: NodeLayout)
        requires
            layout.valid(),
            layout.size <= LAYOUT_MAX - (NODE_ALIGN - 1),
        ensures
            r == node_layout_spec(layout),
            r.wf(),
    {
        let align = if layout.align < NODE_ALIGN {
            NODE_ALIGN
        } else {
            layout.align
        };
        assert(align % NODE_ALIGN == 0) by {
            if layout.align >= NODE_ALIGN {
                lemma_pow2_multiple_of_eight(layout.align);
            }
        }
        proof {
            lemma_align_facts(layout.size as int, align as int);
        }
        let padded = align_up(layout.size, align);
        assert(padded % NODE_ALIGN == 0) by {
            lemma_mod_of_multiple(padded as int, align as int, NODE_ALIGN as int);
        }
        let size = if padded < NODE_SIZE {
            NODE_SIZE
        } else {
            padded
        };
        NodeLayout { size, align }
    }
}

proof fn lemma_pow2_multiple_of_eight(a: u64)
    requires
        a >= 8,
        a & (a - 1) as u64 == 0,
    ensures
        a % 8 == 0,
{
    let b = (a - 1) as u64;
    assert(a >= 8 && b == a - 1 && a & b == 0 ==> a % 8 == 0) by (bit_vector);
}

proof fn lemma_mod_of_multiple(x: int, m: int, d: int)
    requires
        d > 0,
        m > 0,
        m % d == 0,
        x % m == 0,
    ensures
        x % d == 0,
{
    vstd::arithmetic::div_mod::lemma_fundamental_div_mod(x, m);
    vstd::arithmetic::div_mod::lemma_fundamental_div_mod(m, d);
    let a = x / m;
    let b = m / d;
    assert(x == (a * b) * d) by (nonlinear_arith)
        requires
            x == m * a + x % m,
            m == d * b + m % d,
            x % m == 0,
            m % d == 0,
    ;
    vstd::arithmetic::div_mod::lemma_mod_multiples_basic(a * b, d);
}

/// A free block of memory: its start address and size.
#[derive(Copy, Clone, Debug, PartialEq, Eq, Structural)]
pub struct Hole {
    pub addr: u64,
    pub size: u64,
}

/// End (exclusive) of a hole, as an integer.
pub open spec fn hole_end(h: Hole) -> int {
    h.addr + h.size
}

/// A hole that can hold a list node and lies within the address space.
pub open spec fn hole_wf(h: Hole) -> bool {
    &&& h.addr % NODE_ALIGN == 0
    &&& h.size >= NODE_SIZE
    &&& hole_end(h) <= u64::MAX
}

/// How a node layout fits in a hole: the hole left before, the start of the
/// block, and the hole left after. `None` where the block does not fit, or
/// where a remainder would be too small to hold a node.
pub open spec fn fit_spec(h: Hole, l: NodeLayout) -> Option<(Option<Hole>, u64, Option<Hole>)> {
    let start = align_up_spec(h.addr as int, l.align as int);
    let end = start + l.size;
    let before = start - h.addr;
    let after = hole_end(h) - end;
    if end > hole_end(h) {
        None
    } else if before != 0 && before < NODE_SIZE {
        None
    } else if after != 0 && after < NODE_SIZE {
        None
    } else {
        Some(
            (
                if before == 0 {
                    None
                } else {
                    Some(Hole { addr: h.addr, size: before as u64 })
                },
                start as u64,
                if after == 0 {
                    None
                } else {
                    Some(Hole { addr: end as u64, size: after as u64 })
                },
            ),
        )
    }
}

impl Hole {
    pub fn new(addr: u64, size: u64) -> (r: Hole)
        ensures
            r == (Hole { addr, size }),
    {
        Hole { addr, size }
    }

    pub fn start_addr(self) -> (r: u64)
        ensures
            r == self.addr,
    {
        self.addr
    }

    pub fn end_addr(self) -> (r: u64)
        requires
            hole_end(self) <= u64::MAX,
        ensures
            r == hole_end(self),
    {
        self.addr + self.size
    }

    /// The hole that an allocation of `layout` at `addr` becomes when freed.
    pub fn from_alloc(addr: u64, layout: NodeLayout) -> (r: Hole)
        ensures
            r == (Hole { addr, size: layout.size }),
    {
        Hole { addr, size: layout.size }
    }

    /// Where `layout` fits in this hole, with the holes left on either side.
    pub fn fit_alloc(self, layout: NodeLayout) -> (r: Option<(Option<Hole>, u64, Option<Hole>)>)
        requires
            hole_end(self) <= u64::MAX,
            layout.wf(),
        ensures
            r == fit_spec(self, layout),
    {
        let hole_end = self.addr + self.size;
        proof {
            lemma_align_facts(self.addr as int, layout.align as int);
        }
        let rem = self.addr % layout.align;
        let start = if rem == 0 {
            self.addr
        } else {
            if self.addr - rem > u64::MAX - layout.align {
                return None;
            }
            self.addr - rem + layout.align
        };
        if start > hole_end || layout.size > hole_end - start {
            return None;
        }
        let end = start + layout.size;
        let excess_before = start - self.addr;
        let before = if excess_before == 0 {
            None
        } else if excess_before < NODE_SIZE {
            return None;
        } else {
            Some(Hole::new(self.addr, excess_before))
        };
        let excess_after = hole_end - end;
        let after = if excess_after == 0 {
            None
        } else if excess_after < NODE_SIZE {
            return None;
        } else {
            Some(Hole::new(end, excess_after))
        };
        Some((before, start, after))
    }
}

/// The holes are well formed, sorted by address, and no two of them overlap
/// or touch.
pub open spec fn holes_wf(s: Seq<Hole>) -> bool {
    &&& forall|i: int| 0 <= i < s.len() ==> hole_wf(#[trigger] s[i])
    &&& forall|i: int, j: int| 0 <= i < j < s.len() ==> hole_end(#[trigger] s[i]) < (#[trigger] s[j]).addr
}

/// Address `x` lies in one of the holes.
pub open spec fn covers(s: Seq<Hole>, x: int) -> bool {
    exists|i: int| 0 <= i < s.len() && (#[trigger] s[i]).addr <= x < hole_end(s[i])
}

/// Index of the first hole from `i` on in which `l` fits.
pub open spec fn first_fit(s: Seq<Hole>, l: NodeLayout, i: int) -> Option<int>
    decreases s.len() - i,
{
    if i < 0 || i >= s.len() {
        None
    } else if fit_spec(s[i], l) is Some {
        Some(i)
    } else {
        first_fit(s, l, i + 1)
    }
}

/// The holes after hole `i` is split into the remainders `before` and `after`.
pub open spec fn split_holes(s: Seq<Hole>, i: int, before: Option<Hole>, after: Option<Hole>) -> Seq<
    Hole,
> {
    match (before, after) {
        (Some(b), Some(a)) => s.update(i, b).insert(i + 1, a),
        (Some(b), None) => s.update(i, b),
        (None, Some(a)) => s.update(i, a),
        (None, None) => s.remove(i),
    }
}

/// Index of the first hole that starts at or after `a`.
pub open spec fn insert_pos(s: Seq<Hole>, a: int, i: int) -> int
    decreases s.len() - i,
{
    if i < 0 || i >= s.len() {
        s.len() as int
    } else if s[i].addr >= a {
        i
    } else {
        insert_pos(s, a, i + 1)
    }
}

/// The holes after `h` is put back at position `k`, merged with the hole
/// after it where they touch, then with the hole before it where they touch.
pub open spec fn push_holes(s: Seq<Hole>, k: int, h: Hole) -> Seq<Hole> {
    let next = k < s.len() && s[k].addr == hole_end(h);
    let prev = k > 0 && hole_end(s[k - 1]) == h.addr;
    let merged = if next {
        Hole { addr: h.addr, size: (h.size + s[k].size) as u64 }
    } else {
        h
    };
    let rest = if next {
        s.remove(k)
    } else {
        s
    };
    if prev {
        rest.update(k - 1, Hole { addr: s[k - 1].addr, size: (s[k - 1].size + merged.size) as u64 })
    } else {
        rest.insert(k, merged)
    }
}

/// The hole `h` shares no byte with any hole of `s`.
pub open spec fn disjoint_from(s: Seq<Hole>, h: Hole) -> bool {
    forall|i: int| 0 <= i < s.len() ==> hole_end(h) <= (#[trigger] s[i]).addr || hole_end(s[i]) <= h.addr
}

proof fn lemma_first_fit(s: Seq<Hole>, l: NodeLayout, i: int)
    requires
        0 <= i,
    ensures
        first_fit(s, l, i) matches Some(j) ==> i <= j < s.len() && fit_spec(s[j], l) is Some
            && forall|k: int| i <= k < j ==> fit_spec(#[trigger] s[k], l) is None,
        first_fit(s, l, i) is None ==> forall|k: int| i <= k < s.len() ==> fit_spec(#[trigger] s[k], l) is None,
    decreases s.len() - i,
{
    if i < s.len() && fit_spec(s[i], l) is None {
        lemma_first_fit(s, l, i + 1);
    }
}

proof fn lemma_insert_pos(s: Seq<Hole>, a: int, i: int)
    requires
        0 <= i <= s.len(),
    ensures
        i <= insert_pos(s, a, i) <= s.len(),
        forall|k: int| i <= k < insert_pos(s, a, i) ==> (#[trigger] s[k]).addr < a,
        insert_pos(s, a, i) < s.len() ==> s[insert_pos(s, a, i)].addr >= a,
    decreases s.len() - i,
{
    if i < s.len() && s[i].addr < a {
        lemma_insert_pos(s, a, i + 1);
    }
}

/// Splitting a hole around a fitted block keeps the list well formed, and
/// the holes then cover exactly what they covered before but the block.
pub proof fn lemma_split_holes(s: Seq<Hole>, i: int, l: NodeLayout)
    requires
        holes_wf(s),
        0 <= i < s.len(),
        l.wf(),
        fit_spec(s[i], l) is Some,
    ensures
        ({
            let (b, start, a) = fit_spec(s[i], l).unwrap();
            let t = split_holes(s, i, b, a);
            &&& holes_wf(t)
            &&& start as int % l.align as int == 0
            &&& s[i].addr <= start && start + l.size <= hole_end(s[i])
            &&& forall|x: int| covers(t, x) <==> (covers(s, x) && !(start <= x < start + l.size))
        }),
{
    let (b, start, a) = fit_spec(s[i], l).unwrap();
    let h = s[i];
    lemma_align_facts(h.addr as int, l.align as int);
    let t = split_holes(s, i, b, a);
    let end = start + l.size;
    if let Some(bb) = b {
        assert(bb.addr % NODE_ALIGN == 0);
    }
    if let Some(aa) = a {
        assert(aa.addr == end);
        assert(start as int % NODE_ALIGN as int == 0) by {
            lemma_mod_of_multiple(start as int, l.align as int, NODE_ALIGN as int);
        }
        assert(aa.addr % NODE_ALIGN == 0) by {
            vstd::arithmetic::div_mod::lemma_add_mod_noop(start as int, l.size as int, NODE_ALIGN as int);
        }
    }
    // every hole of t is a hole of s or a part of s[i]
    assert forall|x: int| covers(t, x) <==> (covers(s, x) && !(start <= x < end)) by {
        if covers(t, x) {
            let j = choose|j: int| 0 <= j < t.len() && (#[trigger] t[j]).addr <= x < hole_end(t[j]);
            match (b, a) {
                (Some(bb), Some(aa)) => {
                    if j < i { assert(s[j] == t[j]); assert(hole_end(s[j]) < s[i].addr); }
                    else if j == i { assert(t[j] == bb); assert(s[i].addr <= x < hole_end(s[i])); }
                    else if j == i + 1 { assert(t[j] == aa); assert(s[i].addr <= x < hole_end(s[i])); }
                    else { assert(t[j] == s[j - 1]); assert(hole_end(s[i]) < s[j - 1].addr); }
                },
                (Some(bb), None) => {
                    if j != i { assert(t[j] == s[j]); if j < i { assert(hole_end(s[j]) < s[i].addr); } else { assert(hole_end(s[i]) < s[j].addr); } }
                    else { assert(s[i].addr <= x < hole_end(s[i])); }
                },
                (None, Some(aa)) => {
                    if j != i { assert(t[j] == s[j]); if j < i { assert(hole_end(s[j]) < s[i].addr); } else { assert(hole_end(s[i]) < s[j].addr); } }
                    else { assert(s[i].addr <= x < hole_end(s[i])); }
                },
                (None, None) => {
                    if j < i { assert(t[j] == s[j]); assert(hole_end(s[j]) < s[i].addr); }
                    else { assert(t[j] == s[j + 1]); assert(hole_end(s[i]) < s[j + 1].addr); }
                },
            }
        }
        if covers(s, x) && !(start <= x < end) {
            let j = choose|j: int| 0 <= j < s.len() && (#[trigger] s[j]).addr <= x < hole_end(s[j]);
            match (b, a) {
                (Some(bb), Some(aa)) => {
                    if j < i { assert(t[j] == s[j]); }
                    else if j == i { if x < start { assert(t[i] == bb); } else { assert(t[i + 1] == aa); } }
                    else { assert(t[j + 1] == s[j]); }
                },
                (Some(bb), None) => {
                    assert(t[j].addr <= x < hole_end(t[j]));
                },
                (None, Some(aa)) => {
                    assert(t[j].addr <= x < hole_end(t[j]));
                },
                (None, None) => {
                    if j < i { assert(t[j] == s[j]); }
                    else { assert(t[j - 1] == s[j]); }
                },
            }
        }
    }
    assert forall|p: int, q: int| 0 <= p < q < t.len() implies hole_end(#[trigger] t[p]) < (#[trigger] t[q]).addr by {
        match (b, a) {
            (Some(bb), Some(aa)) => {
                if q < i { } else if q == i { } else if q == i + 1 {
                    if p < i { assert(hole_end(s[p]) < s[i].addr); }
                } else {
                    if p < i { assert(hole_end(s[p]) < s[i].addr); assert(hole_end(s[i]) < s[q - 1].addr); }
                    else if p == i || p == i + 1 { assert(hole_end(s[i]) < s[q - 1].addr); }
                }
            },
            (Some(bb), None) => {
                if p == i { assert(hole_end(s[i]) < s[q].addr); }
            },
            (None, Some(aa)) => {
                if q == i { assert(hole_end(s[p]) < s[i].addr); }
            },
            (None, None) => {
                if p < i && q >= i { assert(hole_end(s[p]) < s[q + 1].addr); }
                else if p >= i { assert(hole_end(s[p + 1]) < s[q + 1].addr); }
            },
        }
    }
}

/// Putting back a hole that overlaps none of the list keeps the list well
/// formed, and the holes then cover what they covered before and the hole.
pub proof fn lemma_push_holes(s: Seq<Hole>, h: Hole)
    requires
        holes_wf(s),
        hole_wf(h),
        disjoint_from(s, h),
    ensures
        ({
            let t = push_holes(s, insert_pos(s, h.addr as int, 0), h);
            &&& holes_wf(t)
            &&& forall|x: int| covers(t, x) <==> (covers(s, x) || (h.addr <= x < hole_end(h)))
        }),
{
    let k = insert_pos(s, h.addr as int, 0);
    lemma_insert_pos(s, h.addr as int, 0);
    let t = push_holes(s, k, h);
    let next = k < s.len() && s[k].addr == hole_end(h);
    let prev = k > 0 && hole_end(s[k - 1]) == h.addr;
    if k < s.len() {
        assert(hole_end(h) <= s[k].addr || hole_end(s[k]) <= h.addr);
    }
    if k > 0 {
        assert(hole_end(h) <= s[k - 1].addr || hole_end(s[k - 1]) <= h.addr);
        assert(s[k - 1].addr < h.addr);
    }
    assert forall|j: int| 0 <= j < k implies hole_end(#[trigger] s[j]) <= h.addr by {
        assert(s[j].addr < h.addr);
    }
    assert forall|j: int| k <= j < s.len() implies hole_end(h) <= (#[trigger] s[j]).addr by {
        if j > k { assert(hole_end(s[k]) < s[j].addr); }
    }
    if prev && next {
        lemma_push_both(s, h, k);
        assert(forall|x: int| covers(t, x) ==> (covers(s, x) || (h.addr <= x < hole_end(h))));
    } else if prev {
        lemma_push_prev(s, h, k);
        assert(forall|x: int| covers(t, x) ==> (covers(s, x) || (h.addr <= x < hole_end(h))));
    } else if next {
        lemma_push_next(s, h, k);
        assert(forall|x: int| covers(t, x) ==> (covers(s, x) || (h.addr <= x < hole_end(h))));
    } else {
        lemma_push_apart(s, h, k);
        assert(forall|x: int| covers(t, x) ==> (covers(s, x) || (h.addr <= x < hole_end(h))));
    }
    assert(forall|x: int| covers(t, x) ==> (covers(s, x) || (h.addr <= x < hole_end(h))));
    assert(forall|x: int| covers(t, x) <== (covers(s, x) || (h.addr <= x < hole_end(h))));
}

#[verifier::spinoff_prover]
#[verifier::rlimit(60)]
proof fn lemma_push_both(s: Seq<Hole>, h: Hole, k: int)
    requires
        holes_wf(s),
        hole_wf(h),
        0 <= k <= s.len(),
        forall|j: int| 0 <= j < k ==> hole_end(#[trigger] s[j]) <= h.addr,
        forall|j: int| k <= j < s.len() ==> hole_end(h) <= (#[trigger] s[j]).addr,
        (k < s.len() && s[k].addr == hole_end(h)) && (k > 0 && hole_end(s[k - 1]) == h.addr),
    ensures
        holes_wf(push_holes(s, k, h)),
        forall|x: int| covers(push_holes(s, k, h), x) <==> (covers(s, x) || (h.addr <= x < hole_end(h))),
{
    let t = push_holes(s, k, h);
        if k + 1 < s.len() { assert(hole_end(s[k]) < s[k + 1].addr); }
        assert forall|x: int| covers(t, x) <==> (covers(s, x) || (h.addr <= x < hole_end(h))) by {
            if covers(t, x) {
                let j = choose|j: int| 0 <= j < t.len() && (#[trigger] t[j]).addr <= x < hole_end(t[j]);
                if j < k - 1 { assert(t[j] == s[j]); }
                else if j == k - 1 {
                    if x >= hole_end(h) { assert(s[k].addr <= x < hole_end(s[k])); }
                    else if x < h.addr { assert(s[k - 1].addr <= x < hole_end(s[k - 1])); }
                }
                else { assert(t[j] == s[j + 1]); }
            }
            if covers(s, x) {
                let j = choose|j: int| 0 <= j < s.len() && (#[trigger] s[j]).addr <= x < hole_end(s[j]);
                if j < k - 1 { assert(t[j] == s[j]); }
                else if j == k - 1 || j == k { assert(t[k - 1].addr <= x < hole_end(t[k - 1])); }
                else { assert(t[j - 1] == s[j]); }
            }
            if h.addr <= x < hole_end(h) { assert(t[k - 1].addr <= x < hole_end(t[k - 1])); }
        }
        assert forall|p: int, q: int| 0 <= p < q < t.len() implies hole_end(#[trigger] t[p]) < (#[trigger] t[q]).addr by {
            if q == k - 1 { assert(hole_end(s[p]) < s[k - 1].addr); }
            else if p == k - 1 { assert(hole_end(s[k]) < s[q + 1].addr); }
            else if p < k - 1 && q > k - 1 { assert(hole_end(s[p]) < s[q + 1].addr); }
            else if p > k - 1 { assert(hole_end(s[p + 1]) < s[q + 1].addr); }
        }
}

#[verifier::spinoff_prover]
#[verifier::rlimit(60)]
proof fn lemma_push_prev(s: Seq<Hole>, h: Hole, k: int)
    requires
        holes_wf(s),
        hole_wf(h),
        0 <= k <= s.len(),
        forall|j: int| 0 <= j < k ==> hole_end(#[trigger] s[j]) <= h.addr,
        forall|j: int| k <= j < s.len() ==> hole_end(h) <= (#[trigger] s[j]).addr,
        !(k < s.len() && s[k].addr == hole_end(h)) && (k > 0 && hole_end(s[k - 1]) == h.addr),
    ensures
        holes_wf(push_holes(s, k, h)),
        forall|x: int| covers(push_holes(s, k, h), x) <==> (covers(s, x) || (h.addr <= x < hole_end(h))),
{
    let t = push_holes(s, k, h);
        assert forall|x: int| covers(t, x) <==> (covers(s, x) || (h.addr <= x < hole_end(h))) by {
            if covers(t, x) {
                let j = choose|j: int| 0 <= j < t.len() && (#[trigger] t[j]).addr <= x < hole_end(t[j]);
                if j != k - 1 { assert(t[j] == s[j]); }
                else if x < h.addr { assert(s[k - 1].addr <= x < hole_end(s[k - 1])); }
            }
            if covers(s, x) {
                let j = choose|j: int| 0 <= j < s.len() && (#[trigger] s[j]).addr <= x < hole_end(s[j]);
                assert(t[j].addr <= x < hole_end(t[j]));
            }
            if h.addr <= x < hole_end(h) { assert(t[k - 1].addr <= x < hole_end(t[k - 1])); }
        }
        assert forall|p: int, q: int| 0 <= p < q < t.len() implies hole_end(#[trigger] t[p]) < (#[trigger] t[q]).addr by {
            if q == k - 1 { assert(hole_end(s[p]) < s[k - 1].addr); }
            else if p == k - 1 { assert(hole_end(h) < s[q].addr || hole_end(h) <= s[q].addr); }
        }
}

#[verifier::spinoff_prover]
#[verifier::rlimit(60)]
proof fn lemma_push_next(s: Seq<Hole>, h: Hole, k: int)
    requires
        holes_wf(s),
        hole_wf(h),
        0 <= k <= s.len(),
        forall|j: int| 0 <= j < k ==> hole_end(#[trigger] s[j]) <= h.addr,
        forall|j: int| k <= j < s.len() ==> hole_end(h) <= (#[trigger] s[j]).addr,
        (k < s.len() && s[k].addr == hole_end(h)) && !(k > 0 && hole_end(s[k - 1]) == h.addr),
    ensures
        holes_wf(push_holes(s, k, h)),
        forall|x: int| covers(push_holes(s, k, h), x) <==> (covers(s, x) || (h.addr <= x < hole_end(h))),
{
    let t = push_holes(s, k, h);
        assert forall|x: int| covers(t, x) <==> (covers(s, x) || (h.addr <= x < hole_end(h))) by {
            if covers(t, x) {
                let j = choose|j: int| 0 <= j < t.len() && (#[trigger] t[j]).addr <= x < hole_end(t[j]);
                if j != k { assert(t[j] == s[j]); }
                else if x >= hole_end(h) { assert(s[k].addr <= x < hole_end(s[k])); }
            }
            if covers(s, x) {
                let j = choose|j: int| 0 <= j < s.len() && (#[trigger] s[j]).addr <= x < hole_end(s[j]);
                assert(t[j].addr <= x < hole_end(t[j]));
            }
            if h.addr <= x < hole_end(h) { assert(t[k].addr <= x < hole_end(t[k])); }
        }
        assert forall|p: int, q: int| 0 <= p < q < t.len() implies hole_end(#[trigger] t[p]) < (#[trigger] t[q]).addr by {
            if q == k { assert(hole_end(s[p]) <= h.addr); }
            else if p == k { assert(hole_end(s[k]) < s[q].addr); }
        }
}

#[verifier::spinoff_prover]
#[verifier::rlimit(60)]
proof fn lemma_push_apart(s: Seq<Hole>, h: Hole, k: int)
    requires
        holes_wf(s),
        hole_wf(h),
        0 <= k <= s.len(),
        forall|j: int| 0 <= j < k ==> hole_end(#[trigger] s[j]) <= h.addr,
        forall|j: int| k <= j < s.len() ==> hole_end(h) <= (#[trigger] s[j]).addr,
        !(k < s.len() && s[k].addr == hole_end(h)) && !(k > 0 && hole_end(s[k - 1]) == h.addr),
    ensures
        holes_wf(push_holes(s, k, h)),
        forall|x: int| covers(push_holes(s, k, h), x) <==> (covers(s, x) || (h.addr <= x < hole_end(h))),
{
    let t = push_holes(s, k, h);
        assert forall|x: int| covers(t, x) <==> (covers(s, x) || (h.addr <= x < hole_end(h))) by {
            if covers(t, x) {
                let j = choose|j: int| 0 <= j < t.len() && (#[trigger] t[j]).addr <= x < hole_end(t[j]);
                if j < k { assert(t[j] == s[j]); }
                else if j > k { assert(t[j] == s[j - 1]); }
            }
            if covers(s, x) {
                let j = choose|j: int| 0 <= j < s.len() && (#[trigger] s[j]).addr <= x < hole_end(s[j]);
                if j < k { assert(t[j] == s[j]); } else { assert(t[j + 1] == s[j]); }
            }
            if h.addr <= x < hole_end(h) { assert(t[k] == h); }
        }
        assert forall|p: int, q: int| 0 <= p < q < t.len() implies hole_end(#[trigger] t[p]) < (#[trigger] t[q]).addr by {
            if q == k { assert(hole_end(s[p]) <= h.addr); assert(hole_end(s[p]) != h.addr || p != k - 1); if p < k - 1 { assert(hole_end(s[p]) < s[k - 1].addr); } }
            else if p == k { assert(hole_end(h) <= s[q - 1].addr); }
            else if p < k && q > k { assert(hole_end(s[p]) < s[q - 1].addr); }
            else if p > k { }
        }
}

/// First-fit allocator over an address-sorted list of holes.
pub struct LinkedListAllocator {
    holes: Vec<Hole>,
}

impl LinkedListAllocator {
    /// The free holes, in address order.
    pub closed spec fn holes(&self) -> Seq<Hole> {
        self.holes@
    }

    pub open spec fn wf(&self) -> bool {
        holes_wf(self.holes())
    }

    /// An allocator with no memory.
    pub fn new() -> (r: LinkedListAllocator)
        ensures
            r.wf(),
            r.holes() == Seq::<Hole>::empty(),
    {
        LinkedListAllocator { holes: Vec::new() }
    }

    /// Number of holes.
    pub fn hole_count(&self) -> (r: usize)
        ensures
            r == self.holes().len(),
    {
        self.holes.len()
    }

    /// The hole at position `i` in address order.
    pub fn hole(&self, i: usize) -> (r: Hole)
        requires
            i < self.holes().len(),
        ensures
            r == self.holes()[i as int],
    {
        self.holes[i]
    }

    /// Give the allocator the memory `[heap_start, heap_start + heap_size)`.
    /// May be called again with ranges that overlap none given before.
    pub fn init(&mut self, heap_start: u64, heap_size: u64)
        requires
            old(self).wf(),
            hole_wf(Hole { addr: heap_start, size: heap_size }),
            disjoint_from(old(self).holes(), Hole { addr: heap_start, size: heap_size }),
        ensures
            final(self).wf(),
            forall|x: int|
                covers(final(self).holes(), x) <==> (covers(old(self).holes(), x) || (heap_start <= x
                    < heap_start + heap_size)),
    {
        self.push(Hole::new(heap_start, heap_size));
    }

    /// Put a hole back in the list, merging it with the holes it touches.
    fn push(&mut self, hole: Hole)
        requires
            old(self).wf(),
            hole_wf(hole),
            disjoint_from(old(self).holes(), hole),
        ensures
            final(self).wf(),
            final(self).holes() == push_holes(old(self).holes(), insert_pos(old(self).holes(), hole.addr as int, 0), hole),
            forall|x: int|
                covers(final(self).holes(), x) <==> (covers(old(self).holes(), x) || (hole.addr <= x
                    < hole_end(hole))),
    {
        proof {
            lemma_push_holes(self.holes@, hole);
            lemma_insert_pos(self.holes@, hole.addr as int, 0);
        }
        let ghost s = self.holes@;
        let mut k: usize = 0;
        while k < self.holes.len() && self.holes[k].addr < hole.addr
            invariant
                self.holes@ == s,
                s == old(self).holes@,
                0 <= k <= s.len(),
                insert_pos(s, hole.addr as int, k as int) == insert_pos(s, hole.addr as int, 0),
            decreases s.len() - k,
        {
            k = k + 1;
        }
        assert(k as int == insert_pos(s, hole.addr as int, 0));
        proof {
            if k < s.len() {
                assert(hole_end(hole) <= s[k as int].addr || hole_end(s[k as int]) <= hole.addr);
            }
            if k > 0 {
                assert(s[k - 1].addr < hole.addr);
                assert(hole_end(hole) <= s[k - 1].addr || hole_end(s[k - 1]) <= hole.addr);
            }
        }
        let mut merged = hole;
        let next = k < self.holes.len() && self.holes[k].addr == hole.addr + hole.size;
        if next {
            let n = self.holes.remove(k);
            merged = Hole::new(hole.addr, hole.size + n.size);
        }
        let prev = k > 0 && self.holes[k - 1].addr + self.holes[k - 1].size == hole.addr;
        if prev {
            let p = self.holes[k - 1];
            self.holes.set(k - 1, Hole::new(p.addr, p.size + merged.size));
        } else {
            self.holes.insert(k, merged);
        }
        assert(self.holes@ =~= push_holes(s, k as int, hole));
    }

    /// Allocate a block of `layout` from the first hole it fits in, splitting
    /// off what is left before and after it; `None` where it fits in none.
    pub fn allocate(&mut self, layout: NodeLayout) -> (r: Option<u64>)
        requires
            old(self).wf(),
            layout.wf(),
        ensures
            final(self).wf(),
            match first_fit(old(self).holes(), layout, 0) {
                None => r is None && final(self).holes() == old(self).holes(),
                Some(i) => {
                    let (b, start, a) = fit_spec(old(self).holes()[i], layout).unwrap();
                    &&& r == Some(start)
                    &&& final(self).holes() == split_holes(old(self).holes(), i, b, a)
                },
            },
            r is None <==> forall|i: int|
                0 <= i < old(self).holes().len() ==> fit_spec(#[trigger] old(self).holes()[i], layout) is None,
            r matches Some(start) ==> start as int % layout.align as int == 0 && forall|x: int|
                covers(final(self).holes(), x) <==> (covers(old(self).holes(), x) && !(start <= x
                    < start + layout.size)),
            r matches Some(start) ==> forall|x: int|
                start <= x < start + layout.size ==> covers(old(self).holes(), x),
    {
        let ghost s = self.holes@;
        proof {
            lemma_first_fit(s, layout, 0);
        }
        let mut i: usize = 0;
        while i < self.holes.len()
            invariant
                self.holes@ == s,
                s == old(self).holes@,
                holes_wf(s),
                layout.wf(),
                0 <= i <= s.len(),
                first_fit(s, layout, i as int) == first_fit(s, layout, 0),
                forall|k: int| 0 <= k < i ==> fit_spec(#[trigger] s[k], layout) is None,
            decreases s.len() - i,
        {
            let h = self.holes[i];
            assert(hole_wf(s[i as int]));
            match h.fit_alloc(layout) {
                Some((before, start, after)) => {
                    proof {
                        assert(fit_spec(s[i as int], layout) is Some);
                        assert(first_fit(s, layout, i as int) == Some(i as int));
                        lemma_split_holes(s, i as int, layout);
                        let (b, st, a) = fit_spec(s[i as int], layout).unwrap();
                        assert forall|x: int| st <= x < st + layout.size implies covers(s, x) by {
                            assert(s[i as int].addr <= x < hole_end(s[i as int]));
                        }
                    }
                    match (before, after) {
                        (Some(b), Some(a)) => {
                            self.holes.set(i, b);
                            self.holes.insert(i + 1, a);
                        },
                        (Some(b), None) => {
                            self.holes.set(i, b);
                        },
                        (None, Some(a)) => {
                            self.holes.set(i, a);
                        },
                        (None, None) => {
                            self.holes.remove(i);
                        },
                    }
                    assert(self.holes@ =~= split_holes(s, i as int, before, after));
                    return Some(start);
                },
                None => {},
            }
            i = i + 1;
        }
        None
    }

    /// Give back the block of `layout` at `addr`.
    pub fn deallocate(&mut self, addr: u64, layout: NodeLayout)
        requires
            old(self).wf(),
            layout.wf(),
            hole_wf(Hole { addr, size: layout.size }),
            disjoint_from(old(self).holes(), Hole { addr, size: layout.size }),
        ensures
            final(self).wf(),
            final(self).holes() == push_holes(
                old(self).holes(),
                insert_pos(old(self).holes(), addr as int, 0),
                Hole { addr, size: layout.size },
            ),
            forall|x: int|
                covers(final(self).holes(), x) <==> (covers(old(self).holes(), x) || (addr <= x < addr
                    + layout.size)),
    {
        let hole = Hole::from_alloc(addr, layout);
        self.push(hole);
    }
}

/// Allocating a layout and freeing the block again leaves the heap covering
/// exactly the addresses it covered before: the same holes up to merging.
pub proof fn lemma_alloc_free_round_trip(s: Seq<Hole>, l: NodeLayout, i: int)
    requires
        holes_wf(s),
        l.wf(),
        first_fit(s, l, 0) == Some(i),
    ensures
        ({
            let (b, start, a) = fit_spec(s[i], l).unwrap();
            let t = split_holes(s, i, b, a);
            let h = Hole { addr: start, size: l.size };
            &&& holes_wf(t)
            &&& hole_wf(h)
            &&& disjoint_from(t, h)
            &&& forall|x: int| covers(push_holes(t, insert_pos(t, start as int, 0), h), x) <==> covers(s, x)
        }),
{
    lemma_first_fit(s, l, 0);
    lemma_split_holes(s, i, l);
    let (b, start, a) = fit_spec(s[i], l).unwrap();
    let t = split_holes(s, i, b, a);
    let h = Hole { addr: start, size: l.size };
    lemma_align_facts(start as int, l.align as int);
    assert(start as int % NODE_ALIGN as int == 0) by {
        lemma_mod_of_multiple(start as int, l.align as int, NODE_ALIGN as int);
    }
    assert(hole_wf(s[i]));
    assert forall|j: int| 0 <= j < t.len() implies hole_end(h) <= (#[trigger] t[j]).addr || hole_end(t[j]) <= h.addr by {
        if !(hole_end(h) <= t[j].addr || hole_end(t[j]) <= h.addr) {
            let x = if t[j].addr >= h.addr { t[j].addr as int } else { h.addr as int };
            assert(t[j].addr <= x < hole_end(t[j]));
            assert(covers(t, x));
        }
    }
    lemma_push_holes(t, h);
    assert forall|x: int| covers(s, x) implies covers(push_holes(t, insert_pos(t, start as int, 0), h), x) by {
        if start <= x < start + l.size {
        } else {
            assert(covers(t, x));
        }
    }
}

proof fn lemma_remove_hole(s: Seq<Hole>, k: int)
    requires
        holes_wf(s),
        0 <= k < s.len(),
    ensures
        holes_wf(s.remove(k)),
        forall|y: int| covers(s.remove(k), y) <==> (covers(s, y) && !(s[k].addr <= y < hole_end(s[k]))),
{
    let t = s.remove(k);
    assert forall|y: int| covers(t, y) <==> (covers(s, y) && !(s[k].addr <= y < hole_end(s[k]))) by {
        if covers(t, y) {
            let j = choose|j: int| 0 <= j < t.len() && (#[trigger] t[j]).addr <= y < hole_end(t[j]);
            if j < k { assert(t[j] == s[j]); assert(hole_end(s[j]) < s[k].addr); }
            else { assert(t[j] == s[j + 1]); assert(hole_end(s[k]) < s[j + 1].addr); }
        }
        if covers(s, y) && !(s[k].addr <= y < hole_end(s[k])) {
            let j = choose|j: int| 0 <= j < s.len() && (#[trigger] s[j]).addr <= y < hole_end(s[j]);
            if j < k { assert(t[j] == s[j]); } else { assert(t[j - 1] == s[j]); }
        }
    }
    assert forall|p: int, q: int| 0 <= p < q < t.len() implies hole_end(#[trigger] t[p]) < (#[trigger] t[q]).addr by {
        if q < k { } else if p < k { assert(hole_end(s[p]) < s[q + 1].addr); } else { assert(hole_end(s[p + 1]) < s[q + 1].addr); }
    }
}

proof fn lemma_replace_front(s: Seq<Hole>, k: int, x: int)
    requires
        holes_wf(s),
        0 <= k < s.len(),
        k > 0 ==> hole_end(s[k - 1]) < x,
        x + NODE_SIZE <= hole_end(s[k]),
        x % NODE_ALIGN as int == 0,
        x >= 0,
    ensures
        ({
            let t = s.update(k, Hole { addr: x as u64, size: (hole_end(s[k]) - x) as u64 });
            &&& holes_wf(t)
            &&& forall|y: int| covers(t, y) <==> ((covers(s, y) && !(s[k].addr <= y < hole_end(s[k])))
                || (x <= y < hole_end(s[k])))
        }),
{
    let h = Hole { addr: x as u64, size: (hole_end(s[k]) - x) as u64 };
    let t = s.update(k, h);
    assert forall|y: int| covers(t, y) <==> ((covers(s, y) && !(s[k].addr <= y < hole_end(s[k]))) || (x
        <= y < hole_end(s[k]))) by {
        if covers(t, y) {
            let j = choose|j: int| 0 <= j < t.len() && (#[trigger] t[j]).addr <= y < hole_end(t[j]);
            if j < k { assert(t[j] == s[j]); assert(hole_end(s[j]) < s[k].addr); }
            else if j > k { assert(t[j] == s[j]); assert(hole_end(s[k]) < s[j].addr); }
        }
        if covers(s, y) && !(s[k].addr <= y < hole_end(s[k])) {
            let j = choose|j: int| 0 <= j < s.len() && (#[trigger] s[j]).addr <= y < hole_end(s[j]);
            assert(t[j] == s[j]);
        }
        if x <= y < hole_end(s[k]) { assert(t[k] == h); }
    }
    assert forall|p: int, q: int| 0 <= p < q < t.len() implies hole_end(#[trigger] t[p]) < (#[trigger] t[q]).addr by {
        if q == k && p < k { assert(hole_end(s[p]) <= hole_end(s[k - 1])); if p < k - 1 { assert(hole_end(s[p]) < s[k - 1].addr); } }
    }
}

/// The block `[addr, addr + size)` can be resized to `l` where it stands:
/// the padded size is unchanged; or the hole right after it, taken
/// together with it, holds `l` with a remainder that is empty or holds a
/// node; or the block alone holds `l` (a shrink) with such a remainder,
/// which becomes a hole.
pub open spec fn resizable_in_place(s: Seq<Hole>, addr: u64, size: u64, l: NodeLayout) -> bool {
    let k = insert_pos(s, addr as int, 0);
    let blk = Hole { addr, size };
    ||| l.size == size
    ||| (k < s.len() && s[k].addr == hole_end(blk) && fit_spec(
        Hole { addr, size: (size + s[k].size) as u64 },
        l,
    ) is Some)
    ||| fit_spec(blk, l) is Some
}

impl LinkedListAllocator {
    /// Resize the block of `layout` at `addr` to `new_size` bytes: in place
    /// where `resizable_in_place` holds, else by allocating a fresh block and
    /// freeing the old one (its bytes are then copied by the caller). `None`
    /// where neither is possible; the heap is then unchanged.
    pub fn reallocate(&mut self, addr: u64, layout: NodeLayout, new_size: u64) -> (r: Option<u64>)
        requires
            old(self).wf(),
            layout.wf(),
            addr as int % layout.align as int == 0,
            hole_wf(Hole { addr, size: layout.size }),
            disjoint_from(old(self).holes(), Hole { addr, size: layout.size }),
            (Layout { size: new_size, align: layout.align }).valid(),
            new_size <= LAYOUT_MAX - (NODE_ALIGN - 1),
        ensures
            final(self).wf(),
            ({
                let nl = node_layout_spec(Layout { size: new_size, align: layout.align });
                let moved = !resizable_in_place(old(self).holes(), addr, layout.size, nl);
                &&& !moved ==> r == Some(addr) && forall|x: int|
                    covers(final(self).holes(), x) <==> ((covers(old(self).holes(), x) || (addr <= x
                        < addr + layout.size)) && !(addr <= x < addr + nl.size))
                &&& moved ==> (r is None <==> first_fit(old(self).holes(), nl, 0) is None)
                &&& moved && r is None ==> final(self).holes() == old(self).holes()
                &&& moved && r is Some ==> {
                    let p = r.unwrap();
                    &&& p as int % layout.align as int == 0
                    &&& forall|x: int| p <= x < p + nl.size ==> covers(old(self).holes(), x)
                    &&& forall|x: int|
                        covers(final(self).holes(), x) <==> ((covers(old(self).holes(), x) && !(p <= x
                            < p + nl.size)) || (addr <= x < addr + layout.size))
                }
            }),
    {
        let ghost s = self.holes@;
        let blk = Hole::from_alloc(addr, layout);
        let new_layout = NodeLayout::from(Layout { size: new_size, align: layout.align });
        proof {
            lemma_insert_pos(s, addr as int, 0);
            lemma_align_facts(addr as int, layout.align as int);
        }
        let k0 = self.find_position(addr);
        if new_layout.size == layout.size {
            assert forall|x: int| covers(s, x) implies !(addr <= x < addr + layout.size) by {
                {
                    let j = choose|j: int| 0 <= j < s.len() && (#[trigger] s[j]).addr <= x < hole_end(s[j]);
                    assert(hole_end(blk) <= s[j].addr || hole_end(s[j]) <= blk.addr);
                }
            }
            return Some(addr);
        }
        if k0 < self.holes.len() {
            let next = self.holes[k0];
            if next.addr == addr + layout.size {
                let grown = Hole::new(addr, layout.size + next.size);
                assert(hole_wf(s[k0 as int]));
                match grown.fit_alloc(new_layout) {
                    Some((_before, _start, after)) => {
                        proof {
                            if k0 > 0 {
                                assert(s[k0 - 1].addr < addr);
                                assert(hole_end(blk) <= s[k0 - 1].addr || hole_end(s[k0 - 1]) <= blk.addr);
                            }
                            lemma_align_facts(addr as int, new_layout.align as int);
                        }
                        match after {
                            Some(a) => {
                                proof {
                                    lemma_replace_front(s, k0 as int, a.addr as int);
                                }
                                self.holes.set(k0, a);
                            },
                            None => {
                                proof {
                                    lemma_remove_hole(s, k0 as int);
                                }
                                self.holes.remove(k0);
                            },
                        }
                        return Some(addr);
                    },
                    None => {},
                }
            }
        }
        match blk.fit_alloc(new_layout) {
            Some((_before, _start, after)) => {
                proof {
                    lemma_align_facts(addr as int, new_layout.align as int);
                }
                assert forall|x: int| covers(s, x) implies !(addr <= x < addr + layout.size) by {
                    let j = choose|j: int| 0 <= j < s.len() && (#[trigger] s[j]).addr <= x < hole_end(s[j]);
                    assert(hole_end(blk) <= s[j].addr || hole_end(s[j]) <= blk.addr);
                }
                if let Some(a) = after {
                    assert(a.addr % NODE_ALIGN == 0) by {
                        vstd::arithmetic::div_mod::lemma_add_mod_noop(addr as int, new_layout.size as int, NODE_ALIGN as int);
                    }
                    assert forall|i: int| 0 <= i < s.len() implies hole_end(a) <= (#[trigger] s[i]).addr
                        || hole_end(s[i]) <= a.addr by {
                        assert(hole_end(blk) <= s[i].addr || hole_end(s[i]) <= blk.addr);
                    }
                    self.push(a);
                }
                return Some(addr);
            },
            None => {},
        }
        let fresh = self.allocate(new_layout);
        if let Some(p) = fresh {
            assert forall|i: int| 0 <= i < self.holes@.len() implies hole_end(blk) <= (
            #[trigger] self.holes@[i]).addr || hole_end(self.holes@[i]) <= blk.addr by {
                if !(hole_end(blk) <= self.holes@[i].addr || hole_end(self.holes@[i]) <= blk.addr) {
                    let x = if self.holes@[i].addr >= blk.addr { self.holes@[i].addr as int } else { blk.addr as int };
                    assert(self.holes@[i].addr <= x < hole_end(self.holes@[i]));
                    assert(covers(self.holes@, x));
                    let j = choose|j: int| 0 <= j < s.len() && (#[trigger] s[j]).addr <= x < hole_end(s[j]);
                    assert(hole_end(blk) <= s[j].addr || hole_end(s[j]) <= blk.addr);
                }
            }
            self.deallocate(addr, layout);
        }
        fresh
    }

    /// Index of the first hole that starts at or after `addr`.
    fn find_position(&self, addr: u64) -> (k: usize)
        ensures
            k == insert_pos(self.holes(), addr as int, 0),
    {
        let mut k: usize = 0;
        while k < self.holes.len() && self.holes[k].addr < addr
            invariant
                0 <= k <= self.holes@.len(),
                insert_pos(self.holes@, addr as int, k as int) == insert_pos(self.holes@, addr as int, 0),
            decreases self.holes@.len() - k,
        {
            k = k + 1;
        }
        k
    }
}

impl LinkedListAllocator {
    /// Allocate `layout`, with 0 standing for a failed allocation.
    pub fn allocate_layout(&mut self, layout: Layout) -> (r: u64)
        requires
            old(self).wf(),
            layout.valid(),
            layout.size <= LAYOUT_MAX - (NODE_ALIGN - 1),
        ensures
            final(self).wf(),
            match first_fit(old(self).holes(), node_layout_spec(layout), 0) {
                None => r == 0 && final(self).holes() == old(self).holes(),
                Some(i) => {
                    let (b, start, a) = fit_spec(old(self).holes()[i], node_layout_spec(layout)).unwrap();
                    &&& r == start
                    &&& r as int % layout.align as int == 0
                    &&& final(self).holes() == split_holes(old(self).holes(), i, b, a)
                },
            },
    {
        let nl = NodeLayout::from(layout);
        proof {
            lemma_first_fit(old(self).holes(), nl, 0);
        }
        match self.allocate(nl) {
            Some(p) => {
                assert(p as int % layout.align as int == 0) by {
                    if layout.align < NODE_ALIGN {
                        lemma_pow2_divides_eight(layout.align);
                        lemma_mod_of_multiple(p as int, NODE_ALIGN as int, layout.align as int);
                    }
                }
                p
            },
            None => 0,
        }
    }

    /// Free the block of `layout` at `ptr`.
    pub fn deallocate_layout(&mut self, ptr: u64, layout: Layout)
        requires
            old(self).wf(),
            layout.valid(),
            layout.size <= LAYOUT_MAX - (NODE_ALIGN - 1),
            hole_wf(Hole { addr: ptr, size: node_layout_spec(layout).size }),
            disjoint_from(old(self).holes(), Hole { addr: ptr, size: node_layout_spec(layout).size }),
        ensures
            final(self).wf(),
            forall|x: int|
                covers(final(self).holes(), x) <==> (covers(old(self).holes(), x) || (ptr <= x < ptr
                    + node_layout_spec(layout).size)),
    {
        let nl = NodeLayout::from(layout);
        self.deallocate(ptr, nl);
    }
}

proof fn lemma_pow2_divides_eight(a: u64)
    requires
        0 < a < 8,
        a & (a - 1) as u64 == 0,
    ensures
        8int % (a as int) == 0,
{
    let b = (a - 1) as u64;
    assert(0 < a && a < 8 && b == a - 1 && a & b == 0 ==> (a == 1 || a == 2 || a == 4)) by (bit_vector);
}

/// Total size of the holes: the free bytes of the heap.
pub open spec fn free_total(s: Seq<Hole>) -> int
    decreases s.len(),
{
    if s.len() == 0 {
        0
    } else {
        s[0].size + free_total(s.drop_first())
    }
}

proof fn lemma_total_update(s: Seq<Hole>, i: int, h: Hole)
    requires
        0 <= i < s.len(),
    ensures
        free_total(s.update(i, h)) == free_total(s) - s[i].size + h.size,
    decreases s.len(),
{
    if i > 0 {
        assert(s.update(i, h).drop_first() =~= s.drop_first().update(i - 1, h));
        lemma_total_update(s.drop_first(), i - 1, h);
    } else {
        assert(s.update(i, h).drop_first() =~= s.drop_first());
    }
}

proof fn lemma_total_insert(s: Seq<Hole>, i: int, h: Hole)
    requires
        0 <= i <= s.len(),
    ensures
        free_total(s.insert(i, h)) == free_total(s) + h.size,
    decreases s.len(),
{
    if i > 0 {
        assert(s.insert(i, h).drop_first() =~= s.drop_first().insert(i - 1, h));
        lemma_total_insert(s.drop_first(), i - 1, h);
    } else {
        assert(s.insert(i, h).drop_first() =~= s);
    }
}

proof fn lemma_total_remove(s: Seq<Hole>, i: int)
    requires
        0 <= i < s.len(),
    ensures
        free_total(s.remove(i)) == free_total(s) - s[i].size,
    decreases s.len(),
{
    if i > 0 {
        assert(s.remove(i).drop_first() =~= s.drop_first().remove(i - 1));
        lemma_total_remove(s.drop_first(), i - 1);
    } else {
        assert(s.remove(i) =~= s.drop_first());
    }
}

/// Allocating a layout takes exactly its size from the free bytes, and
/// freeing the block gives exactly that back: any interleaving of
/// allocations and their frees keeps the total free size.
pub proof fn lemma_free_total_round_trip(s: Seq<Hole>, l: NodeLayout, i: int)
    requires
        holes_wf(s),
        l.wf(),
        first_fit(s, l, 0) == Some(i),
    ensures
        ({
            let (b, start, a) = fit_spec(s[i], l).unwrap();
            let t = split_holes(s, i, b, a);
            let h = Hole { addr: start, size: l.size };
            &&& free_total(t) == free_total(s) - l.size
            &&& free_total(push_holes(t, insert_pos(t, start as int, 0), h)) == free_total(s)
        }),
{
    lemma_first_fit(s, l, 0);
    lemma_alloc_free_round_trip(s, l, i);
    let (b, start, a) = fit_spec(s[i], l).unwrap();
    let t = split_holes(s, i, b, a);
    let h = Hole { addr: start, size: l.size };
    lemma_align_facts(s[i].addr as int, l.align as int);
    match (b, a) {
        (Some(bb), Some(aa)) => {
            lemma_total_update(s, i, bb);
            lemma_total_insert(s.update(i, bb), i + 1, aa);
        },
        (Some(bb), None) => {
            lemma_total_update(s, i, bb);
        },
        (None, Some(aa)) => {
            lemma_total_update(s, i, aa);
        },
        (None, None) => {
            lemma_total_remove(s, i);
        },
    }
    lemma_push_total(t, h);
}

/// Putting a hole back adds exactly its size to the free bytes.
pub proof fn lemma_push_total(s: Seq<Hole>, h: Hole)
    requires
        holes_wf(s),
        hole_wf(h),
        disjoint_from(s, h),
    ensures
        free_total(push_holes(s, insert_pos(s, h.addr as int, 0), h)) == free_total(s) + h.size,
{
    let k = insert_pos(s, h.addr as int, 0);
    lemma_insert_pos(s, h.addr as int, 0);
    let next = k < s.len() && s[k].addr == hole_end(h);
    let prev = k > 0 && hole_end(s[k - 1]) == h.addr;
    let merged = if next { Hole { addr: h.addr, size: (h.size + s[k].size) as u64 } } else { h };
    let rest = if next { s.remove(k) } else { s };
    if next {
        assert(hole_wf(s[k]));
        lemma_total_remove(s, k);
    }
    if prev {
        assert(hole_wf(s[k - 1]));
        if next {
            assert(rest[k - 1] == s[k - 1]);
        }
        lemma_total_update(rest, k - 1, Hole { addr: s[k - 1].addr, size: (s[k - 1].size + merged.size) as u64 });
    } else {
        lemma_total_insert(rest, k, merged);
    }
}

} // verus!
