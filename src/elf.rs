//! ELF images: reading their headers and relocations through `xmas_elf`,
//! and what follows from them (load address, entry point, segment flags,
//! relocation writes).

use vstd::prelude::*;
use crate::paging::{FLAG_NO_EXECUTE, FLAG_PRESENT, FLAG_USER_ACCESSIBLE, FLAG_WRITABLE};

verus! {

/// ELF file type of a position-independent executable (`ET_DYN`).
pub const ELF_TYPE_SHARED_OBJECT: u16 = 3;

/// Load address of a position-independent userspace image.
pub const PIE_BASE_USER: u64 = 0x10_0000;

/// Load address of a position-independent kernel image.
pub const PIE_BASE_KERNEL: u64 = 0x20_0000;

/// Segment flag: executable.
pub const SEGMENT_EXECUTE: u32 = 1;

/// Segment flag: writable.
pub const SEGMENT_WRITE: u32 = 2;

/// Highest virtual address plus one that a segment may reach.
pub const VIRT_LIMIT: u64 = 0xffff_ffff_ffff_f000;

/// A program header, as read from the image.
#[derive(Copy, Clone, Debug, PartialEq, Eq, Structural)]
pub struct SegmentHeader {
    /// The segment is of type `LOAD`.
    pub load: bool,
    pub flags: u32,
    pub offset: u64,
    pub virtual_addr: u64,
    pub file_size: u64,
    pub mem_size: u64,
}

impl SegmentHeader {
    pub open spec fn as_tuple(self) -> (bool, u32, u64, u64, u64, u64) {
        (self.load, self.flags, self.offset, self.virtual_addr, self.file_size, self.mem_size)
    }
}

/// What `xmas_elf` reads from an ELF image, where it reads it: the entry
/// point, the file type and each program header as `SegmentHeader::as_tuple`.
pub uninterp spec fn elf_contents(bytes: Seq<u8>) -> Option<(u64, u16, Seq<(bool, u32, u64, u64, u64, u64)>)>;

/// Relies on `xmas_elf::ElfFile::new` and its program-header iterator: `Ok`
/// exactly for an image whose header, and each program header's type, parse.
/// The iterator slices the program-header table unchecked and reads each
/// entry as a 56-byte, 8-byte aligned record, so the table must lie within
/// the image (`program_headers_readable`). The image is a whole `Vec`: its
/// buffer is either empty (then the header is too short and nothing is
/// read) or a block of the global allocator, which std's `System` allocator
/// on x86_64 takes from `malloc`, 16-byte aligned, so the 8-byte aligned
/// reads hold.
#[verifier::external_body]
fn read_elf(bytes: &Vec<u8>) -> (r: Result<(u64, u16, Vec<SegmentHeader>), &'static str>)
    requires
        program_headers_readable(bytes@),
    ensures
        r is Ok <==> elf_contents(bytes@) is Some,
        r matches Ok((entry, ty, segs)) ==> elf_contents(bytes@) == Some(
            (entry, ty, segs@.map_values(|h: SegmentHeader| h.as_tuple())),
        ),
{
    let file = xmas_elf::ElfFile::new(bytes)?;
    let mut segs = Vec::new();
    for h in file.program_iter() {
        let load = matches!(h.get_type()?, xmas_elf::program::Type::Load);
        let (offset, virtual_addr) = (h.offset(), h.virtual_addr());
        let (file_size, mem_size) = (h.file_size(), h.mem_size());
        segs.push(SegmentHeader { load, flags: h.flags().0, offset, virtual_addr, file_size, mem_size });
    }
    Ok((file.header.pt2.entry_point(), file.header.pt2.type_().0, segs))
}

/// Little-endian 16-bit integer at `i`.
pub open spec fn le_u16(b: Seq<u8>, i: int) -> int {
    b[i] + 256 * b[i + 1]
}

/// Little-endian 64-bit integer at `i`.
pub open spec fn le_u64(b: Seq<u8>, i: int) -> int {
    le_u16(b, i) + 0x1_0000 * le_u16(b, i + 2) + 0x1_0000_0000 * le_u16(b, i + 4) + 0x1_0000_0000_0000
        * le_u16(b, i + 6)
}

/// ELF class byte of a 32-bit image.
pub const ELF_CLASS_32: u8 = 1;

/// ELF class byte of a 64-bit image.
pub const ELF_CLASS_64: u8 = 2;

/// Size of a 64-bit ELF header.
pub const ELF_HEADER_SIZE: u64 = 64;

/// Size of a 64-bit program header.
pub const PROGRAM_HEADER_SIZE: u64 = 56;

/// The image is not a 32-bit one, and where it is a 64-bit one with a
/// program-header table, that table lies within it with aligned entries of
/// at least the program-header size.
pub open spec fn program_headers_readable(b: Seq<u8>) -> bool {
    b.len() < 5 || (b[4] != ELF_CLASS_32 && (b[4] != ELF_CLASS_64 || b.len() < ELF_HEADER_SIZE || {
        let phoff = le_u64(b, 32);
        let entsize = le_u16(b, 54);
        let count = le_u16(b, 56);
        count == 0 || phoff == 0 || entsize == 0 || (entsize >= PROGRAM_HEADER_SIZE && phoff % 8 == 0
            && entsize % 8 == 0 && phoff + count * entsize <= b.len())
    }))
}

fn read_u16(b: &Vec<u8>, i: usize) -> (r: u64)
    requires
        i + 2 <= b.len(),
    ensures
        r == le_u16(b@, i as int),
{
    let lo = b[i] as u64;
    let hi = b[i + 1] as u64;
    lo + 256 * hi
}

fn read_u64(b: &Vec<u8>, i: usize) -> (r: u64)
    requires
        i + 8 <= b.len(),
    ensures
        r == le_u64(b@, i as int),
{
    let a = read_u16(b, i);
    let c = read_u16(b, i + 2);
    let d = read_u16(b, i + 4);
    let e = read_u16(b, i + 6);
    assert(e * 0x1_0000_0000_0000 + d * 0x1_0000_0000 + c * 0x1_0000 + a <= u64::MAX) by (nonlinear_arith)
        requires
            a < 0x1_0000,
            c < 0x1_0000,
            d < 0x1_0000,
            e < 0x1_0000,
    ;
    a + 0x1_0000 * c + 0x1_0000_0000 * d + 0x1_0000_0000_0000 * e
}

/// Whether `program_headers_readable` holds of the image.
pub fn check_program_headers(b: &Vec<u8>) -> (r: bool)
    ensures
        r == program_headers_readable(b@),
{
    if b.len() < 5 {
        return true;
    }
    if b[4] == ELF_CLASS_32 {
        return false;
    }
    if b[4] != ELF_CLASS_64 || (b.len() as u64) < ELF_HEADER_SIZE {
        return true;
    }
    let phoff = read_u64(b, 32);
    let entsize = read_u16(b, 54);
    let count = read_u16(b, 56);
    if count == 0 || phoff == 0 || entsize == 0 {
        return true;
    }
    assert(count * entsize < 0x1_0000_0000) by (nonlinear_arith)
        requires
            count < 0x1_0000,
            entsize < 0x1_0000,
    ;
    let table = count * entsize;
    entsize >= PROGRAM_HEADER_SIZE && phoff % 8 == 0 && entsize % 8 == 0 && phoff <= b.len() as u64
        && table <= b.len() as u64 - phoff
}

/// An ELF image held in memory.
pub struct Elf {
    bytes: Vec<u8>,
}

impl Elf {
    /// The image with the given bytes.
    pub fn new(bytes: Vec<u8>) -> (r: Elf)
        ensures
            r.bytes() == bytes@,
    {
        Elf { bytes }
    }

    pub closed spec fn bytes(&self) -> Seq<u8> {
        self.bytes@
    }

    /// Parse the image; `user` says whether it runs in userspace, which
    /// decides the load address of a position-independent image. A 32-bit
    /// image, or a 64-bit one whose program-header table does not lie
    /// within it, is refused.
    pub fn info(&self, user: bool) -> (r: Result<ElfInfo, &'static str>)
        ensures
            r is Ok <==> program_headers_readable(self.bytes()) && elf_contents(self.bytes()) is Some,
            r matches Ok(i) ==> {
                let (entry, ty, segs) = elf_contents(self.bytes()).unwrap();
                &&& i.entry == entry
                &&& i.elf_type == ty
                &&& i.segments@.map_values(|h: SegmentHeader| h.as_tuple()) == segs
                &&& i.user == user
            },
    {
        if !check_program_headers(&self.bytes) {
            return Err("Unsupported or truncated program-header table");
        }
        let (entry, elf_type, segments) = read_elf(&self.bytes)?;
        Ok(ElfInfo { entry, elf_type, segments, user })
    }
}

/// A parsed ELF image.
pub struct ElfInfo {
    /// Entry point as written in the header.
    pub entry: u64,
    /// File type as written in the header.
    pub elf_type: u16,
    pub segments: Vec<SegmentHeader>,
    /// The image runs in userspace.
    pub user: bool,
}

/// Load address of an image of type `elf_type`.
pub open spec fn load_base(elf_type: u16, user: bool) -> u64 {
    if elf_type == ELF_TYPE_SHARED_OBJECT {
        if user {
            PIE_BASE_USER
        } else {
            PIE_BASE_KERNEL
        }
    } else {
        0
    }
}

/// Page-table flags of a segment with ELF flags `flags`.
pub open spec fn segment_flags_spec(flags: u32, user: bool) -> u64 {
    FLAG_PRESENT | (if user { FLAG_USER_ACCESSIBLE } else { 0 }) | (if flags & SEGMENT_WRITE
        != 0 {
        FLAG_WRITABLE
    } else {
        0
    }) | (if flags & SEGMENT_EXECUTE == 0 {
        FLAG_NO_EXECUTE
    } else {
        0
    })
}

/// Page-table flags of a segment: present; user-accessible for a userspace
/// image; writable where the segment is; never executable where it is not.
pub fn segment_flags(flags: u32, user: bool) -> (r: u64)
    ensures
        r == segment_flags_spec(flags, user),
{
    let user_bit = if user {
        FLAG_USER_ACCESSIBLE
    } else {
        0
    };
    let write_bit = if flags & SEGMENT_WRITE != 0 {
        FLAG_WRITABLE
    } else {
        0
    };
    let no_execute_bit = if flags & SEGMENT_EXECUTE == 0 {
        FLAG_NO_EXECUTE
    } else {
        0
    };
    FLAG_PRESENT | user_bit | write_bit | no_execute_bit
}

impl ElfInfo {
    /// Load address of the image: a fixed base for a position-independent
    /// image, zero otherwise.
    pub fn base(&self) -> (r: u64)
        ensures
            r == load_base(self.elf_type, self.user),
    {
        if self.elf_type == ELF_TYPE_SHARED_OBJECT {
            if self.user {
                PIE_BASE_USER
            } else {
                PIE_BASE_KERNEL
            }
        } else {
            0
        }
    }

    /// The entry point where the image is loaded; `None` where it would pass
    /// the end of the address space.
    pub fn entry_point(&self) -> (r: Option<u64>)
        ensures
            r is Some <==> self.entry + load_base(self.elf_type, self.user) <= u64::MAX,
            r matches Some(e) ==> e == self.entry + load_base(self.elf_type, self.user),
    {
        let base = self.base();
        if self.entry > u64::MAX - base {
            None
        } else {
            Some(self.entry + base)
        }
    }
}

/// Section type of a relocation table with addends (`SHT_RELA`).
pub const SECTION_RELA: u64 = 4;

/// Size of a 64-bit section header.
pub const SECTION_HEADER_SIZE: u64 = 64;

/// Size of a 64-bit relocation entry with addend.
pub const RELA_ENTRY_SIZE: u64 = 24;

/// Least section count that `xmas_elf` refuses to index.
pub const SECTION_INDEX_LIMIT: u64 = 0xff00;

/// Relocation type that adds the load address to the addend
/// (`R_X86_64_RELATIVE`).
pub const R_X86_64_RELATIVE: u32 = 8;

/// Little-endian 32-bit integer at `i`.
pub open spec fn le_u32(b: Seq<u8>, i: int) -> int {
    le_u16(b, i) + 0x1_0000 * le_u16(b, i + 2)
}

/// The section header at `h` is not a relocation table, or its entries lie
/// within the image, aligned and whole.
pub open spec fn rela_section_readable(b: Seq<u8>, h: int) -> bool {
    le_u32(b, h + 4) == SECTION_RELA ==> {
        let off = le_u64(b, h + 24);
        let size = le_u64(b, h + 32);
        off % 8 == 0 && size % RELA_ENTRY_SIZE as int == 0 && off + size <= b.len()
    }
}

/// For a 64-bit image: the section-header table lies within it with
/// aligned entries of at least the section-header size, and every
/// relocation table it names does too.
pub open spec fn sections_readable(b: Seq<u8>) -> bool {
    b.len() < ELF_HEADER_SIZE || b[4] != ELF_CLASS_64 || {
        let shoff = le_u64(b, 40);
        let entsize = le_u16(b, 58);
        let count = le_u16(b, 60);
        count == 0 || (count < SECTION_INDEX_LIMIT && entsize >= SECTION_HEADER_SIZE && entsize % 8
            == 0 && shoff % 8 == 0 && shoff + count * entsize <= b.len() && forall|i: int|
            0 <= i < count ==> #[trigger] rela_section_readable(b, shoff + i * entsize))
    }
}

/// The entries (offset, type, addend) of section `index` of an image, as
/// `xmas_elf` reads them where the section is a relocation table.
pub uninterp spec fn elf_rela_entries(bytes: Seq<u8>, index: int) -> Option<Seq<(u64, u32, u64)>>;

/// Start of section header `i` of a 64-bit image.
pub open spec fn section_header_at(b: Seq<u8>, i: int) -> int {
    le_u64(b, 40) + i * le_u16(b, 58)
}

/// The 64-bit image's section `index` exists and is a relocation table.
pub open spec fn is_rela_section(b: Seq<u8>, index: int) -> bool {
    &&& b.len() >= ELF_HEADER_SIZE
    &&& b[4] == ELF_CLASS_64
    &&& 0 <= index < le_u16(b, 60)
    &&& le_u32(b, section_header_at(b, index) + 4) == SECTION_RELA
}

/// Relies on `xmas_elf::ElfFile::section_header` and
/// `SectionHeader::get_data`: the entries of one relocation table. They
/// slice and read the section headers and the table unchecked, so those must
/// lie within the image (`sections_readable`); the image is a whole `Vec`,
/// 16-byte aligned as for `read_elf`.
#[verifier::external_body]
fn rela_entries(bytes: &Vec<u8>, index: u16) -> (r: Result<Vec<(u64, u32, u64)>, &'static str>)
    requires
        program_headers_readable(bytes@),
        sections_readable(bytes@),
        is_rela_section(bytes@, index as int),
    ensures
        r is Ok <==> elf_rela_entries(bytes@, index as int) is Some,
        r matches Ok(v) ==> elf_rela_entries(bytes@, index as int) == Some(v@),
{
    let file = xmas_elf::ElfFile::new(bytes)?;
    match file.section_header(index)?.get_data(&file)? {
        xmas_elf::sections::SectionData::Rela64(entries) => {
            Ok(entries.iter().map(|e| (e.get_offset(), e.get_type(), e.get_addend())).collect())
        },
        _ => Err("Not a relocation table"),
    }
}

/// The relocation entries of the image's first `n` sections: those of each
/// relocation table, in section order; other sections contribute none.
/// `None` where a relocation table cannot be read.
pub open spec fn relocation_entries(b: Seq<u8>, n: int) -> Option<Seq<(u64, u32, u64)>>
    decreases n,
{
    if n <= 0 {
        Some(Seq::empty())
    } else {
        match relocation_entries(b, n - 1) {
            None => None,
            Some(prev) => if le_u32(b, section_header_at(b, n - 1) + 4) == SECTION_RELA {
                match elf_rela_entries(b, n - 1) {
                    Some(e) => Some(prev + e),
                    None => None,
                }
            } else {
                Some(prev)
            },
        }
    }
}

proof fn lemma_relocation_entries_none(b: Seq<u8>, i: int, n: int)
    requires
        0 <= i <= n,
        relocation_entries(b, i) is None,
    ensures
        relocation_entries(b, n) is None,
    decreases n - i,
{
    if i < n {
        lemma_relocation_entries_none(b, i + 1, n);
    }
}

/// The relocation entries of the whole image, where it is a 64-bit one whose
/// tables can be read.
pub open spec fn image_relocations(b: Seq<u8>) -> Option<Seq<(u64, u32, u64)>> {
    if program_headers_readable(b) && sections_readable(b) && b.len() >= ELF_HEADER_SIZE && b[4]
        == ELF_CLASS_64 {
        relocation_entries(b, le_u16(b, 60))
    } else {
        None
    }
}

fn read_u32(b: &Vec<u8>, i: usize) -> (r: u64)
    requires
        i + 4 <= b.len(),
    ensures
        r == le_u32(b@, i as int),
{
    let lo = read_u16(b, i);
    let hi = read_u16(b, i + 2);
    lo + 0x1_0000 * hi
}

/// Whether `sections_readable` holds of the image.
pub fn check_sections(b: &Vec<u8>) -> (r: bool)
    ensures
        r == sections_readable(b@),
{
    if (b.len() as u64) < ELF_HEADER_SIZE || b[4] != ELF_CLASS_64 {
        return true;
    }
    let shoff = read_u64(b, 40);
    let entsize = read_u16(b, 58);
    let count = read_u16(b, 60);
    if count == 0 {
        return true;
    }
    assert(count * entsize < 0x1_0000_0000) by (nonlinear_arith)
        requires
            count < 0x1_0000,
            entsize < 0x1_0000,
    ;
    if !(count < SECTION_INDEX_LIMIT && entsize >= SECTION_HEADER_SIZE && entsize % 8 == 0 && shoff % 8
        == 0 && shoff <= b.len() as u64 && count * entsize <= b.len() as u64 - shoff) {
        return false;
    }
    let len: usize = b.len();
    let n = len as u64;
    let mut i: u64 = 0;
    while i < count
        invariant
            n == b@.len(),
            b@.len() <= usize::MAX,
            b@.len() >= ELF_HEADER_SIZE,
            b@[4] == ELF_CLASS_64,
            count < SECTION_INDEX_LIMIT,
            count > 0,
            entsize % 8 == 0,
            shoff % 8 == 0,
            0 <= i <= count,
            count < 0x1_0000,
            entsize < 0x1_0000,
            shoff + count * entsize <= b@.len(),
            entsize >= SECTION_HEADER_SIZE,
            shoff == le_u64(b@, 40),
            entsize == le_u16(b@, 58),
            count == le_u16(b@, 60),
            forall|j: int| 0 <= j < i ==> #[trigger] rela_section_readable(b@, shoff + j * entsize),
        decreases count - i,
    {
        assert(i * entsize + entsize <= count * entsize) by (nonlinear_arith)
            requires
                i + 1 <= count,
                entsize >= 0,
        ;
        assert(i * entsize <= count * entsize) by (nonlinear_arith)
            requires
                i <= count,
                entsize >= 0,
        ;
        let h = shoff + i * entsize;
        assert(h as int == shoff + i * entsize);
        assert(!rela_section_readable(b@, shoff + i * entsize) ==> !sections_readable(b@));
        if read_u32(b, (h + 4) as usize) == SECTION_RELA {
            let off = read_u64(b, (h + 24) as usize);
            let size = read_u64(b, (h + 32) as usize);
            if !(off % 8 == 0 && size % RELA_ENTRY_SIZE == 0 && off <= n && size <= n - off) {
                return false;
            }
        }
        assert(rela_section_readable(b@, shoff + i * entsize));
        i = i + 1;
    }
    true
}

/// A write that a relocation asks for: `value` at virtual address `target`.
#[derive(Copy, Clone, Debug, PartialEq, Eq, Structural)]
pub struct RelocationWrite {
    pub target: u64,
    pub value: u64,
}

/// `w` are the writes for `relocs` at load address `base`: entry `i` writes
/// `base + addend` at `base + offset`.
pub open spec fn relocation_writes(relocs: Seq<(u64, u32, u64)>, base: u64, w: Seq<RelocationWrite>) -> bool {
    &&& w.len() == relocs.len()
    &&& forall|i: int|
        0 <= i < w.len() ==> (#[trigger] w[i]) == (RelocationWrite {
            target: (base + relocs[i].0) as u64,
            value: (base + relocs[i].2) as u64,
        })
}

/// Every relocation is `R_X86_64_RELATIVE` and its target and value stay
/// within the address space at load address `base`.
pub open spec fn relocations_ok(relocs: Seq<(u64, u32, u64)>, base: u64) -> bool {
    forall|i: int|
        0 <= i < relocs.len() ==> (#[trigger] relocs[i]).1 == R_X86_64_RELATIVE && base + relocs[i].0
            <= u64::MAX && base + relocs[i].2 <= u64::MAX
}

/// The writes that apply `relocs` to an image loaded at `base`: each entry
/// writes `base + addend` at `base + offset`. `Err` where an entry is of
/// another type, or leaves the address space.
pub fn relocate(relocs: &Vec<(u64, u32, u64)>, base: u64) -> (r: Result<Vec<RelocationWrite>, &'static str>)
    ensures
        r is Ok <==> relocations_ok(relocs@, base),
        r matches Ok(w) ==> w@.len() == relocs@.len() && forall|i: int|
            0 <= i < w@.len() ==> (#[trigger] w@[i]) == (RelocationWrite {
                target: (base + relocs@[i].0) as u64,
                value: (base + relocs@[i].2) as u64,
            }),
{
    let mut writes: Vec<RelocationWrite> = Vec::new();
    let mut i: usize = 0;
    while i < relocs.len()
        invariant
            0 <= i <= relocs@.len(),
            writes@.len() == i,
            relocations_ok(relocs@.subrange(0, i as int), base),
            forall|j: int|
                0 <= j < i ==> (#[trigger] writes@[j]) == (RelocationWrite {
                    target: (base + relocs@[j].0) as u64,
                    value: (base + relocs@[j].2) as u64,
                }),
        decreases relocs@.len() - i,
    {
        let (offset, ty, addend) = relocs[i];
        if ty != R_X86_64_RELATIVE {
            assert(!relocations_ok(relocs@, base) && relocs@[i as int].1 != R_X86_64_RELATIVE);
            return Err("Unsupported relocation type");
        }
        if offset > u64::MAX - base || addend > u64::MAX - base {
            assert(!relocations_ok(relocs@, base) && relocs@[i as int].0 == offset);
            return Err("Relocation outside the address space");
        }
        writes.push(RelocationWrite { target: base + offset, value: base + addend });
        proof {
            assert forall|j: int| 0 <= j < i + 1 implies (#[trigger] relocs@.subrange(0, i + 1)[j]).1
                == R_X86_64_RELATIVE && base + relocs@.subrange(0, i + 1)[j].0 <= u64::MAX && base
                + relocs@.subrange(0, i + 1)[j].2 <= u64::MAX by {
                if j < i {
                    assert(relocs@.subrange(0, i + 1)[j] == relocs@.subrange(0, i as int)[j]);
                }
            }
        }
        i = i + 1;
    }
    assert(relocs@.subrange(0, i as int) =~= relocs@);
    Ok(writes)
}

impl Elf {
    /// The writes that relocate the image at `base`; `Err` where it is not a
    /// 64-bit image with readable tables, or where a relocation is not
    /// `R_X86_64_RELATIVE`.
    pub fn relocations(&self, base: u64) -> (r: Result<Vec<RelocationWrite>, &'static str>)
        ensures
            r is Ok <==> (image_relocations(self.bytes()) is Some && relocations_ok(
                image_relocations(self.bytes()).unwrap(),
                base,
            )),
            r matches Ok(w) ==> relocation_writes(image_relocations(self.bytes()).unwrap(), base, w@),
    {
        let b = &self.bytes;
        if !check_program_headers(b) || !check_sections(b) || (b.len() as u64) < ELF_HEADER_SIZE
            || b[4] != ELF_CLASS_64 {
            return Err("Unsupported or truncated section table");
        }
        let shoff = read_u64(b, 40);
        let entsize = read_u16(b, 58);
        let count = read_u16(b, 60);
        let len: usize = b.len();
        let mut relocs: Vec<(u64, u32, u64)> = Vec::new();
        let mut i: u64 = 0;
        while i < count
            invariant
                b@ == self.bytes@,
                len == b@.len(),
                program_headers_readable(b@),
                sections_readable(b@),
                b@.len() >= ELF_HEADER_SIZE,
                b@[4] == ELF_CLASS_64,
                shoff == le_u64(b@, 40),
                entsize == le_u16(b@, 58),
                count == le_u16(b@, 60),
                0 <= i <= count,
                relocation_entries(b@, i as int) == Some(relocs@),
            decreases count - i,
        {
            assert(count < SECTION_INDEX_LIMIT && entsize >= SECTION_HEADER_SIZE && shoff + count * entsize <= b@.len());
            assert(i * entsize + entsize <= count * entsize) by (nonlinear_arith)
                requires
                    i + 1 <= count,
                    entsize >= 0,
            ;
            assert(i * entsize <= count * entsize) by (nonlinear_arith)
                requires
                    i <= count,
                    entsize >= 0,
            ;
            let h = shoff + i * entsize;
            assert(h as int == section_header_at(b@, i as int));
            if read_u32(b, (h + 4) as usize) == SECTION_RELA {
                let mut entries = match rela_entries(b, i as u16) {
                    Ok(e) => e,
                    Err(e) => {
                        proof {
                            lemma_relocation_entries_none(b@, i + 1, count as int);
                        }
                        return Err(e);
                    },
                };
                relocs.append(&mut entries);
            }
            i = i + 1;
        }
        relocate(&relocs, base)
    }
}

} // verus!
