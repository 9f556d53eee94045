use angstros::elf::{relocate, segment_flags, Elf, RelocationWrite, SegmentHeader};
use angstros::loader::{load_image, load_segment, plan_segment, LoadError, SegmentPlan};
use angstros::frame::{MemoryDescriptor, RegionFrameAllocator, UserFrameAllocator, MEMORY_CONVENTIONAL};
use angstros::paging::{
    MapError, Mapper, PageTableModel, FLAG_NO_EXECUTE, FLAG_PRESENT, FLAG_USER_ACCESSIBLE,
    FLAG_WRITABLE,
};
use angstros::setup::{heap_plan, init_heap, spawn_user, trampoline_plan, user_stack_end, Init};
use angstros::syscall::UserState;

fn put(b: &mut Vec<u8>, at: usize, v: u64, n: usize) {
    for i in 0..n {
        b[at + i] = (v >> (8 * i)) as u8;
    }
}

/// A 64-bit ELF image with the given type, entry point and program headers
/// (type, flags, offset, vaddr, filesz, memsz), padded to `len` bytes.
fn elf_image(ty: u16, entry: u64, phdrs: &[(u32, u32, u64, u64, u64, u64)], len: usize) -> Vec<u8> {
    let mut b = vec![0u8; len];
    b[..4].copy_from_slice(&[0x7f, b'E', b'L', b'F']);
    b[4] = 2;
    b[5] = 1;
    b[6] = 1;
    put(&mut b, 16, ty as u64, 2);
    put(&mut b, 18, 0x3e, 2);
    put(&mut b, 20, 1, 4);
    put(&mut b, 24, entry, 8);
    put(&mut b, 32, 64, 8);
    put(&mut b, 52, 64, 2);
    put(&mut b, 54, 56, 2);
    put(&mut b, 56, phdrs.len() as u64, 2);
    put(&mut b, 58, 64, 2);
    for (i, p) in phdrs.iter().enumerate() {
        let at = 64 + 56 * i;
        put(&mut b, at, p.0 as u64, 4);
        put(&mut b, at + 4, p.1 as u64, 4);
        put(&mut b, at + 8, p.2, 8);
        put(&mut b, at + 16, p.3, 8);
        put(&mut b, at + 24, p.3, 8);
        put(&mut b, at + 32, p.4, 8);
        put(&mut b, at + 40, p.5, 8);
        put(&mut b, at + 48, 0x1000, 8);
    }
    b
}

fn frames(start: u64, pages: u64) -> RegionFrameAllocator {
    RegionFrameAllocator::new(vec![MemoryDescriptor {
        ty: MEMORY_CONVENTIONAL,
        phys_start: start,
        virt_start: 0,
        page_count: pages,
        attribute: 0,
    }])
}

#[test]
fn elf_bss_segment_plan() {
    let phys = 0x40_0000;
    let flags = segment_flags(2, true);
    let plan = plan_segment(0x10_0000, 8192, phys, 4096, flags).unwrap();
    assert_eq!(
        plan,
        SegmentPlan {
            flags,
            file_page: 0x10_0000,
            file_frame: phys,
            file_count: 0,
            fresh_page: 0x10_0000,
            fresh_count: 2,
            copy_src: phys,
            copy_offset: 0,
            copy_len: 4096,
        }
    );
}

#[test]
fn elf_bss_segment_fresh_frame() {
    let phys = 0x40_0000;
    let plan = plan_segment(0x10_0000, 8192, phys, 4096, segment_flags(2, true)).unwrap();
    let mut table = PageTableModel::new();
    let mut all = frames(0x80_0000, 8);
    let fills = load_segment(&mut table, &mut all, plan).unwrap();
    assert_eq!(fills.len(), 2);
    assert_eq!((fills[0].copy_src, fills[0].copy_offset, fills[0].copy_len), (phys, 0, 4096));
    assert_eq!(fills[1].copy_len, 0);
    let (frame, _) = table.entry(0x10_1000).unwrap();
    assert_eq!(frame, fills[1].frame);
    assert!(frame >= 0x80_0000 && frame < 0x80_8000);
    assert_ne!(frame & !0xfff, phys);
}

#[test]
fn elf_partial_page_copies_tail() {
    let phys = 0x40_0000 + 0x234;
    let plan = plan_segment(0x20_0234, 0x3000, phys, 0x1100, 0).unwrap();
    assert_eq!(plan.file_count, 1);
    assert_eq!(plan.file_frame, 0x40_0000);
    assert_eq!(plan.fresh_page, 0x20_1000);
    assert_eq!(plan.fresh_count, 3);
    assert_eq!(plan.copy_src, 0x40_1000);
    assert_eq!(plan.copy_offset, 0);
    assert_eq!(plan.copy_len, 0x334);
}

#[test]
fn elf_plan_out_of_range() {
    assert!(plan_segment(u64::MAX - 0x10, 0x100, 0, 0, 0).is_err());
}

#[test]
fn segment_flags_follow_elf_flags() {
    assert_eq!(segment_flags(1, false), FLAG_PRESENT);
    assert_eq!(segment_flags(2, true), FLAG_PRESENT | FLAG_USER_ACCESSIBLE | FLAG_WRITABLE | FLAG_NO_EXECUTE);
    assert_eq!(segment_flags(0, false), FLAG_PRESENT | FLAG_NO_EXECUTE);
}

#[test]
fn elf_info_reads_headers() {
    let image = elf_image(3, 0x1234, &[(1, 5, 0x1000, 0x0, 0x10, 0x20), (4, 4, 0x200, 0x200, 8, 8)], 0x2000);
    let elf = Elf::new(image);
    let info = elf.info(true).unwrap();
    assert_eq!(info.entry, 0x1234);
    assert_eq!(info.elf_type, 3);
    assert_eq!(info.base(), 0x10_0000);
    assert_eq!(info.entry_point(), Some(0x10_1234));
    assert_eq!(
        info.segments,
        vec![
            SegmentHeader { load: true, flags: 5, offset: 0x1000, virtual_addr: 0, file_size: 0x10, mem_size: 0x20 },
            SegmentHeader { load: false, flags: 4, offset: 0x200, virtual_addr: 0x200, file_size: 8, mem_size: 8 },
        ]
    );
    let kernel = Elf::new(elf_image(3, 0x10, &[], 0x100)).info(false).unwrap();
    assert_eq!(kernel.entry_point(), Some(0x20_0010));
    let exec = Elf::new(elf_image(2, 0x10, &[], 0x100)).info(false).unwrap();
    assert_eq!(exec.entry_point(), Some(0x10));
}

#[test]
fn elf_info_rejects_bad_images() {
    assert!(Elf::new(vec![0u8; 100]).info(true).is_err());
    let mut short = elf_image(2, 0, &[(1, 4, 0, 0, 0, 0)], 0x100);
    put(&mut short, 56, 40, 2);
    assert!(Elf::new(short).info(true).is_err());
    let mut class32 = elf_image(2, 0, &[], 0x100);
    class32[4] = 1;
    assert!(Elf::new(class32).info(true).is_err());
}

#[test]
fn elf_setup_and_remove_round_trip() {
    let image = elf_image(2, 0x40_0000, &[(1, 6, 0x1000, 0x40_0000, 0x1000, 0x3000)], 0x2000);
    let info = Elf::new(image).info(true).unwrap();
    let mut table = PageTableModel::new();
    let mut all = UserFrameAllocator::new(frames(0x100_0000, 16));
    let loads = info.setup_mappings(&mut table, &mut all, 0x800_0000, false).unwrap();
    assert_eq!(loads.len(), 1);
    let fills = &loads[0].as_ref().unwrap().fills;
    assert_eq!(fills.len(), 3);
    assert_eq!(table.len(), 3);
    assert_eq!(fills[0].copy_src, 0x800_1000);
    assert_eq!(fills[0].copy_len, 0x1000);
    info.remove_mappings(&mut table, &mut all).unwrap();
    assert_eq!(table.len(), 0);
    let mut back = 0;
    while all.range_count() > 0 {
        all.allocate().unwrap();
        back += 1;
    }
    assert_eq!(back, 3);
}

#[test]
fn elf_setup_maps_file_pages_to_image() {
    let image = elf_image(2, 0, &[(1, 5, 0x1000, 0x40_0000, 0x2000, 0x2000)], 0x3000);
    let info = Elf::new(image).info(false).unwrap();
    let mut table = PageTableModel::new();
    let mut all = frames(0x100_0000, 16);
    let loads = info.setup_mappings(&mut table, &mut all, 0x800_0000, false).unwrap();
    let load = loads[0].as_ref().unwrap();
    assert!(load.fills.is_empty());
    assert_eq!(load.plan.file_count, 2);
    assert_eq!(table.entry(0x40_0000), Some((0x800_1000, FLAG_PRESENT)));
    assert_eq!(table.entry(0x40_1000), Some((0x800_2000, FLAG_PRESENT)));
}

#[test]
fn elf_setup_translates_through_active_table() {
    let image = elf_image(2, 0, &[(1, 4, 0x1000, 0x40_0000, 0x1000, 0x1000)], 0x2000);
    let info = Elf::new(image).info(true).unwrap();
    let mut table = PageTableModel::new();
    let mut all = frames(0x100_0000, 16);
    assert_eq!(
        info.setup_mappings(&mut table, &mut all, 0x800_0000, true).err(),
        Some(LoadError::ImageNotMapped)
    );
    assert_eq!(table.len(), 0);
    table.map_to(0x800_1000, 0x5_0000, FLAG_PRESENT).unwrap();
    info.setup_mappings(&mut table, &mut all, 0x800_0000, true).unwrap();
    assert_eq!(table.entry(0x40_0000).unwrap().0, 0x5_0000);
}

#[test]
fn page_table_model_rules() {
    let mut t = PageTableModel::new();
    assert_eq!(t.map_to(0x1000, 0x2000, FLAG_PRESENT), Ok(()));
    assert_eq!(t.map_to(0x1000, 0x3000, FLAG_PRESENT), Err(MapError::PageAlreadyMapped));
    assert_eq!(t.translate_addr(0x1234), Some(0x2234));
    assert_eq!(t.translate_addr(0x2234), None);
    assert_eq!(t.unmap(0x1000), Ok(0x2000));
    assert_eq!(t.unmap(0x1000), Err(MapError::PageNotMapped));
}

#[test]
fn heap_is_mapped_writable() {
    let mut t = PageTableModel::new();
    let mut all = frames(0x100_0000, 2048);
    init_heap(&mut t, &mut all).unwrap();
    assert_eq!(t.len(), 1024);
    let (frame, flags) = t.entry(0x1_0000_0000 + 0x3f_f000).unwrap();
    assert_eq!(flags, FLAG_PRESENT | FLAG_WRITABLE);
    assert_eq!(frame % 4096, 0);
    assert_eq!(heap_plan().fresh_count, 1024);
    assert_eq!(user_stack_end(), 0x3000);
    let mut none = frames(0x100_0000, 10);
    let mut t2 = PageTableModel::new();
    assert!(init_heap(&mut t2, &mut none).is_err());
}

/// Add a section-header table at `shoff` with a null section and one RELA
/// section at `data` holding `entries` (offset, type, addend).
fn with_relocations(mut b: Vec<u8>, shoff: usize, data: usize, entries: &[(u64, u32, u64)]) -> Vec<u8> {
    put(&mut b, 40, shoff as u64, 8);
    put(&mut b, 58, 64, 2);
    put(&mut b, 60, 2, 2);
    let h = shoff + 64;
    put(&mut b, h + 4, 4, 4);
    put(&mut b, h + 24, data as u64, 8);
    put(&mut b, h + 32, 24 * entries.len() as u64, 8);
    put(&mut b, h + 56, 24, 8);
    for (i, e) in entries.iter().enumerate() {
        let at = data + 24 * i;
        if at + 24 > b.len() {
            break;
        }
        put(&mut b, at, e.0, 8);
        put(&mut b, at + 8, e.1 as u64, 8);
        put(&mut b, at + 16, e.2, 8);
    }
    b
}

#[test]
fn relocate_relative_entries() {
    let w = relocate(&vec![(0x10, 8, 0x200), (0x18, 8, 0)], 0x10_0000).unwrap();
    assert_eq!(
        w,
        vec![
            RelocationWrite { target: 0x10_0010, value: 0x10_0200 },
            RelocationWrite { target: 0x10_0018, value: 0x10_0000 },
        ]
    );
    assert!(relocate(&vec![(0x10, 8, 0), (0x18, 1, 0)], 0x10_0000).is_err());
    assert!(relocate(&vec![(u64::MAX, 8, 0)], 1).is_err());
    assert_eq!(relocate(&vec![], 5).unwrap(), vec![]);
}

#[test]
fn elf_relocations_from_image() {
    let image = with_relocations(elf_image(3, 0, &[], 0x400), 0x100, 0x200, &[(0x3000, 8, 0x1234)]);
    let elf = Elf::new(image);
    let info = elf.info(true).unwrap();
    let writes = elf.relocations(info.base()).unwrap();
    assert_eq!(writes, vec![RelocationWrite { target: 0x10_3000, value: 0x10_1234 }]);
    let bad = with_relocations(elf_image(3, 0, &[], 0x400), 0x100, 0x200, &[(0x3000, 7, 0)]);
    assert!(Elf::new(bad).relocations(0x10_0000).is_err());
    let truncated = with_relocations(elf_image(3, 0, &[], 0x400), 0x100, 0x3f0, &[(0, 8, 0)]);
    assert!(Elf::new(truncated).relocations(0x10_0000).is_err());
}

#[test]
fn spawn_user_maps_image_and_stack() {
    let image = elf_image(2, 0x40_0010, &[(1, 5, 0x1000, 0x40_0000, 0x1000, 0x1000)], 0x2000);
    let info = Elf::new(image).info(true).unwrap();
    let mut init = Init { page_table: PageTableModel::new(), frame_allocator: frames(0x100_0000, 8) };
    init.page_table.map_to(0x800_1000, 0x6_0000, FLAG_PRESENT).unwrap();
    let (thread, loads, fills) = spawn_user(&mut init, &info, 0x800_0000).unwrap();
    assert_eq!(loads.len(), 1);
    assert!(loads[0].as_ref().unwrap().fills.is_empty());
    assert_eq!(thread.state, UserState::Loaded);
    assert_eq!((thread.rip, thread.rsp), (0x40_0010, 0x3000));
    assert_eq!(fills.len(), 1);
    assert_eq!(init.page_table.entry(0x40_0000).unwrap().0, 0x6_0000);
    let (stack_frame, stack_flags) = init.page_table.entry(0x2000).unwrap();
    assert_eq!(stack_frame, fills[0].frame);
    assert_eq!(stack_flags, FLAG_PRESENT | FLAG_WRITABLE | FLAG_USER_ACCESSIBLE);
}

#[test]
fn elf_setup_skips_nothing_to_map() {
    let image = elf_image(2, 0, &[(4, 4, 0x200, 0x200, 8, 8)], 0x400);
    let info = Elf::new(image).info(false).unwrap();
    let mut table = PageTableModel::new();
    let mut all = frames(0x100_0000, 4);
    let loads = info.setup_mappings(&mut table, &mut all, 0x800_0000, false).unwrap();
    assert_eq!(loads.len(), 1);
    assert!(loads[0].is_none());
    assert_eq!(table.len(), 0);
}

#[test]
fn elf_setup_refuses_out_of_range_before_mapping() {
    let image = elf_image(2, 0, &[(1, 4, 0x1000, 0x40_0000, 0x1000, 0x1000), (1, 4, 0x1000, u64::MAX - 0x10, 0x10, 0x10)], 0x2000);
    let info = Elf::new(image).info(false).unwrap();
    let mut table = PageTableModel::new();
    let mut all = frames(0x100_0000, 4);
    assert_eq!(
        info.setup_mappings(&mut table, &mut all, 0x800_0000, false).err(),
        Some(LoadError::OutsideAddressSpace)
    );
    assert_eq!(table.len(), 0);
}

#[test]
fn load_segment_errors() {
    let mut table = PageTableModel::new();
    let mut all = frames(0x100_0000, 1);
    let empty = SegmentPlan { flags: 1, file_page: 0x1000, file_frame: 0, file_count: 0, fresh_page: 0x1000, fresh_count: 0, copy_src: 0, copy_offset: 0, copy_len: 0 };
    assert_eq!(load_segment(&mut table, &mut all, empty).unwrap().len(), 0);
    let unaligned = SegmentPlan { fresh_page: 0x1001, fresh_count: 1, ..empty };
    assert_eq!(load_segment(&mut table, &mut all, unaligned).err(), Some(LoadError::OutsideAddressSpace));
    let two = SegmentPlan { fresh_count: 2, ..empty };
    assert_eq!(load_segment(&mut table, &mut all, two).err(), Some(LoadError::NoFrame));
    assert_eq!(table.len(), 1);
}

#[test]
fn user_segment_at_offset_zero_is_mapped() {
    let image = elf_image(2, 0x10_0000, &[(1, 6, 0, 0x10_0000, 0x1000, 0x2000)], 0x1000);
    let info = Elf::new(image).info(true).unwrap();
    let mut table = PageTableModel::new();
    table.map_to(0x800_0000, 0x9_0000, FLAG_PRESENT).unwrap();
    let mut all = frames(0x100_0000, 4);
    let loads = info.setup_mappings(&mut table, &mut all, 0x800_0000, true).unwrap();
    let load = loads[0].as_ref().unwrap();
    assert_eq!(load.fills.len(), 2);
    assert_eq!(load.fills[0].copy_src, 0x9_0000);
    assert_eq!(load.fills[0].copy_len, 0x1000);
    let (fresh, _) = table.entry(0x10_1000).unwrap();
    assert_eq!(fresh, load.fills[1].frame);
    assert!(fresh >= 0x100_0000);
    assert!(table.entry(0x10_0000).is_some());
}

#[test]
fn load_image_relocates_and_maps() {
    let image = with_relocations(
        elf_image(3, 0, &[(1, 6, 0x1000, 0x0, 0x20, 0x20)], 0x1400),
        0x100,
        0x200,
        &[(0x8, 8, 0x10)],
    );
    let elf = Elf::new(image);
    let info = elf.info(true).unwrap();
    let mut table = PageTableModel::new();
    let mut all = frames(0x100_0000, 4);
    let (loads, writes) = load_image(&elf, &info, &mut table, &mut all, 0x800_0000, false).unwrap();
    assert!(loads[0].is_some());
    assert_eq!(table.entry(0x10_0000), Some((0x800_1000, FLAG_PRESENT | FLAG_USER_ACCESSIBLE | FLAG_WRITABLE | FLAG_NO_EXECUTE)));
    assert_eq!(writes, vec![RelocationWrite { target: 0x10_0008, value: 0x10_0010 }]);
    let bad = with_relocations(
        elf_image(3, 0, &[(1, 6, 0x1000, 0x0, 0x20, 0x20)], 0x1400),
        0x100,
        0x200,
        &[(0x8, 1, 0x10)],
    );
    let bad = Elf::new(bad);
    let info = bad.info(true).unwrap();
    let mut table = PageTableModel::new();
    assert_eq!(
        load_image(&bad, &info, &mut table, &mut all, 0x800_0000, false).err(),
        Some(LoadError::Relocation)
    );
    assert_eq!(table.len(), 0);
}

#[test]
fn trampoline_identity_mapped() {
    let plan = trampoline_plan(0x12_3456);
    assert_eq!((plan.file_page, plan.file_frame, plan.file_count), (0x12_3000, 0x12_3000, 2));
    let mut table = PageTableModel::new();
    let mut all = frames(0x100_0000, 1);
    load_segment(&mut table, &mut all, plan).unwrap();
    assert_eq!(table.entry(0x12_4000), Some((0x12_4000, FLAG_PRESENT)));
}
