use memory::addr::{Page, PAGE_SIZE};
use memory::consts::{USER32_STACK_OFFSET, USER_STACK_OFFSET, USER_STACK_SIZE};
use memory::elf_image::image_info_of;
use memory::loader::{copy_plan, frames_demand, memory_attr_from, new_user_memory_set, stack_seed_words, try_new_user, validate_image, ImageInfo, SegmentInfo};
use memory::memory_set::{MemoryArea, MemoryAttr, MemorySet};
use memory::model::{ModelFrameAllocator, ModelInactiveTable};
use memory::paging::{EntryData, FrameAllocator};

type Space = MemorySet<ModelInactiveTable>;

const FRAME_BASE: usize = 0x10_0000;

fn allocator(n: usize) -> ModelFrameAllocator {
    ModelFrameAllocator::new_range(FRAME_BASE, n)
}

fn entry_for(set: &Space, page: usize) -> EntryData {
    set.page_table.slots[page].expect("page not mapped")
}

fn mapped_pages(set: &Space) -> Vec<usize> {
    let mut pages = Vec::new();
    for (p, slot) in set.page_table.slots.iter().enumerate() {
        if slot.is_some() {
            pages.push(p);
        }
    }
    pages
}

fn fresh_entry(target: usize) -> EntryData {
    EntryData {
        target,
        present: true,
        writable: true,
        user: false,
        execute: false,
        accessed: false,
        dirty: false,
        writable_shared: false,
        readonly_shared: false,
        swapped: false,
    }
}

#[test]
fn page_conversions() {
    let p = Page::of_addr(0x1FFF);
    assert_eq!(p.start_address(), 0x1000);
    assert_eq!(Page::of_addr(0x2000).start_address(), 0x2000);
}

#[test]
fn page_range_visits_every_page_in_order() {
    let mut r = Page::range_of(0x1000, 0x3000);
    let mut seen = Vec::new();
    while let Some(p) = r.next() {
        seen.push(p.start_address());
    }
    assert_eq!(seen, vec![0x1000, 0x2000]);
}

#[test]
fn page_range_counts_partial_pages() {
    // [0xFFF, 0x2001) touches pages 0, 1, and 2.
    let mut r = Page::range_of(0xFFF, 0x2001);
    let mut count = 0;
    while r.next().is_some() {
        count += 1;
    }
    assert_eq!(count, 3);
    // ceil(end / PAGE_SIZE) - floor(start / PAGE_SIZE)
    assert_eq!((0x2001 + PAGE_SIZE - 1) / PAGE_SIZE - 0xFFF / PAGE_SIZE, 3);
}

#[test]
fn attr_builders_compose() {
    let a = MemoryAttr::default().user().readonly().execute();
    assert!(a.user && a.readonly && a.execute && !a.hidden);
    let b = MemoryAttr::default();
    assert!(!b.user && !b.readonly && !b.execute && !b.hidden);
}

#[test]
fn attr_apply_only_restricts() {
    let mut e = fresh_entry(0x5000);
    MemoryAttr::default().user().readonly().apply(&mut e);
    assert!(e.user);
    assert!(!e.writable);
    assert!(e.present);
    assert_eq!(e.target, 0x5000);
    // Applying an empty attribute set afterwards changes nothing back.
    MemoryAttr::default().apply(&mut e);
    assert!(!e.writable);
    assert!(e.user);
}

#[test]
fn attr_hidden_clears_present() {
    let mut e = fresh_entry(0x7000);
    MemoryAttr::default().hidden().apply(&mut e);
    assert!(!e.present);
    assert!(e.writable);
}

#[test]
fn area_contains_and_overlap() {
    let attr = MemoryAttr::default();
    let a = MemoryArea::new(0x1000, 0x3000, attr, "");
    assert!(a.contains(0x1000));
    assert!(a.contains(0x2FFF));
    assert!(!a.contains(0x3000));
    let b = MemoryArea::new(0x2FFF, 0x4000, attr, "");
    // Their covering page ranges share page 2.
    assert!(a.is_overlap_with(&b));
    let c = MemoryArea::new(0x3000, 0x4000, attr, "");
    assert!(!a.is_overlap_with(&c));
}

#[test]
fn push_anonymous_area_allocates_frames() {
    let mut alloc = allocator(16);
    let mut set = Space::new(&mut alloc);
    assert_eq!(alloc.free.len(), 15); // root frame taken
    set.push(
        MemoryArea::new(0x1000, 0x3000, MemoryAttr::default().user(), ""),
        &mut alloc,
    );
    assert_eq!(alloc.free.len(), 13); // two pages backed
    let found = set.find_area(0x1FFF).expect("area should match");
    assert_eq!(found.start_addr, 0x1000);
    assert!(set.find_area(0x3000).is_none());
    assert_eq!(mapped_pages(&set), vec![1, 2]);
    for p in [1, 2] {
        let e = entry_for(&set, p);
        assert!(e.user);
        assert!(e.writable);
        assert!(e.present);
    }
    assert_ne!(entry_for(&set, 1).target, entry_for(&set, 2).target);
}

#[test]
fn push_identity_area_allocates_nothing() {
    let mut alloc = allocator(8);
    let mut set = Space::new(&mut alloc);
    let before = alloc.free.len();
    set.push(
        MemoryArea::new_identity(0x4000, 0x5000, MemoryAttr::default().readonly(), ""),
        &mut alloc,
    );
    assert_eq!(alloc.free.len(), before);
    assert_eq!(mapped_pages(&set), vec![4]);
    let e = entry_for(&set, 4);
    assert_eq!(e.target, 0x4000);
    assert!(!e.writable);
}

#[test]
fn push_physical_area_maps_with_offset() {
    let mut alloc = allocator(8);
    let mut set = Space::new(&mut alloc);
    // physical [0x6000, 0x8000) at virtual offset 0x10000
    set.push(
        MemoryArea::new_physical(0x6000, 0x8000, 0x10000, MemoryAttr::default(), ""),
        &mut alloc,
    );
    // virtual [0x16000, 0x18000): pages 0x16 and 0x17
    assert_eq!(entry_for(&set, 0x16).target, 0x6000);
    assert_eq!(entry_for(&set, 0x17).target, 0x7000);
    // each page maps virtual v to physical v - offset
    assert_eq!(entry_for(&set, 0x16).target, 0x16000 - 0x10000);
}

#[test]
fn disjoint_pushes_succeed() {
    let mut alloc = allocator(8);
    let mut set = Space::new(&mut alloc);
    let attr = MemoryAttr::default();
    set.push(MemoryArea::new(0x1000, 0x2000, attr, "a"), &mut alloc);
    set.push(MemoryArea::new(0x3000, 0x4000, attr, "b"), &mut alloc);
    assert_eq!(set.areas().len(), 2);
    assert_eq!(set.areas()[0].name, "a");
    assert_eq!(set.areas()[1].name, "b");
}

#[test]
fn clear_returns_all_anonymous_frames() {
    let mut alloc = allocator(16);
    let mut set = Space::new(&mut alloc);
    let after_new = alloc.free.len();
    let mut before_set: Vec<usize> = alloc.free.clone();
    before_set.sort();
    set.push(
        MemoryArea::new(0x1000, 0x3000, MemoryAttr::default(), "a"),
        &mut alloc,
    );
    set.push(
        MemoryArea::new(0x5000, 0x6000, MemoryAttr::default(), "b"),
        &mut alloc,
    );
    assert_eq!(alloc.free.len(), after_new - 3);
    set.clear(&mut alloc);
    assert_eq!(set.areas().len(), 0);
    assert_eq!(mapped_pages(&set), Vec::<usize>::new());
    let mut after_set: Vec<usize> = alloc.free.clone();
    after_set.sort();
    assert_eq!(before_set, after_set); // same frame population as pre-push
}

#[test]
fn clear_is_idempotent_when_empty() {
    let mut alloc = allocator(8);
    let mut set = Space::new(&mut alloc);
    let before = alloc.free.len();
    set.clear(&mut alloc);
    assert_eq!(alloc.free.len(), before);
    assert_eq!(set.areas().len(), 0);
    set.clear(&mut alloc);
    assert_eq!(alloc.free.len(), before);
    assert_eq!(set.areas().len(), 0);
}

#[test]
fn dispose_reclaims_frames_and_root() {
    let mut alloc = allocator(16);
    let mut initial: Vec<usize> = alloc.free.clone();
    initial.sort();
    let mut set = Space::new(&mut alloc);
    set.push(
        MemoryArea::new(0x1000, 0x2000, MemoryAttr::default(), ""),
        &mut alloc,
    );
    set.dispose(&mut alloc);
    let mut final_frames: Vec<usize> = alloc.free.clone();
    final_frames.sort();
    assert_eq!(initial, final_frames);
}

#[test]
fn duplicate_copies_structure_with_new_token() {
    let mut alloc = allocator(16);
    let mut set = Space::new(&mut alloc);
    set.push(
        MemoryArea::new(0x1000, 0x2000, MemoryAttr::default().user(), "seg"),
        &mut alloc,
    );
    let copy = set.duplicate(&mut alloc);
    assert_ne!(copy.token(), set.token());
    assert_eq!(copy.areas().len(), set.areas().len());
    assert_eq!(copy.areas()[0].start_addr, 0x1000);
    assert_eq!(copy.areas()[0].end_addr, 0x2000);
    assert_eq!(copy.areas()[0].name, "seg");
    // independent frames back the copy
    assert_ne!(entry_for(&set, 1).target, entry_for(&copy, 1).target);
}

#[test]
fn free_count_ignores_duplicates() {
    let alloc = allocator(5);
    assert_eq!(alloc.free_count(), 5);
}

#[test]
fn kstack_and_token_forward() {
    let mut alloc = allocator(4);
    let set = Space::new(&mut alloc);
    assert_eq!(set.kstack_top(), 0x20_8000);
    assert_eq!(set.token(), set.page_table.root);
    set.activate();
}

fn one_segment_image() -> ImageInfo {
    ImageInfo {
        is_32bit: true,
        entry_point: 0x400000,
        segments: vec![SegmentInfo {
            load: true,
            virtual_addr: 0x400000,
            offset: 0x100,
            file_size: 0x80,
            mem_size: 0x1000,
            readable: true,
            writable: false,
            executable: true,
        }],
    }
}

#[test]
fn attr_from_segment_flags() {
    let img = one_segment_image();
    let a = memory_attr_from(&img.segments[0]);
    assert!(a.user);
    assert!(a.execute);
    assert!(!a.readonly); // writability is not derived from the flags
}

#[test]
fn user_space_from_image() {
    let mut alloc = allocator(32);
    let img = one_segment_image();
    let (set, entry, usp): (Space, usize, usize) = new_user_memory_set(&img, &mut alloc);
    assert_eq!(entry, 0x400000);
    assert_eq!(usp, USER32_STACK_OFFSET + USER_STACK_SIZE - 8);
    assert_eq!(set.areas().len(), 2);
    assert_eq!(set.areas()[0].start_addr, 0x400000);
    assert_eq!(set.areas()[0].end_addr, 0x401000);
    assert!(set.areas()[0].flags.execute);
    assert_eq!(set.areas()[1].name, "user_stack");
    assert_eq!(set.areas()[1].start_addr, USER32_STACK_OFFSET);
    assert_eq!(set.areas()[1].end_addr, USER32_STACK_OFFSET + USER_STACK_SIZE);
    assert!(set.areas()[1].flags.user);
    // the segment's page is user-executable in the table
    let e = entry_for(&set, 0x400);
    assert!(e.user && e.execute);
}

#[test]
fn user_space_64bit_stack_placement() {
    let mut alloc = allocator(32);
    let mut img = one_segment_image();
    img.is_32bit = false;
    let (set, _, usp): (Space, usize, usize) = new_user_memory_set(&img, &mut alloc);
    assert_eq!(usp, USER_STACK_OFFSET + USER_STACK_SIZE - 8);
    assert_eq!(set.areas()[1].start_addr, USER_STACK_OFFSET);
}

fn le16(v: u16) -> [u8; 2] {
    v.to_le_bytes()
}

fn le32(v: u32) -> [u8; 4] {
    v.to_le_bytes()
}

/// A minimal 32-bit executable image: the ELF header and one LOAD
/// program header.
fn tiny_elf32() -> Vec<u8> {
    let mut d = Vec::new();
    // e_ident
    d.extend_from_slice(&[0x7F, b'E', b'L', b'F', 1, 1, 1, 0, 0, 0, 0, 0, 0, 0, 0, 0]);
    d.extend_from_slice(&le16(2)); // e_type: executable
    d.extend_from_slice(&le16(3)); // e_machine
    d.extend_from_slice(&le32(1)); // e_version
    d.extend_from_slice(&le32(0x40_0000)); // e_entry
    d.extend_from_slice(&le32(52)); // e_phoff
    d.extend_from_slice(&le32(0)); // e_shoff
    d.extend_from_slice(&le32(0)); // e_flags
    d.extend_from_slice(&le16(52)); // e_ehsize
    d.extend_from_slice(&le16(32)); // e_phentsize
    d.extend_from_slice(&le16(1)); // e_phnum
    d.extend_from_slice(&le16(40)); // e_shentsize
    d.extend_from_slice(&le16(0)); // e_shnum
    d.extend_from_slice(&le16(0)); // e_shstrndx
    assert_eq!(d.len(), 52);
    // program header: LOAD
    d.extend_from_slice(&le32(1)); // p_type
    d.extend_from_slice(&le32(0x100)); // p_offset
    d.extend_from_slice(&le32(0x40_0000)); // p_vaddr
    d.extend_from_slice(&le32(0)); // p_paddr
    d.extend_from_slice(&le32(0x80)); // p_filesz
    d.extend_from_slice(&le32(0x1000)); // p_memsz
    d.extend_from_slice(&le32(0x1 | 0x4)); // p_flags: R+X
    d.extend_from_slice(&le32(0x1000)); // p_align
    d.resize(0x180, 0);
    d
}

#[test]
fn parse_executable_image() {
    let data = tiny_elf32();
    let img = image_info_of(&data).expect("image should parse");
    assert!(img.is_32bit);
    assert_eq!(img.entry_point, 0x40_0000);
    assert_eq!(img.segments.len(), 1);
    let s = &img.segments[0];
    assert!(s.load);
    assert_eq!(s.virtual_addr, 0x40_0000);
    assert_eq!(s.offset, 0x100);
    assert_eq!(s.file_size, 0x80);
    assert_eq!(s.mem_size, 0x1000);
    assert!(s.executable);
    assert!(s.readable);
    assert!(!s.writable);
}

#[test]
fn reject_garbage_image() {
    let data = vec![0u8; 64];
    assert!(image_info_of(&data).is_none());
}

#[test]
fn parsed_image_builds_user_space() {
    let data = tiny_elf32();
    let img = image_info_of(&data).expect("image should parse");
    let mut alloc = allocator(32);
    let (set, entry, usp): (Space, usize, usize) = new_user_memory_set(&img, &mut alloc);
    assert_eq!(entry, 0x40_0000);
    assert_eq!(usp, USER32_STACK_OFFSET + USER_STACK_SIZE - 8);
    assert_eq!(set.areas().len(), 2);
}

#[test]
fn validate_accepts_good_image() {
    assert!(validate_image(&one_segment_image()));
}

#[test]
fn validate_rejects_empty_load_segment() {
    let mut img = one_segment_image();
    img.segments[0].mem_size = 0;
    assert!(!validate_image(&img));
}

#[test]
fn validate_rejects_overlapping_segments() {
    let mut img = one_segment_image();
    let mut second = img.segments[0];
    second.virtual_addr = 0x400800; // shares page 0x400 with the first
    second.mem_size = 0x100;
    img.segments.push(second);
    assert!(!validate_image(&img));
}

#[test]
fn validate_rejects_stack_collision() {
    let mut img = one_segment_image();
    img.segments[0].virtual_addr = USER32_STACK_OFFSET;
    assert!(!validate_image(&img));
}

#[test]
fn frames_demand_counts_root_pages_and_stack() {
    let img = one_segment_image();
    // one root frame + one loadable page + eight stack pages
    assert_eq!(frames_demand(&img), Some(1 + 1 + USER_STACK_SIZE / PAGE_SIZE));
}

#[test]
fn try_new_user_builds_when_backed() {
    let mut alloc = allocator(32);
    let img = one_segment_image();
    let (set, entry, usp): (Space, usize, usize) =
        try_new_user(&img, &mut alloc).expect("image is loadable");
    assert_eq!(entry, 0x400000);
    assert_eq!(usp, USER32_STACK_OFFSET + USER_STACK_SIZE - 8);
    assert_eq!(set.areas().len(), 2);
}

#[test]
fn try_new_user_refuses_short_allocator() {
    let mut alloc = allocator(5); // demand is 10
    let img = one_segment_image();
    let r: Option<(Space, usize, usize)> = try_new_user(&img, &mut alloc);
    assert!(r.is_none());
    assert_eq!(alloc.free.len(), 5); // untouched
}

#[test]
fn try_new_user_refuses_bad_image() {
    let mut alloc = allocator(32);
    let mut img = one_segment_image();
    img.segments[0].mem_size = 0;
    let r: Option<(Space, usize, usize)> = try_new_user(&img, &mut alloc);
    assert!(r.is_none());
    assert_eq!(alloc.free.len(), 32);
}

#[test]
fn parse_from_misaligned_buffer() {
    // The same image at an odd base offset must parse identically.
    let mut padded = vec![0u8];
    padded.extend_from_slice(&tiny_elf32());
    let img = image_info_of(&padded[1..]).expect("offset slice should parse");
    assert!(img.is_32bit);
    assert_eq!(img.entry_point, 0x40_0000);
    assert_eq!(img.segments.len(), 1);
}

#[test]
fn reject_non_executable_object() {
    let mut data = tiny_elf32();
    data[16] = 3; // e_type: shared object
    assert!(image_info_of(&data).is_none());
}

#[test]
fn reject_truncated_program_header_table() {
    let mut data = tiny_elf32();
    data.truncate(60); // header intact, program header cut off
    assert!(image_info_of(&data).is_none());
}

/// A minimal 64-bit executable image: the ELF header and one LOAD
/// program header.
fn tiny_elf64() -> Vec<u8> {
    let mut d = Vec::new();
    d.extend_from_slice(&[0x7F, b'E', b'L', b'F', 2, 1, 1, 0, 0, 0, 0, 0, 0, 0, 0, 0]);
    d.extend_from_slice(&le16(2)); // e_type: executable
    d.extend_from_slice(&le16(0x3E)); // e_machine
    d.extend_from_slice(&le32(1)); // e_version
    d.extend_from_slice(&0x40_1000u64.to_le_bytes()); // e_entry
    d.extend_from_slice(&64u64.to_le_bytes()); // e_phoff
    d.extend_from_slice(&0u64.to_le_bytes()); // e_shoff
    d.extend_from_slice(&le32(0)); // e_flags
    d.extend_from_slice(&le16(64)); // e_ehsize
    d.extend_from_slice(&le16(56)); // e_phentsize
    d.extend_from_slice(&le16(1)); // e_phnum
    d.extend_from_slice(&le16(64)); // e_shentsize
    d.extend_from_slice(&le16(0)); // e_shnum
    d.extend_from_slice(&le16(0)); // e_shstrndx
    assert_eq!(d.len(), 64);
    // program header: LOAD, RW
    d.extend_from_slice(&le32(1)); // p_type
    d.extend_from_slice(&le32(0x4 | 0x2)); // p_flags: R+W
    d.extend_from_slice(&0x200u64.to_le_bytes()); // p_offset
    d.extend_from_slice(&0x40_1000u64.to_le_bytes()); // p_vaddr
    d.extend_from_slice(&0u64.to_le_bytes()); // p_paddr
    d.extend_from_slice(&0x100u64.to_le_bytes()); // p_filesz
    d.extend_from_slice(&0x2000u64.to_le_bytes()); // p_memsz
    d.extend_from_slice(&0x1000u64.to_le_bytes()); // p_align
    assert_eq!(d.len(), 120);
    d.resize(0x400, 0);
    d
}

#[test]
fn parse_64bit_executable_image() {
    let data = tiny_elf64();
    let img = image_info_of(&data).expect("image should parse");
    assert!(!img.is_32bit);
    assert_eq!(img.entry_point, 0x40_1000);
    assert_eq!(img.segments.len(), 1);
    let s = &img.segments[0];
    assert!(s.load);
    assert_eq!(s.virtual_addr, 0x40_1000);
    assert_eq!(s.offset, 0x200);
    assert_eq!(s.file_size, 0x100);
    assert_eq!(s.mem_size, 0x2000);
    assert!(s.readable);
    assert!(s.writable);
    assert!(!s.executable);
}

#[test]
fn anonymous_pages_pair_with_draw_order() {
    // The model allocator yields its highest frame first; pages are mapped
    // low to high, the i-th drawn frame backing the i-th page.
    let mut alloc = allocator(16);
    let mut set = Space::new(&mut alloc); // draws FRAME_BASE + 15 pages for the root
    set.push(
        MemoryArea::new(0x1000, 0x4000, MemoryAttr::default(), ""),
        &mut alloc,
    );
    assert_eq!(entry_for(&set, 1).target, FRAME_BASE + 14 * PAGE_SIZE);
    assert_eq!(entry_for(&set, 2).target, FRAME_BASE + 13 * PAGE_SIZE);
    assert_eq!(entry_for(&set, 3).target, FRAME_BASE + 12 * PAGE_SIZE);
}

#[test]
fn copy_plan_covers_file_backed_headers() {
    let mut img = one_segment_image();
    // a second header with nothing to copy
    let mut empty_seg = img.segments[0];
    empty_seg.load = false;
    empty_seg.file_size = 0;
    empty_seg.virtual_addr = 0;
    img.segments.push(empty_seg);
    let plan = copy_plan(&img);
    assert_eq!(plan.len(), 1);
    assert_eq!(plan[0].src_offset, 0x100);
    assert_eq!(plan[0].len, 0x80);
    assert_eq!(plan[0].dest, 0x400000);
}

#[test]
fn stack_seed_words_for_each_class() {
    let top = USER32_STACK_OFFSET + USER_STACK_SIZE;
    assert_eq!(stack_seed_words(true), Some((top - 8, top - 4)));
    assert_eq!(stack_seed_words(false), None);
}
