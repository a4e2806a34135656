use andy_mm::elf::parse_program_headers;
use andy_mm::elf::ElfParseError;
use andy_mm::elf::ProgramSegment;
use andy_mm::elf::SegmentKind;
use andy_mm::elf_mapper::map_elf_into_memory;
use andy_mm::elf_mapper::mem_read;
use andy_mm::elf_mapper::ElfMapError;
use andy_mm::elf_mapper::FramePage;
use andy_mm::elf_mapper::PhysMemory;
use andy_mm::elf_mapper::SegmentFlags;
use andy_mm::frame_allocator::AndyFrameAllocator;
use andy_mm::frame_allocator::MemoryDescriptor;

fn minimal_image(phnum: u16) -> Vec<u8> {
    let mut bytes = vec![0u8; 64 + 56 * phnum as usize];
    bytes[0] = 0x7f;
    bytes[1] = 0x45;
    bytes[2] = 0x4c;
    bytes[3] = 0x46;
    bytes[4] = 2; // 64-bit class
    bytes[0x20] = 64; // program-header table right after the file header
    bytes[0x36] = 56; // entry size
    bytes[0x38] = (phnum & 0xff) as u8;
    bytes[0x39] = (phnum >> 8) as u8;
    bytes
}

fn put_u32(bytes: &mut Vec<u8>, off: usize, v: u32) {
    for k in 0..4 {
        bytes[off + k] = ((v >> (8 * k)) & 0xff) as u8;
    }
}

fn put_u64(bytes: &mut Vec<u8>, off: usize, v: u64) {
    for k in 0..8 {
        bytes[off + k] = ((v >> (8 * k)) & 0xff) as u8;
    }
}

#[test]
fn parse_rejects_short_input() {
    let bytes = vec![0u8; 10];
    assert_eq!(parse_program_headers(&bytes), Err(ElfParseError::TooShort));
}

#[test]
fn parse_rejects_bad_magic() {
    let mut bytes = minimal_image(0);
    bytes[1] = 0x00;
    assert_eq!(parse_program_headers(&bytes), Err(ElfParseError::BadMagic));
}

#[test]
fn parse_rejects_32_bit_images() {
    let mut bytes = minimal_image(0);
    bytes[4] = 1;
    assert_eq!(parse_program_headers(&bytes), Err(ElfParseError::Not64Bit));
}

#[test]
fn parse_rejects_broken_header_table() {
    let mut bytes = minimal_image(0);
    bytes[0x36] = 64; // entry size this loader does not accept
    assert_eq!(parse_program_headers(&bytes), Err(ElfParseError::BadProgramHeaderTable));

    let mut bytes = minimal_image(0);
    bytes[0x38] = 4; // four headers claimed, none present
    assert_eq!(parse_program_headers(&bytes), Err(ElfParseError::BadProgramHeaderTable));
}

#[test]
fn parse_reads_header_fields() {
    let mut bytes = minimal_image(2);
    let base = 64;
    put_u32(&mut bytes, base, 1); // loadable
    put_u32(&mut bytes, base + 4, 0b101); // read + execute
    put_u64(&mut bytes, base + 8, 0x1000);
    put_u64(&mut bytes, base + 16, 0x20_0000);
    put_u64(&mut bytes, base + 32, 10000);
    put_u64(&mut bytes, base + 40, 16384);
    put_u64(&mut bytes, base + 48, 4096);
    let base2 = 64 + 56;
    put_u32(&mut bytes, base2, 0x6474e552); // relocation-read-only note
    let segs = parse_program_headers(&bytes).unwrap();
    assert_eq!(segs.len(), 2);
    assert_eq!(segs[0].kind, SegmentKind::Load);
    assert_eq!(segs[0].offset, 0x1000);
    assert_eq!(segs[0].virtual_addr, 0x20_0000);
    assert_eq!(segs[0].file_size, 10000);
    assert_eq!(segs[0].mem_size, 16384);
    assert_eq!(segs[0].align, 4096);
    assert!(segs[0].readable);
    assert!(!segs[0].writable);
    assert!(segs[0].executable);
    assert_eq!(segs[1].kind, SegmentKind::GnuRelro);
}

const KERNEL_OFFSET: u64 = 0x4000_0000;

/// Puts `data` into the arena page by page, starting at the frame of
/// `addr`, padding the last page with zeros.
fn arena_with_blob(addr: u64, data: &[u8]) -> PhysMemory {
    let mut memory = PhysMemory::new();
    let mut frame = addr / 4096;
    let mut taken = 0usize;
    while taken < data.len() {
        let mut bytes = vec![0u8; 4096];
        for k in 0..4096 {
            if taken + k < data.len() {
                bytes[k] = data[taken + k];
            }
        }
        memory.pages.push(FramePage { frame, bytes });
        taken += 4096;
        frame += 1;
    }
    memory
}

fn source_byte(o: usize) -> u8 {
    (o % 251) as u8
}

#[test]
fn load_segment_copies_file_bytes_and_zero_fills_the_tail() {
    // a LOAD segment with file_size 10000 and mem_size 16384
    let segment = ProgramSegment {
        kind: SegmentKind::Load,
        offset: 0x1000,
        virtual_addr: 0x20_0000,
        file_size: 10000,
        mem_size: 16384,
        align: 4096,
        readable: true,
        writable: true,
        executable: false,
    };
    let mut blob = vec![0u8; 0x1000 + 10000];
    for o in 0..10000 {
        blob[0x1000 + o] = source_byte(o);
    }
    let mut memory = arena_with_blob(KERNEL_OFFSET, &blob);
    // usable frames far above the image blob
    let mut allocator = AndyFrameAllocator::new(vec![MemoryDescriptor {
        phys_start: 0x8000_0000,
        page_count: 64,
        usable: true,
    }]);
    let table =
        map_elf_into_memory(KERNEL_OFFSET, &vec![segment], &mut allocator, &mut memory).unwrap();

    for o in 0..10000u64 {
        let b = mem_read(&table, &memory, segment.virtual_addr + o);
        assert_eq!(b, Some(source_byte(o as usize)), "file byte {} differs", o);
    }
    for o in 10000..16384u64 {
        let b = mem_read(&table, &memory, segment.virtual_addr + o);
        assert_eq!(b, Some(0), "tail byte {} is not zero", o);
    }
    // exactly 4 mapped pages, all carrying the derived protection
    assert_eq!(table.entries.len(), 4);
    let flags = SegmentFlags { writable: true, no_execute: true };
    for p in 0..4u64 {
        let got = table.translate_page(segment.virtual_addr / 4096 + p).unwrap();
        assert_eq!(got.1, flags);
    }
    assert_eq!(table.translate_page(segment.virtual_addr / 4096 + 4), None);
    // the original boundary frame of the blob still holds the file bytes
    let boundary = mem_read(&table, &memory, segment.virtual_addr + 9999);
    assert_eq!(boundary, Some(source_byte(9999)));
}

#[test]
fn load_segment_without_tail_maps_only_file_pages() {
    let segment = ProgramSegment {
        kind: SegmentKind::Load,
        offset: 0,
        virtual_addr: 0x10_0000,
        file_size: 8192,
        mem_size: 8192,
        align: 4096,
        readable: true,
        writable: false,
        executable: true,
    };
    let mut blob = vec![0u8; 8192];
    for o in 0..8192 {
        blob[o] = source_byte(o);
    }
    let mut memory = arena_with_blob(KERNEL_OFFSET, &blob);
    let mut allocator = AndyFrameAllocator::new(vec![MemoryDescriptor {
        phys_start: 0x8000_0000,
        page_count: 8,
        usable: true,
    }]);
    let table =
        map_elf_into_memory(KERNEL_OFFSET, &vec![segment], &mut allocator, &mut memory).unwrap();
    assert_eq!(table.entries.len(), 2);
    for o in 0..8192u64 {
        let b = mem_read(&table, &memory, segment.virtual_addr + o);
        assert_eq!(b, Some(source_byte(o as usize)));
    }
    let flags = SegmentFlags { writable: false, no_execute: false };
    assert_eq!(table.translate_page(0x10_0000 / 4096).unwrap().1, flags);
}

#[test]
fn deferred_kinds_are_skipped_and_unknown_kinds_refused() {
    let relro = ProgramSegment {
        kind: SegmentKind::GnuRelro,
        offset: 0,
        virtual_addr: 0,
        file_size: 0,
        mem_size: 0,
        align: 0,
        readable: true,
        writable: false,
        executable: false,
    };
    let stack_note = ProgramSegment { kind: SegmentKind::OsSpecific(1685382481), ..relro };
    let mut memory = PhysMemory::new();
    let mut allocator = AndyFrameAllocator::new(vec![MemoryDescriptor {
        phys_start: 0x8000_0000,
        page_count: 8,
        usable: true,
    }]);
    let table = map_elf_into_memory(
        KERNEL_OFFSET,
        &vec![relro, stack_note],
        &mut allocator,
        &mut memory,
    )
    .unwrap();
    assert_eq!(table.entries.len(), 0);

    let strange = ProgramSegment { kind: SegmentKind::Other(2), ..relro };
    let r = map_elf_into_memory(KERNEL_OFFSET, &vec![strange], &mut allocator, &mut memory);
    assert!(matches!(
        r,
        Err(ElfMapError::UnsupportedSegmentType(SegmentKind::Other(2)))
    ));
}

#[test]
fn out_of_frames_is_reported() {
    let segment = ProgramSegment {
        kind: SegmentKind::Load,
        offset: 0,
        virtual_addr: 0x10_0000,
        file_size: 4096,
        mem_size: 16384,
        align: 4096,
        readable: true,
        writable: true,
        executable: false,
    };
    let blob = vec![7u8; 4096];
    let mut memory = arena_with_blob(KERNEL_OFFSET, &blob);
    // one frame for the root node, none for the zero-fill pages
    let mut allocator = AndyFrameAllocator::new(vec![MemoryDescriptor {
        phys_start: 0x8000_0000,
        page_count: 1,
        usable: true,
    }]);
    let r = map_elf_into_memory(KERNEL_OFFSET, &vec![segment], &mut allocator, &mut memory);
    assert!(matches!(r, Err(ElfMapError::OutOfFrames)));
}

#[test]
fn bss_only_segment_reads_as_zero() {
    // no file-backed bytes at all: a page-aligned, zero-fill-only range
    let segment = ProgramSegment {
        kind: SegmentKind::Load,
        offset: 0,
        virtual_addr: 0x30_0000,
        file_size: 0,
        mem_size: 8192,
        align: 4096,
        readable: true,
        writable: true,
        executable: false,
    };
    let mut memory = PhysMemory::new();
    let mut allocator = AndyFrameAllocator::new(vec![MemoryDescriptor {
        phys_start: 0x8000_0000,
        page_count: 8,
        usable: true,
    }]);
    let table =
        map_elf_into_memory(KERNEL_OFFSET, &vec![segment], &mut allocator, &mut memory).unwrap();
    assert_eq!(table.entries.len(), 2);
    for o in 0..8192u64 {
        assert_eq!(mem_read(&table, &memory, segment.virtual_addr + o), Some(0));
    }
}

#[test]
fn two_segments_load_side_by_side() {
    let code = ProgramSegment {
        kind: SegmentKind::Load,
        offset: 0,
        virtual_addr: 0x10_0000,
        file_size: 4096,
        mem_size: 4096,
        align: 4096,
        readable: true,
        writable: false,
        executable: true,
    };
    let data = ProgramSegment {
        kind: SegmentKind::Load,
        offset: 0x1000,
        virtual_addr: 0x20_0000,
        file_size: 100,
        mem_size: 4096,
        align: 4096,
        readable: true,
        writable: true,
        executable: false,
    };
    let mut blob = vec![0u8; 0x1000 + 100];
    for o in 0..blob.len() {
        blob[o] = source_byte(o);
    }
    let mut memory = arena_with_blob(KERNEL_OFFSET, &blob);
    let mut allocator = AndyFrameAllocator::new(vec![MemoryDescriptor {
        phys_start: 0x8000_0000,
        page_count: 16,
        usable: true,
    }]);
    let table =
        map_elf_into_memory(KERNEL_OFFSET, &vec![code, data], &mut allocator, &mut memory)
            .unwrap();
    assert_eq!(table.entries.len(), 2);
    // the first segment's bytes survive the second segment's mapping
    for o in 0..4096u64 {
        assert_eq!(
            mem_read(&table, &memory, code.virtual_addr + o),
            Some(source_byte(o as usize))
        );
    }
    for o in 0..100u64 {
        assert_eq!(
            mem_read(&table, &memory, data.virtual_addr + o),
            Some(source_byte(0x1000 + o as usize))
        );
    }
    for o in 100..4096u64 {
        assert_eq!(mem_read(&table, &memory, data.virtual_addr + o), Some(0));
    }
}

#[test]
fn two_segments_may_share_a_file_backed_page() {
    // the second segment's only page is also the first segment's
    // second page, backed by the same frame of the blob: tolerated as
    // a no-op, and the page keeps the first mapper's protection
    let code = ProgramSegment {
        kind: SegmentKind::Load,
        offset: 0,
        virtual_addr: 0x10_0000,
        file_size: 8192,
        mem_size: 8192,
        align: 4096,
        readable: true,
        writable: false,
        executable: true,
    };
    let data = ProgramSegment {
        kind: SegmentKind::Load,
        offset: 0x1000,
        virtual_addr: 0x10_1000,
        file_size: 4096,
        mem_size: 4096,
        align: 4096,
        readable: true,
        writable: true,
        executable: false,
    };
    let mut blob = vec![0u8; 8192];
    for o in 0..8192 {
        blob[o] = source_byte(o);
    }
    let mut memory = arena_with_blob(KERNEL_OFFSET, &blob);
    let mut allocator = AndyFrameAllocator::new(vec![MemoryDescriptor {
        phys_start: 0x8000_0000,
        page_count: 8,
        usable: true,
    }]);
    let table =
        map_elf_into_memory(KERNEL_OFFSET, &vec![code, data], &mut allocator, &mut memory)
            .unwrap();
    // the shared page was mapped once, not twice
    assert_eq!(table.entries.len(), 2);
    let shared = table.translate_page(0x10_1000 / 4096).unwrap();
    assert_eq!(shared.0, KERNEL_OFFSET / 4096 + 1);
    // first mapper's protection stays
    assert_eq!(shared.1, SegmentFlags { writable: false, no_execute: false });
    for o in 0..4096u64 {
        assert_eq!(
            mem_read(&table, &memory, data.virtual_addr + o),
            Some(source_byte(0x1000 + o as usize))
        );
    }
}

