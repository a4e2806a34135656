//! Reading the program-header table out of a 64-bit executable image.
//!
//! The loader consumes only the header fields this module extracts:
//! the segment kind, its byte range in the file, its destination
//! virtual range, its alignment and its protection flags. Every field
//! is a fixed-width little-endian number at a fixed offset, so the
//! whole parse is specified byte for byte.

use vstd::prelude::*;

verus! {

/// Value of a little-endian 16-bit field at `off`.
pub open spec fn spec_u16_le(s: Seq<u8>, off: int) -> int {
    s[off] + s[off + 1] * 0x100
}

/// Value of a little-endian 32-bit field at `off`.
pub open spec fn spec_u32_le(s: Seq<u8>, off: int) -> int {
    s[off] + s[off + 1] * 0x100 + s[off + 2] * 0x1_0000 + s[off + 3] * 0x100_0000
}

/// Value of a little-endian 64-bit field at `off`.
pub open spec fn spec_u64_le(s: Seq<u8>, off: int) -> int {
    spec_u32_le(s, off) + spec_u32_le(s, off + 4) * 0x1_0000_0000
}

/// Reads a little-endian 16-bit field.
pub fn read_u16_le(bytes: &Vec<u8>, off: usize) -> (r: u16)
    requires
        off + 2 <= bytes@.len(),
    ensures
        r == spec_u16_le(bytes@, off as int),
{
    proof {
        vstd::std_specs::vec::axiom_spec_len(bytes);
    }
    (bytes[off] as u16) + (bytes[off + 1] as u16) * 0x100
}

/// Reads a little-endian 32-bit field.
pub fn read_u32_le(bytes: &Vec<u8>, off: usize) -> (r: u32)
    requires
        off + 4 <= bytes@.len(),
    ensures
        r == spec_u32_le(bytes@, off as int),
{
    proof {
        vstd::std_specs::vec::axiom_spec_len(bytes);
    }
    (bytes[off] as u32) + (bytes[off + 1] as u32) * 0x100 + (bytes[off + 2] as u32) * 0x1_0000 + (
    bytes[off + 3] as u32) * 0x100_0000
}

/// Reads a little-endian 64-bit field.
pub fn read_u64_le(bytes: &Vec<u8>, off: usize) -> (r: u64)
    requires
        off + 8 <= bytes@.len(),
    ensures
        r == spec_u64_le(bytes@, off as int),
{
    proof {
        vstd::std_specs::vec::axiom_spec_len(bytes);
    }
    let lo = read_u32_le(bytes, off);
    let hi = read_u32_le(bytes, off + 4);
    (lo as u64) + (hi as u64) * 0x1_0000_0000
}

/// Kind of one program header, as the loader distinguishes them: a
/// loadable segment, the relocation-read-only note, an
/// operating-system-reserved kind, or anything else.
#[derive(Clone, Copy, Debug, PartialEq, Eq, Structural)]
pub enum SegmentKind {
    Load,
    GnuRelro,
    OsSpecific(u32),
    Other(u32),
}

/// Classifies the raw header type field.
pub open spec fn spec_segment_kind(p_type: u32) -> SegmentKind {
    if p_type == 1 {
        SegmentKind::Load
    } else if p_type == 0x6474e552 {
        SegmentKind::GnuRelro
    } else if 0x60000000 <= p_type < 0x70000000 {
        SegmentKind::OsSpecific(p_type)
    } else {
        SegmentKind::Other(p_type)
    }
}

/// One program header, reduced to the fields the loader consumes.
#[derive(Clone, Copy, Debug, PartialEq, Eq, Structural)]
pub struct ProgramSegment {
    pub kind: SegmentKind,
    pub offset: u64,
    pub virtual_addr: u64,
    pub file_size: u64,
    pub mem_size: u64,
    pub align: u64,
    pub readable: bool,
    pub writable: bool,
    pub executable: bool,
}

/// What an image can be rejected for before any segment is mapped.
#[derive(Clone, Copy, Debug, PartialEq, Eq, Structural)]
pub enum ElfParseError {
    /// Fewer bytes than one file header.
    TooShort,
    /// The first four bytes are not the format's magic number.
    BadMagic,
    /// The class byte does not mark a 64-bit image.
    Not64Bit,
    /// The header table's entry size or position does not fit the
    /// image.
    BadProgramHeaderTable,
}

/// The segment described by the 56-byte program header at `base`.
pub open spec fn spec_segment_at(s: Seq<u8>, base: int) -> ProgramSegment {
    ProgramSegment {
        kind: spec_segment_kind(spec_u32_le(s, base) as u32),
        offset: spec_u64_le(s, base + 8) as u64,
        virtual_addr: spec_u64_le(s, base + 16) as u64,
        file_size: spec_u64_le(s, base + 32) as u64,
        mem_size: spec_u64_le(s, base + 40) as u64,
        align: spec_u64_le(s, base + 48) as u64,
        readable: spec_u32_le(s, base + 4) as u32 & 4 != 0,
        writable: spec_u32_le(s, base + 4) as u32 & 2 != 0,
        executable: spec_u32_le(s, base + 4) as u32 & 1 != 0,
    }
}

/// The image starts with the format's magic number.
pub open spec fn spec_magic_ok(s: Seq<u8>) -> bool {
    s[0] == 0x7f && s[1] == 0x45 && s[2] == 0x4c && s[3] == 0x46
}

/// Shape of a parsable image: long enough for the file header, magic
/// number in place, 64-bit class, and a program-header table of
/// 56-byte entries lying wholly inside the image.
pub open spec fn spec_elf_ok(s: Seq<u8>) -> bool {
    &&& s.len() >= 64
    &&& spec_magic_ok(s)
    &&& s[4] == 2
    &&& spec_u16_le(s, 0x36) == 56
    &&& spec_u64_le(s, 0x20) + spec_u16_le(s, 0x38) * 56 <= s.len()
}

/// Reads the 56-byte program header at `base`.
pub fn read_segment(bytes: &Vec<u8>, base: usize) -> (r: ProgramSegment)
    requires
        base + 56 <= bytes@.len(),
    ensures
        r == spec_segment_at(bytes@, base as int),
{
    proof {
        vstd::std_specs::vec::axiom_spec_len(bytes);
    }
    let p_type = read_u32_le(bytes, base);
    let p_flags = read_u32_le(bytes, base + 4);
    let kind = if p_type == 1 {
        SegmentKind::Load
    } else if p_type == 0x6474e552 {
        SegmentKind::GnuRelro
    } else if 0x60000000 <= p_type && p_type < 0x70000000 {
        SegmentKind::OsSpecific(p_type)
    } else {
        SegmentKind::Other(p_type)
    };
    ProgramSegment {
        kind,
        offset: read_u64_le(bytes, base + 8),
        virtual_addr: read_u64_le(bytes, base + 16),
        file_size: read_u64_le(bytes, base + 32),
        mem_size: read_u64_le(bytes, base + 40),
        align: read_u64_le(bytes, base + 48),
        readable: p_flags & 4 != 0,
        writable: p_flags & 2 != 0,
        executable: p_flags & 1 != 0,
    }
}

/// Parses the program-header table of a 64-bit image. The image is
/// rejected — with the first applicable reason — when it is shorter
/// than a file header, carries the wrong magic number, is not 64-bit,
/// or its header table does not fit; otherwise every program header is
/// returned in file order.
pub fn parse_program_headers(bytes: &Vec<u8>) -> (r: Result<Vec<ProgramSegment>, ElfParseError>)
    ensures
        match r {
            Ok(segs) => {
                &&& spec_elf_ok(bytes@)
                &&& segs@.len() == spec_u16_le(bytes@, 0x38)
                &&& forall|i: int|
                    0 <= i < segs@.len() ==> segs@[i] == spec_segment_at(
                        bytes@,
                        spec_u64_le(bytes@, 0x20) + i * 56,
                    )
            },
            Err(e) => {
                &&& !spec_elf_ok(bytes@)
                &&& e == (if bytes@.len() < 64 {
                    ElfParseError::TooShort
                } else if !spec_magic_ok(bytes@) {
                    ElfParseError::BadMagic
                } else if bytes@[4] != 2 {
                    ElfParseError::Not64Bit
                } else {
                    ElfParseError::BadProgramHeaderTable
                })
            },
        },
{
    if bytes.len() < 64 {
        return Err(ElfParseError::TooShort);
    }
    if !(bytes[0] == 0x7f && bytes[1] == 0x45 && bytes[2] == 0x4c && bytes[3] == 0x46) {
        return Err(ElfParseError::BadMagic);
    }
    if bytes[4] != 2 {
        return Err(ElfParseError::Not64Bit);
    }
    let phentsize = read_u16_le(bytes, 0x36);
    let phoff = read_u64_le(bytes, 0x20);
    let phnum = read_u16_le(bytes, 0x38);
    if phentsize != 56 {
        return Err(ElfParseError::BadProgramHeaderTable);
    }
    if phoff > bytes.len() as u64 || (phnum as u64) * 56 > bytes.len() as u64 - phoff {
        return Err(ElfParseError::BadProgramHeaderTable);
    }
    let mut segs: Vec<ProgramSegment> = Vec::new();
    let mut i: usize = 0;
    while i < phnum as usize
        invariant
            spec_elf_ok(bytes@),
            phoff == spec_u64_le(bytes@, 0x20),
            phnum == spec_u16_le(bytes@, 0x38),
            phoff + (phnum as int) * 56 <= bytes@.len(),
            i <= phnum as usize,
            segs@.len() == i,
            forall|j: int|
                0 <= j < i ==> segs@[j] == spec_segment_at(bytes@, phoff + j * 56),
        decreases phnum as int - i,
    {
        proof {
            vstd::std_specs::vec::axiom_spec_len(bytes);
            vstd::arithmetic::mul::lemma_mul_inequality(i as int + 1, phnum as int, 56);
            vstd::arithmetic::mul::lemma_mul_is_distributive_add_other_way(56, i as int, 1);
            vstd::arithmetic::mul::lemma_mul_nonnegative(i as int, 56);
        }
        let base: usize = (phoff as usize) + i * 56;
        segs.push(read_segment(bytes, base));
        i = i + 1;
    }
    Ok(segs)
}

} // verus!
