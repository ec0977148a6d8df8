//! The fixed-size parts of an ELF64 file.
use vstd::prelude::*;

use crate::bytes::{le16, le32, le64, read16, read32, read64};

verus! {

/// Why an image was rejected.
#[derive(Debug, Clone, Copy, PartialEq, Eq, Structural)]
pub enum ElfError {
    /// Shorter than a header.
    TooSmall,
    /// No magic number.
    NotElf,
    /// Not a 64-bit, little-endian file.
    NotElf64,
    /// A program header falls outside the file, or the entries of the table
    /// are too small to hold one.
    BadProgramHeaders,
    /// Nothing to load.
    NoLoadableSegments,
    /// A segment's file contents run past the end of the image, or exceed
    /// its memory.
    SegmentOutOfFile,
    /// A segment or the entry point lies past the user half of the address
    /// space.
    SegmentOutsideUserSpace,
    /// A segment lands in a slot of the top-level page table that the base
    /// address space uses.
    SegmentInSharedSlot,
    /// A segment overlaps the stack page.
    SegmentOverlapsStack,
    /// Two segments need the same page.
    SegmentsOverlap,
    /// More segments or program headers than this loader considers.
    TooManySegments,
    /// Segments and stack take more pages than an image may have.
    ImageTooLarge,
    /// Arguments and environment do not fit their part of the stack page.
    ArgsTooLarge,
    /// A page could not be mapped.
    MappingFailed,
}

/// Size of an ELF64 header.
pub const HEADER_SIZE: usize = 64;
/// Size of an ELF64 program header.
pub const PROGRAM_HEADER_SIZE: usize = 56;

/// A segment to be loaded.
pub const PT_LOAD: u32 = 1;
/// A segment whose pages may be executed.
pub const PF_X: u32 = 1;
/// A segment whose pages may be written.
pub const PF_W: u32 = 2;

/// What the loader needs of an ELF64 header.
#[derive(Clone, Copy, Debug, PartialEq, Eq, Structural)]
pub struct Header {
    pub entry: u64,
    pub phoff: u64,
    pub phentsize: u16,
    pub phnum: u16,
}

/// What the loader needs of a program header.
#[derive(Clone, Copy, Debug, PartialEq, Eq, Structural)]
pub struct ProgramHeader {
    pub p_type: u32,
    pub p_flags: u32,
    pub p_offset: u64,
    pub p_vaddr: u64,
    pub p_filesz: u64,
    pub p_memsz: u64,
}

/// The header in an image that has one.
pub open spec fn header_in(image: Seq<u8>) -> Header {
    Header {
        entry: le64(image, 24) as u64,
        phoff: le64(image, 32) as u64,
        phentsize: le16(image, 54) as u16,
        phnum: le16(image, 56) as u16,
    }
}

/// What is wrong with the first bytes of an image.
pub open spec fn header_fault(image: Seq<u8>) -> Option<ElfError> {
    if image.len() < HEADER_SIZE {
        Some(ElfError::TooSmall)
    } else if image.take(4) != seq![0x7fu8, 0x45u8, 0x4cu8, 0x46u8] {
        Some(ElfError::NotElf)
    } else if image[4] != 2 || image[5] != 1 {
        Some(ElfError::NotElf64)
    } else {
        None
    }
}

/// Read the header of an image.
pub fn header_of(image: &[u8]) -> (r: Result<Header, ElfError>)
    ensures
        match header_fault(image@) {
            Some(e) => r == Err::<Header, ElfError>(e),
            None => r == Ok::<Header, ElfError>(header_in(image@)),
        },
{
    if image.len() < HEADER_SIZE {
        return Err(ElfError::TooSmall);
    }
    let magic: bool = image[0] == 0x7f && image[1] == 0x45 && image[2] == 0x4c && image[3] == 0x46;
    proof {
        let m = seq![0x7fu8, 0x45u8, 0x4cu8, 0x46u8];
        if magic {
            assert(image@.take(4) =~= m);
        } else if image@.take(4) == m {
            assert(image@.take(4)[0] == m[0] && image@.take(4)[1] == m[1] && image@.take(4)[2] == m[2]
                && image@.take(4)[3] == m[3]);
        }
    }
    if !magic {
        return Err(ElfError::NotElf);
    }
    if image[4] != 2 || image[5] != 1 {
        return Err(ElfError::NotElf64);
    }
    Ok(
        Header {
            entry: read64(image, 24),
            phoff: read64(image, 32),
            phentsize: read16(image, 54),
            phnum: read16(image, 56),
        },
    )
}

/// Where program header `i` starts in the file.
pub open spec fn program_header_at(h: Header, i: int) -> int {
    h.phoff + i * h.phentsize
}

/// Whether program header `i` lies within the image.
pub open spec fn program_header_fits(image: Seq<u8>, h: Header, i: int) -> bool {
    h.phentsize >= PROGRAM_HEADER_SIZE && program_header_at(h, i) + PROGRAM_HEADER_SIZE
        <= image.len()
}

/// Program header `i` of an image that holds it.
pub open spec fn program_header_in(image: Seq<u8>, h: Header, i: int) -> ProgramHeader {
    let at = program_header_at(h, i);
    ProgramHeader {
        p_type: le32(image, at) as u32,
        p_flags: le32(image, at + 4) as u32,
        p_offset: le64(image, at + 8) as u64,
        p_vaddr: le64(image, at + 16) as u64,
        p_filesz: le64(image, at + 32) as u64,
        p_memsz: le64(image, at + 40) as u64,
    }
}

/// Read program header `i`, if it lies within the image.
pub fn program_header(image: &[u8], header: &Header, i: usize) -> (r: Result<ProgramHeader, ElfError>)
    requires
        i <= u16::MAX,
    ensures
        r == (if program_header_fits(image@, *header, i as int) {
            Ok(program_header_in(image@, *header, i as int))
        } else {
            Err(ElfError::BadProgramHeaders)
        }),
{
    if (header.phentsize as usize) < PROGRAM_HEADER_SIZE {
        return Err(ElfError::BadProgramHeaders);
    }
    assert(0 <= i * header.phentsize <= 0xffff * 0xffff) by (nonlinear_arith)
        requires
            i <= 0xffff,
            header.phentsize <= 0xffff,
    ;
    let skip: u64 = i as u64 * header.phentsize as u64;
    let len: u64 = image.len() as u64;
    match header.phoff.checked_add(skip) {
        None => Err(ElfError::BadProgramHeaders),
        Some(offset) => {
            if len < PROGRAM_HEADER_SIZE as u64 || offset > len - PROGRAM_HEADER_SIZE as u64 {
                return Err(ElfError::BadProgramHeaders);
            }
            let at: usize = offset as usize;
            Ok(
                ProgramHeader {
                    p_type: read32(image, at),
                    p_flags: read32(image, at + 4),
                    p_offset: read64(image, at + 8),
                    p_vaddr: read64(image, at + 16),
                    p_filesz: read64(image, at + 32),
                    p_memsz: read64(image, at + 40),
                },
            )
        },
    }
}

} // verus!
