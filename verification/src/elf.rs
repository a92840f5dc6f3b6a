//! Parsing of 64-bit little-endian ELF headers: the file header and the
//! program (segment) headers, with every accepted value pinned down and
//! every rejected file mapped to the reason it was rejected.

use vstd::prelude::*;

verus! {

/// Size in bytes of the ELF file header.
pub const HEADER_SIZE: usize = 64;

/// Size in bytes of one program header entry of a 64-bit ELF file.
pub const PROGRAM_HEADER_ENTRY_SIZE: u16 = 0x38;

/// Size in bytes of one section header entry of a 64-bit ELF file.
pub const SECTION_HEADER_ENTRY_SIZE: u16 = 0x40;

/// The little-endian 16-bit value at offset `i`.
pub open spec fn u16_le(s: Seq<u8>, i: int) -> u16 {
    (s[i] + s[i + 1] * 0x100) as u16
}

/// The little-endian 32-bit value at offset `i`.
pub open spec fn u32_le(s: Seq<u8>, i: int) -> u32 {
    (s[i] + s[i + 1] * 0x100 + s[i + 2] * 0x1_0000 + s[i + 3] * 0x100_0000) as u32
}

/// The little-endian 64-bit value at offset `i`.
pub open spec fn u64_le(s: Seq<u8>, i: int) -> u64 {
    (u32_le(s, i) + u32_le(s, i + 4) * 0x1_0000_0000) as u64
}

fn read_u16(buffer: &[u8], i: usize) -> (r: u16)
    requires
        i + 2 <= buffer@.len(),
    ensures
        r == u16_le(buffer@, i as int),
{
    buffer[i] as u16 + (buffer[i + 1] as u16) * 0x100
}

fn read_u32(buffer: &[u8], i: usize) -> (r: u32)
    requires
        i + 4 <= buffer@.len(),
    ensures
        r == u32_le(buffer@, i as int),
{
    buffer[i] as u32 + (buffer[i + 1] as u32) * 0x100 + (buffer[i + 2] as u32) * 0x1_0000 + (
    buffer[i + 3] as u32) * 0x100_0000
}

fn read_u64(buffer: &[u8], i: usize) -> (r: u64)
    requires
        i + 8 <= buffer@.len(),
    ensures
        r == u64_le(buffer@, i as int),
{
    let n = buffer.len();
    let lo = read_u32(buffer, i);
    let hi = read_u32(buffer, i + 4);
    proof {
        assert(i + 8 <= n);
        assert((hi as int) * 0x1_0000_0000 + lo <= u64::MAX) by (nonlinear_arith)
            requires
                hi <= u32::MAX,
                lo <= u32::MAX,
        ;
    }
    lo as u64 + (hi as u64) * 0x1_0000_0000
}

/// The reason a buffer is not an acceptable ELF file or segment.
#[derive(Clone, Copy, Debug, PartialEq, Eq, Structural)]
pub enum ElfParseError {
    TooSmall,
    WrongMagic,
    WrongEndianness,
    WrongBitwidth,
    WrongABI,
    WrongInstructionSet,
    WrongHeaderSize,
    WrongProgramHeaderSize,
    WrongSectionHeaderSize,
    WrongAlignment,
    UnsupportedElfVersion,
    UnsupportedFileType,
    UnsupportedFlags,
    UnsupportedSegmentType,
}

/// The fields of an accepted ELF file header that loading needs.
#[derive(Clone, Copy, Debug, PartialEq, Eq, Structural)]
pub struct ElfHeader {
    pub program_entry_point_address: u64,
    pub program_header_table_address: u64,
    pub section_header_table_address: u64,
    pub num_program_header_entries: u16,
    pub num_section_header_entries: u16,
    pub section_name_entry_index: u16,
}

/// What parsing a file header returns: the checks in their order, then the
/// extracted fields.
pub open spec fn parse_elf_header(s: Seq<u8>) -> Result<ElfHeader, ElfParseError> {
    if s.len() < HEADER_SIZE {
        Err(ElfParseError::TooSmall)
    } else if !(s[0] == 0x7f && s[1] == 0x45 && s[2] == 0x4c && s[3] == 0x46) {
        Err(ElfParseError::WrongMagic)
    } else if s[4] != 2 {
        Err(ElfParseError::WrongBitwidth)
    } else if s[5] != 1 {
        Err(ElfParseError::WrongEndianness)
    } else if s[6] != 1 {
        Err(ElfParseError::UnsupportedElfVersion)
    } else if s[7] != 0 {
        Err(ElfParseError::WrongABI)
    } else if u16_le(s, 0x10) != 2 {
        Err(ElfParseError::UnsupportedFileType)
    } else if u16_le(s, 0x12) != 0xb7 {
        Err(ElfParseError::WrongInstructionSet)
    } else if u32_le(s, 0x14) != 1 {
        Err(ElfParseError::UnsupportedElfVersion)
    } else if u32_le(s, 0x30) != 0 {
        Err(ElfParseError::UnsupportedFlags)
    } else if u16_le(s, 0x34) != HEADER_SIZE {
        Err(ElfParseError::WrongHeaderSize)
    } else if u16_le(s, 0x36) != PROGRAM_HEADER_ENTRY_SIZE {
        Err(ElfParseError::WrongProgramHeaderSize)
    } else if u16_le(s, 0x3a) != SECTION_HEADER_ENTRY_SIZE {
        Err(ElfParseError::WrongSectionHeaderSize)
    } else {
        Ok(
            ElfHeader {
                program_entry_point_address: u64_le(s, 0x18),
                program_header_table_address: u64_le(s, 0x20),
                section_header_table_address: u64_le(s, 0x28),
                num_program_header_entries: u16_le(s, 0x38),
                num_section_header_entries: u16_le(s, 0x3c),
                section_name_entry_index: u16_le(s, 0x3e),
            },
        )
    }
}

impl ElfHeader {
    /// Parse and validate a 64-bit little-endian AArch64 executable's file
    /// header.
    pub fn from_buffer(buffer: &[u8]) -> (r: Result<ElfHeader, ElfParseError>)
        ensures
            r == parse_elf_header(buffer@),
    {
        if buffer.len() < HEADER_SIZE {
            return Err(ElfParseError::TooSmall);
        }
        let magic_ok = buffer[0] == 0x7f && buffer[1] == 0x45 && buffer[2] == 0x4c && buffer[3]
            == 0x46;
        let bitwidth_class = buffer[4];
        let data_endianness = buffer[5];
        let elf_header_version = buffer[6];
        let os_abi = buffer[7];
        let file_type = read_u16(buffer, 0x10);
        let machine_instruction_set = read_u16(buffer, 0x12);
        let elf_version = read_u32(buffer, 0x14);
        let program_entry_point_address = read_u64(buffer, 0x18);
        let program_header_table_address = read_u64(buffer, 0x20);
        let section_header_table_address = read_u64(buffer, 0x28);
        let flags = read_u32(buffer, 0x30);
        let header_size = read_u16(buffer, 0x34);
        let program_header_entry_size = read_u16(buffer, 0x36);
        let num_program_header_entries = read_u16(buffer, 0x38);
        let section_header_entry_size = read_u16(buffer, 0x3a);
        let num_section_header_entries = read_u16(buffer, 0x3c);
        let section_name_entry_index = read_u16(buffer, 0x3e);

        if !magic_ok {
            Err(ElfParseError::WrongMagic)
        } else if bitwidth_class != 2 {
            Err(ElfParseError::WrongBitwidth)
        } else if data_endianness != 1 {
            Err(ElfParseError::WrongEndianness)
        } else if elf_header_version != 1 {
            Err(ElfParseError::UnsupportedElfVersion)
        } else if os_abi != 0 {
            Err(ElfParseError::WrongABI)
        } else if file_type != 2 {
            Err(ElfParseError::UnsupportedFileType)
        } else if machine_instruction_set != 0xb7 {
            Err(ElfParseError::WrongInstructionSet)
        } else if elf_version != 1 {
            Err(ElfParseError::UnsupportedElfVersion)
        } else if flags != 0 {
            Err(ElfParseError::UnsupportedFlags)
        } else if header_size as usize != HEADER_SIZE {
            Err(ElfParseError::WrongHeaderSize)
        } else if program_header_entry_size != PROGRAM_HEADER_ENTRY_SIZE {
            Err(ElfParseError::WrongProgramHeaderSize)
        } else if section_header_entry_size != SECTION_HEADER_ENTRY_SIZE {
            Err(ElfParseError::WrongSectionHeaderSize)
        } else {
            Ok(
                ElfHeader {
                    program_entry_point_address,
                    program_header_table_address,
                    section_header_table_address,
                    num_program_header_entries,
                    num_section_header_entries,
                    section_name_entry_index,
                },
            )
        }
    }
}

/// The fields of an accepted loadable-segment header.
#[derive(Clone, Copy, Debug, PartialEq, Eq, Structural)]
pub struct ElfProgramHeader {
    pub segment_offset: u64,
    pub segment_address: u64,
    pub segment_file_size: u64,
    pub segment_memory_size: u64,
    pub is_executable: bool,
    pub is_readable: bool,
    pub is_writable: bool,
}

/// Whether a 64-bit value is a power of two: exactly one bit set.
pub open spec fn is_power_of_two_u64(v: u64) -> bool {
    exists|k: nat| k < 64 && v == vstd::arithmetic::power2::pow2(k)
}

/// What parsing a program header returns: the checks in their order, then
/// the extracted fields.
pub open spec fn parse_elf_program_header(s: Seq<u8>) -> Result<
    ElfProgramHeader,
    ElfParseError,
> {
    if s.len() < PROGRAM_HEADER_ENTRY_SIZE {
        Err(ElfParseError::TooSmall)
    } else if u64_le(s, 0x30) != 0 && !(is_power_of_two_u64(u64_le(s, 0x30)) && (u64_le(s, 0x08)
        ^ u64_le(s, 0x10)) & ((u64_le(s, 0x30) - 1) as u64) == 0) {
        Err(ElfParseError::WrongAlignment)
    } else if u32_le(s, 0x00) != 1 {
        Err(ElfParseError::UnsupportedSegmentType)
    } else if u32_le(s, 0x04) & !7u32 != 0 {
        Err(ElfParseError::UnsupportedFlags)
    } else {
        Ok(
            ElfProgramHeader {
                segment_offset: u64_le(s, 0x08),
                segment_address: u64_le(s, 0x10),
                segment_file_size: u64_le(s, 0x20),
                segment_memory_size: u64_le(s, 0x28),
                is_executable: u32_le(s, 0x04) & 1 != 0,
                is_readable: u32_le(s, 0x04) & 4 != 0,
                is_writable: u32_le(s, 0x04) & 2 != 0,
            },
        )
    }
}

impl ElfProgramHeader {
    /// Parse and validate one program header entry, accepting only loadable
    /// segments whose alignment is a power of two consistent with the
    /// offset and virtual address.
    pub fn from_buffer(buffer: &[u8]) -> (r: Result<ElfProgramHeader, ElfParseError>)
        ensures
            r == parse_elf_program_header(buffer@),
    {
        if buffer.len() < PROGRAM_HEADER_ENTRY_SIZE as usize {
            return Err(ElfParseError::TooSmall);
        }
        let segment_type = read_u32(buffer, 0x00);
        let segment_flags = read_u32(buffer, 0x04);
        let segment_offset = read_u64(buffer, 0x08);
        let segment_virtual_address = read_u64(buffer, 0x10);
        let segment_file_size = read_u64(buffer, 0x20);
        let segment_memory_size = read_u64(buffer, 0x28);
        let segment_alignment = read_u64(buffer, 0x30);

        if segment_alignment != 0 {
            let power_ok = is_power_of_two(segment_alignment);
            if !power_ok || (segment_offset ^ segment_virtual_address) & (segment_alignment - 1)
                != 0 {
                return Err(ElfParseError::WrongAlignment);
            }
        }
        if segment_type != 1 {
            Err(ElfParseError::UnsupportedSegmentType)
        } else if segment_flags & !7u32 != 0 {
            Err(ElfParseError::UnsupportedFlags)
        } else {
            Ok(
                ElfProgramHeader {
                    segment_offset,
                    segment_address: segment_virtual_address,
                    segment_file_size,
                    segment_memory_size,
                    is_executable: segment_flags & 1 != 0,
                    is_readable: segment_flags & 4 != 0,
                    is_writable: segment_flags & 2 != 0,
                },
            )
        }
    }
}

/// A nonzero 64-bit value has exactly one bit set if and only if clearing
/// its lowest set bit leaves zero.
fn is_power_of_two(v: u64) -> (r: bool)
    requires
        v != 0,
    ensures
        r == is_power_of_two_u64(v),
{
    let r = v & (v - 1) == 0;
    proof {
        lemma_power_of_two_test(v);
    }
    r
}

/// The bit test `v & (v - 1) == 0` detects exactly the powers of two among
/// the nonzero 64-bit values.
proof fn lemma_power_of_two_test(v: u64)
    requires
        v != 0,
    ensures
        (v & ((v - 1) as u64) == 0) <==> is_power_of_two_u64(v),
{
    if v & ((v - 1) as u64) == 0 {
        lemma_single_bit_is_power_of_two(v);
    }
    if is_power_of_two_u64(v) {
        let k = choose|k: nat| k < 64 && v == vstd::arithmetic::power2::pow2(k);
        assert((1u64 << (k as u64)) == vstd::arithmetic::power2::pow2(k)) by {
            vstd::bits::lemma_u64_pow2_no_overflow(k);
            vstd::bits::lemma_u64_shl_is_mul(1u64, k as u64);
        }
        let kk = k as u64;
        assert((1u64 << kk) & ((((1u64 << kk) - 1)) as u64) == 0) by (bit_vector)
            requires
                kk < 64,
        ;
    }
}

/// A nonzero value whose lowest set bit is its only set bit is a power of
/// two, by halving it down to 1.
proof fn lemma_single_bit_is_power_of_two(v: u64)
    requires
        v != 0,
        v & ((v - 1) as u64) == 0,
    ensures
        is_power_of_two_u64(v),
    decreases v,
{
    vstd::arithmetic::power2::lemma2_to64();
    if v == 1 {
        assert((0nat) < 64 && v == vstd::arithmetic::power2::pow2(0));
    } else {
        assert(v % 2 == 0 && v / 2 != 0 && (v / 2) & (((v / 2) - 1) as u64) == 0 && v / 2
            < v) by (bit_vector)
            requires
                v != 0,
                v != 1,
                v & ((v - 1) as u64) == 0,
        ;
        lemma_single_bit_is_power_of_two(v / 2);
        let k = choose|k: nat| k < 64 && (v / 2) as u64 == vstd::arithmetic::power2::pow2(k);
        assert(v == 2 * vstd::arithmetic::power2::pow2(k));
        assert(v == vstd::arithmetic::power2::pow2(k + 1)) by {
            vstd::arithmetic::power2::lemma_pow2_adds(k, 1);
        }
        assert(k + 1 < 64) by {
            if k + 1 >= 64 {
                assert(vstd::arithmetic::power2::pow2(63) <= vstd::arithmetic::power2::pow2(k))
                    by {
                    if k > 63 {
                        vstd::arithmetic::power2::lemma_pow2_strictly_increases(63, k);
                    }
                }
            }
        }
    }
}

} // verus!
