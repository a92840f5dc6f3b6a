use kernelcore::elf::ElfHeader;
use kernelcore::elf::ElfParseError;
use kernelcore::elf::ElfProgramHeader;
use kernelcore::to_hex;

fn sample_elf_header() -> Vec<u8> {
    vec![
        0x7f, 0x45, 0x4c, 0x46, 0x02, 0x01, 0x01, 0x00, 0x00, 0x00, 0x00, 0x00, 0x00, 0x00, 0x00,
        0x00, 0x02, 0x00, 0xb7, 0x00, 0x01, 0x00, 0x00, 0x00, 0x00, 0x00, 0x08, 0x00, 0x00, 0x00,
        0x00, 0x00, 0x40, 0x00, 0x00, 0x00, 0x00, 0x00, 0x00, 0x00, 0xd8, 0xf2, 0x01, 0x00, 0x00,
        0x00, 0x00, 0x00, 0x00, 0x00, 0x00, 0x00, 0x40, 0x00, 0x38, 0x00, 0x03, 0x00, 0x40, 0x00,
        0x07, 0x00, 0x06, 0x00, 0x01, 0x00, 0x00, 0x00, 0x05, 0x00, 0x00, 0x00, 0x00, 0x00, 0x01,
        0x00, 0x00, 0x00, 0x00, 0x00,
    ]
}

#[test]
fn parses_valid_elf_header() {
    let buffer = sample_elf_header();
    let header = ElfHeader::from_buffer(&buffer).expect("valid header");
    assert_eq!(header.program_entry_point_address, 0x0008_0000);
    assert_eq!(header.program_header_table_address, 0x40);
    assert_eq!(header.section_header_table_address, 0x0001_f2d8);
    assert_eq!(header.num_program_header_entries, 3);
    assert_eq!(header.num_section_header_entries, 7);
    assert_eq!(header.section_name_entry_index, 6);
}

#[test]
fn rejects_short_buffer() {
    let buffer = vec![0x7f, 0x45, 0x4c, 0x46];
    assert_eq!(ElfHeader::from_buffer(&buffer), Err(ElfParseError::TooSmall));
}

#[test]
fn rejects_wrong_magic() {
    let mut buffer = sample_elf_header();
    buffer[0] = 0x7e;
    assert_eq!(ElfHeader::from_buffer(&buffer), Err(ElfParseError::WrongMagic));
}

#[test]
fn rejects_wrong_instruction_set() {
    let mut buffer = sample_elf_header();
    buffer[0x12] = 0x3e;
    assert_eq!(
        ElfHeader::from_buffer(&buffer),
        Err(ElfParseError::WrongInstructionSet)
    );
}

#[test]
fn rejects_wrong_bitwidth() {
    let mut buffer = sample_elf_header();
    buffer[4] = 1;
    assert_eq!(ElfHeader::from_buffer(&buffer), Err(ElfParseError::WrongBitwidth));
}

fn sample_program_header() -> Vec<u8> {
    let mut buffer = vec![0u8; 0x38];
    // Loadable segment, readable and executable.
    buffer[0x00] = 1;
    buffer[0x04] = 5;
    // File offset 0x1000, virtual address 0x2000, aligned to 0x1000.
    buffer[0x08] = 0x00;
    buffer[0x09] = 0x10;
    buffer[0x10] = 0x00;
    buffer[0x11] = 0x20;
    buffer[0x20] = 0x80;
    buffer[0x28] = 0x90;
    buffer[0x30] = 0x00;
    buffer[0x31] = 0x10;
    buffer
}

#[test]
fn parses_valid_program_header() {
    let buffer = sample_program_header();
    let header = ElfProgramHeader::from_buffer(&buffer).expect("valid segment");
    assert_eq!(header.segment_offset, 0x1000);
    assert_eq!(header.segment_address, 0x2000);
    assert_eq!(header.segment_file_size, 0x80);
    assert_eq!(header.segment_memory_size, 0x90);
    assert!(header.is_executable);
    assert!(header.is_readable);
    assert!(!header.is_writable);
}

#[test]
fn rejects_non_loadable_segment() {
    let mut buffer = sample_program_header();
    buffer[0x00] = 2;
    assert_eq!(
        ElfProgramHeader::from_buffer(&buffer),
        Err(ElfParseError::UnsupportedSegmentType)
    );
}

#[test]
fn rejects_non_power_of_two_alignment() {
    let mut buffer = sample_program_header();
    buffer[0x30] = 3;
    buffer[0x31] = 0;
    assert_eq!(
        ElfProgramHeader::from_buffer(&buffer),
        Err(ElfParseError::WrongAlignment)
    );
}

#[test]
fn rejects_misaligned_segment() {
    let mut buffer = sample_program_header();
    // Offset no longer congruent to the virtual address.
    buffer[0x08] = 0x10;
    assert_eq!(
        ElfProgramHeader::from_buffer(&buffer),
        Err(ElfParseError::WrongAlignment)
    );
}

#[test]
fn rejects_unknown_segment_flags() {
    let mut buffer = sample_program_header();
    buffer[0x04] = 0x15;
    assert_eq!(
        ElfProgramHeader::from_buffer(&buffer),
        Err(ElfParseError::UnsupportedFlags)
    );
}

#[test]
fn hex_digits_of_bytes() {
    assert_eq!(to_hex(0xab), (b'A', b'B'));
    assert_eq!(to_hex(0x09), (b'0', b'9'));
    assert_eq!(to_hex(0x00), (b'0', b'0'));
    assert_eq!(to_hex(0xff), (b'F', b'F'));
    assert_eq!(to_hex(0x5c), (b'5', b'C'));
}
