//! Core of a bare-metal AArch64 kernel bring-up: a physical page allocator,
//! a hierarchical tracker for free virtual address space, and the translation
//! table that the memory-management hardware walks, together with the small
//! pure helpers (ELF parsing, mailbox message framing, console geometry) that
//! kernel init relies on.

use vstd::prelude::*;

pub mod console;
pub mod elf;
pub mod exceptions;
pub mod font;
pub mod framebuffer;
pub mod mailbox;
pub mod nolock;
pub mod pageallocator;
pub mod translation;
pub mod virtualmemory;

verus! {

/// Hexadecimal digits (upper case) of a byte: high nibble first, low nibble second.
pub fn to_hex(n: u8) -> (r: (u8, u8))
    ensures
        r.0 == hex_digit((n >> 4) as nat),
        r.1 == hex_digit((n & 0xf) as nat),
{
    proof {
        assert(n >> 4 < 16 && n & 0xf < 16) by (bit_vector);
    }
    (hex_digit_of(n >> 4), hex_digit_of(n & 0xf))
}

/// The ASCII digit for a nibble value: `0`-`9` then `A`-`F`.
pub open spec fn hex_digit(v: nat) -> u8 {
    if v < 10 {
        (0x30 + v) as u8
    } else {
        (0x41 + (v - 10)) as u8
    }
}

fn hex_digit_of(v: u8) -> (r: u8)
    requires
        v < 16,
    ensures
        r == hex_digit(v as nat),
{
    if v < 10 {
        0x30 + v
    } else {
        0x41 + (v - 10)
    }
}

} // verus!
