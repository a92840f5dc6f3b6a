//! Translation table manager: the root hardware page table and the values
//! programmed into the configuration registers during the one-time
//! memory-translation bring-up.
//!
//! The table is one 4096-byte array of 512 64-bit entries.  An entry's
//! layout is fixed by the translation hardware: bit 0 is the valid bit,
//! bit 10 the access flag, and bits 12 to 47 hold the physical address.
//! Writing the register values and enabling translation are privileged
//! hardware operations and live with the machine-facing code; everything
//! that can be computed and checked lives here.

use vstd::prelude::*;

verus! {

/// Access-flag bit of a table entry.
pub const ACCESS_FLAG_BIT: u64 = 0x400;

/// Valid bit of a table entry.
pub const VALID_ENTRY_BIT: u64 = 0x1;

/// Mask of the physical-address field of a table entry.
pub const TRANSLATION_TABLE_ADDRESS_MASK: u64 = 0x0000_ffff_ffff_f000;

/// Number of entries of the root table.
pub const TRANSLATION_TABLE_ENTRIES: usize = 512;

/// One 64-bit translation table entry.
#[derive(Clone, Copy, PartialEq, Eq, Structural)]
pub struct TranslationTableEntry {
    value: u64,
}

impl TranslationTableEntry {
    /// The raw bits of the entry.
    pub closed spec fn bits(self) -> u64 {
        self.value
    }

    /// Whether the valid bit is set.
    pub open spec fn is_valid(self) -> bool {
        self.bits() & VALID_ENTRY_BIT == VALID_ENTRY_BIT
    }

    /// An entry the hardware ignores: all bits clear.
    pub fn invalid() -> (r: TranslationTableEntry)
        ensures
            r.bits() == 0,
            !r.is_valid(),
    {
        proof {
            assert(0u64 & VALID_ENTRY_BIT == 0) by (bit_vector);
        }
        TranslationTableEntry { value: 0 }
    }

    /// A block descriptor: maps a whole aligned block at the given physical
    /// address in one step, valid and with the access flag set so the first
    /// access does not fault.
    pub fn block_descriptor(address: u64) -> (r: TranslationTableEntry)
        ensures
            r.bits() == (address & TRANSLATION_TABLE_ADDRESS_MASK) | ACCESS_FLAG_BIT
                | VALID_ENTRY_BIT,
            r.is_valid(),
    {
        let masked_address = address & TRANSLATION_TABLE_ADDRESS_MASK;
        proof {
            assert((((address & TRANSLATION_TABLE_ADDRESS_MASK) | ACCESS_FLAG_BIT
                | VALID_ENTRY_BIT) & VALID_ENTRY_BIT) == VALID_ENTRY_BIT) by (bit_vector);
        }
        TranslationTableEntry { value: masked_address | ACCESS_FLAG_BIT | VALID_ENTRY_BIT }
    }

    /// The raw bits, for handing the entry to the hardware.
    pub fn value(&self) -> (r: u64)
        ensures
            r == self.bits(),
    {
        self.value
    }
}

/// The root translation table: 512 entries, living for the kernel's whole
/// lifetime and mutated only here.
pub struct TranslationTable {
    entries: Vec<TranslationTableEntry>,
}

impl TranslationTable {
    /// The entries as a sequence.
    pub closed spec fn view_entries(self) -> Seq<TranslationTableEntry> {
        self.entries@
    }

    /// The table always holds exactly 512 entries.
    pub open spec fn wf(self) -> bool {
        self.view_entries().len() == TRANSLATION_TABLE_ENTRIES
    }

    /// A table of invalid entries: nothing mapped.
    pub fn empty() -> (r: TranslationTable)
        ensures
            r.wf(),
            forall|i: int|
                0 <= i < TRANSLATION_TABLE_ENTRIES ==> (#[trigger] r.view_entries()[i]).bits()
                    == 0,
    {
        let invalid = TranslationTableEntry::invalid();
        let mut entries: Vec<TranslationTableEntry> = Vec::new();
        let mut k: usize = 0;
        while k < TRANSLATION_TABLE_ENTRIES
            invariant
                entries@.len() == k,
                k <= TRANSLATION_TABLE_ENTRIES,
                invalid.bits() == 0,
                forall|i: int| 0 <= i < k ==> (#[trigger] entries@[i]).bits() == 0,
            decreases TRANSLATION_TABLE_ENTRIES - k,
        {
            entries.push(invalid);
            k += 1;
        }
        TranslationTable { entries }
    }

    /// Read one entry.
    pub fn entry(&self, index: usize) -> (r: TranslationTableEntry)
        requires
            self.wf(),
            index < TRANSLATION_TABLE_ENTRIES,
        ensures
            r == self.view_entries()[index as int],
    {
        self.entries[index]
    }

    /// Install one entry.  Once translation is enabled, overwriting a
    /// previously valid entry additionally requires invalidating any
    /// hardware-cached translation for it before the new mapping is
    /// guaranteed visible; that duty stays with the caller.
    pub fn set_entry(&mut self, index: usize, entry: TranslationTableEntry)
        requires
            old(self).wf(),
            index < TRANSLATION_TABLE_ENTRIES,
        ensures
            final(self).wf(),
            final(self).view_entries() == old(self).view_entries().update(index as int, entry),
    {
        self.entries[index] = entry;
    }
}

/// The memory-attribute configuration value programmed at bring-up: normal
/// write-back memory for the single attribute index in use.
pub fn mair_value() -> (r: u64)
    ensures
        r == 0xff,
{
    0xff
}

/// The translation-control value programmed at bring-up: the upper half of
/// the address space disabled, a 4 KiB granule, and address-size fields for
/// the single-level identity mapping.
pub fn tcr_value() -> (r: u64)
    ensures
        r == 0x80_3500 | 28,
{
    let epd1_bit: u64 = 1u64 << 23;
    proof {
        assert((1u64 << 23) | 28 | (1u64 << 8) | (1u64 << 10) | (3u64 << 12) == 0x80_3500
            | 28) by (bit_vector);
    }
    epd1_bit | 28 | (1u64 << 8) | (1u64 << 10) | (3u64 << 12)
}

/// The system-control value that turns translation on: MMU enable, data
/// cache enable, and instruction cache enable.
pub fn sctlr_value() -> (r: u64)
    ensures
        r == 0x1005,
{
    proof {
        assert(0b101u64 | (1u64 << 12) == 0x1005) by (bit_vector);
    }
    0b101 | (1u64 << 12)
}

/// The table state of the one-time bring-up: one block descriptor at index
/// 0 that identity-maps the kernel's low physical memory.
pub fn prepare_identity_map(table: &mut TranslationTable)
    requires
        old(table).wf(),
    ensures
        final(table).wf(),
        final(table).view_entries()[0].bits() == ACCESS_FLAG_BIT | VALID_ENTRY_BIT,
        final(table).view_entries()[0].is_valid(),
        forall|i: int|
            1 <= i < TRANSLATION_TABLE_ENTRIES ==> final(table).view_entries()[i] == old(
                table,
            ).view_entries()[i],
{
    let entry = TranslationTableEntry::block_descriptor(0);
    proof {
        assert((0u64 & TRANSLATION_TABLE_ADDRESS_MASK) | ACCESS_FLAG_BIT | VALID_ENTRY_BIT
            == ACCESS_FLAG_BIT | VALID_ENTRY_BIT) by (bit_vector);
    }
    table.set_entry(0, entry);
}

} // verus!
