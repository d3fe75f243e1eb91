use vstd::prelude::*;

verus! {

/// A 64-bit virtual address split into the fields of four-level paging.
#[derive(Clone, Copy, PartialEq, Eq, Structural, Debug)]
pub struct ParsedPointer {
    /// Bits 0..12: byte within the page.
    pub offset: u32,
    /// Bits 12..21.
    pub table_index: u32,
    /// Bits 21..30.
    pub directory_index: u32,
    /// Bits 30..39.
    pub directory_ptr_index: u32,
    /// Bits 39..48.
    pub pml4_index: u32,
    /// Bits 48..64.
    pub prefix: u32,
}

/// The `bits` bits of `value` that start at bit `right_offset`.
fn read_bits(value: u64, right_offset: u64, bits: u64) -> (r: u64)
    requires
        0 < bits <= 16,
        right_offset + bits <= 64,
    ensures
        r == (value >> right_offset) & ((1u64 << bits) - 1) as u64,
{
    assert(1u64 << bits >= 1) by (bit_vector)
        requires
            bits <= 16,
    ;
    let mask: u64 = (1u64 << bits) - 1;
    assert(mask << right_offset >> right_offset == mask) by (bit_vector)
        requires
            mask == (1u64 << bits) - 1,
            0 < bits <= 16,
            right_offset + bits <= 64,
    ;
    let r = (value & (mask << right_offset)) >> right_offset;
    assert(r == (value >> right_offset) & mask) by (bit_vector)
        requires
            r == (value & (mask << right_offset)) >> right_offset,
            right_offset < 64,
    ;
    r
}

/// The paging fields of `ptr`.
pub fn parse_ptr(ptr: u64) -> (r: ParsedPointer)
    ensures
        r.offset == ptr % 0x1000,
        r.table_index == ptr / 0x1000 % 0x200,
        r.directory_index == ptr / 0x20_0000 % 0x200,
        r.directory_ptr_index == ptr / 0x4000_0000 % 0x200,
        r.pml4_index == ptr / 0x80_0000_0000 % 0x200,
        r.prefix == ptr / 0x1_0000_0000_0000,
{
    let offset = read_bits(ptr, 0, 12);
    let table_index = read_bits(ptr, 12, 9);
    let directory_index = read_bits(ptr, 12 + 9, 9);
    let directory_ptr_index = read_bits(ptr, 12 + 9 * 2, 9);
    let pml4_index = read_bits(ptr, 12 + 9 * 3, 9);
    let prefix = read_bits(ptr, 12 + 9 * 4, 16);
    assert(offset == ptr % 0x1000) by (bit_vector)
        requires
            offset == (ptr >> 0u64) & ((1u64 << 12u64) - 1) as u64,
    ;
    assert(table_index == ptr / 0x1000 % 0x200) by (bit_vector)
        requires
            table_index == (ptr >> 12u64) & ((1u64 << 9u64) - 1) as u64,
    ;
    assert(directory_index == ptr / 0x20_0000 % 0x200) by (bit_vector)
        requires
            directory_index == (ptr >> 21u64) & ((1u64 << 9u64) - 1) as u64,
    ;
    assert(directory_ptr_index == ptr / 0x4000_0000 % 0x200) by (bit_vector)
        requires
            directory_ptr_index == (ptr >> 30u64) & ((1u64 << 9u64) - 1) as u64,
    ;
    assert(pml4_index == ptr / 0x80_0000_0000 % 0x200) by (bit_vector)
        requires
            pml4_index == (ptr >> 39u64) & ((1u64 << 9u64) - 1) as u64,
    ;
    assert(prefix == ptr / 0x1_0000_0000_0000) by (bit_vector)
        requires
            prefix == (ptr >> 48u64) & ((1u64 << 16u64) - 1) as u64,
    ;
    ParsedPointer {
        offset: offset as u32,
        table_index: table_index as u32,
        directory_index: directory_index as u32,
        directory_ptr_index: directory_ptr_index as u32,
        pml4_index: pml4_index as u32,
        prefix: prefix as u32,
    }
}

} // verus!
