//! Virtual-address decomposition.
//!
//! A virtual address decomposes into four 9-bit table-index fields (one per
//! hierarchy level, most-significant first) and a 12-bit page-offset field.
//! Only the low 48 bits take part; callers hand in addresses below
//! `VIRT_SPACE_SIZE`.

use vstd::prelude::*;

verus! {

/// Size of a page and of a frame: the allocation granularity.
pub const PAGE_SIZE: u64 = 4096;

/// Fan-out of every table level.
pub const TABLE_LEN: usize = 512;

/// Number of levels in the hierarchy.
pub const LEVELS: u64 = 4;

/// One past the highest virtual address the four index fields can reach.
pub const VIRT_SPACE_SIZE: u64 = 0x1_0000_0000_0000;

/// Whether an address sits on a page/frame boundary.
pub open spec fn aligned(a: u64) -> bool {
    a % 4096 == 0
}

/// The page-offset field: the low 12 bits.
pub open spec fn page_offset(va: u64) -> u64 {
    va & 0xfff
}

/// The page an address belongs to: the address with its offset field cleared.
pub open spec fn page_base(va: u64) -> u64 {
    va & 0xffff_ffff_ffff_f000
}

/// The table-index field a given level consumes, counted 4 (root) down to 1
/// (bottom). Levels outside that range read the bottom field.
pub open spec fn table_index(va: u64, level: u64) -> u64 {
    if level == 4 {
        (va >> 39) & 0x1ff
    } else if level == 3 {
        (va >> 30) & 0x1ff
    } else if level == 2 {
        (va >> 21) & 0x1ff
    } else {
        (va >> 12) & 0x1ff
    }
}

/// Extracts the page-offset field.
pub fn extract_page_offset(va: u64) -> (r: u64)
    ensures
        r == page_offset(va),
{
    va & 0xfff
}

/// Extracts the page an address belongs to.
pub fn extract_page_base(va: u64) -> (r: u64)
    ensures
        r == page_base(va),
{
    va & 0xffff_ffff_ffff_f000
}

/// Extracts the table-index field for one level.
pub fn extract_table_index(va: u64, level: u64) -> (r: u64)
    ensures
        r == table_index(va, level),
{
    if level == 4 {
        (va >> 39) & 0x1ff
    } else if level == 3 {
        (va >> 30) & 0x1ff
    } else if level == 2 {
        (va >> 21) & 0x1ff
    } else {
        (va >> 12) & 0x1ff
    }
}

/// Each index field is below the table fan-out, and the offset below the page
/// size.
pub proof fn lemma_field_bounds(va: u64, level: u64)
    ensures
        table_index(va, level) < 512,
        page_offset(va) < 4096,
{
    assert((va >> 39) & 0x1ff < 512 && (va >> 30) & 0x1ff < 512 && (va >> 21) & 0x1ff < 512
        && (va >> 12) & 0x1ff < 512 && va & 0xfff < 4096) by (bit_vector);
}

/// An aligned address is its own page, with offset zero.
pub proof fn lemma_aligned_page(va: u64)
    requires
        aligned(va),
    ensures
        page_base(va) == va,
        page_offset(va) == 0,
{
    assert(va % 4096 == 0 ==> (va & 0xffff_ffff_ffff_f000) == va && (va & 0xfff) == 0)
        by (bit_vector);
}

/// The index fields of an address and of its page agree at every level.
pub proof fn lemma_page_base_same_indices(va: u64, level: u64)
    ensures
        table_index(page_base(va), level) == table_index(va, level),
{
    assert(((va & 0xffff_ffff_ffff_f000) >> 39) & 0x1ff == (va >> 39) & 0x1ff && ((va
        & 0xffff_ffff_ffff_f000) >> 30) & 0x1ff == (va >> 30) & 0x1ff && ((va
        & 0xffff_ffff_ffff_f000) >> 21) & 0x1ff == (va >> 21) & 0x1ff && ((va
        & 0xffff_ffff_ffff_f000) >> 12) & 0x1ff == (va >> 12) & 0x1ff) by (bit_vector);
}

/// Within the 48-bit space, the four index fields determine the page: two
/// addresses that agree on all four fields lie in the same page.
pub proof fn lemma_indices_determine_page(va: u64, vb: u64)
    requires
        va < VIRT_SPACE_SIZE,
        vb < VIRT_SPACE_SIZE,
        table_index(va, 4) == table_index(vb, 4),
        table_index(va, 3) == table_index(vb, 3),
        table_index(va, 2) == table_index(vb, 2),
        table_index(va, 1) == table_index(vb, 1),
    ensures
        page_base(va) == page_base(vb),
{
    assert(va < 0x1_0000_0000_0000 && vb < 0x1_0000_0000_0000 && (va >> 39) & 0x1ff == (vb >> 39)
        & 0x1ff && (va >> 30) & 0x1ff == (vb >> 30) & 0x1ff && (va >> 21) & 0x1ff == (vb >> 21)
        & 0x1ff && (va >> 12) & 0x1ff == (vb >> 12) & 0x1ff ==> (va & 0xffff_ffff_ffff_f000) == (
    vb & 0xffff_ffff_ffff_f000)) by (bit_vector);
}

/// An address built from an aligned page and an in-page offset decomposes
/// back into exactly that page and that offset.
pub proof fn lemma_page_members(page: u64, off: u64)
    requires
        aligned(page),
        off < 4096,
    ensures
        page + off <= u64::MAX,
        page_base((page + off) as u64) == page,
        page_offset((page + off) as u64) == off,
{
    assert(page % 4096 == 0 && off < 4096 ==> page + off <= 0xffff_ffff_ffff_ffff && (((page
        + off) as u64) & 0xffff_ffff_ffff_f000) == page && (((page + off) as u64) & 0xfff) == off)
        by (bit_vector);
}

/// An aligned address never overflows when the offset of another address is
/// added to it.
pub proof fn lemma_aligned_plus_offset_fits(base: u64, va: u64)
    requires
        aligned(base),
    ensures
        base + page_offset(va) <= u64::MAX,
{
    assert(base % 4096 == 0 ==> base + (va & 0xfff) <= 0xffff_ffff_ffff_ffff) by (bit_vector);
}

} // verus!
