//! Memory-management core of a freestanding kernel: a four-level page-table
//! walk (address translation), a bump allocator over a bootloader-supplied
//! physical-memory inventory, and a mapper that installs new virtual-to-
//! physical translations, creating missing intermediate tables on demand.
//!
//! The page hierarchy is held as owned, bounds-checked data: each table is a
//! fixed-arity array of entries, tagged with the physical frame it occupies
//! and its level in the hierarchy. The boot-time shell loads the live tables
//! into this form through the physical-memory window and writes them back;
//! everything in between — the walk, the allocation arithmetic, the mapping
//! installation and its safety invariants — is verified here.

pub mod addr;
pub mod frame_alloc;
pub mod mapper;
pub mod page_table;
