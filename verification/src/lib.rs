//! Virtual memory management core for a small operating-system kernel.
//!
//! The crate models a thread's address space: page-number arithmetic, the
//! page-table and page-entry capability interfaces, memory areas with
//! attributes, the address-space aggregate with its invariants, and the
//! construction of an address space from a parsed executable image.

pub mod addr;
pub mod consts;
pub mod paging;
pub mod memory_set;
pub mod loader;
pub mod elf_image;
pub mod model;

pub use addr::{Page, PageRange, PhysAddr, VirtAddr, PAGE_SIZE};
