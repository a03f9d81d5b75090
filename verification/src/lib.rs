//! Memory-management core of a bare-metal RISC-V kernel: a physical
//! page-frame allocator, a byte-granularity kernel heap built on top of it,
//! and a three-level page table mapping a 39-bit virtual address space.
//!
//! All allocator and page-table state lives in explicit context objects; the
//! managed regions are modelled arena-style, with every offset computation
//! bounds-checked, so the layout invariants that raw physical memory would
//! force one to trust are stated and proved instead.

pub mod frame;
pub mod heap;
pub mod vm;
pub mod adapter;
