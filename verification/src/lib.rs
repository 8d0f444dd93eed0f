//! Memory management core of a small 32-bit protected-mode kernel:
//! a bitmap-based physical frame allocator, a two-level page-table
//! manager, and a header-based heap allocator over a bounded kernel
//! arena and a growable user arena.

pub mod ferramenta;
pub mod malloc;
pub mod memory;
pub mod multiboot;
pub mod page;
pub mod pagedirectory;
pub mod pageframe;
pub mod pagetable;
