//! A buddy-system heap allocator for a small kernel, with power-of-two
//! helpers, free lists and byte-stream traits.
pub mod math;
pub mod free_list;
pub mod tiling;
pub mod buddy;
pub mod io;

pub use buddy::{AllocError, BuddyHeapAllocator, PAGE_SIZE};
pub use free_list::{Free, FreeList, HEADER_SIZE};
