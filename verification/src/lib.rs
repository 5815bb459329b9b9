//! A user-space heap allocator: a first-fit free list over an address-ordered
//! chain of blocks, a red-black tree that indexes blocks by address, and an
//! array-backed ledger of free and used blocks.
//!
//! The library decides; it never touches process memory or the operating
//! system itself. Addresses are plain `usize` values, and every request to
//! move the program break or to map pages is handed to the caller as a value
//! and its outcome handed back.

pub mod block;
pub mod breaks;
pub mod heap;
pub mod ledger;
pub mod mmap;
pub mod pointer;
pub mod semaphore;
pub mod tree;
pub mod util;

pub use heap::Ralloc;
