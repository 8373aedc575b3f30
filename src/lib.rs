//! A shuffling allocator: a layer over an underlying allocator that hands
//! callers the blocks of each size class in a random order.
//!
//! For each of 32 size classes the allocator keeps an array of 256 live
//! blocks. Allocating takes a fresh block from the underlying allocator,
//! swaps it into a random slot and hands out the block that was there.
//! Freeing swaps the freed block into a random slot and returns the block
//! that was there to the underlying allocator. Requests aligned beyond one
//! word, or larger than every class, go straight to the underlying
//! allocator.
//!
//! Addresses are plain integers here, zero standing for null; binding the
//! allocator to real memory and to threads is left to its host.
pub mod allocator;
pub mod lazy_atomic_cell;
pub mod rng;
pub mod shuffling_array;
pub mod size_class;

pub use allocator::{route, AllocError, Route, ShufflingAllocator, State, UnderlyingAlloc};
pub use lazy_atomic_cell::LazyAtomicCell;
pub use shuffling_array::{BlockLayout, ShufflingArray, SHUFFLING_ARRAY_SIZE};
pub use size_class::{size_class_info, word_size, SizeClassInfo, NUM_SIZE_CLASSES};
