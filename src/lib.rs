//! A fixed-size-block ("slab") allocator over address ranges.
//!
//! A [`Slab`] carves one pool of `SLAB_SIZE` bytes into equal blocks and keeps
//! the free ones on a stack; a [`SlabAllocator`] routes each request to the
//! smallest of five size classes and each free back to the pool that owns the
//! address.
pub mod slab;

pub use slab::{Slab, SlabView, FREE_NODE_SIZE, SLAB_SIZE};
pub mod allocator;

pub use allocator::{AllocatorView, SlabAllocator, NUM_CLASSES};
