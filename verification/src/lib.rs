//! A buddy allocator over one power-of-two sized region of addresses.
//!
//! A [`Heap`] hands out blocks of a region that its caller owns, and takes
//! them back.  It keeps its books outside the region: it deals in addresses
//! and never reads or writes what lies at them.
//!
//! - [`heap`] holds the heap itself and its errors.
//! - [`model`] says what a heap is and what every call does to it.
//! - [`laws`] states what holds of every heap.
//! - [`geometry`], [`requests`], [`lists`] and [`steps`] hold the lemmas
//!   that the heap and the laws rest on.
//! - [`math`] holds logarithms and powers of two.

pub mod geometry;
pub mod heap;
pub mod laws;
pub mod lists;
pub mod math;
pub mod model;
pub mod requests;
pub mod steps;

pub use heap::{AllocationError, AllocationSizeError, Heap, HeapError};
pub use model::{HeapModel, MIN_HEAP_ALIGN};
