//! A counting sort for small integer keys, laid out for a data-parallel
//! device: count, hierarchical scan, propagate, scatter.
//!
//! `module` validates the caller's buffers and records the launches of one
//! sort; `kernels` runs those launches on host memory; `levels` holds the
//! geometry of the scan levels; `hierarchy` and `correctness` prove what a
//! sort leaves in the buffers.
pub mod correctness;
pub mod hierarchy;
pub mod kernels;
pub mod levels;
pub mod module;
pub mod usage;

pub use levels::{scan_then_propagate_level_count, workgroup_size_per_level};
pub use module::{BufferRole, Command, CountingSortingError, GpuCountingSortModule};
pub use usage::{BufferDescriptor, BufferUsages};
