//! Verified model of the synaptic kernel: a producer/consumer graph store laid
//! out in a flat plane of `i32` cells.
//!
//! Every view type (bitmap, ring buffer, free list, triple buffer, stores,
//! registries) is a layout descriptor: it records offsets into the memory plane,
//! and each operation receives the plane it works on explicitly.

pub mod constants;
pub mod control_plane;
pub mod epoch;
pub mod epoch_consumer;
pub mod epoch_mirror;
pub mod errors;
pub mod kernel;
pub mod kernel_config;
pub mod metadata;
pub mod primitives;
pub mod serialized_kernel;
pub mod topology;
