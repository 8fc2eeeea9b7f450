//! Host-side model of a GPU radix-sort orchestration: the tiling scheme that
//! maps keys onto thread groups, the persistent scratch state, and the
//! histogram / scan / scatter stages of each digit pass; and the name-keyed
//! registry of compiled kernels that the dispatches look their pipelines up in.

pub mod digits;
pub mod engine;
pub mod laws;
pub mod radix;
pub mod registry;
pub mod tiling;
